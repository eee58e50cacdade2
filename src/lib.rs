//! Planning and demultiplexing of chunked downloads: a manifest of files, each
//! split into checksummed byte ranges, is packed into bounded transfer units,
//! and each unit's byte stream is routed back to the ranges it carries.

mod models;
mod coordinator;
mod demux;
mod digest;
mod header;
mod params;
mod planner;

pub use models::{
    Args, BucketView, ChunkBody, ChunkBodyFile, DownloadBucket, DownloadContext, DownloadDrop, DropChunk,
    DropView, GameVersion, HandshakeRequestBody, HandshakeResponse, InitiateRequestBody,
    ManifestBody,
};
pub use planner::{
    generate_buckets, generate_buckets_with_limits, lemma_buckets_within_limits,
    lemma_chunk_drops_tile, lemma_plan_carries_file_drops, MAX_FILES_PER_BUCKET, TARGET_BUCKET_SIZE,
};
pub use header::{check_content_lengths, check_lengths, parse_lengths, LengthsError};
pub use demux::{lemma_reads_follow_stream, ranges_fit, CopyCursor, CopyStep, StreamEnded, MAX_PACKET_LENGTH};
pub use digest::{digest_matches, first_mismatch, RangeHasher};
pub use coordinator::{
    after_attempt, bucket_size, distinct_versions, NextMove, RETRY_BACKOFF_MS, RETRY_COUNT,
    WORKER_COUNT,
};
pub use params::{accept_answer, decide_params, parse_handshake, ParamsDecision};
