use vstd::prelude::*;

verus! {

/// Body of the request that starts a client's authentication.
pub struct InitiateRequestBody {
    pub name: String,
    pub platform: String,
}

/// Body of the request that completes the authentication handshake.
pub struct HandshakeRequestBody {
    pub client_id: String,
    pub token: String,
}

/// Credentials the server hands back at the end of the handshake.
pub struct HandshakeResponse {
    pub private: String,
    pub certificate: String,
    pub id: String,
}

/// One entry of the server's version listing for a game.
#[derive(Clone, Debug)]
pub struct GameVersion {
    pub game_id: String,
    pub version_name: String,
}

/// One manifest entry: how a file is split into consecutive checksummed ranges.
///
/// `lengths[i]` and `checksums[i]` describe range `i`; ranges start at offset 0
/// and follow each other without gaps.
#[derive(Clone, Debug)]
pub struct DropChunk {
    pub permissions: u32,
    pub ids: Vec<String>,
    pub checksums: Vec<String>,
    pub lengths: Vec<usize>,
    pub version_name: String,
}

/// What the user asked for: which game and version, where to install it, and
/// whether to ask nothing interactively.
#[derive(Clone, Debug)]
pub struct Args {
    pub game: Option<String>,
    pub game_version: Option<String>,
    pub install_dir: String,
    pub silent: bool,
}

/// One byte range of one file, as carried by a bucket.
#[derive(Clone, Debug)]
pub struct DownloadDrop {
    pub index: usize,
    pub filename: String,
    pub path: String,
    pub start: usize,
    pub length: usize,
    pub checksum: String,
    pub permissions: u32,
}

/// Mathematical model of a [`DownloadDrop`].
pub struct DropView {
    pub index: nat,
    pub filename: Seq<char>,
    pub path: Seq<char>,
    pub start: nat,
    pub length: nat,
    pub checksum: Seq<char>,
    pub permissions: u32,
}

impl View for DownloadDrop {
    type V = DropView;

    open spec fn view(&self) -> DropView {
        DropView {
            index: self.index as nat,
            filename: self.filename@,
            path: self.path@,
            start: self.start as nat,
            length: self.length as nat,
            checksum: self.checksum@,
            permissions: self.permissions,
        }
    }
}

/// One transfer unit: drops of a single version fetched by one request, in
/// the order in which the server streams their bytes.
#[derive(Clone, Debug)]
pub struct DownloadBucket {
    pub game_id: String,
    pub version: String,
    pub drops: Vec<DownloadDrop>,
}

/// Mathematical model of a [`DownloadBucket`].
pub struct BucketView {
    pub game_id: Seq<char>,
    pub version: Seq<char>,
    pub drops: Seq<DropView>,
}

pub open spec fn drops_view(drops: Seq<DownloadDrop>) -> Seq<DropView> {
    Seq::new(drops.len(), |i: int| drops[i]@)
}

pub open spec fn buckets_view(buckets: Seq<DownloadBucket>) -> Seq<BucketView> {
    Seq::new(buckets.len(), |i: int| buckets[i]@)
}

impl View for DownloadBucket {
    type V = BucketView;

    open spec fn view(&self) -> BucketView {
        BucketView {
            game_id: self.game_id@,
            version: self.version@,
            drops: drops_view(self.drops@),
        }
    }
}

/// Opaque token that authorises chunk requests for one version.
#[derive(Clone, Debug)]
pub struct DownloadContext {
    pub context: String,
}

/// One requested range in a chunk request: a file and its range index.
pub struct ChunkBodyFile {
    pub filename: String,
    pub chunk_index: usize,
}

/// Body of a chunk request.
pub struct ChunkBody {
    pub context: String,
    pub files: Vec<ChunkBodyFile>,
}

/// Body of a request for a version's download context.
pub struct ManifestBody {
    pub game: String,
    pub version: String,
}

impl ChunkBody {
    /// The request body for `drops` under `context`: one file entry per drop,
    /// in drop order.
    pub fn create(context: &DownloadContext, drops: &[DownloadDrop]) -> (r: ChunkBody)
        ensures
            r.context@ == context.context@,
            r.files@.len() == drops@.len(),
            forall|i: int|
                0 <= i < drops@.len() ==> (#[trigger] r.files@[i]).filename@ == drops@[i].filename@
                    && r.files@[i].chunk_index == drops@[i].index,
    {
        let mut files: Vec<ChunkBodyFile> = Vec::new();
        let mut i: usize = 0;
        while i < drops.len()
            invariant
                i <= drops@.len(),
                files@.len() == i,
                forall|j: int|
                    0 <= j < i ==> (#[trigger] files@[j]).filename@ == drops@[j].filename@
                        && files@[j].chunk_index == drops@[j].index,
            decreases drops@.len() - i,
        {
            files.push(ChunkBodyFile { filename: drops[i].filename.clone(), chunk_index: drops[i].index });
            i = i + 1;
        }
        ChunkBody { context: context.context.clone(), files }
    }
}

} // verus!
