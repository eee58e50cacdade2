use vstd::prelude::*;

use crate::models::{DownloadBucket, DownloadDrop};

verus! {

/// Attempts made at one bucket before the download gives up.
pub const RETRY_COUNT: usize = 3;

/// Wait before a retry, per attempt already made, in milliseconds.
pub const RETRY_BACKOFF_MS: u64 = 500;

/// Number of workers that transfer buckets side by side.
pub const WORKER_COUNT: usize = 4;

/// What to do with a bucket after an attempt at it.
#[derive(PartialEq, Eq, Structural, Debug, Clone, Copy)]
pub enum NextMove {
    /// The bucket is complete.
    Finished,
    /// Wait `wait_ms` milliseconds, then make attempt number `attempt`.
    RetryAfter { attempt: usize, wait_ms: u64 },
    /// Every attempt failed: the download fails.
    GiveUp,
}

/// The decision after attempt number `attempt` (counted from 1) succeeded or
/// failed: a failure is retried, after a wait that grows with each attempt,
/// until `RETRY_COUNT` attempts have been made.
pub fn after_attempt(attempt: usize, succeeded: bool) -> (r: NextMove)
    ensures
        succeeded ==> r == NextMove::Finished,
        !succeeded && attempt < RETRY_COUNT ==> r == (NextMove::RetryAfter {
            attempt: (attempt + 1) as usize,
            wait_ms: (RETRY_BACKOFF_MS * attempt) as u64,
        }),
        !succeeded && attempt >= RETRY_COUNT ==> r == NextMove::GiveUp,
{
    if succeeded {
        NextMove::Finished
    } else if attempt < RETRY_COUNT {
        NextMove::RetryAfter { attempt: attempt + 1, wait_ms: RETRY_BACKOFF_MS * (attempt as u64) }
    } else {
        NextMove::GiveUp
    }
}

/// Whether `v` is among the strings of `r`.
pub open spec fn lists(r: Seq<String>, v: Seq<char>) -> bool {
    exists|i: int| 0 <= i < r.len() && (#[trigger] r[i])@ == v
}

/// Whether one of the first `n` buckets belongs to version `v`.
pub open spec fn version_used(buckets: Seq<DownloadBucket>, n: int, v: Seq<char>) -> bool {
    exists|b: int| 0 <= b < n && (#[trigger] buckets[b]).version@ == v
}

/// The versions the buckets belong to, each once.
pub fn distinct_versions(buckets: &Vec<DownloadBucket>) -> (r: Vec<String>)
    ensures
        forall|i: int, j: int| 0 <= i < j < r@.len() ==> (#[trigger] r@[i])@ != (#[trigger] r@[j])@,
        forall|b: int| 0 <= b < buckets@.len() ==> lists(r@, (#[trigger] buckets@[b]).version@),
        forall|i: int| 0 <= i < r@.len() ==> version_used(buckets@, buckets@.len() as int, (#[trigger] r@[i])@),
{
    let mut r: Vec<String> = Vec::new();
    let mut b: usize = 0;
    while b < buckets.len()
        invariant
            b <= buckets@.len(),
            forall|i: int, j: int| 0 <= i < j < r@.len() ==> (#[trigger] r@[i])@ != (#[trigger] r@[j])@,
            forall|c: int| 0 <= c < b ==> lists(r@, (#[trigger] buckets@[c]).version@),
            forall|i: int| 0 <= i < r@.len() ==> version_used(buckets@, b as int, (#[trigger] r@[i])@),
        decreases buckets@.len() - b,
    {
        let version = &buckets[b].version;
        let mut k: usize = 0;
        while k < r.len() && r[k] != *version
            invariant
                k <= r@.len(),
                forall|j: int| 0 <= j < k ==> (#[trigger] r@[j])@ != version@,
            decreases r@.len() - k,
        {
            k = k + 1;
        }
        if k == r.len() {
            let ghost old_r = r@;
            r.push(version.clone());
            assert forall|i: int| 0 <= i < r@.len() implies version_used(buckets@, b + 1, (#[trigger] r@[i])@) by {
                if i < old_r.len() {
                    assert(r@[i] == old_r[i]);
                    assert(version_used(buckets@, b as int, old_r[i]@));
                } else {
                    assert(r@[i]@ == buckets@[b as int].version@);
                }
            }
            assert forall|c: int| 0 <= c < b + 1 implies lists(r@, (#[trigger] buckets@[c]).version@) by {
                if c < b {
                    assert(lists(old_r, buckets@[c].version@));
                    let i = choose|i: int| 0 <= i < old_r.len() && (#[trigger] old_r[i])@ == buckets@[c].version@;
                    assert(r@[i] == old_r[i]);
                } else {
                    assert(r@[old_r.len() as int]@ == buckets@[c].version@);
                }
            }
        } else {
            assert(r@[k as int]@ == buckets@[b as int].version@);
            assert forall|i: int| 0 <= i < r@.len() implies version_used(buckets@, b + 1, (#[trigger] r@[i])@) by {
                assert(version_used(buckets@, b as int, r@[i]@));
            }
        }
        b = b + 1;
    }
    r
}

pub open spec fn total_length(drops: Seq<DownloadDrop>) -> int
    decreases drops.len(),
{
    if drops.len() == 0 {
        0
    } else {
        total_length(drops.drop_last()) + drops.last().length
    }
}

/// The number of bytes the drops carry, where `usize` can hold it.
pub fn bucket_size(drops: &[DownloadDrop]) -> (r: Option<usize>)
    ensures
        total_length(drops@) <= usize::MAX ==> r == Some(total_length(drops@) as usize),
        total_length(drops@) > usize::MAX ==> r is None,
{
    let mut sum: usize = 0;
    let mut i: usize = 0;
    while i < drops.len()
        invariant
            i <= drops@.len(),
            sum == total_length(drops@.take(i as int)),
        decreases drops@.len() - i,
    {
        proof {
            assert(drops@.take(i + 1).drop_last() =~= drops@.take(i as int));
        }
        match sum.checked_add(drops[i].length) {
            Some(s) => {
                sum = s;
            },
            None => {
                proof {
                    lemma_total_grows(drops@, i + 1);
                }
                return None;
            },
        }
        i = i + 1;
    }
    assert(drops@.take(i as int) =~= drops@);
    Some(sum)
}

proof fn lemma_total_grows(drops: Seq<DownloadDrop>, n: int)
    requires
        0 <= n <= drops.len(),
    ensures
        total_length(drops.take(n)) <= total_length(drops),
    decreases drops.len() - n,
{
    if n < drops.len() {
        lemma_total_grows(drops, n + 1);
        assert(drops.take(n + 1).drop_last() =~= drops.take(n));
    } else {
        assert(drops.take(n) =~= drops);
    }
}

} // verus!
