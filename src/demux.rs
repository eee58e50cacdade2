use vstd::prelude::*;

use crate::models::DownloadDrop;

verus! {

/// Most bytes asked of the stream by one read.
pub const MAX_PACKET_LENGTH: usize = 4096 * 4;

/// The next thing to do while copying a bucket's stream into its drops.
#[derive(PartialEq, Eq, Structural, Debug, Clone, Copy)]
pub enum CopyStep {
    /// Drop `drop` begins: move its writer to `offset` first where one is given.
    Position { drop: usize, seek_to: Option<usize> },
    /// Read at most `max` bytes from the stream and write them to drop `drop`,
    /// at byte `offset` of its file.
    Read { drop: usize, max: usize, offset: usize },
    /// Every drop has received its bytes.
    Finished,
}

/// The stream ended while drop `drop` still lacked bytes.
#[derive(PartialEq, Eq, Structural, Debug, Clone, Copy)]
pub struct StreamEnded {
    pub drop: usize,
}

/// Where a copy stands: the drop being filled, whether it has been
/// positioned, and how many of its bytes it has received.
#[derive(PartialEq, Eq, Structural, Debug, Clone, Copy)]
pub struct CopyCursor {
    pub drop: usize,
    pub positioned: bool,
    pub done: usize,
}

/// Sum of the lengths of the first `n` drops: where drop `n` begins in the stream.
pub open spec fn stream_start(drops: Seq<DownloadDrop>, n: int) -> int
    decreases n,
{
    if n <= 0 {
        0
    } else {
        stream_start(drops, n - 1) + drops[n - 1].length
    }
}

/// Every drop ends at an offset that `usize` can hold.
pub open spec fn drops_fit(drops: Seq<DownloadDrop>) -> bool {
    forall|i: int| 0 <= i < drops.len() ==> (#[trigger] drops[i]).start + drops[i].length <= usize::MAX
}

/// Whether every drop ends at an offset that `usize` can hold.
pub fn ranges_fit(drops: &[DownloadDrop]) -> (r: bool)
    ensures
        r == drops_fit(drops@),
{
    let mut i: usize = 0;
    while i < drops.len()
        invariant
            i <= drops@.len(),
            forall|j: int| 0 <= j < i ==> (#[trigger] drops@[j]).start + drops@[j].length <= usize::MAX,
        decreases drops@.len() - i,
    {
        if drops[i].length > usize::MAX - drops[i].start {
            return false;
        }
        i = i + 1;
    }
    true
}

impl CopyCursor {
    pub open spec fn wf(self, drops: Seq<DownloadDrop>) -> bool {
        &&& drops_fit(drops)
        &&& self.drop <= drops.len()
        &&& self.drop == drops.len() ==> !self.positioned && self.done == 0
        &&& !self.positioned ==> self.done == 0
        &&& self.drop < drops.len() && self.positioned ==> self.done < drops[self.drop as int].length
    }

    /// How many bytes of the stream have been consumed.
    pub open spec fn consumed(self, drops: Seq<DownloadDrop>) -> int {
        stream_start(drops, self.drop as int) + self.done
    }

    /// Moves to the start of drop `next`.
    pub open spec fn at_drop(next: int) -> CopyCursor {
        CopyCursor { drop: next as usize, positioned: false, done: 0 }
    }

    /// A copy that has done nothing yet.
    pub fn new() -> (r: CopyCursor)
        ensures
            r == Self::at_drop(0),
    {
        CopyCursor { drop: 0, positioned: false, done: 0 }
    }

    /// The next step. Drops are filled in order; each is positioned once,
    /// with a seek to its start unless that is 0; then it is read into,
    /// never more than it still lacks nor `MAX_PACKET_LENGTH` at once.
    pub open spec fn step_spec(self, drops: Seq<DownloadDrop>) -> CopyStep {
        if self.drop >= drops.len() {
            CopyStep::Finished
        } else if !self.positioned {
            CopyStep::Position {
                drop: self.drop,
                seek_to: if drops[self.drop as int].start == 0 {
                    None
                } else {
                    Some(drops[self.drop as int].start)
                },
            }
        } else {
            CopyStep::Read {
                drop: self.drop,
                max: if drops[self.drop as int].length - self.done < MAX_PACKET_LENGTH {
                    (drops[self.drop as int].length - self.done) as usize
                } else {
                    MAX_PACKET_LENGTH
                },
                offset: (drops[self.drop as int].start + self.done) as usize,
            }
        }
    }

    /// The next step of the copy.
    pub fn next_step(&self, drops: &[DownloadDrop]) -> (r: CopyStep)
        requires
            self.wf(drops@),
        ensures
            r == self.step_spec(drops@),
    {
        if self.drop >= drops.len() {
            return CopyStep::Finished;
        }
        let d = &drops[self.drop];
        if !self.positioned {
            let seek_to = if d.start == 0 { None } else { Some(d.start) };
            return CopyStep::Position { drop: self.drop, seek_to };
        }
        let left = d.length - self.done;
        let max = if left < MAX_PACKET_LENGTH { left } else { MAX_PACKET_LENGTH };
        CopyStep::Read { drop: self.drop, max, offset: d.start + self.done }
    }

    /// Records that the current drop has been positioned. A drop of no bytes
    /// is then complete, and the copy moves on without reading.
    pub fn mark_positioned(&mut self, drops: &[DownloadDrop])
        requires
            old(self).wf(drops@),
            old(self).drop < drops@.len(),
            !old(self).positioned,
        ensures
            final(self).wf(drops@),
            final(self).consumed(drops@) == old(self).consumed(drops@),
            drops@[old(self).drop as int].length == 0 ==> *final(self) == Self::at_drop(old(self).drop + 1),
            drops@[old(self).drop as int].length > 0 ==> *final(self) == (CopyCursor {
                drop: old(self).drop,
                positioned: true,
                done: 0,
            }),
    {
        if drops[self.drop].length == 0 {
            self.drop = self.drop + 1;
        } else {
            self.positioned = true;
        }
    }

    /// Records that a read of the current drop returned `n` bytes, which have
    /// been written. No bytes means that the stream ended too early.
    pub fn record_read(&mut self, drops: &[DownloadDrop], n: usize) -> (r: Result<(), StreamEnded>)
        requires
            old(self).wf(drops@),
            old(self).drop < drops@.len(),
            old(self).positioned,
            n <= MAX_PACKET_LENGTH,
            old(self).done + n <= drops@[old(self).drop as int].length,
        ensures
            final(self).wf(drops@),
            n == 0 ==> r == Err::<(), StreamEnded>(StreamEnded { drop: old(self).drop }) && *final(self) == *old(self),
            n > 0 ==> r is Ok && final(self).consumed(drops@) == old(self).consumed(drops@) + n,
            n > 0 && old(self).done + n == drops@[old(self).drop as int].length ==> *final(self) == Self::at_drop(
                old(self).drop + 1,
            ),
            n > 0 && old(self).done + n < drops@[old(self).drop as int].length ==> *final(self) == (CopyCursor {
                drop: old(self).drop,
                positioned: true,
                done: (old(self).done + n) as usize,
            }),
    {
        if n == 0 {
            return Err(StreamEnded { drop: self.drop });
        }
        let done = self.done + n;
        if done == drops[self.drop].length {
            self.drop = self.drop + 1;
            self.positioned = false;
            self.done = 0;
        } else {
            self.done = done;
        }
        Ok(())
    }
}

/// Reads follow the stream: a read asks for at least one byte; the bytes it
/// asks for lie, in the stream, inside the current drop's range; and each
/// goes to the file offset that lies as far from the drop's start as the byte
/// lies from the drop's start in the stream.
pub proof fn lemma_reads_follow_stream(c: CopyCursor, drops: Seq<DownloadDrop>)
    requires
        c.wf(drops),
    ensures
        match c.step_spec(drops) {
            CopyStep::Read { drop, max, offset } => {
                &&& drop == c.drop
                &&& max > 0
                &&& stream_start(drops, drop as int) <= c.consumed(drops)
                &&& c.consumed(drops) + max <= stream_start(drops, drop + 1)
                &&& offset - drops[drop as int].start == c.consumed(drops) - stream_start(drops, drop as int)
            },
            CopyStep::Finished => c.consumed(drops) == stream_start(drops, drops.len() as int),
            CopyStep::Position { drop, seek_to } => drop == c.drop && c.consumed(drops) == stream_start(
                drops,
                drop as int,
            ),
        },
{
}

} // verus!
