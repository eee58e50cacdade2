use vstd::prelude::*;

use crate::models::DownloadDrop;

verus! {

#[verifier::external_type_specification]
#[verifier::external_body]
pub struct ExMd5Context(md5::Context);

/// The MD5 digest of `data`, as `md5::compute` gives it.
pub uninterp spec fn md5_of(data: Seq<u8>) -> Seq<u8>;

/// The bytes an MD5 context has consumed, in order.
pub uninterp spec fn md5_input(c: md5::Context) -> Seq<u8>;

/// Relies on `md5::Context::new`: a context that has consumed nothing.
#[verifier::external_body]
fn md5_start() -> (r: md5::Context)
    ensures
        md5_input(r) == Seq::<u8>::empty(),
{
    md5::Context::new()
}

/// Relies on `md5::Context::consume`: the context has consumed `data` after
/// what it had consumed before.
#[verifier::external_body]
fn md5_feed(c: &mut md5::Context, data: &[u8])
    ensures
        md5_input(*final(c)) == md5_input(*old(c)) + data@,
{
    c.consume(data)
}

/// Relies on `md5::Context::compute`: the 16-byte MD5 digest of every byte
/// the context consumed, the same as `md5::compute` of those bytes.
#[verifier::external_body]
fn md5_end(c: md5::Context) -> (r: Vec<u8>)
    ensures
        r@ == md5_of(md5_input(c)),
        r@.len() == 16,
{
    c.compute().0.to_vec()
}

/// Incremental MD5 digest of the bytes written to one drop.
pub struct RangeHasher {
    ctx: md5::Context,
}

impl RangeHasher {
    /// The bytes added so far, in order.
    pub closed spec fn fed(&self) -> Seq<u8> {
        md5_input(self.ctx)
    }

    /// A hasher that has seen no bytes.
    pub fn new() -> (r: RangeHasher)
        ensures
            r.fed() == Seq::<u8>::empty(),
    {
        RangeHasher { ctx: md5_start() }
    }

    /// Adds `data` to the bytes hashed.
    pub fn update(&mut self, data: &[u8])
        ensures
            final(self).fed() == old(self).fed() + data@,
    {
        md5_feed(&mut self.ctx, data);
    }

    /// The MD5 digest of every byte added, in order.
    pub fn finish(self) -> (r: Vec<u8>)
        ensures
            r@ == md5_of(self.fed()),
            r@.len() == 16,
    {
        md5_end(self.ctx)
    }
}

/// Lowercase hexadecimal digit of `n`, for `n < 16`.
pub open spec fn hex_digit(n: u8) -> char {
    if n < 10 {
        (n + 48) as char
    } else {
        (n + 87) as char
    }
}

/// Lowercase hexadecimal text of `b`: two digits per byte, high nibble first.
pub open spec fn hex_of(b: Seq<u8>) -> Seq<char>
    decreases b.len(),
{
    if b.len() == 0 {
        Seq::empty()
    } else {
        hex_of(b.drop_last()) + seq![hex_digit(b.last() / 16), hex_digit(b.last() % 16)]
    }
}

/// Relies on `hex::encode`: each byte as two lowercase hexadecimal digits,
/// high nibble first.
#[verifier::external_body]
fn to_hex(b: &[u8]) -> (r: String)
    ensures
        r@ == hex_of(b@),
{
    hex::encode(b)
}

/// Whether digest `digest` is the one the manifest announces for `drop`.
pub fn digest_matches(digest: &Vec<u8>, drop: &DownloadDrop) -> (r: bool)
    ensures
        r == (hex_of(digest@) == drop.checksum@),
{
    let text = to_hex(digest.as_slice());
    text == drop.checksum
}

/// The first drop whose digest differs from the manifest's checksum, if any.
pub fn first_mismatch(digests: &Vec<Vec<u8>>, drops: &[DownloadDrop]) -> (r: Option<usize>)
    requires
        digests@.len() == drops@.len(),
    ensures
        r is None <==> forall|i: int| 0 <= i < drops@.len() ==> hex_of(#[trigger] digests@[i]@) == drops@[i].checksum@,
        r matches Some(i) ==> i < drops@.len() && hex_of(digests@[i as int]@) != drops@[i as int].checksum@
            && forall|j: int| 0 <= j < i ==> hex_of(#[trigger] digests@[j]@) == drops@[j].checksum@,
{
    let mut i: usize = 0;
    while i < drops.len()
        invariant
            digests@.len() == drops@.len(),
            i <= drops@.len(),
            forall|j: int| 0 <= j < i ==> hex_of(#[trigger] digests@[j]@) == drops@[j].checksum@,
        decreases drops@.len() - i,
    {
        if !digest_matches(&digests[i], &drops[i]) {
            return Some(i);
        }
        i = i + 1;
    }
    None
}

} // verus!
