use vstd::prelude::*;

use crate::models::{
    buckets_view, drops_view, BucketView, DownloadBucket, DownloadDrop, DropChunk, DropView,
};

verus! {

/// Byte size at or above which a bucket is full, and a drop travels alone.
pub const TARGET_BUCKET_SIZE: usize = 63 * 1000 * 1000;

/// Most drops one request may name.
pub const MAX_FILES_PER_BUCKET: usize = (1024 / 4) - 1;

/// The install path of a manifest entry, as `std::path::Path::join` forms it.
pub uninterp spec fn joined_path(base: Seq<char>, rel: Seq<char>) -> Seq<char>;

/// Relies on `std::path::Path::join`: the path of `rel` beneath `base`, which
/// depends on the two strings alone.
#[verifier::external_body]
fn join_path(base: &str, rel: &str) -> (r: String)
    ensures
        r@ == joined_path(base@, rel@),
{
    std::path::Path::new(base).join(rel).to_string_lossy().into_owned()
}

/// Sum of the first `n` lengths.
pub open spec fn prefix_sum(lengths: Seq<usize>, n: int) -> int
    decreases n,
{
    if n <= 0 {
        0
    } else {
        prefix_sum(lengths, n - 1) + lengths[n - 1]
    }
}

/// Total size of the file a chunk describes.
pub open spec fn chunk_size(chunk: DropChunk) -> int {
    prefix_sum(chunk.lengths@, chunk.lengths@.len() as int)
}

/// A chunk whose ranges can be described: one checksum per range, and a
/// total size that fits in `usize`.
pub open spec fn chunk_ok(chunk: DropChunk) -> bool {
    &&& chunk.checksums@.len() == chunk.lengths@.len()
    &&& chunk_size(chunk) <= usize::MAX
}

/// Range `i` of the file `name`, installed at `path`.
pub open spec fn chunk_drop(name: Seq<char>, path: Seq<char>, chunk: DropChunk, i: int) -> DropView {
    DropView {
        index: i as nat,
        filename: name,
        path,
        start: prefix_sum(chunk.lengths@, i) as nat,
        length: chunk.lengths@[i] as nat,
        checksum: chunk.checksums@[i]@,
        permissions: chunk.permissions,
    }
}

/// The drops of a file, in range order.
pub open spec fn chunk_drops(name: Seq<char>, path: Seq<char>, chunk: DropChunk) -> Seq<DropView> {
    Seq::new(chunk.lengths@.len(), |i: int| chunk_drop(name, path, chunk, i))
}

/// One drop to place, with the version it belongs to.
pub struct PlanItem {
    pub version: Seq<char>,
    pub drop: DropView,
}

pub open spec fn entry_items(install_dir: Seq<char>, entry: (String, DropChunk)) -> Seq<PlanItem> {
    let drops = chunk_drops(entry.0@, joined_path(install_dir, entry.0@), entry.1);
    Seq::new(drops.len(), |i: int| PlanItem { version: entry.1.version_name@, drop: drops[i] })
}

/// Every drop of the manifest, entry after entry.
pub open spec fn manifest_items(install_dir: Seq<char>, entries: Seq<(String, DropChunk)>) -> Seq<PlanItem>
    decreases entries.len(),
{
    if entries.len() == 0 {
        Seq::empty()
    } else {
        manifest_items(install_dir, entries.drop_last()) + entry_items(install_dir, entries.last())
    }
}

/// No two manifest entries name the same file.
pub open spec fn paths_distinct(entries: Seq<(String, DropChunk)>) -> bool {
    forall|i: int, j: int| 0 <= i < j < entries.len() ==> (#[trigger] entries[i]).0@ != (#[trigger] entries[j]).0@
}

/// Planning state: the buckets sealed so far, in sealing order, and the
/// open bucket of each version met so far, in order of first appearance.
pub struct PlanState {
    pub sealed: Seq<BucketView>,
    pub open: Seq<BucketView>,
}

pub open spec fn bucket_bytes(drops: Seq<DropView>) -> int
    decreases drops.len(),
{
    if drops.len() == 0 {
        0
    } else {
        bucket_bytes(drops.drop_last()) + drops.last().length
    }
}

/// Index of the open bucket of `version`, or `open.len()` where there is none.
pub open spec fn open_index(open: Seq<BucketView>, version: Seq<char>) -> int
    decreases open.len(),
{
    if open.len() == 0 {
        0
    } else {
        let k = open_index(open.drop_last(), version);
        if k < open.len() - 1 {
            k
        } else if open.last().version == version {
            open.len() - 1
        } else {
            open.len() as int
        }
    }
}

/// Placing one drop: a drop of at least `target` bytes is sealed alone at
/// once; any other joins its version's open bucket, which is sealed first
/// where the drop would bring it to `target` bytes or it holds `max_drops`.
pub open spec fn plan_step(
    s: PlanState,
    game_id: Seq<char>,
    item: PlanItem,
    target: nat,
    max_drops: nat,
) -> PlanState {
    let fresh = BucketView { game_id, version: item.version, drops: seq![item.drop] };
    if item.drop.length >= target {
        PlanState { sealed: s.sealed.push(fresh), open: s.open }
    } else {
        let k = open_index(s.open, item.version);
        if k == s.open.len() {
            PlanState { sealed: s.sealed, open: s.open.push(fresh) }
        } else {
            let b = s.open[k];
            if b.drops.len() > 0 && (bucket_bytes(b.drops) + item.drop.length >= target
                || b.drops.len() >= max_drops) {
                PlanState { sealed: s.sealed.push(b), open: s.open.update(k, fresh) }
            } else {
                PlanState {
                    sealed: s.sealed,
                    open: s.open.update(k, BucketView { drops: b.drops.push(item.drop), ..b }),
                }
            }
        }
    }
}

pub open spec fn plan_items(game_id: Seq<char>, items: Seq<PlanItem>, target: nat, max_drops: nat) -> PlanState
    decreases items.len(),
{
    if items.len() == 0 {
        PlanState { sealed: Seq::empty(), open: Seq::empty() }
    } else {
        plan_step(plan_items(game_id, items.drop_last(), target, max_drops), game_id, items.last(), target, max_drops)
    }
}

/// The planned buckets: those sealed while placing, then the open ones.
pub open spec fn plan(
    game_id: Seq<char>,
    install_dir: Seq<char>,
    entries: Seq<(String, DropChunk)>,
    target: nat,
    max_drops: nat,
) -> Seq<BucketView> {
    let s = plan_items(game_id, manifest_items(install_dir, entries), target, max_drops);
    s.sealed + s.open
}


/// A sealed bucket obeys the limits: either one drop of at least `target`
/// bytes, or between one and `max_drops` drops totalling under `target`.
pub open spec fn bucket_ok(b: BucketView, target: nat, max_drops: nat) -> bool {
    ||| (b.drops.len() == 1 && b.drops[0].length >= target)
    ||| (1 <= b.drops.len() <= max_drops && bucket_bytes(b.drops) < target)
}

/// An open bucket holds at least one drop and stays within the limits.
pub open spec fn open_ok(b: BucketView, target: nat, max_drops: nat) -> bool {
    1 <= b.drops.len() <= max_drops && bucket_bytes(b.drops) < target
}

pub open spec fn state_ok(s: PlanState, target: nat, max_drops: nat) -> bool {
    &&& forall|j: int| 0 <= j < s.sealed.len() ==> bucket_ok(#[trigger] s.sealed[j], target, max_drops)
    &&& forall|j: int| 0 <= j < s.open.len() ==> open_ok(#[trigger] s.open[j], target, max_drops)
}

proof fn lemma_open_index(open: Seq<BucketView>, version: Seq<char>, k: int)
    requires
        0 <= k <= open.len(),
        forall|j: int| 0 <= j < k ==> (#[trigger] open[j]).version != version,
        k < open.len() ==> open[k].version == version,
    ensures
        open_index(open, version) == k,
    decreases open.len(),
{
    if open.len() > 0 {
        let p = open.drop_last();
        if k < open.len() - 1 {
            lemma_open_index(p, version, k);
        } else {
            lemma_open_index(p, version, p.len() as int);
        }
    }
}

proof fn lemma_open_index_range(open: Seq<BucketView>, version: Seq<char>)
    ensures
        0 <= open_index(open, version) <= open.len(),
        open_index(open, version) < open.len() ==> open[open_index(open, version)].version == version,
    decreases open.len(),
{
    if open.len() > 0 {
        lemma_open_index_range(open.drop_last(), version);
    }
}

proof fn lemma_bytes_push(drops: Seq<DropView>, d: DropView)
    ensures
        bucket_bytes(drops.push(d)) == bucket_bytes(drops) + d.length,
{
    assert(drops.push(d).drop_last() =~= drops);
}

proof fn lemma_bytes_bound(drops: Seq<DropView>, j: int)
    requires
        0 <= j < drops.len(),
    ensures
        drops[j].length <= bucket_bytes(drops),
    decreases drops.len(),
{
    if j < drops.len() - 1 {
        lemma_bytes_bound(drops.drop_last(), j);
    } else {
        lemma_bytes_nonneg(drops.drop_last());
    }
}

proof fn lemma_bytes_nonneg(drops: Seq<DropView>)
    ensures
        bucket_bytes(drops) >= 0,
    decreases drops.len(),
{
    if drops.len() > 0 {
        lemma_bytes_nonneg(drops.drop_last());
    }
}

proof fn lemma_step_ok(s: PlanState, game_id: Seq<char>, item: PlanItem, target: nat, max_drops: nat)
    requires
        state_ok(s, target, max_drops),
        max_drops >= 1,
    ensures
        state_ok(plan_step(s, game_id, item, target, max_drops), target, max_drops),
{
    let fresh = BucketView { game_id, version: item.version, drops: seq![item.drop] };
    lemma_bytes_push(Seq::empty(), item.drop);
    assert(seq![item.drop] =~= Seq::<DropView>::empty().push(item.drop));
    lemma_open_index_range(s.open, item.version);
    let k = open_index(s.open, item.version);
    if item.drop.length < target && k < s.open.len() {
        let b = s.open[k];
        lemma_bytes_push(b.drops, item.drop);
    }
    let t = plan_step(s, game_id, item, target, max_drops);
    assert forall|j: int| 0 <= j < t.sealed.len() implies bucket_ok(#[trigger] t.sealed[j], target, max_drops) by {
        if j < s.sealed.len() {
            assert(t.sealed[j] == s.sealed[j]);
        }
    }
}

proof fn lemma_plan_ok(game_id: Seq<char>, items: Seq<PlanItem>, target: nat, max_drops: nat)
    requires
        max_drops >= 1,
    ensures
        state_ok(plan_items(game_id, items, target, max_drops), target, max_drops),
    decreases items.len(),
{
    if items.len() > 0 {
        lemma_plan_ok(game_id, items.drop_last(), target, max_drops);
        lemma_step_ok(plan_items(game_id, items.drop_last(), target, max_drops), game_id, items.last(), target, max_drops);
    }
}

/// Every planned bucket obeys the limits: a drop of at least `target` bytes
/// travels alone, and any other bucket holds between one and `max_drops`
/// drops whose lengths add up to less than `target`.
pub proof fn lemma_buckets_within_limits(
    game_id: Seq<char>,
    install_dir: Seq<char>,
    entries: Seq<(String, DropChunk)>,
    target: nat,
    max_drops: nat,
)
    requires
        max_drops >= 1,
    ensures
        forall|j: int|
            0 <= j < plan(game_id, install_dir, entries, target, max_drops).len() ==> bucket_ok(
                #[trigger] plan(game_id, install_dir, entries, target, max_drops)[j],
                target,
                max_drops,
            ),
        forall|j: int, m: int|
            0 <= j < plan(game_id, install_dir, entries, target, max_drops).len() && 0 <= m
                < plan(game_id, install_dir, entries, target, max_drops)[j].drops.len()
                && (#[trigger] plan(game_id, install_dir, entries, target, max_drops)[j].drops[m]).length >= target
                ==> plan(game_id, install_dir, entries, target, max_drops)[j].drops.len() == 1,
{
    let s = plan_items(game_id, manifest_items(install_dir, entries), target, max_drops);
    lemma_plan_ok(game_id, manifest_items(install_dir, entries), target, max_drops);
    let r = plan(game_id, install_dir, entries, target, max_drops);
    assert forall|j: int| 0 <= j < r.len() implies bucket_ok(#[trigger] r[j], target, max_drops) by {
        if j >= s.sealed.len() {
            assert(open_ok(s.open[j - s.sealed.len()], target, max_drops));
        }
    }
    assert forall|j: int, m: int|
        0 <= j < r.len() && 0 <= m < r[j].drops.len() && (#[trigger] r[j].drops[m]).length >= target
        implies r[j].drops.len() == 1 by {
        assert(bucket_ok(r[j], target, max_drops));
        lemma_bytes_bound(r[j].drops, m);
    }
}

proof fn lemma_prefix_sum_mono(lengths: Seq<usize>, i: int, n: int)
    requires
        0 <= i <= n <= lengths.len(),
    ensures
        prefix_sum(lengths, i) <= prefix_sum(lengths, n),
    decreases n - i,
{
    if i < n {
        lemma_prefix_sum_mono(lengths, i, n - 1);
    }
}

/// The drops of a file tile it: the first starts at 0, each one starts where
/// the previous one ends, their lengths add up to the file's size, and where
/// no range is empty their starts strictly increase.
pub proof fn lemma_chunk_drops_tile(name: Seq<char>, path: Seq<char>, chunk: DropChunk)
    requires
        chunk.checksums@.len() == chunk.lengths@.len(),
    ensures
        chunk_drops(name, path, chunk).len() == chunk.lengths@.len(),
        chunk.lengths@.len() > 0 ==> chunk_drops(name, path, chunk)[0].start == 0,
        forall|i: int|
            0 <= i < chunk.lengths@.len() - 1 ==> (#[trigger] chunk_drops(name, path, chunk)[i + 1]).start
                == chunk_drops(name, path, chunk)[i].start + chunk_drops(name, path, chunk)[i].length,
        chunk.lengths@.len() > 0 ==> chunk_drops(name, path, chunk).last().start
            + chunk_drops(name, path, chunk).last().length == chunk_size(chunk),
        bucket_bytes(chunk_drops(name, path, chunk)) == chunk_size(chunk),
        (forall|i: int| 0 <= i < chunk.lengths@.len() ==> #[trigger] chunk.lengths@[i] > 0) ==> forall|i: int, j: int|
            0 <= i < j < chunk.lengths@.len() ==> #[trigger] chunk_drops(name, path, chunk)[i].start
                < #[trigger] chunk_drops(name, path, chunk)[j].start,
{
    let d = chunk_drops(name, path, chunk);
    let l = chunk.lengths@;
    assert forall|n: int| 0 <= n <= l.len() implies bucket_bytes(#[trigger] d.take(n)) == prefix_sum(l, n) by {
        lemma_take_bytes(name, path, chunk, n);
    }
    assert(d.take(l.len() as int) =~= d);
    assert forall|i: int| 0 <= i < l.len() - 1 implies (#[trigger] d[i + 1]).start == d[i].start + d[i].length by {
        lemma_prefix_sum_mono(l, 0, i);
    }
    if l.len() > 0 {
        lemma_prefix_sum_mono(l, 0, l.len() - 1);
    }
    if forall|i: int| 0 <= i < l.len() ==> #[trigger] l[i] > 0 {
        assert forall|i: int, j: int| 0 <= i < j < l.len() implies #[trigger] d[i].start < #[trigger] d[j].start by {
            lemma_prefix_sum_mono(l, 0, i);
            lemma_prefix_sum_mono(l, i + 1, j);
        }
    }
}

proof fn lemma_take_bytes(name: Seq<char>, path: Seq<char>, chunk: DropChunk, n: int)
    requires
        0 <= n <= chunk.lengths@.len(),
    ensures
        bucket_bytes(chunk_drops(name, path, chunk).take(n)) == prefix_sum(chunk.lengths@, n),
    decreases n,
{
    let d = chunk_drops(name, path, chunk);
    if n > 0 {
        lemma_take_bytes(name, path, chunk, n - 1);
        assert(d.take(n).drop_last() =~= d.take(n - 1));
    }
}


pub open spec fn state_of(sealed: Seq<DownloadBucket>, open: Seq<DownloadBucket>) -> PlanState {
    PlanState { sealed: buckets_view(sealed), open: buckets_view(open) }
}

pub open spec fn sizes_match(open: Seq<DownloadBucket>, sizes: Seq<usize>) -> bool {
    &&& sizes.len() == open.len()
    &&& forall|k: int| 0 <= k < open.len() ==> #[trigger] sizes[k] == bucket_bytes(open[k]@.drops)
}

proof fn lemma_drops_view_push(drops: Seq<DownloadDrop>, d: DownloadDrop)
    ensures
        drops_view(drops.push(d)) == drops_view(drops).push(d@),
{
    assert(drops_view(drops.push(d)) =~= drops_view(drops).push(d@));
}

/// Finds the open bucket of `version`.
fn find_open(open: &Vec<DownloadBucket>, version: &String) -> (k: usize)
    ensures
        k == open_index(buckets_view(open@), version@),
{
    let mut k: usize = 0;
    while k < open.len() && open[k].version != *version
        invariant
            k <= open@.len(),
            forall|j: int| 0 <= j < k ==> (#[trigger] open@[j]).version@ != version@,
        decreases open@.len() - k,
    {
        k = k + 1;
    }
    proof {
        let v = buckets_view(open@);
        assert forall|j: int| 0 <= j < k implies (#[trigger] v[j]).version != version@ by {
            assert(v[j] == open@[j]@);
        }
        lemma_open_index(v, version@, k as int);
    }
    k
}

/// A bucket that holds `drop` alone.
fn single_bucket(game_id: &String, version: &String, drop: DownloadDrop) -> (r: DownloadBucket)
    ensures
        r@ == (BucketView { game_id: game_id@, version: version@, drops: seq![drop@] }),
{
    let r = DownloadBucket { game_id: game_id.clone(), version: version.clone(), drops: vec![drop] };
    assert(r@.drops =~= seq![drop@]);
    r
}

/// Places one drop into the planning state, as `plan_step` describes.
fn place_drop(
    sealed: &mut Vec<DownloadBucket>,
    open: &mut Vec<DownloadBucket>,
    sizes: &mut Vec<usize>,
    game_id: &String,
    version: &String,
    drop: DownloadDrop,
    target: usize,
    max_drops: usize,
)
    requires
        sizes_match(old(open)@, old(sizes)@),
        forall|k: int| 0 <= k < old(open)@.len() ==> bucket_bytes((#[trigger] old(open)@[k])@.drops) < target,
    ensures
        state_of(final(sealed)@, final(open)@) == plan_step(
            state_of(old(sealed)@, old(open)@),
            game_id@,
            PlanItem { version: version@, drop: drop@ },
            target as nat,
            max_drops as nat,
        ),
        sizes_match(final(open)@, final(sizes)@),
{
    let ghost s = state_of(old(sealed)@, old(open)@);
    let ghost item = PlanItem { version: version@, drop: drop@ };
    let ghost t = plan_step(s, game_id@, item, target as nat, max_drops as nat);
    let length = drop.length;
    proof {
        lemma_bytes_push(Seq::empty(), item.drop);
        assert(seq![item.drop] =~= Seq::<DropView>::empty().push(item.drop));
    }
    if length >= target {
        let fresh = single_bucket(game_id, version, drop);
        sealed.push(fresh);
        assert(buckets_view(sealed@) =~= t.sealed);
        return;
    }
    let k = find_open(open, version);
    if k == open.len() {
        let fresh = single_bucket(game_id, version, drop);
        open.push(fresh);
        sizes.push(length);
        assert(buckets_view(open@) =~= t.open);
        return;
    }
    let size = sizes[k];
    assert(size == bucket_bytes(s.open[k as int].drops)) by {
        assert(s.open[k as int] == old(open)@[k as int]@);
    }
    let mut b = open.remove(k);
    if b.drops.len() > 0 && (length >= target - size || b.drops.len() >= max_drops) {
        sealed.push(b);
        let fresh = single_bucket(game_id, version, drop);
        open.insert(k, fresh);
        sizes.set(k, length);
        assert(buckets_view(sealed@) =~= t.sealed);
        assert(buckets_view(open@) =~= t.open);
    } else {
        let ghost bv = b@;
        b.drops.push(drop);
        proof {
            lemma_drops_view_push(old(open)@[k as int].drops@, drop);
            lemma_bytes_push(bv.drops, item.drop);
        }
        open.insert(k, b);
        sizes.set(k, size + length);
        assert(buckets_view(open@) =~= t.open);
        assert(buckets_view(sealed@) =~= t.sealed);
    }
}


proof fn lemma_items_take(install_dir: Seq<char>, entries: Seq<(String, DropChunk)>, e: int)
    requires
        0 <= e < entries.len(),
    ensures
        manifest_items(install_dir, entries.take(e + 1)) == manifest_items(install_dir, entries.take(e))
            + entry_items(install_dir, entries[e]),
{
    assert(entries.take(e + 1).drop_last() =~= entries.take(e));
}

/// Packs the manifest's drops into buckets of fewer than `target` bytes and
/// at most `max_drops` drops, a drop of at least `target` bytes in a bucket
/// of its own. Entries are taken in order, and each file's ranges in order.
pub fn generate_buckets_with_limits(
    game_id: String,
    install_dir: &str,
    manifest: &Vec<(String, DropChunk)>,
    target: usize,
    max_drops: usize,
) -> (r: Vec<DownloadBucket>)
    requires
        forall|e: int| 0 <= e < manifest@.len() ==> chunk_ok(#[trigger] manifest@[e].1),
        paths_distinct(manifest@),
        max_drops >= 1,
    ensures
        buckets_view(r@) == plan(game_id@, install_dir@, manifest@, target as nat, max_drops as nat),
{
    let mut sealed: Vec<DownloadBucket> = Vec::new();
    let mut open: Vec<DownloadBucket> = Vec::new();
    let mut sizes: Vec<usize> = Vec::new();
    let ghost mut done: Seq<PlanItem> = Seq::empty();
    let mut e: usize = 0;
    assert(manifest@.take(0) =~= Seq::<(String, DropChunk)>::empty());
    assert(buckets_view(sealed@) =~= Seq::<BucketView>::empty());
    assert(buckets_view(open@) =~= Seq::<BucketView>::empty());
    while e < manifest.len()
        invariant
            e <= manifest@.len(),
            forall|e: int| 0 <= e < manifest@.len() ==> chunk_ok(#[trigger] manifest@[e].1),
            max_drops >= 1,
            done == manifest_items(install_dir@, manifest@.take(e as int)),
            state_of(sealed@, open@) == plan_items(game_id@, done, target as nat, max_drops as nat),
            sizes_match(open@, sizes@),
        decreases manifest@.len() - e,
    {
        let raw_path = &manifest[e].0;
        let chunk = &manifest[e].1;
        let path = join_path(install_dir, raw_path.as_str());
        let ghost items = entry_items(install_dir@, manifest@[e as int]);
        let ghost base = done;
        let mut offset: usize = 0;
        let mut i: usize = 0;
        assert(items.take(0) =~= Seq::<PlanItem>::empty());
        assert(base + items.take(0) =~= base);
        while i < chunk.lengths.len()
            invariant
                e < manifest@.len(),
                raw_path == manifest@[e as int].0,
                chunk == manifest@[e as int].1,
                chunk_ok(*chunk),
                max_drops >= 1,
                path@ == joined_path(install_dir@, raw_path@),
                items == entry_items(install_dir@, manifest@[e as int]),
                i <= chunk.lengths@.len(),
                offset == prefix_sum(chunk.lengths@, i as int),
                done == base + items.take(i as int),
                state_of(sealed@, open@) == plan_items(game_id@, done, target as nat, max_drops as nat),
                sizes_match(open@, sizes@),
            decreases chunk.lengths@.len() - i,
        {
            let length = chunk.lengths[i];
            let drop = DownloadDrop {
                index: i,
                filename: raw_path.clone(),
                path: path.clone(),
                start: offset,
                length,
                checksum: chunk.checksums[i].clone(),
                permissions: chunk.permissions,
            };
            proof {
                lemma_prefix_sum_mono(chunk.lengths@, i as int + 1, chunk.lengths@.len() as int);
                lemma_plan_ok(game_id@, done, target as nat, max_drops as nat);
                let st = plan_items(game_id@, done, target as nat, max_drops as nat);
                assert forall|k: int| 0 <= k < open@.len() implies bucket_bytes((#[trigger] open@[k])@.drops) < target by {
                    assert(st.open[k] == open@[k]@);
                    assert(open_ok(st.open[k], target as nat, max_drops as nat));
                }
                assert(drop@ == items[i as int].drop);
            }
            place_drop(&mut sealed, &mut open, &mut sizes, &game_id, &chunk.version_name, drop, target, max_drops);
            offset = offset + length;
            proof {
                let old_done = done;
                done = done.push(items[i as int]);
                assert(done.drop_last() =~= old_done);
                assert(base + items.take(i + 1) =~= done);
            }
            i = i + 1;
        }
        proof {
            assert(items.take(i as int) =~= items);
            lemma_items_take(install_dir@, manifest@, e as int);
        }
        e = e + 1;
    }
    assert(manifest@.take(manifest@.len() as int) =~= manifest@);
    let ghost sv = buckets_view(sealed@);
    let ghost ov = buckets_view(open@);
    sealed.append(&mut open);
    assert(buckets_view(sealed@) =~= sv + ov);
    sealed
}

/// Packs the manifest's drops into buckets for `game_id`, with the limits
/// the server imposes.
pub fn generate_buckets(game_id: String, install_dir: &str, manifest: &Vec<(String, DropChunk)>) -> (r: Vec<
    DownloadBucket,
>)
    requires
        forall|e: int| 0 <= e < manifest@.len() ==> chunk_ok(#[trigger] manifest@[e].1),
        paths_distinct(manifest@),
    ensures
        buckets_view(r@) == plan(
            game_id@,
            install_dir@,
            manifest@,
            TARGET_BUCKET_SIZE as nat,
            MAX_FILES_PER_BUCKET as nat,
        ),
{
    generate_buckets_with_limits(game_id, install_dir, manifest, TARGET_BUCKET_SIZE, MAX_FILES_PER_BUCKET)
}

/// Whether drop `d` is carried by one of the buckets.
pub open spec fn in_buckets(bs: Seq<BucketView>, d: DropView) -> bool {
    exists|j: int| 0 <= j < bs.len() && (#[trigger] bs[j]).drops.contains(d)
}

spec fn in_others(bs: Seq<BucketView>, k: int, d: DropView) -> bool {
    exists|j: int| 0 <= j < bs.len() && j != k && (#[trigger] bs[j]).drops.contains(d)
}

spec fn items_contain(items: Seq<PlanItem>, d: DropView) -> bool {
    exists|k: int| 0 <= k < items.len() && (#[trigger] items[k]).drop == d
}

proof fn lemma_contains_push(s: Seq<DropView>, x: DropView, d: DropView)
    ensures
        s.push(x).contains(d) == (s.contains(d) || d == x),
{
    if s.push(x).contains(d) {
        let i = choose|i: int| 0 <= i < s.push(x).len() && s.push(x)[i] == d;
        if i < s.len() {
            assert(s[i] == d);
        }
    }
    if s.contains(d) {
        let i = choose|i: int| 0 <= i < s.len() && s[i] == d;
        assert(s.push(x)[i] == d);
    }
    if d == x {
        assert(s.push(x)[s.len() as int] == d);
    }
}

proof fn lemma_contains_single(x: DropView, d: DropView)
    ensures
        seq![x].contains(d) == (d == x),
{
    assert(seq![x] =~= Seq::<DropView>::empty().push(x));
    lemma_contains_push(Seq::empty(), x, d);
}

proof fn lemma_in_push(bs: Seq<BucketView>, b: BucketView, d: DropView)
    ensures
        in_buckets(bs.push(b), d) == (in_buckets(bs, d) || b.drops.contains(d)),
{
    if in_buckets(bs.push(b), d) {
        let j = choose|j: int| 0 <= j < bs.push(b).len() && (#[trigger] bs.push(b)[j]).drops.contains(d);
        if j < bs.len() {
            assert(bs.push(b)[j] == bs[j]);
        }
    }
    if in_buckets(bs, d) {
        let j = choose|j: int| 0 <= j < bs.len() && (#[trigger] bs[j]).drops.contains(d);
        assert(bs.push(b)[j] == bs[j]);
    }
    if b.drops.contains(d) {
        assert(bs.push(b)[bs.len() as int] == b);
    }
}

proof fn lemma_in_update(bs: Seq<BucketView>, k: int, b: BucketView, d: DropView)
    requires
        0 <= k < bs.len(),
    ensures
        in_buckets(bs, d) == (in_others(bs, k, d) || bs[k].drops.contains(d)),
        in_buckets(bs.update(k, b), d) == (in_others(bs, k, d) || b.drops.contains(d)),
{
    let u = bs.update(k, b);
    if in_buckets(bs, d) {
        let j = choose|j: int| 0 <= j < bs.len() && (#[trigger] bs[j]).drops.contains(d);
        if j != k {
            assert(in_others(bs, k, d));
        }
    }
    if in_others(bs, k, d) {
        let j = choose|j: int| 0 <= j < bs.len() && j != k && (#[trigger] bs[j]).drops.contains(d);
        assert(u[j] == bs[j]);
    }
    if bs[k].drops.contains(d) {
        assert(in_buckets(bs, d));
    }
    if in_buckets(u, d) {
        let j = choose|j: int| 0 <= j < u.len() && (#[trigger] u[j]).drops.contains(d);
        if j != k {
            assert(u[j] == bs[j]);
            assert(in_others(bs, k, d));
        }
    }
    if b.drops.contains(d) {
        assert(u[k] == b);
    }
}

proof fn lemma_in_concat(a: Seq<BucketView>, b: Seq<BucketView>, d: DropView)
    ensures
        in_buckets(a + b, d) == (in_buckets(a, d) || in_buckets(b, d)),
{
    if in_buckets(a + b, d) {
        let j = choose|j: int| 0 <= j < (a + b).len() && (#[trigger] (a + b)[j]).drops.contains(d);
        if j < a.len() {
            assert((a + b)[j] == a[j]);
        } else {
            assert((a + b)[j] == b[j - a.len()]);
        }
    }
    if in_buckets(a, d) {
        let j = choose|j: int| 0 <= j < a.len() && (#[trigger] a[j]).drops.contains(d);
        assert((a + b)[j] == a[j]);
    }
    if in_buckets(b, d) {
        let j = choose|j: int| 0 <= j < b.len() && (#[trigger] b[j]).drops.contains(d);
        assert((a + b)[j + a.len()] == b[j]);
    }
}

proof fn lemma_step_drops(s: PlanState, game_id: Seq<char>, item: PlanItem, target: nat, max_drops: nat, d: DropView)
    ensures
        ({
            let t = plan_step(s, game_id, item, target, max_drops);
            (in_buckets(t.sealed, d) || in_buckets(t.open, d)) == (in_buckets(s.sealed, d) || in_buckets(s.open, d)
                || d == item.drop)
        }),
{
    let fresh = BucketView { game_id, version: item.version, drops: seq![item.drop] };
    lemma_contains_single(item.drop, d);
    lemma_open_index_range(s.open, item.version);
    let k = open_index(s.open, item.version);
    if item.drop.length >= target {
        lemma_in_push(s.sealed, fresh, d);
    } else if k == s.open.len() {
        lemma_in_push(s.open, fresh, d);
    } else {
        let b = s.open[k];
        if b.drops.len() > 0 && (bucket_bytes(b.drops) + item.drop.length >= target || b.drops.len() >= max_drops) {
            lemma_in_push(s.sealed, b, d);
            lemma_in_update(s.open, k, fresh, d);
        } else {
            let nb = BucketView { drops: b.drops.push(item.drop), ..b };
            lemma_in_update(s.open, k, nb, d);
            lemma_contains_push(b.drops, item.drop, d);
        }
    }
}

proof fn lemma_plan_drops(game_id: Seq<char>, items: Seq<PlanItem>, target: nat, max_drops: nat, d: DropView)
    ensures
        ({
            let s = plan_items(game_id, items, target, max_drops);
            (in_buckets(s.sealed, d) || in_buckets(s.open, d)) == items_contain(items, d)
        }),
    decreases items.len(),
{
    if items.len() > 0 {
        let p = items.drop_last();
        lemma_plan_drops(game_id, p, target, max_drops, d);
        lemma_step_drops(plan_items(game_id, p, target, max_drops), game_id, items.last(), target, max_drops, d);
        if items_contain(items, d) {
            let k = choose|k: int| 0 <= k < items.len() && (#[trigger] items[k]).drop == d;
            if k < p.len() {
                assert(p[k] == items[k]);
            }
        }
        if items_contain(p, d) {
            let k = choose|k: int| 0 <= k < p.len() && (#[trigger] p[k]).drop == d;
            assert(items[k] == p[k]);
        }
    } else {
        assert(!in_buckets(Seq::<BucketView>::empty(), d));
    }
}

/// Range `i` of manifest entry `e`, as the planner derives it.
pub open spec fn entry_drop(install_dir: Seq<char>, entries: Seq<(String, DropChunk)>, e: int, i: int) -> DropView {
    chunk_drop(entries[e].0@, joined_path(install_dir, entries[e].0@), entries[e].1, i)
}

proof fn lemma_manifest_items(install_dir: Seq<char>, entries: Seq<(String, DropChunk)>, d: DropView)
    ensures
        items_contain(manifest_items(install_dir, entries), d) == exists|e: int, i: int|
            0 <= e < entries.len() && 0 <= i < entries[e].1.lengths@.len() && #[trigger] entry_drop(
                install_dir,
                entries,
                e,
                i,
            ) == d,
    decreases entries.len(),
{
    if entries.len() > 0 {
        let p = entries.drop_last();
        let e_last = entries.len() - 1;
        lemma_manifest_items(install_dir, p, d);
        let a = manifest_items(install_dir, p);
        let b = entry_items(install_dir, entries.last());
        let m = manifest_items(install_dir, entries);
        assert(m == a + b);
        if items_contain(m, d) {
            let k = choose|k: int| 0 <= k < m.len() && (#[trigger] m[k]).drop == d;
            if k < a.len() {
                assert(m[k] == a[k]);
                let (e, i) = choose|e: int, i: int|
                    0 <= e < p.len() && 0 <= i < p[e].1.lengths@.len() && #[trigger] entry_drop(install_dir, p, e, i) == d;
                assert(entries[e] == p[e]);
                assert(entry_drop(install_dir, entries, e, i) == d);
            } else {
                assert(m[k] == b[k - a.len()]);
                assert(entry_drop(install_dir, entries, e_last, k - a.len()) == d);
            }
        }
        if exists|e: int, i: int|
            0 <= e < entries.len() && 0 <= i < entries[e].1.lengths@.len() && #[trigger] entry_drop(install_dir, entries, e, i) == d {
            let (e, i) = choose|e: int, i: int|
                0 <= e < entries.len() && 0 <= i < entries[e].1.lengths@.len() && #[trigger] entry_drop(install_dir, entries, e, i) == d;
            if e < p.len() {
                assert(entries[e] == p[e]);
                assert(entry_drop(install_dir, p, e, i) == d);
                let k = choose|k: int| 0 <= k < a.len() && (#[trigger] a[k]).drop == d;
                assert(m[k] == a[k]);
            } else {
                assert(m[a.len() + i] == b[i]);
            }
        }
    }
}

/// Planning loses and invents no drop: the buckets carry range `i` of entry
/// `e`, as derived from its chunk, for every entry and range, and nothing
/// else. Where paths are distinct, a carried drop that names an entry's file
/// is that entry's range of the drop's index, so the drops of one file are
/// exactly the ranges that tile it.
pub proof fn lemma_plan_carries_file_drops(
    game_id: Seq<char>,
    install_dir: Seq<char>,
    entries: Seq<(String, DropChunk)>,
    target: nat,
    max_drops: nat,
)
    ensures
        forall|e: int, i: int|
            0 <= e < entries.len() && 0 <= i < entries[e].1.lengths@.len() ==> in_buckets(
                plan(game_id, install_dir, entries, target, max_drops),
                #[trigger] entry_drop(install_dir, entries, e, i),
            ),
        forall|d: DropView|
            #[trigger] in_buckets(plan(game_id, install_dir, entries, target, max_drops), d) ==> exists|e: int, i: int|
                0 <= e < entries.len() && 0 <= i < entries[e].1.lengths@.len() && #[trigger] entry_drop(
                    install_dir,
                    entries,
                    e,
                    i,
                ) == d,
        paths_distinct(entries) ==> forall|d: DropView, e: int|
            #[trigger] in_buckets(plan(game_id, install_dir, entries, target, max_drops), d) && 0 <= e < entries.len()
                && d.filename == #[trigger] entries[e].0@ ==> d.index < entries[e].1.lengths@.len() && d
                == entry_drop(install_dir, entries, e, d.index as int),
{
    let items = manifest_items(install_dir, entries);
    let s = plan_items(game_id, items, target, max_drops);
    assert forall|d: DropView| #[trigger] in_buckets(plan(game_id, install_dir, entries, target, max_drops), d)
        == items_contain(items, d) by {
        lemma_plan_drops(game_id, items, target, max_drops, d);
        lemma_in_concat(s.sealed, s.open, d);
        lemma_manifest_items(install_dir, entries, d);
    }
    assert forall|e: int, i: int| 0 <= e < entries.len() && 0 <= i < entries[e].1.lengths@.len() implies in_buckets(
        plan(game_id, install_dir, entries, target, max_drops),
        #[trigger] entry_drop(install_dir, entries, e, i),
    ) by {
        lemma_manifest_items(install_dir, entries, entry_drop(install_dir, entries, e, i));
    }
    assert forall|d: DropView| #[trigger] in_buckets(plan(game_id, install_dir, entries, target, max_drops), d) implies exists|e: int, i: int|
        0 <= e < entries.len() && 0 <= i < entries[e].1.lengths@.len() && #[trigger] entry_drop(install_dir, entries, e, i) == d by {
        lemma_manifest_items(install_dir, entries, d);
    }
    if paths_distinct(entries) {
        assert forall|d: DropView, e: int|
            #[trigger] in_buckets(plan(game_id, install_dir, entries, target, max_drops), d) && 0 <= e < entries.len()
                && d.filename == #[trigger] entries[e].0@ implies d.index < entries[e].1.lengths@.len() && d
                == entry_drop(install_dir, entries, e, d.index as int) by {
            lemma_manifest_items(install_dir, entries, d);
            let (f, i) = choose|f: int, i: int|
                0 <= f < entries.len() && 0 <= i < entries[f].1.lengths@.len() && #[trigger] entry_drop(install_dir, entries, f, i) == d;
            if f != e {
                if f < e {
                    assert(entries[f].0@ != entries[e].0@);
                } else {
                    assert(entries[e].0@ != entries[f].0@);
                }
            }
        }
    }
}

} // verus!
