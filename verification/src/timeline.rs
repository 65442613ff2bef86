//! Exposure timelines: which drawing of an element is shown on which frame.
use vstd::prelude::*;
use std::collections::BTreeMap;
use vstd::std_specs::cmp::OrdSpec;
use vstd::std_specs::iter::IteratorSpec;

verus! {

/// A run of frames `[start_frame, start_frame + duration)` on which one
/// drawing is exposed.
#[derive(Clone, Copy, Debug, PartialEq, Eq, Structural)]
pub struct ExposureBlock {
    pub drawing_id: u64,
    pub start_frame: u32,
    pub duration: u32,
}

proof fn lemma_frame_iter_sorted(m: &BTreeMap<u32, ExposureBlock>)
    ensures
        ({
            let ks = vstd::std_specs::btree::spec_keys_iter(m).remaining().map_values(|x: &u32| *x);
            &&& ks.to_set() == m@.dom()
            &&& forall|i: int, j: int| 0 <= i < j < ks.len() ==> ks[i] < ks[j]
        }),
{
    let rem = vstd::std_specs::btree::spec_keys_iter(m).remaining();
    let ks = rem.map_values(|x: &u32| *x);
    assert(rem.unref() =~= ks);
    assert(vstd::std_specs::btree::increasing_seq(rem));
    assert(vstd::laws_cmp::obeys_cmp::<&u32>());
    assert forall|i: int, j: int| 0 <= i < j < ks.len() implies ks[i] < ks[j] by {
        assert((&rem[i]).cmp_spec(&&rem[j]) is Less);
    }
}

/// The keys of a timeline, in increasing order.
pub fn sorted_frames(m: &BTreeMap<u32, ExposureBlock>) -> (r: Vec<u32>)
    ensures
        r@.to_set() == m@.dom(),
        r@.no_duplicates(),
        forall|i: int, j: int| 0 <= i < j < r@.len() ==> r@[i] < r@[j],
{
    let mut r: Vec<u32> = Vec::new();
    let ghost ks = vstd::std_specs::btree::spec_keys_iter(m).remaining().map_values(|x: &u32| *x);
    proof {
        lemma_frame_iter_sorted(m);
    }
    for k in it: m.keys()
        invariant
            it.seq() == vstd::std_specs::btree::spec_keys_iter(m).remaining(),
            ks == it.seq().map_values(|x: &u32| *x),
            r@ == ks.take(it.index()),
    {
        proof {
            assert(ks[it.index()] == *k);
        }
        r.push(*k);
        proof {
            assert(r@ =~= ks.take(it.index() + 1));
        }
    }
    proof {
        assert(r@ =~= ks);
    }
    r
}

/// The frame just past the end of a block.
pub open spec fn block_end(b: ExposureBlock) -> int {
    b.start_frame + b.duration
}

/// A timeline is well formed: each block is stored under its start frame,
/// lasts at least one frame, ends within the range of frame numbers, and no
/// two blocks share a frame.
pub open spec fn timeline_wf(m: Map<u32, ExposureBlock>) -> bool {
    &&& forall|k: u32| #[trigger] m.contains_key(k) ==> {
        &&& m[k].start_frame == k
        &&& m[k].duration > 0
        &&& k + m[k].duration <= u32::MAX
    }
    &&& forall|a: u32, b: u32|
        #[trigger] m.contains_key(a) && #[trigger] m.contains_key(b) && a < b ==> a + m[a].duration <= b
}

/// The block stored under `k` shows frame `f`.
pub open spec fn covers_at(m: Map<u32, ExposureBlock>, k: u32, f: int) -> bool {
    m.contains_key(k) && k <= f < k + m[k].duration
}

/// The block stored under `k` starts before frame `f` and goes on past it.
pub open spec fn straddles(m: Map<u32, ExposureBlock>, k: u32, f: int) -> bool {
    m.contains_key(k) && k < f < k + m[k].duration
}

/// The block that shows frame `f`, if any.
pub open spec fn block_at(m: Map<u32, ExposureBlock>, f: int) -> Option<ExposureBlock> {
    if exists|k: u32| covers_at(m, k, f) {
        Some(m[choose|k: u32| covers_at(m, k, f)])
    } else {
        None
    }
}

/// The drawing exposed on frame `f`, if any.
pub open spec fn drawing_at(m: Map<u32, ExposureBlock>, f: int) -> Option<u64> {
    match block_at(m, f) {
        Some(b) => Some(b.drawing_id),
        None => None,
    }
}

/// `b` cut short so that it ends at frame `s` at the latest.
pub open spec fn cut_before(b: ExposureBlock, s: u32) -> ExposureBlock {
    if b.start_frame + b.duration > s {
        ExposureBlock { duration: (s - b.start_frame) as u32, ..b }
    } else {
        b
    }
}

/// The part of `b` from frame `e` on.
pub open spec fn tail_from(b: ExposureBlock, e: u32) -> ExposureBlock {
    ExposureBlock { drawing_id: b.drawing_id, start_frame: e, duration: (b.start_frame + b.duration - e) as u32 }
}

/// The timeline with the frames `[s, e)` left empty: blocks before `s` are
/// cut short at `s`, blocks that start inside the range are dropped, and the
/// part of a block that runs past `e` is kept as a block starting at `e`.
pub open spec fn carve(m: Map<u32, ExposureBlock>, s: u32, e: u32) -> Map<u32, ExposureBlock> {
    Map::new(
        |k: u32|
            (m.contains_key(k) && (k < s || e <= k)) || (k == e && exists|j: u32| straddles(m, j, e as int)),
        |k: u32|
            if m.contains_key(k) && k < s {
                cut_before(m[k], s)
            } else if m.contains_key(k) && e <= k {
                m[k]
            } else {
                tail_from(m[choose|j: u32| straddles(m, j, e as int)], e)
            },
    )
}

/// The timeline with the drawing `id` exposed on the frames `[s, s + d)`.
pub open spec fn with_exposure(m: Map<u32, ExposureBlock>, s: u32, d: u32, id: u64) -> Map<u32, ExposureBlock> {
    carve(m, s, (s + d) as u32).insert(s, ExposureBlock { drawing_id: id, start_frame: s, duration: d })
}

/// The timeline with the block that straddles frame `cut` split in two at `cut`.
pub open spec fn split_at(m: Map<u32, ExposureBlock>, cut: u32) -> Map<u32, ExposureBlock> {
    if exists|j: u32| straddles(m, j, cut as int) {
        let j = choose|j: u32| straddles(m, j, cut as int);
        m.insert(j, cut_before(m[j], cut)).insert(cut, tail_from(m[j], cut))
    } else {
        m
    }
}

/// Splitting at `cut` a block that starts before `cut` and runs past it
/// leaves that block ending at `cut` and puts the rest of it, with the same
/// drawing, in a block stored under `cut`; every other block stays.
pub proof fn law_split_divides_the_straddling_block(m: Map<u32, ExposureBlock>, cut: u32, j: u32)
    requires
        timeline_wf(m),
        straddles(m, j, cut as int),
    ensures
        split_at(m, cut).contains_key(j),
        split_at(m, cut)[j] == (ExposureBlock { duration: (cut - j) as u32, ..m[j] }),
        split_at(m, cut).contains_key(cut),
        split_at(m, cut)[cut] == (ExposureBlock {
            drawing_id: m[j].drawing_id,
            start_frame: cut,
            duration: (j + m[j].duration - cut) as u32,
        }),
        forall|k: u32| k != j && k != cut ==> (#[trigger] split_at(m, cut).contains_key(k) <==> m.contains_key(k)),
        forall|k: u32| k != j && k != cut && m.contains_key(k) ==> #[trigger] split_at(m, cut)[k] == m[k],
{
    lemma_straddler_unique(m, cut as int, j);
    assert(m[j].start_frame == j);
}

/// Splitting at a frame that no block straddles changes nothing.
pub proof fn law_split_elsewhere_changes_nothing(m: Map<u32, ExposureBlock>, cut: u32)
    requires
        forall|j: u32| !straddles(m, j, cut as int),
    ensures
        split_at(m, cut) == m,
{
}

/// In a well-formed timeline a frame is shown by at most one block.
pub proof fn lemma_cover_unique(m: Map<u32, ExposureBlock>, f: int, k: u32)
    requires
        timeline_wf(m),
        covers_at(m, k, f),
    ensures
        block_at(m, f) == Some(m[k]),
        drawing_at(m, f) == Some(m[k].drawing_id),
{
    let c = choose|j: u32| covers_at(m, j, f);
    assert(covers_at(m, c, f));
    if c < k {
        assert(m.contains_key(c) && m.contains_key(k));
    } else if k < c {
        assert(m.contains_key(c) && m.contains_key(k));
    }
}

/// No block shows frame `f`.
pub proof fn lemma_no_cover(m: Map<u32, ExposureBlock>, f: int)
    requires
        forall|k: u32| !covers_at(m, k, f),
    ensures
        block_at(m, f) is None,
        drawing_at(m, f) is None,
{
}

/// At most one block straddles a frame, and then no block starts on it.
proof fn lemma_straddler_unique(m: Map<u32, ExposureBlock>, f: int, j: u32)
    requires
        timeline_wf(m),
        straddles(m, j, f),
    ensures
        forall|i: u32| straddles(m, i, f) ==> i == j,
        0 <= f <= u32::MAX ==> !m.contains_key(f as u32),
        (choose|i: u32| straddles(m, i, f)) == j,
{
    assert forall|i: u32| straddles(m, i, f) implies i == j by {
        if i < j {
            assert(m.contains_key(i) && m.contains_key(j));
        } else if j < i {
            assert(m.contains_key(i) && m.contains_key(j));
        }
    }
    if 0 <= f <= u32::MAX && m.contains_key(f as u32) {
        assert(m.contains_key(j) && m.contains_key(f as u32));
        assert(false);
    }
}

/// Carving keeps a timeline well formed and empties exactly the carved frames.
pub proof fn lemma_carve(m: Map<u32, ExposureBlock>, s: u32, e: u32)
    requires
        timeline_wf(m),
        s < e,
    ensures
        timeline_wf(carve(m, s, e)),
        forall|f: int| #[trigger] drawing_at(carve(m, s, e), f)
            == if s <= f < e { None } else { drawing_at(m, f) },
{
    let c = carve(m, s, e);
    let has_piece = exists|j: u32| straddles(m, j, e as int);
    if has_piece {
        let j = choose|j: u32| straddles(m, j, e as int);
        lemma_straddler_unique(m, e as int, j);
    }
    // every block of the carved timeline lies inside a block of the original one
    assert forall|k: u32| #[trigger] c.contains_key(k) implies {
        &&& c[k].start_frame == k
        &&& c[k].duration > 0
        &&& k + c[k].duration <= u32::MAX
        &&& (k < s ==> m.contains_key(k) && k + c[k].duration <= s && k + c[k].duration <= k + m[k].duration)
        &&& (e <= k && m.contains_key(k) ==> c[k] == m[k])
        &&& (k == e && !m.contains_key(k) ==> {
            let j = choose|j: u32| straddles(m, j, e as int);
            &&& straddles(m, j, e as int)
            &&& c[k].drawing_id == m[j].drawing_id
            &&& k + c[k].duration == j + m[j].duration
        })
        &&& (s <= k < e ==> false)
    } by {
        if m.contains_key(k) && k < s {
        } else if m.contains_key(k) && e <= k {
        } else {
            let j = choose|j: u32| straddles(m, j, e as int);
            assert(straddles(m, j, e as int));
        }
    }
    assert forall|a: u32, b: u32|
        #[trigger] c.contains_key(a) && #[trigger] c.contains_key(b) && a < b implies a + c[a].duration <= b by {
        assert(m.contains_key(a) || a == e);
        if a < s {
            if b < s {
                assert(m.contains_key(a) && m.contains_key(b));
            }
        } else if m.contains_key(a) && m.contains_key(b) {
            assert(c[a] == m[a]);
        } else if a == e && !m.contains_key(a) {
            let j = choose|j: u32| straddles(m, j, e as int);
            assert(m.contains_key(j) && m.contains_key(b) && j < b);
        }
    }
    assert forall|f: int| #[trigger] drawing_at(c, f) == if s <= f < e { None } else { drawing_at(m, f) } by {
        if s <= f < e {
            assert forall|k: u32| !covers_at(c, k, f) by {
                if c.contains_key(k) && k < s {
                }
            }
            lemma_no_cover(c, f);
        } else if exists|k: u32| covers_at(m, k, f) {
            let k = choose|k: u32| covers_at(m, k, f);
            lemma_cover_unique(m, f, k);
            if k < s {
                if f < s {
                    assert(covers_at(c, k, f));
                    lemma_cover_unique(c, f, k);
                } else {
                    assert(straddles(m, k, e as int));
                    lemma_straddler_unique(m, e as int, k);
                    assert(covers_at(c, e, f));
                    lemma_cover_unique(c, f, e);
                }
            } else if e <= k {
                assert(covers_at(c, k, f));
                lemma_cover_unique(c, f, k);
            } else {
                assert(straddles(m, k, e as int));
                lemma_straddler_unique(m, e as int, k);
                assert(covers_at(c, e, f));
                lemma_cover_unique(c, f, e);
            }
        } else {
            assert forall|k: u32| !covers_at(c, k, f) by {
                if covers_at(c, k, f) {
                    if k < s {
                        assert(covers_at(m, k, f));
                    } else if m.contains_key(k) {
                        assert(covers_at(m, k, f));
                    } else {
                        let j = choose|j: u32| straddles(m, j, e as int);
                        assert(covers_at(m, j, f));
                    }
                }
            }
            lemma_no_cover(c, f);
            lemma_no_cover(m, f);
        }
    }
}

/// Carving the same frames again changes nothing, also after a block was
/// put on exactly those frames.
pub proof fn lemma_carve_again(m: Map<u32, ExposureBlock>, s: u32, e: u32, b: ExposureBlock)
    requires
        timeline_wf(m),
        s < e,
        s + b.duration == e,
    ensures
        carve(carve(m, s, e), s, e) == carve(m, s, e),
        carve(carve(m, s, e).insert(s, b), s, e) == carve(m, s, e),
{
    let c = carve(m, s, e);
    let c2 = c.insert(s, b);
    assert forall|k: u32| #[trigger] c.contains_key(k) && k < s implies c[k].start_frame == k && k + c[k].duration <= s by {
        assert(m.contains_key(k));
    }
    assert forall|j: u32| !straddles(c, j, e as int) by {
        if straddles(c, j, e as int) {
            assert(j < s);
        }
    }
    assert forall|j: u32| !straddles(c2, j, e as int) by {
        if straddles(c2, j, e as int) {
            if j != s {
                assert(straddles(c, j, e as int));
            }
        }
    }
    assert(carve(c, s, e) =~= c);
    assert(carve(c2, s, e) =~= c);
}

/// Exposing a drawing on a run of frames keeps a timeline well formed; the
/// run then shows that drawing and every other frame shows what it showed before.
pub proof fn lemma_with_exposure(m: Map<u32, ExposureBlock>, s: u32, d: u32, id: u64)
    requires
        timeline_wf(m),
        d > 0,
        s + d <= u32::MAX,
    ensures
        timeline_wf(with_exposure(m, s, d, id)),
        forall|f: int| #[trigger] drawing_at(with_exposure(m, s, d, id), f)
            == if s <= f < s + d { Some(id) } else { drawing_at(m, f) },
{
    let e = (s + d) as u32;
    let c = carve(m, s, e);
    lemma_carve(m, s, e);
    let w = with_exposure(m, s, d, id);
    assert(!c.contains_key(s));
    assert forall|a: u32, b: u32|
        #[trigger] w.contains_key(a) && #[trigger] w.contains_key(b) && a < b implies a + w[a].duration <= b by {
        if a != s && b != s {
            assert(c.contains_key(a) && c.contains_key(b));
        } else if a == s {
            assert(c.contains_key(b));
        } else {
            assert(c.contains_key(a));
        }
    }
    assert forall|f: int| #[trigger] drawing_at(w, f) == if s <= f < s + d { Some(id) } else { drawing_at(m, f) } by {
        assert(drawing_at(c, f) == if s <= f < e { None } else { drawing_at(m, f) });
        if s <= f < s + d {
            assert(covers_at(w, s, f));
            lemma_cover_unique(w, f, s);
        } else if exists|k: u32| covers_at(c, k, f) {
            let k = choose|k: u32| covers_at(c, k, f);
            lemma_cover_unique(c, f, k);
            assert(covers_at(w, k, f));
            lemma_cover_unique(w, f, k);
        } else {
            assert forall|k: u32| !covers_at(w, k, f) by {
                if k != s {
                    assert(!covers_at(c, k, f));
                }
            }
            lemma_no_cover(w, f);
            lemma_no_cover(c, f);
        }
    }
}

/// Splitting a block keeps a timeline well formed and changes no frame.
pub proof fn lemma_split_at(m: Map<u32, ExposureBlock>, cut: u32)
    requires
        timeline_wf(m),
    ensures
        timeline_wf(split_at(m, cut)),
        forall|f: int| #[trigger] drawing_at(split_at(m, cut), f) == drawing_at(m, f),
{
    if exists|j: u32| straddles(m, j, cut as int) {
        let j = choose|j: u32| straddles(m, j, cut as int);
        lemma_straddler_unique(m, cut as int, j);
        let w = split_at(m, cut);
        assert forall|a: u32, b: u32|
            #[trigger] w.contains_key(a) && #[trigger] w.contains_key(b) && a < b implies a + w[a].duration <= b by {
            if a != j && a != cut && b != j && b != cut {
                assert(m.contains_key(a) && m.contains_key(b));
            } else if a == j {
                if b != cut {
                    assert(m.contains_key(a) && m.contains_key(b));
                }
            } else if a == cut {
                assert(m.contains_key(j) && m.contains_key(b) && j < b);
            } else if b == j {
                assert(m.contains_key(a) && m.contains_key(b));
            } else {
                assert(m.contains_key(a) && m.contains_key(j));
            }
        }
        assert forall|f: int| #[trigger] drawing_at(w, f) == drawing_at(m, f) by {
            if exists|k: u32| covers_at(m, k, f) {
                let k = choose|k: u32| covers_at(m, k, f);
                lemma_cover_unique(m, f, k);
                if k == j {
                    if f < cut {
                        assert(covers_at(w, j, f));
                        lemma_cover_unique(w, f, j);
                    } else {
                        assert(covers_at(w, cut, f));
                        lemma_cover_unique(w, f, cut);
                    }
                } else {
                    assert(covers_at(w, k, f));
                    lemma_cover_unique(w, f, k);
                }
            } else {
                assert forall|k: u32| !covers_at(w, k, f) by {
                    if k == cut {
                        assert(!covers_at(m, j, f));
                    } else if k == j {
                        assert(!covers_at(m, j, f));
                    } else {
                        assert(!covers_at(m, k, f));
                    }
                }
                lemma_no_cover(w, f);
                lemma_no_cover(m, f);
            }
        }
    }
}

/// What carving does with one block `b` of the timeline, added to the
/// carving `c` of the blocks seen so far.
pub open spec fn carve_step(c: Map<u32, ExposureBlock>, b: ExposureBlock, s: u32, e: u32) -> Map<u32, ExposureBlock> {
    let k = b.start_frame;
    if k < s {
        let c1 = c.insert(k, cut_before(b, s));
        if k + b.duration > e { c1.insert(e, tail_from(b, e)) } else { c1 }
    } else if k < e {
        if k + b.duration > e { c.insert(e, tail_from(b, e)) } else { c }
    } else {
        c.insert(k, b)
    }
}

proof fn lemma_restrict_wf(m: Map<u32, ExposureBlock>, p: Set<u32>)
    requires
        timeline_wf(m),
    ensures
        timeline_wf(m.restrict(p)),
{
    let r = m.restrict(p);
    assert forall|a: u32, b: u32|
        #[trigger] r.contains_key(a) && #[trigger] r.contains_key(b) && a < b implies a + r[a].duration <= b by {
        assert(m.contains_key(a) && m.contains_key(b));
    }
}

proof fn lemma_carve_step(m: Map<u32, ExposureBlock>, s: u32, e: u32, p: Set<u32>, k: u32)
    requires
        timeline_wf(m),
        s < e,
        m.contains_key(k),
        !p.contains(k),
    ensures
        carve(m.restrict(p.insert(k)), s, e) == carve_step(carve(m.restrict(p), s, e), m[k], s, e),
{
    let m0 = m.restrict(p);
    let m1 = m.restrict(p.insert(k));
    lemma_restrict_wf(m, p);
    lemma_restrict_wf(m, p.insert(k));
    let c0 = carve(m0, s, e);
    let c1 = carve(m1, s, e);
    let st = carve_step(c0, m[k], s, e);
    let ks = straddles(m, k, e as int);
    if ks {
        assert(straddles(m1, k, e as int));
        lemma_straddler_unique(m1, e as int, k);
        assert(!exists|j: u32| straddles(m0, j, e as int));
    } else {
        assert forall|j: u32| straddles(m1, j, e as int) <==> straddles(m0, j, e as int) by {
            if j == k {
            }
        }
        if exists|j: u32| straddles(m0, j, e as int) {
            let j = choose|j: u32| straddles(m0, j, e as int);
            lemma_straddler_unique(m0, e as int, j);
            assert(straddles(m1, j, e as int));
            lemma_straddler_unique(m1, e as int, j);
            if k == e {
                assert(straddles(m, j, e as int));
                lemma_straddler_unique(m, e as int, j);
            }
        }
    }
    assert(c1 =~= st);
}

/// Growing a prefix by one element adds that element to its set.
pub proof fn lemma_take_one_more<A>(s: Seq<A>, i: int)
    requires
        0 <= i < s.len(),
    ensures
        s.take(i + 1).to_set() == s.take(i).to_set().insert(s[i]),
{
    assert(s.take(i + 1) =~= s.take(i).push(s[i]));
    s.take(i).lemma_push_to_set_commute(s[i]);
}

/// The block of a well-formed timeline that shows `frame`, if any.
pub fn exposure_at(m: &BTreeMap<u32, ExposureBlock>, frame: u32) -> (r: Option<ExposureBlock>)
    requires
        timeline_wf(m@),
    ensures
        r == block_at(m@, frame as int),
{
    let keys = sorted_frames(m);
    let n = keys.len();
    for i in 0..n
        invariant
            n == keys@.len(),
            keys@.to_set() == m@.dom(),
            timeline_wf(m@),
            forall|j: int| 0 <= j < i ==> !covers_at(m@, keys@[j], frame as int),
    {
        let k = keys[i];
        assert(keys@.to_set().contains(k));
        let b = *m.get(&k).unwrap();
        if b.start_frame <= frame && (frame as u64) < (b.start_frame as u64) + (b.duration as u64) {
            proof {
                lemma_cover_unique(m@, frame as int, k);
            }
            return Some(b);
        }
    }
    proof {
        assert forall|k: u32| !covers_at(m@, k, frame as int) by {
            if m@.contains_key(k) {
                assert(keys@.to_set().contains(k));
                let j = choose|j: int| 0 <= j < keys@.len() && keys@[j] == k;
            }
        }
        lemma_no_cover(m@, frame as int);
    }
    None
}

/// A copy of a well-formed timeline with the frames `[s, e)` left empty.
pub fn carve_exposures(m: &BTreeMap<u32, ExposureBlock>, s: u32, e: u32) -> (r: BTreeMap<u32, ExposureBlock>)
    requires
        timeline_wf(m@),
        s < e,
    ensures
        r@ == carve(m@, s, e),
{
    let keys = sorted_frames(m);
    let n = keys.len();
    let mut r: BTreeMap<u32, ExposureBlock> = BTreeMap::new();
    proof {
        assert(m@.restrict(keys@.take(0).to_set()) =~= Map::empty());
        assert(carve(Map::<u32, ExposureBlock>::empty(), s, e) =~= Map::empty());
    }
    for i in 0..n
        invariant
            n == keys@.len(),
            keys@.to_set() == m@.dom(),
            keys@.no_duplicates(),
            timeline_wf(m@),
            s < e,
            r@ == carve(m@.restrict(keys@.take(i as int).to_set()), s, e),
    {
        let k = keys[i];
        assert(keys@.to_set().contains(k));
        let b = *m.get(&k).unwrap();
        proof {
            let p = keys@.take(i as int).to_set();
            assert(!p.contains(k));
            lemma_take_one_more(keys@, i as int);
            lemma_carve_step(m@, s, e, p, k);
        }
        let end = (b.start_frame as u64) + (b.duration as u64);
        if b.start_frame < s {
            if end > s as u64 {
                r.insert(k, ExposureBlock { duration: s - b.start_frame, ..b });
            } else {
                r.insert(k, b);
            }
            if end > e as u64 {
                r.insert(e, ExposureBlock { drawing_id: b.drawing_id, start_frame: e, duration: (end - e as u64) as u32 });
            }
        } else if b.start_frame < e {
            if end > e as u64 {
                r.insert(e, ExposureBlock { drawing_id: b.drawing_id, start_frame: e, duration: (end - e as u64) as u32 });
            }
        } else {
            r.insert(k, b);
        }
    }
    proof {
        assert(keys@.take(n as int) =~= keys@);
        assert(m@.restrict(keys@.to_set()) =~= m@);
    }
    r
}

/// Exposes the drawing `id` on the frames `[s, s + d)` of a well-formed
/// timeline, cutting back or dropping what was there.
pub fn set_exposure_in(m: &mut BTreeMap<u32, ExposureBlock>, s: u32, d: u32, id: u64)
    requires
        timeline_wf(old(m)@),
        d > 0,
        s + d <= u32::MAX,
    ensures
        final(m)@ == with_exposure(old(m)@, s, d, id),
        timeline_wf(final(m)@),
{
    proof {
        lemma_with_exposure(old(m)@, s, d, id);
    }
    let mut r = carve_exposures(m, s, s + d);
    r.insert(s, ExposureBlock { drawing_id: id, start_frame: s, duration: d });
    *m = r;
}

/// Leaves the frames `[s, s + d)` of a well-formed timeline empty.
pub fn clear_exposure_in(m: &mut BTreeMap<u32, ExposureBlock>, s: u32, d: u32)
    requires
        timeline_wf(old(m)@),
        d > 0,
        s + d <= u32::MAX,
    ensures
        final(m)@ == carve(old(m)@, s, (s + d) as u32),
        timeline_wf(final(m)@),
{
    proof {
        lemma_carve(old(m)@, s, (s + d) as u32);
    }
    let r = carve_exposures(m, s, s + d);
    *m = r;
}

/// Splits the block that straddles `cut` into the part before `cut` and
/// the part from `cut` on; a timeline with no such block is left alone.
pub fn split_exposure_in(m: &mut BTreeMap<u32, ExposureBlock>, cut: u32)
    requires
        timeline_wf(old(m)@),
    ensures
        final(m)@ == split_at(old(m)@, cut),
        timeline_wf(final(m)@),
{
    proof {
        lemma_split_at(old(m)@, cut);
    }
    match exposure_at(m, cut) {
        Some(b) => {
            if cut > b.start_frame {
                proof {
                    let k = choose|k: u32| covers_at(old(m)@, k, cut as int);
                    assert(covers_at(old(m)@, k, cut as int));
                    assert(straddles(old(m)@, k, cut as int));
                    lemma_straddler_unique(old(m)@, cut as int, k);
                }
                let first = ExposureBlock { duration: cut - b.start_frame, ..b };
                let second = ExposureBlock {
                    drawing_id: b.drawing_id,
                    start_frame: cut,
                    duration: b.start_frame + b.duration - cut,
                };
                m.insert(b.start_frame, first);
                m.insert(cut, second);
            } else {
                proof {
                    let k = choose|k: u32| covers_at(old(m)@, k, cut as int);
                    assert(covers_at(old(m)@, k, cut as int));
                    if exists|j: u32| straddles(old(m)@, j, cut as int) {
                        let j = choose|j: u32| straddles(old(m)@, j, cut as int);
                        lemma_straddler_unique(old(m)@, cut as int, j);
                        assert(covers_at(old(m)@, j, cut as int));
                        lemma_cover_unique(old(m)@, cut as int, j);
                    }
                }
            }
        },
        None => {
            proof {
                if exists|j: u32| straddles(old(m)@, j, cut as int) {
                    let j = choose|j: u32| straddles(old(m)@, j, cut as int);
                    assert(covers_at(old(m)@, j, cut as int));
                }
            }
        },
    }
}

} // verus!
