//! What the cutting tools record once the host has sliced the strokes
//! they touched: one undoable batch of cuts, with fresh identifiers for the
//! fragments.
use vstd::prelude::*;
use crate::graph::{SceneManager, SceneView, IdAllocator, StrokeId, ShapeKey, ElementId, DrawingId, ArtLayerType};
use crate::command::{Command, CutCommand, BatchCommand, AffineCommand, AddStrokeCommand};

verus! {

/// How the host sliced one stroke: its identifier and shape, and the
/// shapes of the fragments inside and outside the cut.
pub struct SliceResult {
    pub stroke_id: StrokeId,
    pub original: ShapeKey,
    pub inside: Vec<ShapeKey>,
    pub outside: Vec<ShapeKey>,
}

/// Fresh identifiers from `first` on, paired with the given shapes.
pub open spec fn numbered(first: int, shapes: Seq<ShapeKey>) -> Seq<(StrokeId, ShapeKey)> {
    Seq::new(shapes.len(), |k: int| ((first + k) as u64, shapes[k]))
}

/// The cuts a lasso records, in order, and the next free identifier: a
/// stroke with fragments inside the lasso is replaced by its inside
/// fragments and then its outside ones, numbered in turn; other strokes
/// are left alone.
pub open spec fn lasso_plan(rs: Seq<SliceResult>, first: int) -> (Seq<(StrokeId, ShapeKey, Seq<(StrokeId, ShapeKey)>)>, int)
    decreases rs.len(),
{
    if rs.len() == 0 {
        (Seq::empty(), first)
    } else {
        let (plan, next) = lasso_plan(rs.drop_last(), first);
        let r = rs.last();
        if r.inside@.len() > 0 {
            let shapes = r.inside@ + r.outside@;
            (plan.push((r.stroke_id, r.original, numbered(next, shapes))), next + shapes.len())
        } else {
            (plan, next)
        }
    }
}

/// The identifiers that a lasso's cuts give to inside fragments.
pub open spec fn lasso_selection(rs: Seq<SliceResult>, first: int) -> Set<StrokeId>
    decreases rs.len(),
{
    if rs.len() == 0 {
        Set::empty()
    } else {
        let next = lasso_plan(rs.drop_last(), first).1;
        let r = rs.last();
        let sel = lasso_selection(rs.drop_last(), first);
        if r.inside@.len() > 0 {
            sel.union(numbered(next, r.inside@).map_values(|p: (StrokeId, ShapeKey)| p.0).to_set())
        } else {
            sel
        }
    }
}

/// The identifier a lasso cut gives to the `k`-th inside fragment of result
/// `i`: the `k`-th one after those numbered for the results before it.
pub open spec fn inside_id(rs: Seq<SliceResult>, first: int, i: int, k: int) -> StrokeId {
    (lasso_plan(rs.take(i), first).1 + k) as u64
}

/// After a lasso cut the selection is exactly the identifiers given to
/// inside fragments of every cut stroke.
pub proof fn law_lasso_selects_every_inside_piece(rs: Seq<SliceResult>, first: int, x: StrokeId)
    ensures
        lasso_selection(rs, first).contains(x) <==> exists|i: int, k: int|
            0 <= i < rs.len() && 0 <= k < rs[i].inside@.len() && x == #[trigger] inside_id(rs, first, i, k),
    decreases rs.len(),
{
    if rs.len() > 0 {
        let n = rs.len() - 1;
        let rs0 = rs.drop_last();
        let r = rs.last();
        let next = lasso_plan(rs0, first).1;
        let ids = numbered(next, r.inside@).map_values(|p: (StrokeId, ShapeKey)| p.0);
        law_lasso_selects_every_inside_piece(rs0, first, x);
        assert(rs.take(n) =~= rs0);
        if lasso_selection(rs, first).contains(x) {
            if lasso_selection(rs0, first).contains(x) {
                let (i, k) = choose|i: int, k: int|
                    0 <= i < rs0.len() && 0 <= k < rs0[i].inside@.len() && x == #[trigger] inside_id(rs0, first, i, k);
                assert(rs.take(i) =~= rs0.take(i));
                assert(rs[i] == rs0[i]);
                assert(x == inside_id(rs, first, i, k));
            } else {
                assert(r.inside@.len() > 0 && ids.to_set().contains(x));
                let k = choose|k: int| 0 <= k < ids.len() && ids[k] == x;
                assert(rs[n] == r);
                assert(x == inside_id(rs, first, n, k));
            }
        }
        if exists|i: int, k: int| 0 <= i < rs.len() && 0 <= k < rs[i].inside@.len() && x == #[trigger] inside_id(rs, first, i, k) {
            let (i, k) = choose|i: int, k: int|
                0 <= i < rs.len() && 0 <= k < rs[i].inside@.len() && x == #[trigger] inside_id(rs, first, i, k);
            if i < n {
                assert(rs.take(i) =~= rs0.take(i));
                assert(rs[i] == rs0[i]);
                assert(x == inside_id(rs0, first, i, k));
                assert(lasso_selection(rs0, first).contains(x));
            } else {
                assert(rs[i] == r);
                assert(ids[k] == x);
                assert(ids.to_set().contains(x));
            }
        }
    }
}

/// The cuts an eraser records, in order, and the next free identifier:
/// every touched stroke is replaced by its fragments, numbered in turn.
pub open spec fn erase_plan(rs: Seq<SliceResult>, first: int) -> (Seq<(StrokeId, ShapeKey, Seq<(StrokeId, ShapeKey)>)>, int)
    decreases rs.len(),
{
    if rs.len() == 0 {
        (Seq::empty(), first)
    } else {
        let (plan, next) = erase_plan(rs.drop_last(), first);
        let r = rs.last();
        (plan.push((r.stroke_id, r.original, numbered(next, r.outside@))), next + r.outside@.len())
    }
}

/// The total number of fragments of the results.
pub open spec fn fragment_count(rs: Seq<SliceResult>) -> int
    decreases rs.len(),
{
    if rs.len() == 0 {
        0
    } else {
        fragment_count(rs.drop_last()) + rs.last().inside@.len() + rs.last().outside@.len()
    }
}

/// The batch records exactly the planned cuts, at the given place.
pub open spec fn batch_matches(
    c: Command,
    plan: Seq<(StrokeId, ShapeKey, Seq<(StrokeId, ShapeKey)>)>,
    eid: ElementId,
    did: DrawingId,
    t: ArtLayerType,
) -> bool {
    &&& c is Batch
    &&& c->Batch_0.commands@.len() == plan.len()
    &&& forall|i: int| 0 <= i < plan.len() ==> {
        let x = (#[trigger] c->Batch_0.commands@[i]);
        &&& x is Cut
        &&& x->Cut_0.element_id == eid
        &&& x->Cut_0.drawing_id == did
        &&& x->Cut_0.art_layer == t
        &&& x->Cut_0.severed_stroke_id == plan[i].0
        &&& x->Cut_0.original_element == plan[i].1
        &&& x->Cut_0.new_fragments@ == plan[i].2
    }
}

proof fn lemma_plan_bounds(rs: Seq<SliceResult>, first: int)
    ensures
        first <= lasso_plan(rs, first).1 <= first + fragment_count(rs),
        first <= erase_plan(rs, first).1 <= first + fragment_count(rs),
    decreases rs.len(),
{
    if rs.len() > 0 {
        lemma_plan_bounds(rs.drop_last(), first);
    }
}

/// Pairs fresh identifiers from the allocator with the given shapes.
fn number_fragments(allocator: &mut IdAllocator, shapes: &Vec<ShapeKey>, out: &mut Vec<(StrokeId, ShapeKey)>)
    requires
        old(allocator).next() + shapes@.len() < u64::MAX,
    ensures
        final(allocator).next() == old(allocator).next() + shapes@.len(),
        final(out)@ == old(out)@ + numbered(old(allocator).next() as int, shapes@),
{
    let ghost first = allocator.next();
    let ghost out0 = out@;
    for i in 0..shapes.len()
        invariant
            first + shapes@.len() < u64::MAX,
            allocator.next() == first + i,
            out@ == out0 + numbered(first as int, shapes@.take(i as int)),
    {
        let id = allocator.generate();
        out.push((id, shapes[i]));
        proof {
            assert(out@ =~= out0 + numbered(first as int, shapes@.take(i + 1)));
        }
    }
    proof {
        assert(shapes@.take(shapes@.len() as int) =~= shapes@);
    }
}

/// Records a lasso cut: for each sliced stroke with fragments inside the
/// lasso, one cut replacing it by its inside and outside fragments under
/// fresh identifiers, all in one batch for the target drawing. When there
/// is such a stroke, the inside fragments become the selection and the
/// batch is returned (for the host to do and record); otherwise nothing.
pub fn resolve_lasso_cut(scene: &mut SceneManager, allocator: &mut IdAllocator, results: &Vec<SliceResult>) -> (r: Option<Command>)
    requires
        old(scene)@.wf(),
        old(scene)@.elements.contains_key(old(scene)@.target_element()),
        old(allocator).next() + fragment_count(results@) < u64::MAX,
    ensures
        ({
            let s = old(scene)@;
            let (plan, next) = lasso_plan(results@, old(allocator).next() as int);
            &&& final(allocator).next() == next
            &&& match r {
                Some(c) => plan.len() > 0
                    && batch_matches(c, plan, s.target_element(), s.target_drawing(), s.active_art_layer)
                    && final(scene)@ == (SceneView {
                        selected_strokes: lasso_selection(results@, old(allocator).next() as int),
                        ..s
                    }),
                None => plan.len() == 0 && final(scene)@ == s,
            }
        }),
{
    let (element_id, drawing_id) = scene.target_location();
    let art_layer = scene.active_art_layer;
    let ghost first = allocator.next() as int;
    let mut commands: Vec<Command> = Vec::new();
    let mut selected: Vec<StrokeId> = Vec::new();
    let n = results.len();
    for i in 0..n
        invariant
            n == results@.len(),
            first + fragment_count(results@) < u64::MAX,
            allocator.next() == lasso_plan(results@.take(i as int), first).1,
            selected@.to_set() == lasso_selection(results@.take(i as int), first),
            ({
                let plan = lasso_plan(results@.take(i as int), first).0;
                &&& commands@.len() == plan.len()
                &&& forall|j: int| 0 <= j < plan.len() ==> {
                    let x = (#[trigger] commands@[j]);
                    &&& x is Cut
                    &&& x->Cut_0.element_id == element_id
                    &&& x->Cut_0.drawing_id == drawing_id
                    &&& x->Cut_0.art_layer == art_layer
                    &&& x->Cut_0.severed_stroke_id == plan[j].0
                    &&& x->Cut_0.original_element == plan[j].1
                    &&& x->Cut_0.new_fragments@ == plan[j].2
                }
            }),
    {
        let ghost pre = results@.take(i as int);
        proof {
            assert(results@.take(i + 1).drop_last() =~= pre);
            assert(results@.take(i + 1).last() == results@[i as int]);
            lemma_plan_bounds(pre, first);
            lemma_fragment_count_prefix(results@, i + 1);
        }
        let res = &results[i];
        if res.inside.len() > 0 {
            let ghost next = allocator.next() as int;
            let mut frags: Vec<(StrokeId, ShapeKey)> = Vec::new();
            number_fragments(allocator, &res.inside, &mut frags);
            let ghost sel_before = selected@;
            proof {
                assert(frags@ =~= numbered(next, res.inside@));
            }
            for k in 0..frags.len()
                invariant
                    selected@.to_set() == sel_before.to_set().union(frags@.take(k as int).map_values(|p: (StrokeId, ShapeKey)| p.0).to_set()),
            {
                let ghost sel_prev = selected@;
                selected.push(frags[k].0);
                proof {
                    sel_prev.lemma_push_to_set_commute(frags@[k as int].0);
                    frags@.take(k as int).map_values(|p: (StrokeId, ShapeKey)| p.0).lemma_push_to_set_commute(frags@[k as int].0);
                    assert(frags@.take(k + 1).map_values(|p: (StrokeId, ShapeKey)| p.0)
                        =~= frags@.take(k as int).map_values(|p: (StrokeId, ShapeKey)| p.0).push(frags@[k as int].0));
                    assert(selected@.to_set() =~= sel_before.to_set().union(
                        frags@.take(k + 1).map_values(|p: (StrokeId, ShapeKey)| p.0).to_set()));
                }
            }
            proof {
                assert(frags@.take(frags@.len() as int) =~= frags@);
            }
            number_fragments(allocator, &res.outside, &mut frags);
            proof {
                assert(frags@ =~= numbered(next, res.inside@ + res.outside@));
            }
            commands.push(Command::Cut(CutCommand {
                element_id,
                drawing_id,
                art_layer,
                severed_stroke_id: res.stroke_id,
                original_element: res.original,
                new_fragments: frags,
            }));
        }
    }
    proof {
        assert(results@.take(n as int) =~= results@);
    }
    if commands.len() > 0 {
        scene.selected_strokes.clear();
        let ghost s_mid = scene@;
        proof {
            assert(selected@.take(0).to_set() =~= Set::<StrokeId>::empty());
        }
        for k in 0..selected.len()
            invariant
                scene@ == (SceneView { selected_strokes: selected@.take(k as int).to_set(), ..s_mid }),
        {
            proof {
                crate::timeline::lemma_take_one_more(selected@, k as int);
            }
            scene.selected_strokes.insert(selected[k]);
        }
        proof {
            assert(selected@.take(selected@.len() as int) =~= selected@);
        }
        Some(Command::Batch(BatchCommand { commands }))
    } else {
        None
    }
}

proof fn lemma_fragment_count_prefix(rs: Seq<SliceResult>, i: int)
    requires
        0 <= i <= rs.len(),
    ensures
        fragment_count(rs.take(i)) <= fragment_count(rs),
    decreases rs.len() - i,
{
    if i < rs.len() {
        lemma_fragment_count_prefix(rs, i + 1);
        assert(rs.take(i + 1).drop_last() =~= rs.take(i));
    } else {
        assert(rs.take(i) =~= rs);
    }
}

/// Records an eraser stroke: for each sliced stroke, one cut replacing it
/// by its remaining fragments (the `outside` shapes) under fresh
/// identifiers, all in one batch for the target drawing; nothing when no
/// stroke was touched.
pub fn resolve_erase(scene: &SceneManager, allocator: &mut IdAllocator, results: &Vec<SliceResult>) -> (r: Option<Command>)
    requires
        scene@.wf(),
        scene@.elements.contains_key(scene@.target_element()),
        old(allocator).next() + fragment_count(results@) < u64::MAX,
    ensures
        ({
            let s = scene@;
            let (plan, next) = erase_plan(results@, old(allocator).next() as int);
            &&& final(allocator).next() == next
            &&& match r {
                Some(c) => plan.len() > 0 && batch_matches(c, plan, s.target_element(), s.target_drawing(), s.active_art_layer),
                None => plan.len() == 0,
            }
        }),
{
    let (element_id, drawing_id) = scene.target_location();
    let art_layer = scene.active_art_layer;
    let ghost first = allocator.next() as int;
    let mut commands: Vec<Command> = Vec::new();
    let n = results.len();
    for i in 0..n
        invariant
            n == results@.len(),
            first + fragment_count(results@) < u64::MAX,
            allocator.next() == erase_plan(results@.take(i as int), first).1,
            ({
                let plan = erase_plan(results@.take(i as int), first).0;
                &&& commands@.len() == plan.len()
                &&& forall|j: int| 0 <= j < plan.len() ==> {
                    let x = (#[trigger] commands@[j]);
                    &&& x is Cut
                    &&& x->Cut_0.element_id == element_id
                    &&& x->Cut_0.drawing_id == drawing_id
                    &&& x->Cut_0.art_layer == art_layer
                    &&& x->Cut_0.severed_stroke_id == plan[j].0
                    &&& x->Cut_0.original_element == plan[j].1
                    &&& x->Cut_0.new_fragments@ == plan[j].2
                }
            }),
    {
        let ghost pre = results@.take(i as int);
        proof {
            assert(results@.take(i + 1).drop_last() =~= pre);
            assert(results@.take(i + 1).last() == results@[i as int]);
            lemma_plan_bounds(pre, first);
            lemma_fragment_count_prefix(results@, i + 1);
        }
        let res = &results[i];
        let mut frags: Vec<(StrokeId, ShapeKey)> = Vec::new();
        let ghost next = allocator.next() as int;
        number_fragments(allocator, &res.outside, &mut frags);
        proof {
            assert(frags@ =~= numbered(next, res.outside@));
        }
        commands.push(Command::Cut(CutCommand {
            element_id,
            drawing_id,
            art_layer,
            severed_stroke_id: res.stroke_id,
            original_element: res.original,
            new_fragments: frags,
        }));
    }
    proof {
        assert(results@.take(n as int) =~= results@);
    }
    if commands.len() > 0 {
        Some(Command::Batch(BatchCommand { commands }))
    } else {
        None
    }
}

/// The strokes of `originals` that the layer now holds, with their
/// current shapes, in the order of `originals`.
pub open spec fn current_of(originals: Seq<(StrokeId, ShapeKey)>, l: Map<StrokeId, ShapeKey>) -> Seq<(StrokeId, ShapeKey)>
    decreases originals.len(),
{
    if originals.len() == 0 {
        Seq::empty()
    } else {
        let rest = current_of(originals.drop_last(), l);
        let id = originals.last().0;
        if l.contains_key(id) { rest.push((id, l[id])) } else { rest }
    }
}

/// A finished drag records each dragged stroke that the layer still holds,
/// in the order of the drag, with the shape the layer holds for it now.
pub proof fn law_drag_records_current_shapes(originals: Seq<(StrokeId, ShapeKey)>, l: Map<StrokeId, ShapeKey>)
    ensures
        current_of(originals, l) == originals.filter(|p: (StrokeId, ShapeKey)| l.contains_key(p.0)).map_values(
            |p: (StrokeId, ShapeKey)| (p.0, l[p.0]),
        ),
        forall|i: int| 0 <= i < current_of(originals, l).len() ==> {
            let p = #[trigger] current_of(originals, l)[i];
            l.contains_key(p.0) && p.1 == l[p.0]
        },
    decreases originals.len(),
{
    let pred = |p: (StrokeId, ShapeKey)| l.contains_key(p.0);
    let f = |p: (StrokeId, ShapeKey)| (p.0, l[p.0]);
    reveal(Seq::filter);
    if originals.len() > 0 {
        law_drag_records_current_shapes(originals.drop_last(), l);
        let prev = originals.drop_last().filter(pred);
        if pred(originals.last()) {
            assert(originals.filter(pred) == prev.push(originals.last()));
            assert(prev.push(originals.last()).map_values(f) =~= prev.map_values(f).push(f(originals.last())));
        } else {
            assert(originals.filter(pred) == prev);
        }
    }
}

/// Records a finished drag (move, scale, rotate): one transformation of
/// the target drawing from the strokes as they were (`originals`) to the
/// strokes as the active art layer now holds them.
pub fn drag_command(scene: &SceneManager, originals: &Vec<(StrokeId, ShapeKey)>) -> (r: Command)
    requires
        scene@.wf(),
        scene@.elements.contains_key(scene@.target_element()),
    ensures
        ({
            let s = scene@;
            let l = match s.active_layer() {
                Some(l) => l,
                None => Map::empty(),
            };
            &&& r is Affine
            &&& r->Affine_0.element_id == s.target_element()
            &&& r->Affine_0.drawing_id == s.target_drawing()
            &&& r->Affine_0.art_layer == s.active_art_layer
            &&& r->Affine_0.old_elements@ == originals@
            &&& r->Affine_0.new_elements@ == current_of(originals@, l)
        }),
{
    let (element_id, drawing_id) = scene.target_location();
    let art_layer = scene.active_art_layer;
    let mut new_elements: Vec<(StrokeId, ShapeKey)> = Vec::new();
    let mut old_elements: Vec<(StrokeId, ShapeKey)> = Vec::new();
    let ghost l = match scene@.active_layer() {
        Some(l) => l,
        None => Map::empty(),
    };
    let n = originals.len();
    match scene.get_active_art_layer() {
        Some((_, layer)) => {
            for i in 0..n
                invariant
                    n == originals@.len(),
                    layer@ == l,
                    new_elements@ == current_of(originals@.take(i as int), l),
                    old_elements@ == originals@.take(i as int),
            {
                proof {
                    assert(originals@.take(i + 1).drop_last() =~= originals@.take(i as int));
                }
                let (id, key) = originals[i];
                if let Some(k) = layer.vector_elements.get(&id) {
                    new_elements.push((id, *k));
                }
                old_elements.push((id, key));
                proof {
                    assert(old_elements@ =~= originals@.take(i + 1));
                }
            }
        },
        None => {
            for i in 0..n
                invariant
                    n == originals@.len(),
                    l == Map::<StrokeId, ShapeKey>::empty(),
                    new_elements@ == current_of(originals@.take(i as int), l),
                    old_elements@ == originals@.take(i as int),
            {
                proof {
                    assert(originals@.take(i + 1).drop_last() =~= originals@.take(i as int));
                }
                old_elements.push(originals[i]);
                proof {
                    assert(old_elements@ =~= originals@.take(i + 1));
                }
            }
        },
    }
    proof {
        assert(originals@.take(n as int) =~= originals@);
    }
    Command::Affine(AffineCommand { element_id, drawing_id, art_layer, old_elements, new_elements })
}

/// Records a finished brush or pencil stroke: the shape `key` under a fresh
/// identifier, added to the active art layer of the target drawing. The
/// command is returned for the host to do and record.
pub fn record_stroke(scene: &SceneManager, allocator: &mut IdAllocator, key: ShapeKey) -> (r: Command)
    requires
        scene@.wf(),
        scene@.elements.contains_key(scene@.target_element()),
        old(allocator).next() < u64::MAX,
    ensures
        final(allocator).next() == old(allocator).next() + 1,
        r == Command::AddStroke(AddStrokeCommand {
            element_id: scene@.target_element(),
            drawing_id: scene@.target_drawing(),
            art_layer: scene@.active_art_layer,
            stroke_id: old(allocator).next(),
            element: key,
        }),
{
    let stroke_id = allocator.generate();
    let (element_id, drawing_id) = scene.target_location();
    Command::AddStroke(AddStrokeCommand { element_id, drawing_id, art_layer: scene.active_art_layer, stroke_id, element: key })
}

/// The stroke a click picks among those whose shapes it hits: the one with
/// the largest identifier, identifier 0 never being picked.
pub open spec fn topmost(hits: Seq<StrokeId>) -> Option<StrokeId>
    decreases hits.len(),
{
    if hits.len() == 0 {
        None
    } else {
        let rest = topmost(hits.drop_last());
        let h = hits.last();
        match rest {
            Some(b) => if h > b { Some(h) } else { Some(b) },
            None => if h > 0 { Some(h) } else { None },
        }
    }
}

proof fn lemma_topmost(hits: Seq<StrokeId>)
    ensures
        match topmost(hits) {
            Some(b) => b > 0 && hits.contains(b) && forall|i: int| 0 <= i < hits.len() ==> hits[i] <= b,
            None => forall|i: int| 0 <= i < hits.len() ==> hits[i] == 0,
        },
    decreases hits.len(),
{
    if hits.len() > 0 {
        lemma_topmost(hits.drop_last());
        let rest = hits.drop_last();
        assert forall|i: int| 0 <= i < rest.len() implies hits[i] == rest[i] by {}
        if let Some(b) = topmost(rest) {
            assert(hits[rest.index_of(b)] == b);
        }
        assert(hits[hits.len() - 1] == hits.last());
    }
}

/// Of the strokes a click hits, the one with the largest identifier
/// (none when no stroke with a non-zero identifier is hit).
pub fn topmost_hit(hits: &Vec<StrokeId>) -> (r: Option<StrokeId>)
    ensures
        r == topmost(hits@),
        match r {
            Some(b) => b > 0 && hits@.contains(b) && forall|i: int| 0 <= i < hits@.len() ==> hits@[i] <= b,
            None => forall|i: int| 0 <= i < hits@.len() ==> hits@[i] == 0,
        },
{
    let mut best: Option<StrokeId> = None;
    let mut highest: u64 = 0;
    for i in 0..hits.len()
        invariant
            best == topmost(hits@.take(i as int)),
            highest == match best { Some(b) => b, None => 0u64 },
    {
        proof {
            assert(hits@.take(i + 1).drop_last() =~= hits@.take(i as int));
        }
        if hits[i] > highest {
            highest = hits[i];
            best = Some(hits[i]);
        }
    }
    proof {
        assert(hits@.take(hits@.len() as int) =~= hits@);
        lemma_topmost(hits@);
    }
    best
}

/// A click of the select tool: the selection becomes the stroke it hit, or
/// nothing when it hit none.
pub fn select_clicked(scene: &mut SceneManager, hit: Option<StrokeId>)
    ensures
        final(scene)@ == (SceneView {
            selected_strokes: match hit {
                Some(id) => set![id],
                None => Set::empty(),
            },
            ..old(scene)@
        }),
{
    scene.selected_strokes.clear();
    if let Some(id) = hit {
        scene.selected_strokes.insert(id);
    }
    proof {
        assert(scene.selected_strokes@ =~= match hit {
            Some(id) => set![id],
            None => Set::<StrokeId>::empty(),
        });
    }
}

/// A finished lasso of the select tool: the strokes it caught join the selection.
pub fn add_to_selection(scene: &mut SceneManager, caught: &Vec<StrokeId>)
    ensures
        final(scene)@ == (SceneView { selected_strokes: old(scene)@.selected_strokes.union(caught@.to_set()), ..old(scene)@ }),
{
    proof {
        assert(caught@.take(0).to_set() =~= Set::<StrokeId>::empty());
        assert(old(scene)@.selected_strokes.union(caught@.take(0).to_set()) =~= old(scene)@.selected_strokes);
    }
    for i in 0..caught.len()
        invariant
            scene@ == (SceneView { selected_strokes: old(scene)@.selected_strokes.union(caught@.take(i as int).to_set()), ..old(scene)@ }),
    {
        scene.selected_strokes.insert(caught[i]);
        proof {
            assert(old(scene)@.selected_strokes.union(caught@.take(i + 1).to_set())
                =~= old(scene)@.selected_strokes.union(caught@.take(i as int).to_set()).insert(caught@[i as int])) by {
                assert(caught@.take(i + 1) =~= caught@.take(i as int).push(caught@[i as int]));
                caught@.take(i as int).lemma_push_to_set_commute(caught@[i as int]);
            }
        }
    }
    proof {
        assert(caught@.take(caught@.len() as int) =~= caught@);
    }
}

} // verus!
