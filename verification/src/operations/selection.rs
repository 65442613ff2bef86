//! The stroke selection: selecting, copying, deleting, transforming and pasting.
use vstd::prelude::*;
use crate::graph::{SceneManager, SceneView, IdAllocator, StrokeId, ShapeKey, ElementId, DrawingId, ArtLayerType};
use crate::command::{
    Command, CommandHistory, CutCommand, AffineCommand, AddStrokeCommand, BatchCommand, HistoryView,
    push_spec, insert_all, remove_all, exec_all,
};

verus! {

/// The shapes of the strokes named in `order` that the layer holds, in that order.
pub open spec fn pick(order: Seq<StrokeId>, l: Map<StrokeId, ShapeKey>) -> Seq<ShapeKey>
    decreases order.len(),
{
    if order.len() == 0 {
        Seq::empty()
    } else if l.contains_key(order.last()) {
        pick(order.drop_last(), l).push(l[order.last()])
    } else {
        pick(order.drop_last(), l)
    }
}

/// The strokes named in `order` that the layer holds, with their shapes, in that order.
pub open spec fn pick_pairs(order: Seq<StrokeId>, l: Map<StrokeId, ShapeKey>) -> Seq<(StrokeId, ShapeKey)>
    decreases order.len(),
{
    if order.len() == 0 {
        Seq::empty()
    } else if l.contains_key(order.last()) {
        pick_pairs(order.drop_last(), l).push((order.last(), l[order.last()]))
    } else {
        pick_pairs(order.drop_last(), l)
    }
}

/// Selects every stroke of the active art layer (nothing when there is none).
pub fn select_all(scene: &mut SceneManager)
    requires
        old(scene)@.wf(),
    ensures
        final(scene)@ == (SceneView {
            selected_strokes: match old(scene)@.active_layer() {
                Some(l) => l.dom(),
                None => Set::empty(),
            },
            ..old(scene)@
        }),
{
    scene.selected_strokes.clear();
    let ids: Vec<StrokeId> = match scene.get_active_art_layer() {
        Some((_, layer)) => layer.stroke_ids(),
        None => Vec::new(),
    };
    proof {
        assert(ids@.take(0).to_set() =~= Set::<StrokeId>::empty());
        assert(scene@.active_layer() == old(scene)@.active_layer());
    }
    let n = ids.len();
    for i in 0..n
        invariant
            n == ids@.len(),
            scene@ == (SceneView { selected_strokes: ids@.take(i as int).to_set(), ..old(scene)@ }),
    {
        proof {
            crate::timeline::lemma_take_one_more(ids@, i as int);
        }
        scene.selected_strokes.insert(ids[i]);
    }
    proof {
        assert(ids@.take(n as int) =~= ids@);
        if old(scene)@.active_layer() is None {
            assert(ids@.to_set() =~= Set::<StrokeId>::empty());
        }
    }
}

/// Replaces the clipboard by the shapes of the selected strokes that the
/// active art layer holds, in some order of the selection.
pub fn copy_selection(scene: &SceneManager, clipboard: &mut Vec<ShapeKey>)
    requires
        scene@.wf(),
    ensures
        exists|order: Seq<StrokeId>| {
            &&& order.no_duplicates()
            &&& order.to_set() == scene@.selected_strokes
            &&& final(clipboard)@ == match scene@.active_layer() {
                Some(l) => pick(order, l),
                None => Seq::<ShapeKey>::empty(),
            }
        },
{
    clipboard.clear();
    let selected = scene.selected_ids();
    if let Some((_, layer)) = scene.get_active_art_layer() {
        let ghost l = layer@;
        let n = selected.len();
        for i in 0..n
            invariant
                n == selected@.len(),
                l == layer@,
                clipboard@ == pick(selected@.take(i as int), l),
        {
            proof {
                assert(selected@.take(i + 1).drop_last() =~= selected@.take(i as int));
            }
            if let Some(k) = layer.vector_elements.get(&selected[i]) {
                clipboard.push(*k);
            }
        }
        proof {
            assert(selected@.take(n as int) =~= selected@);
        }
    }
}

/// The command that removes a stroke without leaving fragments.
pub open spec fn is_deletion(c: Command, eid: ElementId, did: DrawingId, t: ArtLayerType, sid: StrokeId, key: ShapeKey) -> bool {
    &&& c is Cut
    &&& c->Cut_0.element_id == eid
    &&& c->Cut_0.drawing_id == did
    &&& c->Cut_0.art_layer == t
    &&& c->Cut_0.severed_stroke_id == sid
    &&& c->Cut_0.original_element == key
    &&& c->Cut_0.new_fragments@.len() == 0
}

/// Scene `s2` and history `h2` are what deleting the selection of `s`
/// leaves, taking the selected strokes in `order`: each one the active art
/// layer holds is removed by its own cut (with no fragments) pushed onto the
/// undo stack, and the selection is cleared.
pub open spec fn deleted_in_order(s: SceneView, h: HistoryView, order: Seq<StrokeId>, s2: SceneView, h2: HistoryView) -> bool {
    let (eid, did, t) = (s.target_element(), s.target_drawing(), s.active_art_layer);
    let gone = match s.active_layer() {
        Some(l) => pick_pairs(order, l),
        None => Seq::empty(),
    };
    let n0 = h.undo.len();
    &&& s2 == (SceneView {
        selected_strokes: Set::empty(),
        ..s.with_layer_at(eid, did, t, remove_all(s.layer_at(eid, did, t), gone))
    })
    &&& h2.undo.len() == n0 + gone.len()
    &&& h2.undo.take(n0 as int) == h.undo
    &&& forall|i: int| 0 <= i < gone.len() ==>
        #[trigger] is_deletion(h2.undo[n0 + i], eid, did, t, gone[i].0, gone[i].1)
    &&& h2.redo == if gone.len() == 0 { h.redo } else { Seq::empty() }
}

/// Scene `s2` and history `h2` are what deleting the selection of `s`
/// leaves, the selected strokes taken in some order; with nothing selected,
/// nothing changes.
pub open spec fn selection_deleted(s: SceneView, h: HistoryView, s2: SceneView, h2: HistoryView) -> bool {
    if s.selected_strokes.is_empty() {
        s2 == s && h2 == h
    } else {
        exists|order: Seq<StrokeId>| #[trigger] order.no_duplicates()
            && order.to_set() == s.selected_strokes
            && deleted_in_order(s, h, order, s2, h2)
    }
}

/// Deletes the selected strokes of the active art layer, one undoable
/// deletion each, and clears the selection.
pub fn delete_selection(scene: &mut SceneManager, history: &mut CommandHistory)
    requires
        old(scene)@.wf(),
        old(history).wf(),
        !old(scene)@.selected_strokes.is_empty() ==> old(scene)@.elements.contains_key(old(scene)@.target_element()),
    ensures
        final(scene)@.wf(),
        final(history).wf(),
        selection_deleted(old(scene)@, old(history)@, final(scene)@, final(history)@),
{
    if scene.selected_strokes.is_empty() {
        return;
    }
    let (element_id, drawing_id) = scene.target_location();
    let art_layer = scene.active_art_layer;
    let selected = scene.selected_ids();
    let mut severed: Vec<(StrokeId, ShapeKey)> = Vec::new();
    let ghost s0 = scene@;
    if let Some((_, layer)) = scene.get_active_art_layer() {
        let n = selected.len();
        for i in 0..n
            invariant
                n == selected@.len(),
                Some(layer@) == s0.active_layer(),
                severed@ == pick_pairs(selected@.take(i as int), layer@),
        {
            proof {
                assert(selected@.take(i + 1).drop_last() =~= selected@.take(i as int));
            }
            if let Some(k) = layer.vector_elements.get(&selected[i]) {
                severed.push((selected[i], *k));
            }
        }
        proof {
            assert(selected@.take(n as int) =~= selected@);
        }
    }
    let ghost gone = severed@;
    let ghost h0 = history@;
    let ghost l0 = s0.layer_at(element_id, drawing_id, art_layer);
    proof {
        assert(s0.active_layer() is Some ==> s0.active_drawing() == Some((element_id, drawing_id)));
        assert(gone.take(0) =~= Seq::<(StrokeId, ShapeKey)>::empty());
        assert(h0.undo.take(h0.undo.len() as int) =~= h0.undo);
        crate::command::lemma_with_layer_same(s0, element_id, drawing_id, art_layer);
    }
    let m = severed.len();
    for j in 0..m
        invariant
            m == gone.len(),
            severed@ == gone,
            scene@.wf(),
            history.wf(),
            scene@ == s0.with_layer_at(element_id, drawing_id, art_layer, remove_all(l0, gone.take(j as int))),
            history@.undo.len() == h0.undo.len() + j,
            history@.undo.take(h0.undo.len() as int) == h0.undo,
            forall|i: int| 0 <= i < j ==>
                #[trigger] is_deletion(history@.undo[h0.undo.len() + i], element_id, drawing_id, art_layer, gone[i].0, gone[i].1),
            history@.redo == if j == 0 { h0.redo } else { Seq::empty() },
    {
        let (stroke_id, original_element) = severed[j];
        let cmd = Command::Cut(CutCommand {
            element_id,
            drawing_id,
            art_layer,
            severed_stroke_id: stroke_id,
            original_element,
            new_fragments: Vec::new(),
        });
        let ghost sb = scene@;
        let ghost hb = history@;
        history.push_and_execute(cmd, scene);
        proof {
            let prev = remove_all(l0, gone.take(j as int));
            crate::command::lemma_with_layer_twice(s0, element_id, drawing_id, art_layer, prev, prev.remove(stroke_id));
            assert(gone.take(j + 1).drop_last() =~= gone.take(j as int));
            assert(insert_all(prev.remove(stroke_id), Seq::empty()) == prev.remove(stroke_id));
            if s0.has_drawing(element_id, drawing_id) {
                assert(sb.layer_at(element_id, drawing_id, art_layer) == prev);
            } else {
                assert(sb == s0);
            }
            assert(history@.undo.take(h0.undo.len() as int) =~= h0.undo);
            assert forall|i: int| 0 <= i < j + 1 implies
                #[trigger] is_deletion(history@.undo[h0.undo.len() + i], element_id, drawing_id, art_layer, gone[i].0, gone[i].1) by {
                if i < j {
                    assert(history@.undo[h0.undo.len() + i] == hb.undo[h0.undo.len() + i]);
                }
            }
        }
    }
    scene.selected_strokes.clear();
    proof {
        assert(gone.take(m as int) =~= gone);
        let order = selected@;
        assert(order.no_duplicates() && order.to_set() == s0.selected_strokes);
        assert(deleted_in_order(s0, h0, order, scene@, history@));
    }
}

/// The pairs of `items` whose stroke is selected and held by the layer.
pub open spec fn kept(items: Seq<(StrokeId, ShapeKey)>, sel: Set<StrokeId>, l: Map<StrokeId, ShapeKey>) -> Seq<(StrokeId, ShapeKey)>
    decreases items.len(),
{
    if items.len() == 0 {
        Seq::empty()
    } else if sel.contains(items.last().0) && l.contains_key(items.last().0) {
        kept(items.drop_last(), sel, l).push(items.last())
    } else {
        kept(items.drop_last(), sel, l)
    }
}

/// The same strokes as `kept`, with the shapes the layer holds for them.
pub open spec fn kept_before(items: Seq<(StrokeId, ShapeKey)>, sel: Set<StrokeId>, l: Map<StrokeId, ShapeKey>) -> Seq<(StrokeId, ShapeKey)>
    decreases items.len(),
{
    if items.len() == 0 {
        Seq::empty()
    } else if sel.contains(items.last().0) && l.contains_key(items.last().0) {
        kept_before(items.drop_last(), sel, l).push((items.last().0, l[items.last().0]))
    } else {
        kept_before(items.drop_last(), sel, l)
    }
}

/// A flip keeps, in order, exactly the transformed pairs whose stroke is
/// selected and held by the layer, and records for them the shapes the
/// layer held before.
pub proof fn law_flip_keeps_selected_pairs(items: Seq<(StrokeId, ShapeKey)>, sel: Set<StrokeId>, l: Map<StrokeId, ShapeKey>)
    ensures
        kept(items, sel, l) == items.filter(|p: (StrokeId, ShapeKey)| sel.contains(p.0) && l.contains_key(p.0)),
        kept_before(items, sel, l) == kept(items, sel, l).map_values(|p: (StrokeId, ShapeKey)| (p.0, l[p.0])),
    decreases items.len(),
{
    let pred = |p: (StrokeId, ShapeKey)| sel.contains(p.0) && l.contains_key(p.0);
    let f = |p: (StrokeId, ShapeKey)| (p.0, l[p.0]);
    reveal(Seq::filter);
    if items.len() > 0 {
        law_flip_keeps_selected_pairs(items.drop_last(), sel, l);
        let prev = kept(items.drop_last(), sel, l);
        if pred(items.last()) {
            assert(items.filter(pred) == items.drop_last().filter(pred).push(items.last()));
            assert(prev.push(items.last()).map_values(f) =~= prev.map_values(f).push(f(items.last())));
        } else {
            assert(items.filter(pred) == items.drop_last().filter(pred));
        }
    }
}

/// After a flip, every selected stroke of the layer that `transformed`
/// names holds the last shape given for it there.
pub proof fn law_flip_applies_every_selected_pair(
    items: Seq<(StrokeId, ShapeKey)>,
    sel: Set<StrokeId>,
    l: Map<StrokeId, ShapeKey>,
    i: int,
)
    requires
        0 <= i < items.len(),
        sel.contains(items[i].0),
        l.contains_key(items[i].0),
        forall|j: int| i < j < items.len() ==> items[j].0 != items[i].0,
    ensures
        insert_all(l, kept(items, sel, l)).contains_key(items[i].0),
        insert_all(l, kept(items, sel, l))[items[i].0] == items[i].1,
    decreases items.len(),
{
    let k = kept(items, sel, l);
    let prev = kept(items.drop_last(), sel, l);
    let x = items.last();
    if sel.contains(x.0) && l.contains_key(x.0) {
        assert(k.drop_last() =~= prev);
    }
    if i < items.len() - 1 {
        assert(items.drop_last()[i] == items[i]);
        assert forall|j: int| i < j < items.drop_last().len() implies items.drop_last()[j].0 != items.drop_last()[i].0 by {
            assert(items.drop_last()[j] == items[j]);
        }
        law_flip_applies_every_selected_pair(items.drop_last(), sel, l, i);
        assert(x.0 != items[i].0);
    }
}

/// Replaces selected strokes of the active art layer by the transformed
/// shapes in `transformed` (computed by the host, e.g. mirrored about the
/// selection's centre), as one undoable edit. Pairs whose stroke is not
/// selected or not in the layer are ignored; nothing is recorded when no
/// pair is left.
pub fn flip_selection(scene: &mut SceneManager, history: &mut CommandHistory, transformed: &Vec<(StrokeId, ShapeKey)>)
    requires
        old(scene)@.wf(),
        old(history).wf(),
        !old(scene)@.selected_strokes.is_empty() ==> old(scene)@.elements.contains_key(old(scene)@.target_element()),
    ensures
        final(scene)@.wf(),
        final(history).wf(),
        ({
            let s = old(scene)@;
            let (eid, did, t) = (s.target_element(), s.target_drawing(), s.active_art_layer);
            let l = match s.active_layer() {
                Some(l) => l,
                None => Map::empty(),
            };
            let new_items = kept(transformed@, s.selected_strokes, l);
            if s.selected_strokes.is_empty() || new_items.len() == 0 {
                final(scene)@ == s && final(history)@ == old(history)@
            } else {
                let h = final(history)@;
                let c = h.undo.last();
                &&& final(scene)@ == s.with_layer_at(eid, did, t, insert_all(s.layer_at(eid, did, t), new_items))
                &&& h.undo.drop_last() == old(history)@.undo
                &&& h.redo.len() == 0
                &&& h.undo.len() > 0
                &&& c is Affine
                &&& c->Affine_0.element_id == eid
                &&& c->Affine_0.drawing_id == did
                &&& c->Affine_0.art_layer == t
                &&& c->Affine_0.old_elements@ == kept_before(transformed@, s.selected_strokes, l)
                &&& c->Affine_0.new_elements@ == new_items
            }
        }),
{
    if scene.selected_strokes.is_empty() {
        return;
    }
    let (element_id, drawing_id) = scene.target_location();
    let art_layer = scene.active_art_layer;
    let ghost s0 = scene@;
    let ghost l = match s0.active_layer() {
        Some(l) => l,
        None => Map::empty(),
    };
    let mut old_elements: Vec<(StrokeId, ShapeKey)> = Vec::new();
    let mut new_elements: Vec<(StrokeId, ShapeKey)> = Vec::new();
    if let Some((_, layer)) = scene.get_active_art_layer() {
        let n = transformed.len();
        for i in 0..n
            invariant
                n == transformed@.len(),
                layer@ == l,
                old_elements@ == kept_before(transformed@.take(i as int), s0.selected_strokes, l),
                new_elements@ == kept(transformed@.take(i as int), s0.selected_strokes, l),
                s0 == scene@,
        {
            proof {
                assert(transformed@.take(i + 1).drop_last() =~= transformed@.take(i as int));
            }
            let (id, shape) = transformed[i];
            if scene.selected_strokes.contains(&id) {
                if let Some(k) = layer.vector_elements.get(&id) {
                    old_elements.push((id, *k));
                    new_elements.push((id, shape));
                }
            }
        }
        proof {
            assert(transformed@.take(n as int) =~= transformed@);
        }
    } else {
        proof {
            assert forall|j: int| 0 <= j <= transformed@.len() implies
                kept(#[trigger] transformed@.take(j), s0.selected_strokes, l).len() == 0 by {
                lemma_kept_empty(transformed@.take(j), s0.selected_strokes);
            }
            assert(transformed@.take(transformed@.len() as int) =~= transformed@);
        }
    }
    if new_elements.len() > 0 {
        proof {
            assert(s0.active_layer() is Some);
            assert(s0.active_drawing() == Some((element_id, drawing_id)));
        }
        let cmd = Command::Affine(AffineCommand { element_id, drawing_id, art_layer, old_elements, new_elements });
        history.push_and_execute(cmd, scene);
    }
}

proof fn lemma_kept_empty(items: Seq<(StrokeId, ShapeKey)>, sel: Set<StrokeId>)
    ensures
        kept(items, sel, Map::empty()).len() == 0,
    decreases items.len(),
{
    if items.len() > 0 {
        lemma_kept_empty(items.drop_last(), sel);
    }
}

/// The command that adds one stroke.
pub open spec fn is_addition(c: Command, eid: ElementId, did: DrawingId, t: ArtLayerType, sid: StrokeId, key: ShapeKey) -> bool {
    &&& c is AddStroke
    &&& c->AddStroke_0.element_id == eid
    &&& c->AddStroke_0.drawing_id == did
    &&& c->AddStroke_0.art_layer == t
    &&& c->AddStroke_0.stroke_id == sid
    &&& c->AddStroke_0.element == key
}

/// Doing a run of stroke additions inserts their strokes one after the other.
proof fn lemma_exec_additions(
    cmds: Seq<Command>,
    s: SceneView,
    eid: ElementId,
    did: DrawingId,
    t: ArtLayerType,
    pairs: Seq<(StrokeId, ShapeKey)>,
)
    requires
        cmds.len() == pairs.len(),
        forall|i: int| 0 <= i < cmds.len() ==> #[trigger] is_addition(cmds[i], eid, did, t, pairs[i].0, pairs[i].1),
    ensures
        exec_all(cmds, s) == s.with_layer_at(eid, did, t, insert_all(s.layer_at(eid, did, t), pairs)),
    decreases cmds.len(),
{
    if cmds.len() == 0 {
        crate::command::lemma_with_layer_same(s, eid, did, t);
    } else {
        let n = cmds.len() - 1;
        assert forall|i: int| 0 <= i < cmds.drop_last().len() implies
            #[trigger] is_addition(cmds.drop_last()[i], eid, did, t, pairs.drop_last()[i].0, pairs.drop_last()[i].1) by {
            assert(is_addition(cmds[i], eid, did, t, pairs[i].0, pairs[i].1));
        }
        lemma_exec_additions(cmds.drop_last(), s, eid, did, t, pairs.drop_last());
        assert(is_addition(cmds[n], eid, did, t, pairs[n].0, pairs[n].1));
        let prev = insert_all(s.layer_at(eid, did, t), pairs.drop_last());
        crate::command::lemma_with_layer_twice(s, eid, did, t, prev, prev.insert(pairs[n].0, pairs[n].1));
        assert(cmds.last() == cmds[n]);
        assert(pairs.last() == pairs[n]);
        let s_prev = exec_all(cmds.drop_last(), s);
        assert(s_prev == s.with_layer_at(eid, did, t, prev));
        let x = cmds[n]->AddStroke_0;
        assert(cmds[n].exec_spec(s_prev) == x.exec_spec(s_prev));
        if s.has_drawing(eid, did) {
            assert(s_prev.layer_at(eid, did, t) == prev);
        }
        if !s.has_drawing(eid, did) {
            assert(s.with_layer_at(eid, did, t, prev) == s);
        }
    }
}

/// The strokes that pasting adds: fresh identifiers from `first` on, with
/// the clipboard's shapes in order.
pub open spec fn pasted(first: u64, clipboard: Seq<ShapeKey>) -> Seq<(StrokeId, ShapeKey)> {
    Seq::new(clipboard.len(), |i: int| ((first + i) as u64, clipboard[i]))
}

/// Pastes the clipboard's shapes (already offset by the host) into the
/// target drawing as new strokes with fresh identifiers, in one undoable
/// edit, and selects them. Makes sure a drawing exists on the current
/// frame first. Does nothing for an empty clipboard.
pub fn paste_clipboard(
    scene: &mut SceneManager,
    history: &mut CommandHistory,
    allocator: &mut IdAllocator,
    clipboard: &Vec<ShapeKey>,
)
    requires
        old(scene)@.wf(),
        old(history).wf(),
        clipboard@.len() > 0 ==> {
            &&& crate::graph::needs_drawing(old(scene)@) ==> old(scene)@.current_frame < u32::MAX
            &&& old(allocator).next() + clipboard@.len() + 1 < u64::MAX
            &&& old(scene)@.elements.contains_key(old(scene)@.target_element())
        },
    ensures
        final(scene)@.wf(),
        final(history).wf(),
        clipboard@.len() == 0 ==> final(scene)@ == old(scene)@ && final(history)@ == old(history)@
            && final(allocator).next() == old(allocator).next(),
        clipboard@.len() > 0 ==> {
            let (s1, first) = crate::graph::ensure_spec(old(scene)@, old(allocator).next());
            let (eid, did, t) = (s1.target_element(), s1.target_drawing(), s1.active_art_layer);
            let items = pasted(first, clipboard@);
            let h = final(history)@;
            let c = h.undo.last();
            &&& final(allocator).next() == first + clipboard@.len()
            &&& final(scene)@ == (SceneView {
                selected_strokes: items.map_values(|p: (StrokeId, ShapeKey)| p.0).to_set(),
                ..s1.with_layer_at(eid, did, t, insert_all(s1.layer_at(eid, did, t), items))
            })
            &&& h.undo.len() > 0
            &&& h.undo.drop_last() == old(history)@.undo
            &&& h.redo.len() == 0
            &&& c is Batch
            &&& c->Batch_0.commands@.len() == items.len()
            &&& forall|i: int| 0 <= i < items.len() ==>
                #[trigger] is_addition(c->Batch_0.commands@[i], eid, did, t, items[i].0, items[i].1)
        },
{
    if clipboard.len() == 0 {
        return;
    }
    scene.ensure_drawing_exists(allocator);
    let ghost s1 = scene@;
    let ghost first = allocator.next();
    proof {
        assert(s1.elements.contains_key(s1.target_element()));
    }
    let (element_id, drawing_id) = scene.target_location();
    let art_layer = scene.active_art_layer;
    let ghost items = pasted(first, clipboard@);
    let mut commands: Vec<Command> = Vec::new();
    scene.selected_strokes.clear();
    let n = clipboard.len();
    proof {
        assert(items.take(0).map_values(|p: (StrokeId, ShapeKey)| p.0).to_set() =~= Set::<StrokeId>::empty());
        assert(scene@ == (SceneView { selected_strokes: Set::<StrokeId>::empty(), ..s1 }));
    }
    for i in 0..n
        invariant
            n == clipboard@.len(),
            items == pasted(first, clipboard@),
            first + n < u64::MAX,
            allocator.next() == first + i,
            commands@.len() == i,
            forall|j: int| 0 <= j < i ==> #[trigger] is_addition(commands@[j], element_id, drawing_id, art_layer, items[j].0, items[j].1),
            scene@ == (SceneView { selected_strokes: items.take(i as int).map_values(|p: (StrokeId, ShapeKey)| p.0).to_set(), ..s1 }),
    {
        let new_id = allocator.generate();
        proof {
            crate::timeline::lemma_take_one_more(items.map_values(|p: (StrokeId, ShapeKey)| p.0), i as int);
            assert(items.take(i as int).map_values(|p: (StrokeId, ShapeKey)| p.0)
                =~= items.map_values(|p: (StrokeId, ShapeKey)| p.0).take(i as int));
            assert(items.take(i + 1).map_values(|p: (StrokeId, ShapeKey)| p.0)
                =~= items.map_values(|p: (StrokeId, ShapeKey)| p.0).take(i + 1));
        }
        scene.selected_strokes.insert(new_id);
        commands.push(Command::AddStroke(AddStrokeCommand {
            element_id,
            drawing_id,
            art_layer,
            stroke_id: new_id,
            element: clipboard[i],
        }));
    }
    proof {
        assert(items.take(n as int) =~= items);
        assert(crate::command::all_valid(commands@)) by {
            lemma_additions_valid(commands@, element_id, drawing_id, art_layer, items);
        }
        lemma_exec_additions(commands@, scene@, element_id, drawing_id, art_layer, items);
        assert(scene@.layer_at(element_id, drawing_id, art_layer) == s1.layer_at(element_id, drawing_id, art_layer));
        assert(scene@.has_drawing(element_id, drawing_id) == s1.has_drawing(element_id, drawing_id));
    }
    let batch = Command::Batch(BatchCommand { commands });
    history.push_and_execute(batch, scene);
}

proof fn lemma_additions_valid(cmds: Seq<Command>, eid: ElementId, did: DrawingId, t: ArtLayerType, pairs: Seq<(StrokeId, ShapeKey)>)
    requires
        cmds.len() == pairs.len(),
        forall|i: int| 0 <= i < cmds.len() ==> #[trigger] is_addition(cmds[i], eid, did, t, pairs[i].0, pairs[i].1),
    ensures
        crate::command::all_valid(cmds),
    decreases cmds.len(),
{
    if cmds.len() > 0 {
        assert forall|i: int| 0 <= i < cmds.drop_last().len() implies
            #[trigger] is_addition(cmds.drop_last()[i], eid, did, t, pairs.drop_last()[i].0, pairs.drop_last()[i].1) by {
            assert(is_addition(cmds[i], eid, did, t, pairs[i].0, pairs[i].1));
        }
        lemma_additions_valid(cmds.drop_last(), eid, did, t, pairs.drop_last());
        assert(is_addition(cmds[cmds.len() - 1], eid, did, t, pairs[cmds.len() - 1].0, pairs[cmds.len() - 1].1));
        assert(cmds.last() == cmds[cmds.len() - 1]);
        assert(cmds.last().valid());
    }
}

} // verus!
