//! Undoable edits of the scene and the history that undoes and redoes them.
use vstd::prelude::*;
use crate::graph::{
    SceneManager, SceneView, DrawingElement, ElementView, ElementId, DrawingId, StrokeId, ShapeKey,
    ArtLayerType, elements_view,
};
use crate::timeline::timeline_wf;

verus! {

/// A layer map with the given strokes inserted one after the other.
pub open spec fn insert_all(l: Map<StrokeId, ShapeKey>, items: Seq<(StrokeId, ShapeKey)>) -> Map<StrokeId, ShapeKey>
    decreases items.len(),
{
    if items.len() == 0 {
        l
    } else {
        insert_all(l, items.drop_last()).insert(items.last().0, items.last().1)
    }
}

/// A layer map with the strokes of the given identifiers removed.
pub open spec fn remove_all(l: Map<StrokeId, ShapeKey>, items: Seq<(StrokeId, ShapeKey)>) -> Map<StrokeId, ShapeKey>
    decreases items.len(),
{
    if items.len() == 0 {
        l
    } else {
        remove_all(l, items.drop_last()).remove(items.last().0)
    }
}

/// A sequence of element identifiers with every occurrence of `x` left out.
pub open spec fn without(s: Seq<ElementId>, x: ElementId) -> Seq<ElementId>
    decreases s.len(),
{
    if s.len() == 0 {
        s
    } else if s.last() == x {
        without(s.drop_last(), x)
    } else {
        without(s.drop_last(), x).push(s.last())
    }
}

/// Replacing a layer twice is replacing it once with the second value.
pub proof fn lemma_with_layer_twice(
    s: SceneView,
    eid: ElementId,
    did: DrawingId,
    t: ArtLayerType,
    l1: Map<StrokeId, ShapeKey>,
    l2: Map<StrokeId, ShapeKey>,
)
    ensures
        s.with_layer_at(eid, did, t, l1).with_layer_at(eid, did, t, l2) == s.with_layer_at(eid, did, t, l2),
        s.with_layer_at(eid, did, t, l1).has_drawing(eid, did) == s.has_drawing(eid, did),
        s.has_drawing(eid, did) ==> s.with_layer_at(eid, did, t, l1).layer_at(eid, did, t) == l1,
{
    if s.has_drawing(eid, did) {
        let s1 = s.with_layer_at(eid, did, t, l1);
        let e = s.elements[eid];
        let d = e.library[did];
        assert(s1.elements[eid].library[did] == d.with_layer(t, l1));
        assert(d.with_layer(t, l1).with_layer(t, l2) == d.with_layer(t, l2));
        assert(s1.elements[eid].library.insert(did, d.with_layer(t, l1).with_layer(t, l2)) =~= e.library.insert(did, d.with_layer(t, l2)));
        assert(s1.with_layer_at(eid, did, t, l2).elements =~= s.with_layer_at(eid, did, t, l2).elements);
    }
}

/// Putting back a layer's own strokes changes nothing.
pub proof fn lemma_with_layer_same(s: SceneView, eid: ElementId, did: DrawingId, t: ArtLayerType)
    ensures
        s.with_layer_at(eid, did, t, s.layer_at(eid, did, t)) == s,
{
    if s.has_drawing(eid, did) {
        let e = s.elements[eid];
        let d = e.library[did];
        assert(d.with_layer(t, d.layer(t)) == d);
        assert(e.library.insert(did, d) =~= e.library);
        assert(s.elements.insert(eid, ElementView { library: e.library, ..e }) =~= s.elements);
    }
}

/// Adds one stroke to an art layer.
pub struct AddStrokeCommand {
    pub element_id: ElementId,
    pub drawing_id: DrawingId,
    pub art_layer: ArtLayerType,
    pub stroke_id: StrokeId,
    pub element: ShapeKey,
}

impl AddStrokeCommand {
    pub open spec fn exec_spec(&self, s: SceneView) -> SceneView {
        s.with_layer_at(self.element_id, self.drawing_id, self.art_layer,
            s.layer_at(self.element_id, self.drawing_id, self.art_layer).insert(self.stroke_id, self.element))
    }

    pub open spec fn undo_spec(&self, s: SceneView) -> SceneView {
        s.with_layer_at(self.element_id, self.drawing_id, self.art_layer,
            s.layer_at(self.element_id, self.drawing_id, self.art_layer).remove(self.stroke_id))
    }

    /// Puts the stroke into its art layer.
    pub fn execute(&self, scene: &mut SceneManager)
        ensures
            final(scene)@ == self.exec_spec(old(scene)@),
    {
        scene.layer_insert(self.element_id, self.drawing_id, self.art_layer, self.stroke_id, self.element);
    }

    /// Takes the stroke out of its art layer.
    pub fn undo(&self, scene: &mut SceneManager)
        ensures
            final(scene)@ == self.undo_spec(old(scene)@),
    {
        scene.layer_remove(self.element_id, self.drawing_id, self.art_layer, self.stroke_id);
    }
}

/// Replaces a stroke by the fragments that a cut left of it.
pub struct CutCommand {
    pub element_id: ElementId,
    pub drawing_id: DrawingId,
    pub art_layer: ArtLayerType,
    pub severed_stroke_id: StrokeId,
    pub original_element: ShapeKey,
    pub new_fragments: Vec<(StrokeId, ShapeKey)>,
}

impl CutCommand {
    pub open spec fn exec_spec(&self, s: SceneView) -> SceneView {
        s.with_layer_at(self.element_id, self.drawing_id, self.art_layer,
            insert_all(s.layer_at(self.element_id, self.drawing_id, self.art_layer).remove(self.severed_stroke_id),
                self.new_fragments@))
    }

    pub open spec fn undo_spec(&self, s: SceneView) -> SceneView {
        s.with_layer_at(self.element_id, self.drawing_id, self.art_layer,
            remove_all(s.layer_at(self.element_id, self.drawing_id, self.art_layer), self.new_fragments@)
                .insert(self.severed_stroke_id, self.original_element))
    }

    /// Removes the severed stroke and inserts the fragments.
    pub fn execute(&self, scene: &mut SceneManager)
        ensures
            final(scene)@ == self.exec_spec(old(scene)@),
    {
        let (eid, did, t) = (self.element_id, self.drawing_id, self.art_layer);
        let ghost s0 = scene@;
        let ghost l0 = s0.layer_at(eid, did, t).remove(self.severed_stroke_id);
        scene.layer_remove(eid, did, t, self.severed_stroke_id);
        let n = self.new_fragments.len();
        for i in 0..n
            invariant
                n == self.new_fragments@.len(),
                scene@ == s0.with_layer_at(eid, did, t, insert_all(l0, self.new_fragments@.take(i as int))),
        {
            let (fid, fkey) = self.new_fragments[i];
            proof {
                lemma_with_layer_twice(s0, eid, did, t, insert_all(l0, self.new_fragments@.take(i as int)),
                    insert_all(l0, self.new_fragments@.take(i + 1)));
                assert(self.new_fragments@.take(i + 1).drop_last() =~= self.new_fragments@.take(i as int));
                if s0.has_drawing(eid, did) {
                    lemma_with_layer_twice(s0, eid, did, t, insert_all(l0, self.new_fragments@.take(i as int)),
                        insert_all(l0, self.new_fragments@.take(i as int)));
                }
            }
            scene.layer_insert(eid, did, t, fid, fkey);
            proof {
                if !s0.has_drawing(eid, did) {
                    assert(scene@ == s0);
                }
            }
        }
        proof {
            assert(self.new_fragments@.take(n as int) =~= self.new_fragments@);
            lemma_with_layer_twice(s0, eid, did, t, l0, insert_all(l0, self.new_fragments@));
            assert(insert_all(l0, self.new_fragments@.take(0)) == l0);
        }
    }

    /// Removes the fragments and puts the severed stroke back.
    pub fn undo(&self, scene: &mut SceneManager)
        ensures
            final(scene)@ == self.undo_spec(old(scene)@),
    {
        let (eid, did, t) = (self.element_id, self.drawing_id, self.art_layer);
        let ghost s0 = scene@;
        let ghost l0 = s0.layer_at(eid, did, t);
        let n = self.new_fragments.len();
        proof {
            lemma_with_layer_same(s0, eid, did, t);
            assert(remove_all(l0, self.new_fragments@.take(0)) == l0);
        }
        for i in 0..n
            invariant
                n == self.new_fragments@.len(),
                scene@ == s0.with_layer_at(eid, did, t, remove_all(l0, self.new_fragments@.take(i as int))),
        {
            let (fid, _fkey) = self.new_fragments[i];
            proof {
                lemma_with_layer_twice(s0, eid, did, t, remove_all(l0, self.new_fragments@.take(i as int)),
                    remove_all(l0, self.new_fragments@.take(i + 1)));
                assert(self.new_fragments@.take(i + 1).drop_last() =~= self.new_fragments@.take(i as int));
            }
            scene.layer_remove(eid, did, t, fid);
        }
        proof {
            assert(self.new_fragments@.take(n as int) =~= self.new_fragments@);
            lemma_with_layer_twice(s0, eid, did, t, remove_all(l0, self.new_fragments@),
                remove_all(l0, self.new_fragments@).insert(self.severed_stroke_id, self.original_element));
        }
        scene.layer_insert(eid, did, t, self.severed_stroke_id, self.original_element);
    }
}

/// Inserts the given strokes, one after the other, into art layer `t` of
/// drawing `did` of element `eid`.
fn insert_strokes(scene: &mut SceneManager, eid: ElementId, did: DrawingId, t: ArtLayerType, items: &Vec<(StrokeId, ShapeKey)>)
    ensures
        final(scene)@ == old(scene)@.with_layer_at(eid, did, t, insert_all(old(scene)@.layer_at(eid, did, t), items@)),
{
    let ghost s0 = scene@;
    let ghost l0 = s0.layer_at(eid, did, t);
    let n = items.len();
    proof {
        lemma_with_layer_same(s0, eid, did, t);
        assert(insert_all(l0, items@.take(0)) == l0);
    }
    for i in 0..n
        invariant
            n == items@.len(),
            scene@ == s0.with_layer_at(eid, did, t, insert_all(l0, items@.take(i as int))),
    {
        let (sid, key) = items[i];
        proof {
            lemma_with_layer_twice(s0, eid, did, t, insert_all(l0, items@.take(i as int)),
                insert_all(l0, items@.take(i + 1)));
            assert(items@.take(i + 1).drop_last() =~= items@.take(i as int));
        }
        scene.layer_insert(eid, did, t, sid, key);
    }
    proof {
        assert(items@.take(n as int) =~= items@);
    }
}

/// Replaces strokes by transformed copies (move, scale, rotate, flip).
pub struct AffineCommand {
    pub element_id: ElementId,
    pub drawing_id: DrawingId,
    pub art_layer: ArtLayerType,
    pub old_elements: Vec<(StrokeId, ShapeKey)>,
    pub new_elements: Vec<(StrokeId, ShapeKey)>,
}

impl AffineCommand {
    pub open spec fn exec_spec(&self, s: SceneView) -> SceneView {
        s.with_layer_at(self.element_id, self.drawing_id, self.art_layer,
            insert_all(s.layer_at(self.element_id, self.drawing_id, self.art_layer), self.new_elements@))
    }

    pub open spec fn undo_spec(&self, s: SceneView) -> SceneView {
        s.with_layer_at(self.element_id, self.drawing_id, self.art_layer,
            insert_all(s.layer_at(self.element_id, self.drawing_id, self.art_layer), self.old_elements@))
    }

    /// Puts the transformed strokes in place.
    pub fn execute(&self, scene: &mut SceneManager)
        ensures
            final(scene)@ == self.exec_spec(old(scene)@),
    {
        insert_strokes(scene, self.element_id, self.drawing_id, self.art_layer, &self.new_elements);
    }

    /// Puts the strokes as they were back in place.
    pub fn undo(&self, scene: &mut SceneManager)
        ensures
            final(scene)@ == self.undo_spec(old(scene)@),
    {
        insert_strokes(scene, self.element_id, self.drawing_id, self.art_layer, &self.old_elements);
    }
}

/// Flips the visibility (or the lock) of an element.
pub struct ToggleLayerStateCommand {
    pub element_id: ElementId,
    pub toggle_visibility: bool,
}

impl ToggleLayerStateCommand {
    pub open spec fn exec_spec(&self, s: SceneView) -> SceneView {
        if s.elements.contains_key(self.element_id) {
            let e = s.elements[self.element_id];
            let e2 = if self.toggle_visibility {
                ElementView { is_visible: !e.is_visible, ..e }
            } else {
                ElementView { is_locked: !e.is_locked, ..e }
            };
            SceneView { elements: s.elements.insert(self.element_id, e2), ..s }
        } else {
            s
        }
    }

    pub open spec fn undo_spec(&self, s: SceneView) -> SceneView {
        self.exec_spec(s)
    }

    /// Flips the flag.
    pub fn execute(&self, scene: &mut SceneManager)
        ensures
            final(scene)@ == self.exec_spec(old(scene)@),
    {
        if let Some(mut el) = scene.elements.remove(&self.element_id) {
            proof {
                assert(old(scene)@.elements.contains_key(self.element_id));
                assert(old(scene)@.elements[self.element_id] == el@);
            }
            if self.toggle_visibility {
                el.is_visible = !el.is_visible;
            } else {
                el.is_locked = !el.is_locked;
            }
            scene.elements.insert(self.element_id, el);
            proof {
                assert(elements_view(scene.elements@) =~= elements_view(old(scene).elements@).insert(self.element_id, el@));
            }
        } else {
            proof {
                assert(scene.elements@ =~= old(scene).elements@);
            }
        }
    }

    /// Flips the flag back.
    pub fn undo(&self, scene: &mut SceneManager)
        ensures
            final(scene)@ == self.undo_spec(old(scene)@),
    {
        self.execute(scene);
    }
}

/// Moves an element to another place in the stacking order.
pub struct ReorderLayerCommand {
    pub element_id: ElementId,
    pub old_index: usize,
    pub new_index: usize,
}

pub open spec fn min_index(a: int, b: int) -> int {
    if a <= b { a } else { b }
}

impl ReorderLayerCommand {
    pub open spec fn exec_spec(&self, s: SceneView) -> SceneView {
        if self.old_index < s.z_stack.len() {
            let id = s.z_stack[self.old_index as int];
            let z1 = s.z_stack.remove(self.old_index as int);
            SceneView { z_stack: z1.insert(min_index(self.new_index as int, z1.len() as int), id), ..s }
        } else {
            s
        }
    }

    /// Undoing needs a non-empty stack.
    pub open spec fn undo_ok(&self, s: SceneView) -> bool {
        s.z_stack.len() > 0
    }

    pub open spec fn undo_spec(&self, s: SceneView) -> SceneView {
        let safe_new = min_index(self.new_index as int, s.z_stack.len() - 1);
        let id = s.z_stack[safe_new];
        let z1 = s.z_stack.remove(safe_new);
        SceneView { z_stack: z1.insert(min_index(self.old_index as int, z1.len() as int), id), ..s }
    }

    /// Moves the element from the old place to the new one (at most the last).
    pub fn execute(&self, scene: &mut SceneManager)
        ensures
            final(scene)@ == self.exec_spec(old(scene)@),
    {
        if self.old_index < scene.z_stack.len() {
            let id = scene.z_stack.remove(self.old_index);
            let safe_new = if self.new_index <= scene.z_stack.len() { self.new_index } else { scene.z_stack.len() };
            scene.z_stack.insert(safe_new, id);
        }
    }

    /// Moves the element at the new place back to the old one.
    pub fn undo(&self, scene: &mut SceneManager)
        requires
            self.undo_ok(old(scene)@),
        ensures
            final(scene)@ == self.undo_spec(old(scene)@),
    {
        let last = scene.z_stack.len() - 1;
        let safe_new = if self.new_index <= last { self.new_index } else { last };
        if safe_new < scene.z_stack.len() {
            let id = scene.z_stack.remove(safe_new);
            let safe_old = if self.old_index <= scene.z_stack.len() { self.old_index } else { scene.z_stack.len() };
            scene.z_stack.insert(safe_old, id);
        }
    }
}

/// Whether `x` occurs in `v`.
fn z_contains(v: &Vec<ElementId>, x: ElementId) -> (r: bool)
    ensures
        r == v@.contains(x),
{
    for i in 0..v.len()
        invariant
            forall|j: int| 0 <= j < i ==> v@[j] != x,
    {
        if v[i] == x {
            return true;
        }
    }
    false
}

/// `v` with every occurrence of `x` left out, keeping the order of the rest.
fn z_without(v: &Vec<ElementId>, x: ElementId) -> (r: Vec<ElementId>)
    ensures
        r@ == without(v@, x),
{
    let mut r: Vec<ElementId> = Vec::new();
    for i in 0..v.len()
        invariant
            r@ == without(v@.take(i as int), x),
    {
        proof {
            assert(v@.take(i + 1).drop_last() =~= v@.take(i as int));
        }
        if v[i] != x {
            r.push(v[i]);
        }
    }
    proof {
        assert(v@.take(v@.len() as int) =~= v@);
    }
    r
}

/// Adds (or removes) a whole element.
pub struct LayerCommand {
    pub element_id: ElementId,
    pub element: DrawingElement,
    pub is_add: bool,
}

impl LayerCommand {
    /// The scene with the element added on top of the stack.
    pub open spec fn add_spec(&self, s: SceneView) -> SceneView {
        SceneView {
            elements: s.elements.insert(self.element_id, self.element@),
            z_stack: if s.z_stack.contains(self.element_id) { s.z_stack } else { s.z_stack.push(self.element_id) },
            ..s
        }
    }

    /// The scene with the element and its place in the stack removed.
    pub open spec fn remove_spec(&self, s: SceneView) -> SceneView {
        SceneView {
            elements: s.elements.remove(self.element_id),
            z_stack: without(s.z_stack, self.element_id),
            ..s
        }
    }

    pub open spec fn exec_spec(&self, s: SceneView) -> SceneView {
        if self.is_add { self.add_spec(s) } else { self.remove_spec(s) }
    }

    pub open spec fn undo_spec(&self, s: SceneView) -> SceneView {
        if self.is_add { self.remove_spec(s) } else { self.add_spec(s) }
    }

    fn add(&self, scene: &mut SceneManager)
        ensures
            final(scene)@ == self.add_spec(old(scene)@),
    {
        let el = self.element.duplicate();
        scene.elements.insert(self.element_id, el);
        proof {
            assert(elements_view(scene.elements@) =~= elements_view(old(scene).elements@).insert(self.element_id, el@));
        }
        if !z_contains(&scene.z_stack, self.element_id) {
            scene.z_stack.push(self.element_id);
        }
    }

    fn remove(&self, scene: &mut SceneManager)
        ensures
            final(scene)@ == self.remove_spec(old(scene)@),
    {
        scene.elements.remove(&self.element_id);
        proof {
            assert(elements_view(scene.elements@) =~= elements_view(old(scene).elements@).remove(self.element_id));
        }
        scene.z_stack = z_without(&scene.z_stack, self.element_id);
    }

    /// Adds (or removes) the element.
    pub fn execute(&self, scene: &mut SceneManager)
        ensures
            final(scene)@ == self.exec_spec(old(scene)@),
    {
        if self.is_add {
            self.add(scene);
        } else {
            self.remove(scene);
        }
    }

    /// Removes (or puts back) the element.
    pub fn undo(&self, scene: &mut SceneManager)
        ensures
            final(scene)@ == self.undo_spec(old(scene)@),
    {
        if self.is_add {
            self.remove(scene);
        } else {
            self.add(scene);
        }
    }
}

/// Several commands done (and undone) as one.
pub struct BatchCommand {
    pub commands: Vec<Command>,
}

/// An undoable edit of the scene.
pub enum Command {
    AddStroke(AddStrokeCommand),
    Cut(CutCommand),
    Affine(AffineCommand),
    Batch(BatchCommand),
    Layer(LayerCommand),
    ToggleLayerState(ToggleLayerStateCommand),
    ReorderLayer(ReorderLayerCommand),
}

/// The scene after doing the commands in order.
pub open spec fn exec_all(cmds: Seq<Command>, s: SceneView) -> SceneView
    decreases cmds,
{
    if cmds.len() == 0 {
        s
    } else {
        cmds.last().exec_spec(exec_all(cmds.drop_last(), s))
    }
}

/// The scene after undoing the commands, the last one first.
pub open spec fn undo_all(cmds: Seq<Command>, s: SceneView) -> SceneView
    decreases cmds,
{
    if cmds.len() == 0 {
        s
    } else {
        undo_all(cmds.drop_last(), cmds.last().undo_spec(s))
    }
}

/// Undoing the commands, the last one first, is possible from `s`.
pub open spec fn undo_all_ok(cmds: Seq<Command>, s: SceneView) -> bool
    decreases cmds,
{
    if cmds.len() == 0 {
        true
    } else {
        cmds.last().undo_ok(s) && undo_all_ok(cmds.drop_last(), cmds.last().undo_spec(s))
    }
}

/// Every command carries well-formed element data.
pub open spec fn all_valid(cmds: Seq<Command>) -> bool
    decreases cmds,
{
    if cmds.len() == 0 {
        true
    } else {
        cmds.last().valid() && all_valid(cmds.drop_last())
    }
}

impl Command {
    /// The command carries well-formed element data.
    pub open spec fn valid(&self) -> bool
        decreases self,
    {
        match self {
            Command::Layer(c) => timeline_wf(c.element@.exposures),
            Command::Batch(b) => all_valid(b.commands@),
            _ => true,
        }
    }

    /// What doing the command makes of a scene.
    pub open spec fn exec_spec(&self, s: SceneView) -> SceneView
        decreases self,
    {
        match self {
            Command::AddStroke(c) => c.exec_spec(s),
            Command::Cut(c) => c.exec_spec(s),
            Command::Affine(c) => c.exec_spec(s),
            Command::Batch(b) => exec_all(b.commands@, s),
            Command::Layer(c) => c.exec_spec(s),
            Command::ToggleLayerState(c) => c.exec_spec(s),
            Command::ReorderLayer(c) => c.exec_spec(s),
        }
    }

    /// Undoing the command is possible from `s`.
    pub open spec fn undo_ok(&self, s: SceneView) -> bool
        decreases self,
    {
        match self {
            Command::Batch(b) => undo_all_ok(b.commands@, s),
            Command::ReorderLayer(c) => c.undo_ok(s),
            _ => true,
        }
    }

    /// What undoing the command makes of a scene.
    pub open spec fn undo_spec(&self, s: SceneView) -> SceneView
        decreases self,
    {
        match self {
            Command::AddStroke(c) => c.undo_spec(s),
            Command::Cut(c) => c.undo_spec(s),
            Command::Affine(c) => c.undo_spec(s),
            Command::Batch(b) => undo_all(b.commands@, s),
            Command::Layer(c) => c.undo_spec(s),
            Command::ToggleLayerState(c) => c.undo_spec(s),
            Command::ReorderLayer(c) => c.undo_spec(s),
        }
    }
}

impl BatchCommand {
    /// Does the commands in order.
    pub fn execute(&self, scene: &mut SceneManager)
        ensures
            final(scene)@ == exec_all(self.commands@, old(scene)@),
        decreases self,
    {
        let ghost s0 = scene@;
        let n = self.commands.len();
        proof {
            assert(self.commands@.take(0) =~= Seq::<Command>::empty());
        }
        for i in 0..n
            invariant
                n == self.commands@.len(),
                scene@ == exec_all(self.commands@.take(i as int), s0),
        {
            proof {
                assert(self.commands@.take(i + 1).drop_last() =~= self.commands@.take(i as int));
                assert(decreases_to!(self => self.commands));
                assert(decreases_to!(self.commands => self.commands@));
                assert(decreases_to!(self.commands@ => self.commands@[i as int]));
            }
            self.commands[i].execute(scene);
        }
        proof {
            assert(self.commands@.take(n as int) =~= self.commands@);
        }
    }

    /// Undoes the commands, the last one first.
    pub fn undo(&self, scene: &mut SceneManager)
        requires
            undo_all_ok(self.commands@, old(scene)@),
        ensures
            final(scene)@ == undo_all(self.commands@, old(scene)@),
        decreases self,
    {
        let ghost s0 = scene@;
        let mut i = self.commands.len();
        proof {
            assert(self.commands@.take(i as int) =~= self.commands@);
        }
        while i > 0
            invariant
                i <= self.commands@.len(),
                undo_all(self.commands@.take(i as int), scene@) == undo_all(self.commands@, s0),
                undo_all_ok(self.commands@.take(i as int), scene@),
            decreases i,
        {
            proof {
                assert(self.commands@.take(i as int).drop_last() =~= self.commands@.take(i - 1));
                assert(self.commands@.take(i as int).last() == self.commands@[i - 1]);
                assert(decreases_to!(self => self.commands));
                assert(decreases_to!(self.commands => self.commands@));
                assert(decreases_to!(self.commands@ => self.commands@[i - 1]));
            }
            self.commands[i - 1].undo(scene);
            i = i - 1;
        }
        proof {
            assert(self.commands@.take(self.commands@.len() as int) =~= self.commands@);
        }
    }
}

impl Command {
    /// Does the command.
    pub fn execute(&self, scene: &mut SceneManager)
        ensures
            final(scene)@ == self.exec_spec(old(scene)@),
        decreases self,
    {
        match self {
            Command::AddStroke(c) => c.execute(scene),
            Command::Cut(c) => c.execute(scene),
            Command::Affine(c) => c.execute(scene),
            Command::Batch(b) => b.execute(scene),
            Command::Layer(c) => c.execute(scene),
            Command::ToggleLayerState(c) => c.execute(scene),
            Command::ReorderLayer(c) => c.execute(scene),
        }
    }

    /// Undoes the command.
    pub fn undo(&self, scene: &mut SceneManager)
        requires
            self.undo_ok(old(scene)@),
        ensures
            final(scene)@ == self.undo_spec(old(scene)@),
        decreases self,
    {
        match self {
            Command::AddStroke(c) => c.undo(scene),
            Command::Cut(c) => c.undo(scene),
            Command::Affine(c) => c.undo(scene),
            Command::Batch(b) => b.undo(scene),
            Command::Layer(c) => c.undo(scene),
            Command::ToggleLayerState(c) => c.undo(scene),
            Command::ReorderLayer(c) => c.undo(scene),
        }
    }
}

/// The identifier `k` is one of those of `items`.
pub open spec fn mentions(items: Seq<(StrokeId, ShapeKey)>, k: StrokeId) -> bool {
    exists|i: int| 0 <= i < items.len() && items[i].0 == k
}

proof fn lemma_remove_all_at(m: Map<StrokeId, ShapeKey>, items: Seq<(StrokeId, ShapeKey)>, k: StrokeId)
    ensures
        remove_all(m, items).contains_key(k) == (m.contains_key(k) && !mentions(items, k)),
        remove_all(m, items).contains_key(k) ==> remove_all(m, items)[k] == m[k],
    decreases items.len(),
{
    if items.len() > 0 {
        let init = items.drop_last();
        lemma_remove_all_at(m, init, k);
        if mentions(init, k) {
            let i = choose|i: int| 0 <= i < init.len() && init[i].0 == k;
            assert(items[i].0 == k);
        }
        if mentions(items, k) && !mentions(init, k) {
            let i = choose|i: int| 0 <= i < items.len() && items[i].0 == k;
            if i < init.len() {
                assert(init[i].0 == k);
            }
        }
        if items.last().0 == k {
            assert(items[items.len() - 1].0 == k);
        }
    }
}

proof fn lemma_insert_all_at(m: Map<StrokeId, ShapeKey>, items: Seq<(StrokeId, ShapeKey)>, k: StrokeId)
    ensures
        !mentions(items, k) ==> (insert_all(m, items).contains_key(k) == m.contains_key(k)
            && (m.contains_key(k) ==> insert_all(m, items)[k] == m[k])),
        mentions(items, k) ==> insert_all(m, items).contains_key(k),
    decreases items.len(),
{
    if items.len() > 0 {
        let init = items.drop_last();
        lemma_insert_all_at(m, init, k);
        if mentions(init, k) {
            let i = choose|i: int| 0 <= i < init.len() && init[i].0 == k;
            assert(items[i].0 == k);
        }
        if mentions(items, k) && !mentions(init, k) {
            let i = choose|i: int| 0 <= i < items.len() && items[i].0 == k;
            if i < init.len() {
                assert(init[i].0 == k);
            }
        }
        if items.last().0 == k {
            assert(items[items.len() - 1].0 == k);
        }
    }
}

/// Where `items` mention a key, the value there does not depend on the base map.
proof fn lemma_insert_all_same_at(
    m1: Map<StrokeId, ShapeKey>,
    m2: Map<StrokeId, ShapeKey>,
    items: Seq<(StrokeId, ShapeKey)>,
    k: StrokeId,
)
    requires
        mentions(items, k),
    ensures
        insert_all(m1, items)[k] == insert_all(m2, items)[k],
    decreases items.len(),
{
    let init = items.drop_last();
    if items.last().0 != k {
        let i = choose|i: int| 0 <= i < items.len() && items[i].0 == k;
        assert(init[i].0 == k);
        lemma_insert_all_same_at(m1, m2, init, k);
    }
}

/// Undoing a stroke addition restores the scene when the stroke was new.
pub proof fn law_add_stroke_undo(c: AddStrokeCommand, s: SceneView)
    requires
        s.has_drawing(c.element_id, c.drawing_id) ==> !s.layer_at(c.element_id, c.drawing_id, c.art_layer).contains_key(c.stroke_id),
    ensures
        c.undo_spec(c.exec_spec(s)) == s,
{
    let (eid, did, t) = (c.element_id, c.drawing_id, c.art_layer);
    let l = s.layer_at(eid, did, t);
    lemma_with_layer_twice(s, eid, did, t, l.insert(c.stroke_id, c.element), l.insert(c.stroke_id, c.element).remove(c.stroke_id));
    if s.has_drawing(eid, did) {
        assert(l.insert(c.stroke_id, c.element).remove(c.stroke_id) =~= l);
    }
    lemma_with_layer_same(s, eid, did, t);
}

/// Redoing an undone stroke addition restores the scene when the stroke was there.
pub proof fn law_add_stroke_redo(c: AddStrokeCommand, s: SceneView)
    requires
        s.has_drawing(c.element_id, c.drawing_id) ==> s.layer_at(c.element_id, c.drawing_id, c.art_layer).contains_key(c.stroke_id)
            && s.layer_at(c.element_id, c.drawing_id, c.art_layer)[c.stroke_id] == c.element,
    ensures
        c.exec_spec(c.undo_spec(s)) == s,
{
    let (eid, did, t) = (c.element_id, c.drawing_id, c.art_layer);
    let l = s.layer_at(eid, did, t);
    lemma_with_layer_twice(s, eid, did, t, l.remove(c.stroke_id), l.remove(c.stroke_id).insert(c.stroke_id, c.element));
    if s.has_drawing(eid, did) {
        assert(l.remove(c.stroke_id).insert(c.stroke_id, c.element) =~= l);
    }
    lemma_with_layer_same(s, eid, did, t);
}

/// Undoing a cut restores the scene when the severed stroke held the
/// original shape and the fragments took identifiers that were free.
pub proof fn law_cut_undo(c: CutCommand, s: SceneView)
    requires
        s.has_drawing(c.element_id, c.drawing_id) ==> {
            let l = s.layer_at(c.element_id, c.drawing_id, c.art_layer);
            &&& l.contains_key(c.severed_stroke_id)
            &&& l[c.severed_stroke_id] == c.original_element
            &&& forall|i: int| 0 <= i < c.new_fragments@.len() ==>
                #[trigger] c.new_fragments@[i].0 == c.severed_stroke_id || !l.contains_key(c.new_fragments@[i].0)
        },
    ensures
        c.undo_spec(c.exec_spec(s)) == s,
{
    let (eid, did, t) = (c.element_id, c.drawing_id, c.art_layer);
    let l = s.layer_at(eid, did, t);
    let frags = c.new_fragments@;
    let l1 = insert_all(l.remove(c.severed_stroke_id), frags);
    let l2 = remove_all(l1, frags).insert(c.severed_stroke_id, c.original_element);
    lemma_with_layer_twice(s, eid, did, t, l1, l2);
    if s.has_drawing(eid, did) {
        assert forall|k: StrokeId|
            #![trigger l2.dom().contains(k)]
            #![trigger l.dom().contains(k)]
            l2.contains_key(k) == l.contains_key(k) && (l.contains_key(k) ==> l2[k] == l[k]) by {
            lemma_remove_all_at(l1, frags, k);
            lemma_insert_all_at(l.remove(c.severed_stroke_id), frags, k);
            if k != c.severed_stroke_id && mentions(frags, k) {
                let i = choose|i: int| 0 <= i < frags.len() && frags[i].0 == k;
                assert(frags[i].0 == c.severed_stroke_id || !l.contains_key(frags[i].0));
            }
        }
        assert(l2 =~= l);
    }
    lemma_with_layer_same(s, eid, did, t);
}

/// Undoing a transformation restores the scene when the old strokes are
/// those in the layer and every transformed stroke is one of them.
pub proof fn law_affine_undo(c: AffineCommand, s: SceneView)
    requires
        s.has_drawing(c.element_id, c.drawing_id) ==> {
            let l = s.layer_at(c.element_id, c.drawing_id, c.art_layer);
            &&& insert_all(l, c.old_elements@) == l
            &&& forall|i: int| 0 <= i < c.new_elements@.len() ==> mentions(c.old_elements@, #[trigger] c.new_elements@[i].0)
        },
    ensures
        c.undo_spec(c.exec_spec(s)) == s,
{
    let (eid, did, t) = (c.element_id, c.drawing_id, c.art_layer);
    let l = s.layer_at(eid, did, t);
    let l1 = insert_all(l, c.new_elements@);
    let l2 = insert_all(l1, c.old_elements@);
    lemma_with_layer_twice(s, eid, did, t, l1, l2);
    if s.has_drawing(eid, did) {
        assert forall|k: StrokeId|
            #![trigger l2.dom().contains(k)]
            #![trigger l.dom().contains(k)]
            l2.contains_key(k) == l.contains_key(k) && (l.contains_key(k) ==> l2[k] == l[k]) by {
            lemma_insert_all_at(l1, c.old_elements@, k);
            lemma_insert_all_at(l, c.new_elements@, k);
            lemma_insert_all_at(l, c.old_elements@, k);
            if mentions(c.old_elements@, k) {
                lemma_insert_all_same_at(l1, l, c.old_elements@, k);
            } else if mentions(c.new_elements@, k) {
                let i = choose|i: int| 0 <= i < c.new_elements@.len() && c.new_elements@[i].0 == k;
                assert(mentions(c.old_elements@, c.new_elements@[i].0));
            }
        }
        assert(l2 =~= l);
    }
    lemma_with_layer_same(s, eid, did, t);
}

/// Toggling a flag twice restores the scene.
pub proof fn law_toggle_twice(c: ToggleLayerStateCommand, s: SceneView)
    ensures
        c.exec_spec(c.exec_spec(s)) == s,
        c.undo_spec(c.exec_spec(s)) == s,
{
    if s.elements.contains_key(c.element_id) {
        let s1 = c.exec_spec(s);
        assert(s1.elements[c.element_id].is_visible == (c.toggle_visibility != s.elements[c.element_id].is_visible));
        assert(c.exec_spec(s1).elements =~= s.elements);
    }
}

proof fn lemma_without_absent(z: Seq<ElementId>, x: ElementId)
    requires
        !z.contains(x),
    ensures
        without(z, x) == z,
    decreases z.len(),
{
    if z.len() > 0 {
        assert(!z.drop_last().contains(x)) by {
            if z.drop_last().contains(x) {
                let i = choose|i: int| 0 <= i < z.drop_last().len() && z.drop_last()[i] == x;
                assert(z[i] == x);
            }
        }
        lemma_without_absent(z.drop_last(), x);
        assert(z[z.len() - 1] != x);
        assert(z.drop_last().push(z.last()) =~= z);
    }
}

/// Undoing the addition of an element restores the scene when the element was new.
pub proof fn law_layer_add_undo(c: LayerCommand, s: SceneView)
    requires
        c.is_add,
        !s.elements.contains_key(c.element_id),
        !s.z_stack.contains(c.element_id),
    ensures
        c.undo_spec(c.exec_spec(s)) == s,
{
    let s1 = c.exec_spec(s);
    assert(s1.z_stack == s.z_stack.push(c.element_id));
    assert(s1.z_stack.drop_last() =~= s.z_stack);
    lemma_without_absent(s.z_stack, c.element_id);
    assert(s1.elements.remove(c.element_id) =~= s.elements);
}

/// Undoing the removal of an element restores the scene when the element
/// held what the command keeps and sat once, on top of the stack.
pub proof fn law_layer_remove_undo(c: LayerCommand, s: SceneView)
    requires
        !c.is_add,
        s.elements.contains_key(c.element_id),
        s.elements[c.element_id] == c.element@,
        s.z_stack.len() > 0,
        s.z_stack.last() == c.element_id,
        !s.z_stack.drop_last().contains(c.element_id),
    ensures
        c.undo_spec(c.exec_spec(s)) == s,
{
    let s1 = c.exec_spec(s);
    lemma_without_absent(s.z_stack.drop_last(), c.element_id);
    assert(s1.z_stack == s.z_stack.drop_last());
    assert(s1.z_stack.push(c.element_id) =~= s.z_stack);
    assert(s1.elements.insert(c.element_id, c.element@) =~= s.elements);
}

/// Undoing the removal of an element gives back every element as it was;
/// the element comes back on top of the stack, and with it left out the
/// stack is as before.
pub proof fn law_layer_remove_undo_elements(c: LayerCommand, s: SceneView)
    requires
        !c.is_add,
        s.elements.contains_key(c.element_id),
        s.elements[c.element_id] == c.element@,
    ensures
        ({
            let s2 = c.undo_spec(c.exec_spec(s));
            &&& s2.elements == s.elements
            &&& s2.z_stack.len() > 0 && s2.z_stack.last() == c.element_id
            &&& without(s2.z_stack, c.element_id) == without(s.z_stack, c.element_id)
            &&& s2 == (SceneView { z_stack: s2.z_stack, ..s })
        }),
{
    let x = c.element_id;
    let w = without(s.z_stack, x);
    lemma_without_drops(s.z_stack, x);
    let s2 = c.undo_spec(c.exec_spec(s));
    assert(s2.z_stack == w.push(x));
    assert(w.push(x).drop_last() =~= w);
    lemma_without_absent(w, x);
    assert(s2.elements =~= s.elements);
}

/// No occurrence of `x` is left.
proof fn lemma_without_drops(z: Seq<ElementId>, x: ElementId)
    ensures
        !without(z, x).contains(x),
    decreases z.len(),
{
    if z.len() > 0 {
        lemma_without_drops(z.drop_last(), x);
        if z.last() != x {
            let w = without(z.drop_last(), x);
            assert forall|i: int| 0 <= i < w.push(z.last()).len() implies w.push(z.last())[i] != x by {
                if i < w.len() {
                    assert(w.push(z.last())[i] == w[i]);
                }
            }
        }
    }
}

/// Undoing a move in the stacking order restores the scene when the old
/// place was a place of the stack.
pub proof fn law_reorder_undo(c: ReorderLayerCommand, s: SceneView)
    requires
        c.old_index < s.z_stack.len(),
    ensures
        c.undo_ok(c.exec_spec(s)),
        c.undo_spec(c.exec_spec(s)) == s,
{
    let z = s.z_stack;
    let id = z[c.old_index as int];
    let z1 = z.remove(c.old_index as int);
    let p = min_index(c.new_index as int, z1.len() as int);
    let z2 = z1.insert(p, id);
    assert(z2.len() == z.len());
    assert(z2[p] == id);
    assert(z2.remove(p) =~= z1);
    assert(z1.insert(c.old_index as int, id) =~= z);
}

/// Undoing a batch restores the scene when undoing each of its commands
/// restores the scene that command started from.
pub proof fn law_batch_undo(cmds: Seq<Command>, s: SceneView)
    requires
        forall|i: int| 0 <= i < cmds.len() ==> {
            &&& #[trigger] cmds[i].undo_ok(exec_all(cmds.take(i + 1), s))
            &&& cmds[i].undo_spec(exec_all(cmds.take(i + 1), s)) == exec_all(cmds.take(i), s)
        },
    ensures
        undo_all_ok(cmds, exec_all(cmds, s)),
        undo_all(cmds, exec_all(cmds, s)) == s,
    decreases cmds.len(),
{
    if cmds.len() > 0 {
        let init = cmds.drop_last();
        let n = cmds.len() - 1;
        assert forall|i: int| 0 <= i < init.len() implies {
            &&& #[trigger] init[i].undo_ok(exec_all(init.take(i + 1), s))
            &&& init[i].undo_spec(exec_all(init.take(i + 1), s)) == exec_all(init.take(i), s)
        } by {
            assert(init.take(i + 1) =~= cmds.take(i + 1));
            assert(init.take(i) =~= cmds.take(i));
            assert(cmds[i].undo_ok(exec_all(cmds.take(i + 1), s)));
        }
        law_batch_undo(init, s);
        assert(cmds.take(n + 1) =~= cmds);
        assert(cmds.take(n) =~= init);
        assert(cmds[n].undo_ok(exec_all(cmds.take(n + 1), s)));
    }
}

proof fn lemma_with_layer_wf(s: SceneView, eid: ElementId, did: DrawingId, t: ArtLayerType, l: Map<StrokeId, ShapeKey>)
    requires
        s.wf(),
    ensures
        s.with_layer_at(eid, did, t, l).wf(),
{
    let r = s.with_layer_at(eid, did, t, l);
    assert forall|k: ElementId| #[trigger] r.elements.contains_key(k) implies timeline_wf(r.elements[k].exposures) by {
        assert(s.elements.contains_key(k));
    }
}

/// Doing or undoing a command that carries well-formed element data keeps
/// a scene well formed.
pub proof fn lemma_command_wf(c: Command, s: SceneView)
    requires
        s.wf(),
        c.valid(),
    ensures
        c.exec_spec(s).wf(),
        c.undo_spec(s).wf(),
    decreases c,
{
    match c {
        Command::AddStroke(x) => {
            lemma_with_layer_wf(s, x.element_id, x.drawing_id, x.art_layer,
                s.layer_at(x.element_id, x.drawing_id, x.art_layer).insert(x.stroke_id, x.element));
            lemma_with_layer_wf(s, x.element_id, x.drawing_id, x.art_layer,
                s.layer_at(x.element_id, x.drawing_id, x.art_layer).remove(x.stroke_id));
        },
        Command::Cut(x) => {
            lemma_with_layer_wf(s, x.element_id, x.drawing_id, x.art_layer,
                insert_all(s.layer_at(x.element_id, x.drawing_id, x.art_layer).remove(x.severed_stroke_id), x.new_fragments@));
            lemma_with_layer_wf(s, x.element_id, x.drawing_id, x.art_layer,
                remove_all(s.layer_at(x.element_id, x.drawing_id, x.art_layer), x.new_fragments@)
                    .insert(x.severed_stroke_id, x.original_element));
        },
        Command::Affine(x) => {
            lemma_with_layer_wf(s, x.element_id, x.drawing_id, x.art_layer,
                insert_all(s.layer_at(x.element_id, x.drawing_id, x.art_layer), x.new_elements@));
            lemma_with_layer_wf(s, x.element_id, x.drawing_id, x.art_layer,
                insert_all(s.layer_at(x.element_id, x.drawing_id, x.art_layer), x.old_elements@));
        },
        Command::Batch(b) => {
            assert(decreases_to!(c => b.commands));
            lemma_exec_all_wf(b.commands@, s);
            lemma_undo_all_wf(b.commands@, s);
        },
        Command::Layer(x) => {
            let a = x.add_spec(s);
            assert forall|k: ElementId| #[trigger] a.elements.contains_key(k) implies timeline_wf(a.elements[k].exposures) by {
                if k != x.element_id {
                    assert(s.elements.contains_key(k));
                }
            }
            let r = x.remove_spec(s);
            assert forall|k: ElementId| #[trigger] r.elements.contains_key(k) implies timeline_wf(r.elements[k].exposures) by {
                assert(s.elements.contains_key(k));
            }
        },
        Command::ToggleLayerState(x) => {
            let r = x.exec_spec(s);
            assert forall|k: ElementId| #[trigger] r.elements.contains_key(k) implies timeline_wf(r.elements[k].exposures) by {
                assert(s.elements.contains_key(k));
            }
        },
        Command::ReorderLayer(x) => {},
    }
}

proof fn lemma_exec_all_wf(cmds: Seq<Command>, s: SceneView)
    requires
        s.wf(),
        all_valid(cmds),
    ensures
        exec_all(cmds, s).wf(),
    decreases cmds,
{
    if cmds.len() > 0 {
        lemma_exec_all_wf(cmds.drop_last(), s);
        lemma_command_wf(cmds.last(), exec_all(cmds.drop_last(), s));
    }
}

proof fn lemma_undo_all_wf(cmds: Seq<Command>, s: SceneView)
    requires
        s.wf(),
        all_valid(cmds),
    ensures
        undo_all(cmds, s).wf(),
    decreases cmds,
{
    if cmds.len() > 0 {
        lemma_command_wf(cmds.last(), s);
        lemma_undo_all_wf(cmds.drop_last(), cmds.last().undo_spec(s));
    }
}

/// The two stacks of a history, as plain values.
pub struct HistoryView {
    pub undo: Seq<Command>,
    pub redo: Seq<Command>,
}

/// A new edit: done, put on the undo stack, and the redo stack dropped.
pub open spec fn push_spec(h: HistoryView, c: Command, s: SceneView) -> (HistoryView, SceneView) {
    (HistoryView { undo: h.undo.push(c), redo: Seq::empty() }, c.exec_spec(s))
}

/// Undo: the last edit is undone and moves to the redo stack.
pub open spec fn undo_step(h: HistoryView, s: SceneView) -> (HistoryView, SceneView) {
    if h.undo.len() == 0 {
        (h, s)
    } else {
        (HistoryView { undo: h.undo.drop_last(), redo: h.redo.push(h.undo.last()) }, h.undo.last().undo_spec(s))
    }
}

/// Redo: the last undone edit is done again and moves back to the undo stack.
pub open spec fn redo_step(h: HistoryView, s: SceneView) -> (HistoryView, SceneView) {
    if h.redo.len() == 0 {
        (h, s)
    } else {
        (HistoryView { undo: h.undo.push(h.redo.last()), redo: h.redo.drop_last() }, h.redo.last().exec_spec(s))
    }
}

/// The edits that can be undone and those that can be redone.
pub struct CommandHistory {
    undo_stack: Vec<Command>,
    redo_stack: Vec<Command>,
}

impl View for CommandHistory {
    type V = HistoryView;

    closed spec fn view(&self) -> HistoryView {
        HistoryView { undo: self.undo_stack@, redo: self.redo_stack@ }
    }
}

impl CommandHistory {
    /// Every edit on either stack carries well-formed element data.
    pub open spec fn wf(&self) -> bool {
        all_valid(self@.undo) && all_valid(self@.redo)
    }

    /// A history with nothing to undo or redo.
    pub fn new() -> (r: Self)
        ensures
            r@.undo == Seq::<Command>::empty(),
            r@.redo == Seq::<Command>::empty(),
            r.wf(),
    {
        CommandHistory { undo_stack: Vec::new(), redo_stack: Vec::new() }
    }

    /// Does `command` and records it for undo; what was undone can no
    /// longer be redone.
    pub fn push_and_execute(&mut self, command: Command, scene: &mut SceneManager)
        requires
            old(self).wf(),
            old(scene)@.wf(),
            command.valid(),
        ensures
            (final(self)@, final(scene)@) == push_spec(old(self)@, command, old(scene)@),
            final(self).wf(),
            final(scene)@.wf(),
    {
        proof {
            lemma_command_wf(command, scene@);
        }
        command.execute(scene);
        self.undo_stack.push(command);
        self.redo_stack.clear();
        proof {
            assert(self.undo_stack@.drop_last() =~= old(self).undo_stack@);
            assert(self.redo_stack@ =~= Seq::<Command>::empty());
        }
    }

    /// Undoes the last edit, if any, and keeps it for redo.
    pub fn undo(&mut self, scene: &mut SceneManager)
        requires
            old(self).wf(),
            old(scene)@.wf(),
            old(self)@.undo.len() > 0 ==> old(self)@.undo.last().undo_ok(old(scene)@),
        ensures
            (final(self)@, final(scene)@) == undo_step(old(self)@, old(scene)@),
            final(self).wf(),
            final(scene)@.wf(),
    {
        if let Some(command) = self.undo_stack.pop() {
            proof {
                assert(old(self)@.undo.last() == command);
                lemma_command_wf(command, scene@);
            }
            command.undo(scene);
            self.redo_stack.push(command);
            proof {
                assert(self.redo_stack@.drop_last() =~= old(self).redo_stack@);
            }
        }
    }

    /// Does again the last undone edit, if any.
    pub fn redo(&mut self, scene: &mut SceneManager)
        requires
            old(self).wf(),
            old(scene)@.wf(),
        ensures
            (final(self)@, final(scene)@) == redo_step(old(self)@, old(scene)@),
            final(self).wf(),
            final(scene)@.wf(),
    {
        if let Some(command) = self.redo_stack.pop() {
            proof {
                assert(old(self)@.redo.last() == command);
                lemma_command_wf(command, scene@);
            }
            command.execute(scene);
            self.undo_stack.push(command);
            proof {
                assert(self.undo_stack@.drop_last() =~= old(self).undo_stack@);
            }
        }
    }
}

/// Undo right after an edit gives back the scene from before the edit,
/// when undoing that edit restores what it started from; the edit then
/// waits alone on the redo stack.
pub proof fn law_undo_after_push(h: HistoryView, c: Command, s: SceneView)
    requires
        c.undo_spec(c.exec_spec(s)) == s,
    ensures
        undo_step(push_spec(h, c, s).0, push_spec(h, c, s).1) == (HistoryView { undo: h.undo, redo: seq![c] }, s),
{
    let (h1, s1) = push_spec(h, c, s);
    assert(h1.undo.drop_last() =~= h.undo);
    assert(Seq::<Command>::empty().push(c) =~= seq![c]);
}

/// Redo right after undo gives back the history and the scene, when doing
/// the undone edit again restores the scene it was undone from.
pub proof fn law_redo_after_undo(h: HistoryView, s: SceneView)
    requires
        h.undo.len() > 0,
        h.undo.last().exec_spec(h.undo.last().undo_spec(s)) == s,
    ensures
        redo_step(undo_step(h, s).0, undo_step(h, s).1) == (h, s),
{
    let (h1, s1) = undo_step(h, s);
    assert(h1.undo.push(h1.redo.last()) =~= h.undo);
    assert(h1.redo.drop_last() =~= h.redo);
}

/// Undo right after redo gives back the history and the scene, when undoing
/// the redone edit restores the scene it was redone from.
pub proof fn law_undo_after_redo(h: HistoryView, s: SceneView)
    requires
        h.redo.len() > 0,
        h.redo.last().undo_spec(h.redo.last().exec_spec(s)) == s,
    ensures
        undo_step(redo_step(h, s).0, redo_step(h, s).1) == (h, s),
{
    let (h1, s1) = redo_step(h, s);
    assert(h1.undo.drop_last() =~= h.undo);
    assert(h1.redo.push(h1.undo.last()) =~= h.redo);
}

} // verus!
