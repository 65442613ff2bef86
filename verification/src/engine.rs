//! The editing session behind the drawing canvas: the scene, its undo
//! history, the identifier allocator and the clipboard, with the edits the
//! user interface asks for.
use vstd::prelude::*;
use crate::graph::{
    SceneManager, SceneView, ElementView, DrawingElement, DrawingData, IdAllocator, ElementId, DrawingId,
    StrokeId, ShapeKey, FrameNumber, ArtLayerType, BlendMode, OPAQUE_BITS, empty_drawing, is_scene_length,
};
use crate::timeline::{ExposureBlock, timeline_wf};
use crate::command::{Command, CommandHistory, LayerCommand, push_spec, undo_step, redo_step};
use crate::operations::{exposure, layers, selection};

verus! {

/// The most elements a scene may hold; adding more is refused.
pub const MAX_LAYERS: usize = 100;

/// The editing session: scene, history, identifiers and clipboard.
pub struct AnimLabEngine {
    pub scene: SceneManager,
    pub history: CommandHistory,
    pub id_allocator: IdAllocator,
    pub clipboard: Vec<ShapeKey>,
}

impl AnimLabEngine {
    /// The scene and history are well formed.
    pub open spec fn wf(&self) -> bool {
        self.scene@.wf() && self.history.wf()
    }

    /// A session with one element named "Drawing" (identifier 1000) that
    /// shows an empty drawing (identifier 1001) on frame 1; that element is
    /// active and nothing can be undone.
    pub fn new() -> (r: Self)
        ensures
            r.wf(),
            r.id_allocator.next() == 1002,
            r.clipboard@.len() == 0,
            r.history@.undo.len() == 0,
            r.history@.redo.len() == 0,
            r.scene@.z_stack == seq![1000u64],
            r.scene@.active_element_id == Some(1000u64),
            r.scene@.current_frame == 1,
            r.scene@.active_art_layer == ArtLayerType::LineArt,
            r.scene@.selected_strokes == Set::<StrokeId>::empty(),
            r.scene@.elements.dom() == set![1000u64],
            r.scene@.elements[1000].name == "Drawing"@,
            r.scene@.elements[1000].id == 1000,
            r.scene@.elements[1000].is_visible,
            !r.scene@.elements[1000].is_locked,
            r.scene@.elements[1000].opacity_bits == OPAQUE_BITS,
            r.scene@.elements[1000].blend_mode == BlendMode::Normal,
            r.scene@.elements[1000].z_nudge_bits == 0,
            r.scene@.elements[1000].library == map![1001u64 => empty_drawing()],
            r.scene@.elements[1000].exposures == map![1u32 => ExposureBlock { drawing_id: 1001, start_frame: 1, duration: 1 }],
    {
        let mut scene = SceneManager::new();
        let mut id_allocator = IdAllocator::new();
        let el_id = id_allocator.generate();
        let mut el = DrawingElement::new(el_id, "Drawing".to_string());
        let draw_id = id_allocator.generate();
        let d = DrawingData::new();
        el.library.insert(draw_id, d);
        el.exposures.insert(1, ExposureBlock { drawing_id: draw_id, start_frame: 1, duration: 1 });
        scene.elements.insert(el_id, el);
        scene.z_stack.push(el_id);
        scene.active_element_id = Some(el_id);
        proof {
            assert(d@ == empty_drawing());
            assert(crate::graph::library_view(el.library@) =~= map![1001u64 => empty_drawing()]);
            assert(el.exposures@ =~= map![1u32 => ExposureBlock { drawing_id: 1001, start_frame: 1, duration: 1 }]);
            assert(crate::graph::elements_view(scene.elements@) =~= map![1000u64 => el@]);
            assert(scene@.elements.dom() =~= set![1000u64]);
            assert(scene.z_stack@ =~= seq![1000u64]);
        }
        AnimLabEngine { scene, history: CommandHistory::new(), id_allocator, clipboard: Vec::new() }
    }

    /// Undoes the last edit, if any.
    pub fn trigger_undo(&mut self)
        requires
            old(self).wf(),
            old(self).history@.undo.len() > 0 ==> old(self).history@.undo.last().undo_ok(old(self).scene@),
        ensures
            final(self).wf(),
            (final(self).history@, final(self).scene@) == undo_step(old(self).history@, old(self).scene@),
            final(self).id_allocator == old(self).id_allocator,
            final(self).clipboard == old(self).clipboard,
    {
        self.history.undo(&mut self.scene);
    }

    /// Does again the last undone edit, if any.
    pub fn trigger_redo(&mut self)
        requires
            old(self).wf(),
        ensures
            final(self).wf(),
            (final(self).history@, final(self).scene@) == redo_step(old(self).history@, old(self).scene@),
            final(self).id_allocator == old(self).id_allocator,
            final(self).clipboard == old(self).clipboard,
    {
        self.history.redo(&mut self.scene);
    }

    /// Whether any stroke is selected.
    pub fn has_selection(&self) -> (r: bool)
        ensures
            r == !self.scene@.selected_strokes.is_empty(),
    {
        !self.scene.selected_strokes.is_empty()
    }

    /// Shows the given frame.
    pub fn set_current_frame(&mut self, frame: FrameNumber)
        ensures
            final(self).scene@ == (SceneView { current_frame: frame, ..old(self).scene@ }),
            final(self).history@ == old(self).history@,
            final(self).id_allocator == old(self).id_allocator,
            final(self).clipboard == old(self).clipboard,
    {
        self.scene.current_frame = frame;
    }

    /// The number of frames the scene spans.
    pub fn get_scene_length(&self) -> (r: u32)
        requires
            self.wf(),
        ensures
            is_scene_length(self.scene@, r as int),
    {
        self.scene.get_scene_length()
    }

    /// Copies the selection and then deletes it: the clipboard holds the
    /// selected shapes, and scene and history are what `delete_selection`
    /// leaves.
    pub fn cut_selection(&mut self)
        requires
            old(self).wf(),
            !old(self).scene@.selected_strokes.is_empty()
                ==> old(self).scene@.elements.contains_key(old(self).scene@.target_element()),
        ensures
            final(self).wf(),
            selection::selection_deleted(old(self).scene@, old(self).history@, final(self).scene@, final(self).history@),
            final(self).id_allocator == old(self).id_allocator,
            exists|order: Seq<StrokeId>| {
                &&& #[trigger] order.no_duplicates()
                &&& order.to_set() == old(self).scene@.selected_strokes
                &&& final(self).clipboard@ == match old(self).scene@.active_layer() {
                    Some(l) => selection::pick(order, l),
                    None => Seq::<ShapeKey>::empty(),
                }
            },
            final(self).scene@.selected_strokes == Set::<StrokeId>::empty(),
    {
        selection::copy_selection(&self.scene, &mut self.clipboard);
        selection::delete_selection(&mut self.scene, &mut self.history);
    }
}

/// What `add_drawing_layer` puts in the new element: with mode 1 an empty
/// drawing `did` shown on the current frame; with mode 2 that drawing shown
/// from frame 1 over the whole scene length; otherwise nothing.
pub open spec fn new_layer_view(id: ElementId, name: Seq<char>, init_mode: u8, did: DrawingId, scene_length: u32, frame: FrameNumber) -> ElementView {
    let base = ElementView {
        id,
        name,
        is_visible: true,
        is_locked: false,
        opacity_bits: OPAQUE_BITS,
        blend_mode: BlendMode::Normal,
        z_nudge_bits: 0,
        library: Map::empty(),
        exposures: Map::empty(),
    };
    if init_mode == 1 || init_mode == 2 {
        let start: u32 = if init_mode == 2 { 1 } else { frame };
        let duration: u32 = if init_mode == 2 { scene_length } else { 1 };
        ElementView {
            library: map![did => empty_drawing()],
            exposures: map![start => ExposureBlock { drawing_id: did, start_frame: start, duration }],
            ..base
        }
    } else {
        base
    }
}

impl AnimLabEngine {
    /// Adds a new element named `name` on top of the stack, as one undoable
    /// edit, and makes it active. Init mode 1 gives it an empty drawing on
    /// the current frame, mode 2 an empty drawing over the whole scene.
    /// Refused (nothing changes) once the scene holds `MAX_LAYERS` elements.
    pub fn add_drawing_layer(&mut self, name: String, init_mode: u8)
        requires
            old(self).wf(),
            old(self).id_allocator.next() + 2 < u64::MAX,
            init_mode == 1 && old(self).scene@.z_stack.len() < MAX_LAYERS ==> old(self).scene@.current_frame < u32::MAX,
        ensures
            final(self).wf(),
            final(self).clipboard == old(self).clipboard,
            old(self).scene@.z_stack.len() >= MAX_LAYERS ==> final(self).scene@ == old(self).scene@
                && final(self).history@ == old(self).history@ && final(self).id_allocator == old(self).id_allocator,
            old(self).scene@.z_stack.len() < MAX_LAYERS ==> {
                let id = old(self).id_allocator.next();
                let h = final(self).history@;
                let c = h.undo.last();
                &&& final(self).id_allocator.next() == if init_mode == 1 || init_mode == 2 { id + 2 } else { id + 1 }
                &&& h.undo.len() > 0
                &&& h.undo.drop_last() == old(self).history@.undo
                &&& h.redo.len() == 0
                &&& c is Layer
                &&& c->Layer_0.is_add
                &&& c->Layer_0.element_id == id
                &&& exists|len: u32| #[trigger] is_scene_length(old(self).scene@, len as int)
                    && c->Layer_0.element@ == new_layer_view(id, name@, init_mode, (id + 1) as u64, len, old(self).scene@.current_frame)
                &&& final(self).scene@ == (SceneView {
                    active_element_id: Some(id),
                    ..c->Layer_0.exec_spec(old(self).scene@)
                })
            },
    {
        if self.scene.z_stack.len() >= MAX_LAYERS {
            return;
        }
        let el_id = self.id_allocator.generate();
        let mut el = DrawingElement::new(el_id, name);
        let scene_length = self.scene.get_scene_length();
        let ghost frame = self.scene.current_frame;
        if init_mode == 1 || init_mode == 2 {
            let draw_id = self.id_allocator.generate();
            let d = DrawingData::new();
            el.library.insert(draw_id, d);
            let duration = if init_mode == 2 { scene_length } else { 1 };
            let start_frame = if init_mode == 2 { 1 } else { self.scene.current_frame };
            proof {
                if init_mode == 2 {
                    lemma_scene_length_below_max(self.scene@, scene_length as int);
                }
            }
            el.exposures.insert(start_frame, ExposureBlock { drawing_id: draw_id, start_frame, duration });
            proof {
                assert(d@ == empty_drawing());
                assert(crate::graph::library_view(el.library@) =~= map![draw_id => empty_drawing()]);
                assert(el.exposures@ =~= map![start_frame => ExposureBlock { drawing_id: draw_id, start_frame, duration }]);
            }
        }
        proof {
            assert(el@ == new_layer_view(el_id, name@, init_mode, (el_id + 1) as u64, scene_length, frame));
            assert(timeline_wf(el@.exposures));
        }
        let cmd = Command::Layer(LayerCommand { element_id: el_id, element: el, is_add: true });
        self.history.push_and_execute(cmd, &mut self.scene);
        self.scene.active_element_id = Some(el_id);
    }

    /// Removes an element (and its place in the stack) as one undoable edit;
    /// when it was active, the element now on top becomes active. Nothing
    /// happens for an unknown element.
    pub fn delete_drawing_layer(&mut self, element_id: ElementId)
        requires
            old(self).wf(),
        ensures
            final(self).wf(),
            final(self).clipboard == old(self).clipboard,
            final(self).id_allocator == old(self).id_allocator,
            !old(self).scene@.elements.contains_key(element_id) ==> final(self).scene@ == old(self).scene@
                && final(self).history@ == old(self).history@,
            old(self).scene@.elements.contains_key(element_id) ==> {
                let h = final(self).history@;
                let c = h.undo.last();
                let s1 = c->Layer_0.exec_spec(old(self).scene@);
                &&& h.undo.len() > 0
                &&& h.undo.drop_last() == old(self).history@.undo
                &&& h.redo.len() == 0
                &&& c is Layer
                &&& !c->Layer_0.is_add
                &&& c->Layer_0.element_id == element_id
                &&& c->Layer_0.element@ == old(self).scene@.elements[element_id]
                &&& final(self).scene@ == if old(self).scene@.active_element_id == Some(element_id) {
                    SceneView {
                        active_element_id: if s1.z_stack.len() > 0 { Some(s1.z_stack.last()) } else { None },
                        ..s1
                    }
                } else {
                    s1
                }
            },
    {
        let element = match self.scene.elements.get(&element_id) {
            Some(el) => el.duplicate(),
            None => return,
        };
        proof {
            assert(self.scene@.elements.contains_key(element_id));
            assert(timeline_wf(element@.exposures));
        }
        let cmd = Command::Layer(LayerCommand { element_id, element, is_add: false });
        self.history.push_and_execute(cmd, &mut self.scene);
        if self.scene.active_element_id == Some(element_id) {
            let n = self.scene.z_stack.len();
            self.scene.active_element_id = if n > 0 { Some(self.scene.z_stack[n - 1]) } else { None };
        }
    }
}

/// No exposure block ends after the last frame number, so the scene length
/// leaves room for one more frame.
proof fn lemma_scene_length_below_max(s: SceneView, n: int)
    requires
        s.wf(),
        is_scene_length(s, n),
    ensures
        n < u32::MAX,
{
    if n != 1 {
        let (eid, k) = choose|eid: ElementId, k: FrameNumber|
            #[trigger] s.elements.contains_key(eid) && #[trigger] s.elements[eid].exposures.contains_key(k)
            && k + s.elements[eid].exposures[k].duration - 1 == n;
        assert(timeline_wf(s.elements[eid].exposures));
    }
}

/// `ks` lists the keys of `m` in increasing order.
pub open spec fn is_sorted_keys(ks: Seq<FrameNumber>, m: Map<FrameNumber, ExposureBlock>) -> bool {
    &&& ks.to_set() == m.dom()
    &&& forall|i: int, j: int| 0 <= i < j < ks.len() ==> ks[i] < ks[j]
}

/// The keys of a timeline in increasing order.
pub open spec fn sorted_keys(m: Map<FrameNumber, ExposureBlock>) -> Seq<FrameNumber> {
    choose|ks: Seq<FrameNumber>| is_sorted_keys(ks, m)
}

/// Start, duration and drawing of each block, in the order of `ks`.
pub open spec fn block_words(m: Map<FrameNumber, ExposureBlock>, ks: Seq<FrameNumber>) -> Seq<u64>
    decreases ks.len(),
{
    if ks.len() == 0 {
        Seq::empty()
    } else {
        let b = m[ks.last()];
        block_words(m, ks.drop_last()) + seq![b.start_frame as u64, b.duration as u64, b.drawing_id]
    }
}

/// The timeline data of the elements in `order`: for each element that
/// exists, its identifier, its number of blocks, then its blocks by start frame.
pub open spec fn timeline_words(s: SceneView, order: Seq<ElementId>) -> Seq<u64>
    decreases order.len(),
{
    if order.len() == 0 {
        Seq::empty()
    } else {
        let eid = order.last();
        let rest = timeline_words(s, order.drop_last());
        if s.elements.contains_key(eid) {
            let e = s.elements[eid];
            let ks = sorted_keys(e.exposures);
            rest + seq![eid, ks.len() as u64] + block_words(e.exposures, ks)
        } else {
            rest
        }
    }
}

/// Two increasing sequences with the same elements are the same.
proof fn lemma_sorted_unique(a: Seq<FrameNumber>, b: Seq<FrameNumber>)
    requires
        a.to_set() == b.to_set(),
        forall|i: int, j: int| 0 <= i < j < a.len() ==> a[i] < a[j],
        forall|i: int, j: int| 0 <= i < j < b.len() ==> b[i] < b[j],
    ensures
        a == b,
    decreases a.len() + b.len(),
{
    if a.len() == 0 {
        if b.len() > 0 {
            assert(b.to_set().contains(b[0]));
        }
        assert(b =~= a);
    } else if b.len() == 0 {
        assert(a.to_set().contains(a[0]));
    } else {
        let x = a.last();
        let y = b.last();
        assert(a.to_set().contains(x));
        assert(b.to_set().contains(y));
        let j = choose|j: int| 0 <= j < b.len() && b[j] == x;
        let i = choose|i: int| 0 <= i < a.len() && a[i] == y;
        assert(x == y) by {
            if x < y {
                assert(a[i] <= a[a.len() - 1]);
            } else if y < x {
                assert(b[j] <= b[b.len() - 1]);
            }
        }
        let a1 = a.drop_last();
        let b1 = b.drop_last();
        assert forall|z: FrameNumber| a1.to_set().contains(z) <==> b1.to_set().contains(z) by {
            if a1.contains(z) {
                let p = choose|p: int| 0 <= p < a1.len() && a1[p] == z;
                assert(a.to_set().contains(z));
                let q = choose|q: int| 0 <= q < b.len() && b[q] == z;
                if q == b.len() - 1 {
                    assert(a[p] < a[a.len() - 1]);
                }
                assert(b1[q] == z);
            }
            if b1.contains(z) {
                let q = choose|q: int| 0 <= q < b1.len() && b1[q] == z;
                assert(b.to_set().contains(z));
                let p = choose|p: int| 0 <= p < a.len() && a[p] == z;
                if p == a.len() - 1 {
                    assert(b[q] < b[b.len() - 1]);
                }
                assert(a1[p] == z);
            }
        }
        assert(a1.to_set() =~= b1.to_set());
        lemma_sorted_unique(a1, b1);
        assert(a =~= a1.push(x));
        assert(b =~= b1.push(y));
    }
}

impl AnimLabEngine {
    /// The timeline data of the elements from the top of the stack down:
    /// for each element, its identifier, its number of blocks, then start,
    /// duration and drawing of each block by start frame.
    pub fn get_timeline_blocks(&self) -> (r: Vec<u64>)
        requires
            self.wf(),
        ensures
            r@ == timeline_words(self.scene@, self.scene@.z_stack.reverse()),
    {
        let mut flat_data: Vec<u64> = Vec::new();
        let z = &self.scene.z_stack;
        let n = z.len();
        let mut i = n;
        proof {
            assert(z@.reverse().take(0) =~= Seq::<ElementId>::empty());
        }
        while i > 0
            invariant
                i <= n,
                n == z@.len(),
                self.wf(),
                z@ == self.scene@.z_stack,
                flat_data@ == timeline_words(self.scene@, z@.reverse().take(n - i)),
            decreases i,
        {
            let el_id = z[i - 1];
            proof {
                assert(z@.reverse().take(n - i + 1).drop_last() =~= z@.reverse().take(n - i));
                assert(z@.reverse().take(n - i + 1).last() == el_id);
            }
            if let Some(el) = self.scene.elements.get(&el_id) {
                proof {
                    assert(self.scene@.elements.contains_key(el_id));
                    assert(self.scene@.elements[el_id] == el@);
                }
                let frames = crate::timeline::sorted_frames(&el.exposures);
                proof {
                    let ks = sorted_keys(el.exposures@);
                    assert(is_sorted_keys(frames@, el.exposures@));
                    lemma_sorted_unique(frames@, ks);
                    frames@.unique_seq_to_set();
                }
                flat_data.push(el_id);
                flat_data.push(el.exposures.len() as u64);
                let ghost before = flat_data@;
                let m = frames.len();
                proof {
                    assert(frames@.take(0) =~= Seq::<FrameNumber>::empty());
                    assert(before + block_words(el.exposures@, frames@.take(0)) =~= before);
                }
                for j in 0..m
                    invariant
                        m == frames@.len(),
                        frames@.to_set() == el.exposures@.dom(),
                        flat_data@ == before + block_words(el.exposures@, frames@.take(j as int)),
                {
                    let k = frames[j];
                    assert(frames@.to_set().contains(k));
                    let b = el.exposures.get(&k).unwrap();
                    flat_data.push(b.start_frame as u64);
                    flat_data.push(b.duration as u64);
                    flat_data.push(b.drawing_id);
                    proof {
                        assert(frames@.take(j + 1).drop_last() =~= frames@.take(j as int));
                        assert(flat_data@ =~= before + block_words(el.exposures@, frames@.take(j + 1)));
                    }
                }
                proof {
                    assert(frames@.take(m as int) =~= frames@);
                    assert(flat_data@ =~= timeline_words(self.scene@, z@.reverse().take(n - i + 1)));
                }
            }
            i = i - 1;
        }
        proof {
            assert(z@.reverse().take(n as int) =~= z@.reverse());
        }
        flat_data
    }
}

/// The identifier and name of each element of `order` that the scene holds, in that order.
pub open spec fn layer_entries(s: SceneView, order: Seq<ElementId>) -> Seq<(ElementId, Seq<char>)>
    decreases order.len(),
{
    if order.len() == 0 {
        Seq::empty()
    } else {
        let eid = order.last();
        let rest = layer_entries(s, order.drop_last());
        if s.elements.contains_key(eid) {
            rest.push((eid, s.elements[eid].name))
        } else {
            rest
        }
    }
}

impl AnimLabEngine {
    /// The layers of the timeline from the top of the stack down: the
    /// identifier and name of each element in the stack.
    pub fn timeline_layers(&self) -> (r: Vec<(ElementId, String)>)
        ensures
            r@.map_values(|p: (ElementId, String)| (p.0, p.1@)) == layer_entries(self.scene@, self.scene@.z_stack.reverse()),
    {
        let mut out: Vec<(ElementId, String)> = Vec::new();
        let z = &self.scene.z_stack;
        let n = z.len();
        let mut i = n;
        proof {
            assert(z@.reverse().take(0) =~= Seq::<ElementId>::empty());
            assert(out@.map_values(|p: (ElementId, String)| (p.0, p.1@)) =~= Seq::<(ElementId, Seq<char>)>::empty());
        }
        while i > 0
            invariant
                i <= n,
                n == z@.len(),
                z@ == self.scene@.z_stack,
                out@.map_values(|p: (ElementId, String)| (p.0, p.1@)) == layer_entries(self.scene@, z@.reverse().take(n - i)),
            decreases i,
        {
            let el_id = z[i - 1];
            proof {
                assert(z@.reverse().take(n - i + 1).drop_last() =~= z@.reverse().take(n - i));
                assert(z@.reverse().take(n - i + 1).last() == el_id);
            }
            let ghost before = out@;
            if let Some(el) = self.scene.elements.get(&el_id) {
                proof {
                    assert(self.scene@.elements.contains_key(el_id));
                    assert(self.scene@.elements[el_id] == el@);
                }
                out.push((el_id, el.name.clone()));
                proof {
                    assert(out@.map_values(|p: (ElementId, String)| (p.0, p.1@))
                        =~= before.map_values(|p: (ElementId, String)| (p.0, p.1@)).push((el_id, el@.name)));
                }
            }
            i = i - 1;
        }
        proof {
            assert(z@.reverse().take(n as int) =~= z@.reverse());
        }
        out
    }
}

} // verus!
