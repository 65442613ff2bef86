//! The scene graph: drawing elements (the layers of the timeline), the
//! drawings each element owns, the four art layers of every drawing, and the
//! allocator of fresh identifiers.
//!
//! Strokes are held by key: an art layer maps each stroke identifier to the
//! key under which the stroke's geometry is stored by the host.
use vstd::prelude::*;
use std::collections::{BTreeMap, HashMap, HashSet};
use crate::timeline::{ExposureBlock, timeline_wf, block_at, exposure_at};
use vstd::std_specs::iter::IteratorSpec;

verus! {

pub type ElementId = u64;
pub type DrawingId = u64;
pub type StrokeId = u64;
pub type FrameNumber = u32;
/// Key of a stroke's geometry in the host's shape store.
pub type ShapeKey = u64;

/// How an element is composited over the ones below it.
#[derive(Debug, Clone, Copy, PartialEq, Eq, Structural)]
pub enum BlendMode {
    Normal,
    Multiply,
    Screen,
    Add,
}

/// The four art layers of a drawing, from top to bottom.
#[derive(Debug, Clone, Copy, PartialEq, Eq, Hash, Structural)]
pub enum ArtLayerType {
    Overlay,
    LineArt,
    ColorArt,
    Underlay,
}

/// The strokes of one art layer.
#[derive(Debug, Clone)]
pub struct ArtLayer {
    pub vector_elements: HashMap<StrokeId, ShapeKey>,
}

impl View for ArtLayer {
    type V = Map<StrokeId, ShapeKey>;

    open spec fn view(&self) -> Map<StrokeId, ShapeKey> {
        self.vector_elements@
    }
}

impl ArtLayer {
    /// An art layer without strokes.
    pub fn new() -> (r: Self)
        ensures
            r@ == Map::<StrokeId, ShapeKey>::empty(),
    {
        ArtLayer { vector_elements: HashMap::new() }
    }

    /// A copy with the same strokes.
    pub fn duplicate(&self) -> (r: Self)
        ensures
            r@ == self@,
    {
        ArtLayer { vector_elements: self.vector_elements.clone() }
    }

    /// The identifiers of the strokes, each once.
    pub fn stroke_ids(&self) -> (r: Vec<StrokeId>)
        ensures
            r@.to_set() == self@.dom(),
            r@.no_duplicates(),
    {
        keys_of(&self.vector_elements)
    }
}

/// The contents of a drawing, art layer by art layer.
pub struct DrawingView {
    pub overlay: Map<StrokeId, ShapeKey>,
    pub line_art: Map<StrokeId, ShapeKey>,
    pub color_art: Map<StrokeId, ShapeKey>,
    pub underlay: Map<StrokeId, ShapeKey>,
}

impl DrawingView {
    pub open spec fn layer(self, t: ArtLayerType) -> Map<StrokeId, ShapeKey> {
        match t {
            ArtLayerType::Overlay => self.overlay,
            ArtLayerType::LineArt => self.line_art,
            ArtLayerType::ColorArt => self.color_art,
            ArtLayerType::Underlay => self.underlay,
        }
    }

    pub open spec fn with_layer(self, t: ArtLayerType, l: Map<StrokeId, ShapeKey>) -> DrawingView {
        match t {
            ArtLayerType::Overlay => DrawingView { overlay: l, ..self },
            ArtLayerType::LineArt => DrawingView { line_art: l, ..self },
            ArtLayerType::ColorArt => DrawingView { color_art: l, ..self },
            ArtLayerType::Underlay => DrawingView { underlay: l, ..self },
        }
    }
}

/// One drawing: four art layers of strokes.
#[derive(Debug, Clone)]
pub struct DrawingData {
    pub overlay: ArtLayer,
    pub line_art: ArtLayer,
    pub color_art: ArtLayer,
    pub underlay: ArtLayer,
}

impl View for DrawingData {
    type V = DrawingView;

    open spec fn view(&self) -> DrawingView {
        DrawingView {
            overlay: self.overlay@,
            line_art: self.line_art@,
            color_art: self.color_art@,
            underlay: self.underlay@,
        }
    }
}

impl DrawingData {
    /// A drawing whose four art layers are empty.
    pub fn new() -> (r: Self)
        ensures
            r@.overlay == Map::<StrokeId, ShapeKey>::empty(),
            r@.line_art == Map::<StrokeId, ShapeKey>::empty(),
            r@.color_art == Map::<StrokeId, ShapeKey>::empty(),
            r@.underlay == Map::<StrokeId, ShapeKey>::empty(),
    {
        DrawingData { overlay: ArtLayer::new(), line_art: ArtLayer::new(), color_art: ArtLayer::new(), underlay: ArtLayer::new() }
    }

    /// A copy with the same strokes.
    pub fn duplicate(&self) -> (r: Self)
        ensures
            r@ == self@,
    {
        DrawingData {
            overlay: self.overlay.duplicate(),
            line_art: self.line_art.duplicate(),
            color_art: self.color_art.duplicate(),
            underlay: self.underlay.duplicate(),
        }
    }

    /// The art layer of the given type, for change.
    pub fn get_art_layer_mut(&mut self, layer_type: ArtLayerType) -> (r: &mut ArtLayer)
        ensures
            r@ == old(self)@.layer(layer_type),
            final(self)@ == old(self)@.with_layer(layer_type, final(r)@),
    {
        match layer_type {
            ArtLayerType::Overlay => &mut self.overlay,
            ArtLayerType::LineArt => &mut self.line_art,
            ArtLayerType::ColorArt => &mut self.color_art,
            ArtLayerType::Underlay => &mut self.underlay,
        }
    }

    /// The art layer of the given type.
    pub fn get_art_layer(&self, layer_type: ArtLayerType) -> (r: &ArtLayer)
        ensures
            r@ == self@.layer(layer_type),
    {
        match layer_type {
            ArtLayerType::Overlay => &self.overlay,
            ArtLayerType::LineArt => &self.line_art,
            ArtLayerType::ColorArt => &self.color_art,
            ArtLayerType::Underlay => &self.underlay,
        }
    }
}

/// What a drawing element holds, as plain values.
pub struct ElementView {
    pub id: ElementId,
    pub name: Seq<char>,
    pub is_visible: bool,
    pub is_locked: bool,
    pub opacity_bits: u32,
    pub blend_mode: BlendMode,
    pub z_nudge_bits: u32,
    pub library: Map<DrawingId, DrawingView>,
    pub exposures: Map<FrameNumber, ExposureBlock>,
}

impl ElementView {
    /// The identifier of the drawing exposed on frame `f`, if it is in the library.
    pub open spec fn drawing_id_on(self, f: int) -> Option<DrawingId> {
        match block_at(self.exposures, f) {
            Some(b) => if self.library.contains_key(b.drawing_id) { Some(b.drawing_id) } else { None },
            None => None,
        }
    }

    /// The drawing exposed on frame `f`, if it is in the library.
    pub open spec fn drawing_on(self, f: int) -> Option<DrawingView> {
        match self.drawing_id_on(f) {
            Some(d) => Some(self.library[d]),
            None => None,
        }
    }
}

/// The IEEE-754 bit pattern of an opacity of one (fully opaque).
pub const OPAQUE_BITS: u32 = 0x3F80_0000;

/// An element of the scene: a named layer of the timeline with its library
/// of drawings and the exposure blocks that say which drawing shows on
/// which frame. Opacity and depth nudge are carried as the bit patterns of
/// their 32-bit float values.
#[derive(Debug, Clone)]
pub struct DrawingElement {
    pub id: ElementId,
    pub name: String,
    pub is_visible: bool,
    pub is_locked: bool,
    pub opacity_bits: u32,
    pub blend_mode: BlendMode,
    pub z_nudge_bits: u32,
    pub library: HashMap<DrawingId, DrawingData>,
    pub exposures: BTreeMap<FrameNumber, ExposureBlock>,
}

/// The views of the drawings of a library.
pub open spec fn library_view(m: Map<DrawingId, DrawingData>) -> Map<DrawingId, DrawingView> {
    m.map_values(|d: DrawingData| d@)
}

impl View for DrawingElement {
    type V = ElementView;

    open spec fn view(&self) -> ElementView {
        ElementView {
            id: self.id,
            name: self.name@,
            is_visible: self.is_visible,
            is_locked: self.is_locked,
            opacity_bits: self.opacity_bits,
            blend_mode: self.blend_mode,
            z_nudge_bits: self.z_nudge_bits,
            library: library_view(self.library@),
            exposures: self.exposures@,
        }
    }
}

impl DrawingElement {
    /// A visible, unlocked, opaque element with no drawings and no exposures.
    pub fn new(id: ElementId, name: String) -> (r: Self)
        ensures
            r@ == (ElementView {
                id,
                name: name@,
                is_visible: true,
                is_locked: false,
                opacity_bits: OPAQUE_BITS,
                blend_mode: BlendMode::Normal,
                z_nudge_bits: 0,
                library: Map::empty(),
                exposures: Map::empty(),
            }),
    {
        let r = DrawingElement {
            id,
            name,
            is_visible: true,
            is_locked: false,
            opacity_bits: OPAQUE_BITS,
            blend_mode: BlendMode::Normal,
            z_nudge_bits: 0,
            library: HashMap::new(),
            exposures: BTreeMap::new(),
        };
        proof {
            assert(library_view(r.library@) =~= Map::empty());
        }
        r
    }

    /// A copy with the same contents.
    pub fn duplicate(&self) -> (r: Self)
        ensures
            r@ == self@,
    {
        let mut library: HashMap<DrawingId, DrawingData> = HashMap::new();
        let keys = self.drawing_ids();
        let n = keys.len();
        for i in 0..n
            invariant
                n == keys@.len(),
                keys@.to_set() == self.library@.dom(),
                keys@.no_duplicates(),
                library_view(library@) == library_view(self.library@).restrict(keys@.take(i as int).to_set()),
        {
            let k = keys[i];
            assert(keys@.to_set().contains(k));
            let d = self.library.get(&k).unwrap().duplicate();
            proof {
                crate::timeline::lemma_take_one_more(keys@, i as int);
            }
            let ghost before = library@;
            library.insert(k, d);
            proof {
                assert(library@ == before.insert(k, d));
                assert(d@ == self.library@[k]@);
                assert(library_view(library@) =~= library_view(before).insert(k, d@));
                assert(library_view(library@) =~= library_view(self.library@).restrict(keys@.take(i + 1).to_set()));
            }
        }
        proof {
            assert(keys@.take(n as int) =~= keys@);
            assert(library_view(library@) =~= library_view(self.library@));
        }
        DrawingElement {
            id: self.id,
            name: self.name.clone(),
            is_visible: self.is_visible,
            is_locked: self.is_locked,
            opacity_bits: self.opacity_bits,
            blend_mode: self.blend_mode,
            z_nudge_bits: self.z_nudge_bits,
            library,
            exposures: self.exposures.clone(),
        }
    }

    /// The exposure block that shows `frame`, if any.
    pub fn get_exposure_at(&self, frame: FrameNumber) -> (r: Option<ExposureBlock>)
        requires
            timeline_wf(self.exposures@),
        ensures
            r == block_at(self.exposures@, frame as int),
    {
        exposure_at(&self.exposures, frame)
    }

    /// The drawing exposed on `frame`, if any.
    pub fn get_drawing(&self, frame: FrameNumber) -> (r: Option<&DrawingData>)
        requires
            timeline_wf(self.exposures@),
        ensures
            match r {
                Some(d) => self@.drawing_on(frame as int) == Some(d@),
                None => self@.drawing_on(frame as int) is None,
            },
    {
        match exposure_at(&self.exposures, frame) {
            Some(b) => self.library.get(&b.drawing_id),
            None => None,
        }
    }

    /// The drawing exposed on `frame`, if any, for change.
    pub fn get_drawing_mut(&mut self, frame: FrameNumber) -> (r: Option<&mut DrawingData>)
        requires
            timeline_wf(old(self).exposures@),
        ensures
            final(self).id == old(self).id,
            final(self).name == old(self).name,
            final(self).is_visible == old(self).is_visible,
            final(self).is_locked == old(self).is_locked,
            final(self).opacity_bits == old(self).opacity_bits,
            final(self).blend_mode == old(self).blend_mode,
            final(self).z_nudge_bits == old(self).z_nudge_bits,
            final(self).exposures == old(self).exposures,
            match r {
                Some(d) => {
                    let did = old(self)@.drawing_id_on(frame as int)->0;
                    &&& old(self)@.drawing_id_on(frame as int) is Some
                    &&& *d == old(self).library@[did]
                    &&& final(self).library@ == old(self).library@.insert(did, *final(d))
                },
                None => old(self)@.drawing_id_on(frame as int) is None && final(self).library@ == old(self).library@,
            },
    {
        match exposure_at(&self.exposures, frame) {
            Some(b) => match self.library.entry(b.drawing_id) {
                std::collections::hash_map::Entry::Occupied(o) => Some(o.into_mut()),
                std::collections::hash_map::Entry::Vacant(_) => None,
            },
            None => None,
        }
    }

    /// The identifiers of the drawings in the library, each once.
    pub fn drawing_ids(&self) -> (r: Vec<DrawingId>)
        ensures
            r@.to_set() == self.library@.dom(),
            r@.no_duplicates(),
    {
        keys_of(&self.library)
    }
}

/// The keys of a map, each once.
fn keys_of<V>(m: &HashMap<u64, V>) -> (r: Vec<u64>)
    ensures
        r@.to_set() == m@.dom(),
        r@.no_duplicates(),
{
    let mut r: Vec<u64> = Vec::new();
    let ghost ks = vstd::std_specs::hash::spec_keys_iter(m).remaining().map_values(|x: &u64| *x);
    for k in it: m.keys()
        invariant
            it.seq() == vstd::std_specs::hash::spec_keys_iter(m).remaining(),
            ks == it.seq().map_values(|x: &u64| *x),
            r@ == ks.take(it.index()),
    {
        proof {
            assert(ks[it.index()] == *k);
        }
        r.push(*k);
        proof {
            assert(r@ =~= ks.take(it.index() + 1));
        }
    }
    proof {
        let rem = vstd::std_specs::hash::spec_keys_iter(m).remaining();
        assert(r@ =~= ks);
        assert(rem.unref() =~= ks);
    }
    r
}

/// What a scene holds, as plain values.
pub struct SceneView {
    pub elements: Map<ElementId, ElementView>,
    pub z_stack: Seq<ElementId>,
    pub current_frame: FrameNumber,
    pub active_element_id: Option<ElementId>,
    pub active_art_layer: ArtLayerType,
    pub selected_strokes: Set<StrokeId>,
}

impl SceneView {
    /// Every element's timeline is well formed.
    pub open spec fn wf(self) -> bool {
        forall|eid: ElementId| #[trigger] self.elements.contains_key(eid) ==> timeline_wf(self.elements[eid].exposures)
    }

    /// The element `eid` exists and has the drawing `did` in its library.
    pub open spec fn has_drawing(self, eid: ElementId, did: DrawingId) -> bool {
        self.elements.contains_key(eid) && self.elements[eid].library.contains_key(did)
    }

    /// The strokes of art layer `t` of drawing `did` of element `eid`.
    pub open spec fn layer_at(self, eid: ElementId, did: DrawingId, t: ArtLayerType) -> Map<StrokeId, ShapeKey> {
        self.elements[eid].library[did].layer(t)
    }

    /// The scene with art layer `t` of drawing `did` of element `eid` replaced
    /// by `l`; unchanged where that drawing does not exist.
    pub open spec fn with_layer_at(
        self,
        eid: ElementId,
        did: DrawingId,
        t: ArtLayerType,
        l: Map<StrokeId, ShapeKey>,
    ) -> SceneView {
        if self.has_drawing(eid, did) {
            let e = self.elements[eid];
            SceneView {
                elements: self.elements.insert(
                    eid,
                    ElementView { library: e.library.insert(did, e.library[did].with_layer(t, l)), ..e },
                ),
                ..self
            }
        } else {
            self
        }
    }

    /// The element, drawing and art layer that tools draw into: the active
    /// element, the drawing exposed on the current frame, the active art layer.
    pub open spec fn active_drawing(self) -> Option<(ElementId, DrawingId)> {
        match self.active_element_id {
            Some(eid) => if self.elements.contains_key(eid) {
                match self.elements[eid].drawing_id_on(self.current_frame as int) {
                    Some(did) => Some((eid, did)),
                    None => None,
                }
            } else {
                None
            },
            None => None,
        }
    }

    /// The element that selection edits and tools write into: the active
    /// element, or element 1 when none is active.
    pub open spec fn target_element(self) -> ElementId {
        match self.active_element_id {
            Some(eid) => eid,
            None => 1,
        }
    }

    /// The drawing that selection edits and tools write into: the one the
    /// target element's timeline shows on the current frame, or drawing 1.
    pub open spec fn target_drawing(self) -> DrawingId {
        match block_at(self.elements[self.target_element()].exposures, self.current_frame as int) {
            Some(b) => b.drawing_id,
            None => 1,
        }
    }

    /// The strokes of the active art layer, if there is one.
    pub open spec fn active_layer(self) -> Option<Map<StrokeId, ShapeKey>> {
        match self.active_drawing() {
            Some((eid, did)) => Some(self.layer_at(eid, did, self.active_art_layer)),
            None => None,
        }
    }
}

/// The views of the elements of a scene.
pub open spec fn elements_view(m: Map<ElementId, DrawingElement>) -> Map<ElementId, ElementView> {
    m.map_values(|e: DrawingElement| e@)
}

/// Replacing one element (or one drawing) replaces its view and no other.
proof fn lemma_views_of_insert(
    m: Map<ElementId, DrawingElement>,
    eid: ElementId,
    lib: Map<DrawingId, DrawingData>,
    did: DrawingId,
)
    ensures
        forall|e1: DrawingElement| #[trigger] elements_view(m.insert(eid, e1)) == elements_view(m).insert(eid, e1@),
        forall|d1: DrawingData| #[trigger] library_view(lib.insert(did, d1)) == library_view(lib).insert(did, d1@),
{
    assert forall|e1: DrawingElement| #[trigger] elements_view(m.insert(eid, e1)) == elements_view(m).insert(eid, e1@) by {
        assert(elements_view(m.insert(eid, e1)) =~= elements_view(m).insert(eid, e1@));
    }
    assert forall|d1: DrawingData| #[trigger] library_view(lib.insert(did, d1)) == library_view(lib).insert(did, d1@) by {
        assert(library_view(lib.insert(did, d1)) =~= library_view(lib).insert(did, d1@));
    }
}

/// The document being edited: its elements, their stacking order, the
/// frame on view, what is active and what is selected.
pub struct SceneManager {
    pub elements: HashMap<ElementId, DrawingElement>,
    pub z_stack: Vec<ElementId>,
    pub current_frame: FrameNumber,
    pub active_element_id: Option<ElementId>,
    pub active_art_layer: ArtLayerType,
    pub selected_strokes: HashSet<StrokeId>,
}

impl View for SceneManager {
    type V = SceneView;

    open spec fn view(&self) -> SceneView {
        SceneView {
            elements: elements_view(self.elements@),
            z_stack: self.z_stack@,
            current_frame: self.current_frame,
            active_element_id: self.active_element_id,
            active_art_layer: self.active_art_layer,
            selected_strokes: self.selected_strokes@,
        }
    }
}

impl SceneManager {
    /// An empty scene on frame 1, drawing into line art.
    pub fn new() -> (r: Self)
        ensures
            r@ == (SceneView {
                elements: Map::empty(),
                z_stack: Seq::empty(),
                current_frame: 1,
                active_element_id: None,
                active_art_layer: ArtLayerType::LineArt,
                selected_strokes: Set::empty(),
            }),
            r@.wf(),
    {
        let r = SceneManager {
            elements: HashMap::new(),
            z_stack: Vec::new(),
            current_frame: 1,
            active_element_id: None,
            active_art_layer: ArtLayerType::LineArt,
            selected_strokes: HashSet::new(),
        };
        proof {
            assert(elements_view(r.elements@) =~= Map::empty());
            assert(r.z_stack@ =~= Seq::empty());
        }
        r
    }

    /// Inserts stroke `sid` with shape `key` into art layer `t` of drawing
    /// `did` of element `eid`; does nothing where that drawing does not exist.
    pub fn layer_insert(&mut self, eid: ElementId, did: DrawingId, t: ArtLayerType, sid: StrokeId, key: ShapeKey)
        ensures
            final(self)@ == old(self)@.with_layer_at(eid, did, t, old(self)@.layer_at(eid, did, t).insert(sid, key)),
    {
        if let Some(mut el) = self.elements.remove(&eid) {
            let ghost el0 = el;
            if let Some(mut d) = el.library.remove(&did) {
                let ghost d0 = d;
                d.get_art_layer_mut(t).vector_elements.insert(sid, key);
                el.library.insert(did, d);
                proof {
                    assert(old(self)@.elements[eid] == el0@);
                    assert(d0@ == el0@.library[did]);
                    assert(d@ == d0@.with_layer(t, d0@.layer(t).insert(sid, key)));
                    assert(library_view(el.library@) =~= library_view(el0.library@).insert(did, d@));
                    let e = old(self)@.elements[eid];
                    assert(el@ == ElementView { library: e.library.insert(did, e.library[did].with_layer(t, e.library[did].layer(t).insert(sid, key))), ..e });
                }
            } else {
                proof {
                    assert(el.library@ =~= el0.library@);
                    assert(library_view(el.library@) =~= library_view(el0.library@));
                    assert(el@ == el0@);
                }
            }
            self.elements.insert(eid, el);
            proof {
                assert(elements_view(self.elements@) =~= elements_view(old(self).elements@).insert(eid, el@));
                if !old(self)@.has_drawing(eid, did) {
                    assert(elements_view(self.elements@) =~= elements_view(old(self).elements@));
                }
            }
        } else {
            proof {
                assert(self.elements@ =~= old(self).elements@);
            }
        }
    }

    /// Removes stroke `sid` from art layer `t` of drawing `did` of element
    /// `eid`; does nothing where that drawing does not exist.
    pub fn layer_remove(&mut self, eid: ElementId, did: DrawingId, t: ArtLayerType, sid: StrokeId)
        ensures
            final(self)@ == old(self)@.with_layer_at(eid, did, t, old(self)@.layer_at(eid, did, t).remove(sid)),
    {
        if let Some(mut el) = self.elements.remove(&eid) {
            let ghost el0 = el;
            if let Some(mut d) = el.library.remove(&did) {
                let ghost d0 = d;
                d.get_art_layer_mut(t).vector_elements.remove(&sid);
                el.library.insert(did, d);
                proof {
                    assert(old(self)@.elements[eid] == el0@);
                    assert(d0@ == el0@.library[did]);
                    assert(d@ == d0@.with_layer(t, d0@.layer(t).remove(sid)));
                    assert(library_view(el.library@) =~= library_view(el0.library@).insert(did, d@));
                    let e = old(self)@.elements[eid];
                    assert(el@ == ElementView { library: e.library.insert(did, e.library[did].with_layer(t, e.library[did].layer(t).remove(sid))), ..e });
                }
            } else {
                proof {
                    assert(el.library@ =~= el0.library@);
                    assert(library_view(el.library@) =~= library_view(el0.library@));
                    assert(el@ == el0@);
                }
            }
            self.elements.insert(eid, el);
            proof {
                assert(elements_view(self.elements@) =~= elements_view(old(self).elements@).insert(eid, el@));
                if !old(self)@.has_drawing(eid, did) {
                    assert(elements_view(self.elements@) =~= elements_view(old(self).elements@));
                }
            }
        } else {
            proof {
                assert(self.elements@ =~= old(self).elements@);
            }
        }
    }
}

/// The contents of a drawing whose four art layers are empty.
pub open spec fn empty_drawing() -> DrawingView {
    DrawingView { overlay: Map::empty(), line_art: Map::empty(), color_art: Map::empty(), underlay: Map::empty() }
}

/// The active element exists and no block of its timeline shows the current frame.
pub open spec fn needs_drawing(s: SceneView) -> bool {
    match s.active_element_id {
        Some(eid) => s.elements.contains_key(eid) && block_at(s.elements[eid].exposures, s.current_frame as int) is None,
        None => false,
    }
}

/// The scene and the next free identifier after making sure the active
/// element has a drawing on the current frame: when no block of its
/// timeline shows that frame, drawing `next` is added, empty, and exposed on
/// that frame alone.
pub open spec fn ensure_spec(s: SceneView, next: u64) -> (SceneView, u64) {
    let f = s.current_frame;
    match s.active_element_id {
        Some(eid) => if s.elements.contains_key(eid) && block_at(s.elements[eid].exposures, f as int) is None {
            let e = s.elements[eid];
            (SceneView {
                elements: s.elements.insert(eid, ElementView {
                    library: e.library.insert(next, empty_drawing()),
                    exposures: e.exposures.insert(f, ExposureBlock { drawing_id: next, start_frame: f, duration: 1 }),
                    ..e
                }),
                ..s
            }, (next + 1) as u64)
        } else {
            (s, next)
        },
        None => (s, next),
    }
}

/// The largest last frame of any block, or 1 when it is larger.
pub open spec fn is_scene_length(s: SceneView, n: int) -> bool {
    &&& n >= 1
    &&& forall|eid: ElementId, k: FrameNumber|
        #[trigger] s.elements.contains_key(eid) && #[trigger] s.elements[eid].exposures.contains_key(k)
            ==> k + s.elements[eid].exposures[k].duration - 1 <= n
    &&& (n == 1 || exists|eid: ElementId, k: FrameNumber|
        #[trigger] s.elements.contains_key(eid) && #[trigger] s.elements[eid].exposures.contains_key(k)
            && k + s.elements[eid].exposures[k].duration - 1 == n)
}

impl SceneManager {
    /// The identifiers of the elements, each once.
    pub fn element_ids(&self) -> (r: Vec<ElementId>)
        ensures
            r@.to_set() == self.elements@.dom(),
            r@.no_duplicates(),
    {
        keys_of(&self.elements)
    }

    /// Makes sure the active element has a drawing on the current frame: when
    /// no block of its timeline shows that frame, a new empty drawing is added
    /// to its library and exposed on that frame alone.
    pub fn ensure_drawing_exists(&mut self, allocator: &mut IdAllocator)
        requires
            old(self)@.wf(),
            needs_drawing(old(self)@) ==> old(self).current_frame < u32::MAX && old(allocator).next() < u64::MAX,
        ensures
            final(self)@.wf(),
            (final(self)@, final(allocator).next()) == ensure_spec(old(self)@, old(allocator).next()),
    {
        let frame = self.current_frame;
        if let Some(el_id) = self.active_element_id {
            if let Some(mut el) = self.elements.remove(&el_id) {
                let ghost el0 = el;
                proof {
                    assert(old(self)@.elements.contains_key(el_id));
                    assert(old(self)@.elements[el_id] == el0@);
                }
                if el.get_exposure_at(frame).is_none() {
                    let new_draw_id = allocator.generate();
                    let d = DrawingData::new();
                    el.library.insert(new_draw_id, d);
                    el.exposures.insert(frame, ExposureBlock { drawing_id: new_draw_id, start_frame: frame, duration: 1 });
                    proof {
                        assert(d@ == empty_drawing());
                        assert(library_view(el.library@) =~= library_view(el0.library@).insert(new_draw_id, d@));
                        let m = el.exposures@;
                        let m0 = el0.exposures@;
                        assert(!m0.contains_key(frame)) by {
                            if m0.contains_key(frame) {
                                assert(crate::timeline::covers_at(m0, frame, frame as int));
                            }
                        }
                        assert forall|a: u32, b: u32| #[trigger] m.contains_key(a) && #[trigger] m.contains_key(b) && a < b
                            implies a + m[a].duration <= b by {
                            if a == frame {
                            } else if b == frame {
                                assert(!crate::timeline::covers_at(m0, a, frame as int));
                            } else {
                                assert(m0.contains_key(a) && m0.contains_key(b));
                            }
                        }
                        assert(timeline_wf(m));
                    }
                    self.elements.insert(el_id, el);
                    proof {
                        assert(elements_view(self.elements@) =~= elements_view(old(self).elements@).insert(el_id, el@));
                    }
                } else {
                    self.elements.insert(el_id, el);
                    proof {
                        assert(elements_view(self.elements@) =~= elements_view(old(self).elements@));
                    }
                }
            } else {
                proof {
                    assert(self.elements@ =~= old(self).elements@);
                }
            }
        }
    }

    /// The active art layer and the drawing it belongs to, if there is one.
    pub fn get_active_art_layer(&self) -> (r: Option<(DrawingId, &ArtLayer)>)
        requires
            self@.wf(),
        ensures
            match r {
                Some((did, l)) => self@.active_drawing() == Some((self.active_element_id->0, did))
                    && Some(l@) == self@.active_layer(),
                None => self@.active_drawing() is None,
            },
    {
        let el_id = match self.active_element_id {
            Some(x) => x,
            None => return None,
        };
        let el = match self.elements.get(&el_id) {
            Some(e) => e,
            None => return None,
        };
        proof {
            assert(self@.elements.contains_key(el_id));
            assert(self@.elements[el_id] == el@);
        }
        let block = match el.get_exposure_at(self.current_frame) {
            Some(b) => b,
            None => return None,
        };
        let drawing = match el.library.get(&block.drawing_id) {
            Some(d) => d,
            None => return None,
        };
        Some((block.drawing_id, drawing.get_art_layer(self.active_art_layer)))
    }

    /// The active art layer and the drawing it belongs to, if there is one,
    /// for change: what is written to the layer is written to the scene.
    pub fn get_active_art_layer_mut(&mut self) -> (r: Option<(DrawingId, &mut ArtLayer)>)
        requires
            old(self)@.wf(),
        ensures
            match r {
                Some((did, l)) => {
                    let s = old(self)@;
                    let eid = old(self).active_element_id->0;
                    &&& s.active_drawing() == Some((eid, did))
                    &&& Some(l@) == s.active_layer()
                    &&& final(self)@ == s.with_layer_at(eid, did, s.active_art_layer, final(l)@)
                },
                None => old(self)@.active_drawing() is None && final(self)@ == old(self)@,
            },
    {
        let el_id = match self.active_element_id {
            Some(x) => x,
            None => return None,
        };
        let frame = self.current_frame;
        let t = self.active_art_layer;
        let did = match self.elements.get(&el_id) {
            Some(el) => {
                proof {
                    assert(old(self)@.elements.contains_key(el_id));
                    assert(old(self)@.elements[el_id] == el@);
                }
                match el.get_exposure_at(frame) {
                    Some(b) => if el.library.contains_key(&b.drawing_id) {
                        b.drawing_id
                    } else {
                        return None;
                    },
                    None => return None,
                }
            },
            None => return None,
        };
        proof {
            assert(old(self)@.active_drawing() == Some((el_id, did)));
            lemma_views_of_insert(old(self).elements@, el_id, old(self).elements@[el_id].library@, did);
        }
        match self.elements.entry(el_id) {
            std::collections::hash_map::Entry::Occupied(o) => {
                let el = o.into_mut();
                match el.get_drawing_mut(frame) {
                    Some(d) => {
                        Some((did, d.get_art_layer_mut(t)))
                    },
                    None => {
                        proof {
                            assert(false);
                        }
                        None
                    },
                }
            },
            std::collections::hash_map::Entry::Vacant(_) => {
                proof {
                    assert(false);
                }
                None
            },
        }
    }

    /// Where selection edits and tools write: the target element and drawing.
    pub fn target_location(&self) -> (r: (ElementId, DrawingId))
        requires
            self@.wf(),
            self@.elements.contains_key(self@.target_element()),
        ensures
            r == (self@.target_element(), self@.target_drawing()),
    {
        let eid = match self.active_element_id {
            Some(e) => e,
            None => 1,
        };
        let el = self.elements.get(&eid).unwrap();
        proof {
            assert(self@.elements[eid] == el@);
        }
        let did = match el.get_exposure_at(self.current_frame) {
            Some(b) => b.drawing_id,
            None => 1,
        };
        (eid, did)
    }

    /// The selected stroke identifiers, each once.
    pub fn selected_ids(&self) -> (r: Vec<StrokeId>)
        ensures
            r@.to_set() == self.selected_strokes@,
            r@.no_duplicates(),
    {
        let mut r: Vec<StrokeId> = Vec::new();
        let ghost ks = vstd::std_specs::hash::spec_hash_keys_iter(&self.selected_strokes).remaining().map_values(|x: &u64| *x);
        for k in it: self.selected_strokes.iter()
            invariant
                it.seq() == vstd::std_specs::hash::spec_hash_keys_iter(&self.selected_strokes).remaining(),
                ks == it.seq().map_values(|x: &u64| *x),
                r@ == ks.take(it.index()),
        {
            proof {
                assert(ks[it.index()] == *k);
            }
            r.push(*k);
            proof {
                assert(r@ =~= ks.take(it.index() + 1));
            }
        }
        proof {
            let rem = vstd::std_specs::hash::spec_hash_keys_iter(&self.selected_strokes).remaining();
            assert(r@ =~= ks);
            assert(rem.unref() =~= ks);
        }
        r
    }

    /// The number of frames the scene spans: the last frame shown by any
    /// exposure block, and at least 1.
    pub fn get_scene_length(&self) -> (r: u32)
        requires
            self@.wf(),
        ensures
            is_scene_length(self@, r as int),
    {
        let ids = self.element_ids();
        let mut best: u32 = 1;
        let ghost mut witness: Option<(ElementId, FrameNumber)> = None;
        for i in 0..ids.len()
            invariant
                ids@.to_set() == self.elements@.dom(),
                self@.wf(),
                best >= 1,
                forall|j: int, k: FrameNumber| 0 <= j < i && #[trigger] self@.elements[ids@[j]].exposures.contains_key(k)
                    ==> k + self@.elements[ids@[j]].exposures[k].duration - 1 <= best,
                best == 1 || (witness matches Some((we, wk)) && self@.elements.contains_key(we)
                    && self@.elements[we].exposures.contains_key(wk)
                    && wk + self@.elements[we].exposures[wk].duration - 1 == best),
        {
            let eid = ids[i];
            assert(ids@.to_set().contains(eid));
            let el = self.elements.get(&eid).unwrap();
            proof {
                assert(self@.elements.contains_key(eid));
                assert(self@.elements[eid] == el@);
                assert(timeline_wf(el.exposures@));
            }
            let frames = crate::timeline::sorted_frames(&el.exposures);
            let ghost best_before = best;
            let ghost witness_before = witness;
            for j in 0..frames.len()
                invariant
                    frames@.to_set() == el.exposures@.dom(),
                    timeline_wf(el.exposures@),
                    best >= best_before,
                    best == best_before ==> witness == witness_before,
                    forall|q: int| 0 <= q < j ==> frames@[q] + el.exposures@[frames@[q]].duration - 1 <= best,
                    best == best_before || (witness matches Some((we, wk)) && we == eid
                        && el.exposures@.contains_key(wk) && wk + el.exposures@[wk].duration - 1 == best),
                    best_before == 1 || (witness_before matches Some((we, wk)) && self@.elements.contains_key(we)
                        && self@.elements[we].exposures.contains_key(wk)
                        && wk + self@.elements[we].exposures[wk].duration - 1 == best_before),
                    self@.elements.contains_key(eid),
                    self@.elements[eid] == el@,
            {
                let k = frames[j];
                assert(frames@.to_set().contains(k));
                let b = el.exposures.get(&k).unwrap();
                let last = b.start_frame + b.duration - 1;
                if last > best {
                    best = last;
                    proof {
                        witness = Some((eid, k));
                    }
                }
            }
            proof {
                assert(self@.elements[eid].exposures == el.exposures@);
                assert forall|k: FrameNumber| #[trigger] el.exposures@.contains_key(k)
                    implies k + el.exposures@[k].duration - 1 <= best by {
                    assert(frames@.to_set().contains(k));
                    let q = choose|q: int| 0 <= q < frames@.len() && frames@[q] == k;
                }
            }
        }
        proof {
            let s = self@;
            assert forall|eid: ElementId, k: FrameNumber|
                #[trigger] s.elements.contains_key(eid) && #[trigger] s.elements[eid].exposures.contains_key(k)
                implies k + s.elements[eid].exposures[k].duration - 1 <= best by {
                assert(ids@.to_set().contains(eid));
                let j = choose|j: int| 0 <= j < ids@.len() && ids@[j] == eid;
            }
            if best != 1 {
                let (we, wk) = witness->0;
                assert(s.elements.contains_key(we) && s.elements[we].exposures.contains_key(wk));
            }
        }
        best
    }
}

/// The art layers to draw, bottom first: for each visible element of `z`
/// (in stack order) that shows a drawing on the current frame, that
/// drawing's underlay, color art, line art and overlay.
pub open spec fn render_layers(s: SceneView, z: Seq<ElementId>) -> Seq<Map<StrokeId, ShapeKey>>
    decreases z.len(),
{
    if z.len() == 0 {
        Seq::empty()
    } else {
        let rest = render_layers(s, z.drop_last());
        let eid = z.last();
        if s.elements.contains_key(eid) && s.elements[eid].is_visible {
            match s.elements[eid].drawing_on(s.current_frame as int) {
                Some(d) => rest + seq![d.underlay, d.color_art, d.line_art, d.overlay],
                None => rest,
            }
        } else {
            rest
        }
    }
}

/// The shapes of layer `ls[i]` in the order `orders[i]`, layer after layer.
pub open spec fn layer_shapes(ls: Seq<Map<StrokeId, ShapeKey>>, orders: Seq<Seq<StrokeId>>) -> Seq<ShapeKey>
    decreases ls.len(),
{
    if ls.len() == 0 || orders.len() == 0 {
        Seq::empty()
    } else {
        let l = ls.last();
        layer_shapes(ls.drop_last(), orders.drop_last()) + orders.last().map_values(|k: StrokeId| l[k])
    }
}

/// `orders[i]` lists the strokes of `ls[i]`, each once.
pub open spec fn orders_cover(ls: Seq<Map<StrokeId, ShapeKey>>, orders: Seq<Seq<StrokeId>>) -> bool {
    &&& orders.len() == ls.len()
    &&& forall|i: int| 0 <= i < ls.len() ==> (#[trigger] orders[i]).no_duplicates() && orders[i].to_set() == ls[i].dom()
}

/// The shapes drawn for the element on top of the stack come after those
/// of the elements below it, art layer by art layer: all of its underlay,
/// then all of its color art, then all of its line art, then all of its
/// overlay, each art layer's strokes in some order, each once.
pub proof fn law_render_top_element_layers(s: SceneView, z: Seq<ElementId>, orders: Seq<Seq<StrokeId>>, d: DrawingView)
    requires
        z.len() > 0,
        s.elements.contains_key(z.last()),
        s.elements[z.last()].is_visible,
        s.elements[z.last()].drawing_on(s.current_frame as int) == Some(d),
        orders_cover(render_layers(s, z), orders),
    ensures
        ({
            let below = render_layers(s, z.drop_last());
            let m = below.len() as int;
            &&& orders.len() == m + 4
            &&& orders[m].to_set() == d.underlay.dom() && orders[m].no_duplicates()
            &&& orders[m + 1].to_set() == d.color_art.dom() && orders[m + 1].no_duplicates()
            &&& orders[m + 2].to_set() == d.line_art.dom() && orders[m + 2].no_duplicates()
            &&& orders[m + 3].to_set() == d.overlay.dom() && orders[m + 3].no_duplicates()
            &&& layer_shapes(render_layers(s, z), orders) == layer_shapes(below, orders.take(m))
                + orders[m].map_values(|k: StrokeId| d.underlay[k])
                + orders[m + 1].map_values(|k: StrokeId| d.color_art[k])
                + orders[m + 2].map_values(|k: StrokeId| d.line_art[k])
                + orders[m + 3].map_values(|k: StrokeId| d.overlay[k])
        }),
{
    let below = render_layers(s, z.drop_last());
    let m = below.len() as int;
    let q = seq![d.underlay, d.color_art, d.line_art, d.overlay];
    let ls = render_layers(s, z);
    assert(ls == below + q);
    assert(orders[m] == orders[m + 0]);
    let l0 = ls.take(m);
    let l1 = ls.take(m + 1);
    let l2 = ls.take(m + 2);
    let l3 = ls.take(m + 3);
    let o0 = orders.take(m);
    let o1 = orders.take(m + 1);
    let o2 = orders.take(m + 2);
    let o3 = orders.take(m + 3);
    assert(l0 =~= below);
    assert(l1.drop_last() =~= l0 && o1.drop_last() =~= o0);
    assert(l2.drop_last() =~= l1 && o2.drop_last() =~= o1);
    assert(l3.drop_last() =~= l2 && o3.drop_last() =~= o2);
    assert(ls.drop_last() =~= l3 && orders.drop_last() =~= o3);
    assert(l1.last() == d.underlay && o1.last() == orders[m]);
    assert(l2.last() == d.color_art && o2.last() == orders[m + 1]);
    assert(l3.last() == d.line_art && o3.last() == orders[m + 2]);
    assert(ls.last() == d.overlay && orders.last() == orders[m + 3]);
    assert(layer_shapes(l1, o1) == layer_shapes(l0, o0) + orders[m].map_values(|k: StrokeId| d.underlay[k]));
    assert(layer_shapes(l2, o2) == layer_shapes(l1, o1) + orders[m + 1].map_values(|k: StrokeId| d.color_art[k]));
    assert(layer_shapes(l3, o3) == layer_shapes(l2, o2) + orders[m + 2].map_values(|k: StrokeId| d.line_art[k]));
    assert(layer_shapes(ls, orders) == layer_shapes(l3, o3) + orders[m + 3].map_values(|k: StrokeId| d.overlay[k]));
    assert(ls[m] == d.underlay && ls[m + 1] == d.color_art && ls[m + 2] == d.line_art && ls[m + 3] == d.overlay);
}

impl SceneManager {
    /// The shapes to draw for the current frame, bottom first: element by
    /// element up the stack, skipping hidden ones, then art layer by art
    /// layer from underlay to overlay; within one art layer in no set order.
    pub fn collect_renderable_elements(&self) -> (r: Vec<ShapeKey>)
        requires
            self@.wf(),
        ensures
            exists|orders: Seq<Seq<StrokeId>>| #[trigger] orders_cover(render_layers(self@, self@.z_stack), orders)
                && r@ == layer_shapes(render_layers(self@, self@.z_stack), orders),
    {
        let mut out: Vec<ShapeKey> = Vec::new();
        let ghost mut orders: Seq<Seq<StrokeId>> = Seq::empty();
        let n = self.z_stack.len();
        for i in 0..n
            invariant
                n == self.z_stack@.len(),
                self@.wf(),
                orders_cover(render_layers(self@, self.z_stack@.take(i as int)), orders),
                out@ == layer_shapes(render_layers(self@, self.z_stack@.take(i as int)), orders),
        {
            let el_id = self.z_stack[i];
            let ghost ls0 = render_layers(self@, self.z_stack@.take(i as int));
            proof {
                assert(self.z_stack@.take(i + 1).drop_last() =~= self.z_stack@.take(i as int));
                assert(self.z_stack@.take(i + 1).last() == el_id);
            }
            if let Some(el) = self.elements.get(&el_id) {
                proof {
                    assert(self@.elements.contains_key(el_id));
                    assert(self@.elements[el_id] == el@);
                }
                if el.is_visible {
                    if let Some(d) = el.get_drawing(self.current_frame) {
                        let types = [ArtLayerType::Underlay, ArtLayerType::ColorArt, ArtLayerType::LineArt, ArtLayerType::Overlay];
                        let ghost dv = d@;
                        let ghost quad = seq![dv.underlay, dv.color_art, dv.line_art, dv.overlay];
                        for q in 0..4usize
                            invariant
                                types@ == seq![ArtLayerType::Underlay, ArtLayerType::ColorArt, ArtLayerType::LineArt, ArtLayerType::Overlay],
                                dv == d@,
                                quad == seq![dv.underlay, dv.color_art, dv.line_art, dv.overlay],
                                orders_cover(ls0 + quad.take(q as int), orders),
                                out@ == layer_shapes(ls0 + quad.take(q as int), orders),
                        {
                            let layer = d.get_art_layer(types[q]);
                            let ids = layer.stroke_ids();
                            let ghost before = out@;
                            let m = ids.len();
                            for j in 0..m
                                invariant
                                    m == ids@.len(),
                                    ids@.to_set() == layer@.dom(),
                                    out@ == before + ids@.take(j as int).map_values(|k: StrokeId| layer@[k]),
                            {
                                assert(ids@.to_set().contains(ids@[j as int]));
                                let k = *layer.vector_elements.get(&ids[j]).unwrap();
                                out.push(k);
                                proof {
                                    assert(out@ =~= before + ids@.take(j + 1).map_values(|k: StrokeId| layer@[k]));
                                }
                            }
                            proof {
                                assert(ids@.take(m as int) =~= ids@);
                                assert(quad[q as int] == layer@);
                                let ls1 = ls0 + quad.take(q + 1);
                                assert(ls1.drop_last() =~= ls0 + quad.take(q as int));
                                assert(ls1.last() == layer@);
                                let o1 = orders.push(ids@);
                                assert(o1.drop_last() =~= orders);
                                assert(out@ == layer_shapes(ls1, o1));
                                assert forall|x: int| 0 <= x < ls1.len() implies
                                    (#[trigger] o1[x]).no_duplicates() && o1[x].to_set() == ls1[x].dom() by {
                                    if x < ls1.len() - 1 {
                                        assert(o1[x] == orders[x]);
                                        assert(ls1[x] == (ls0 + quad.take(q as int))[x]);
                                    }
                                }
                                orders = o1;
                            }
                        }
                        proof {
                            assert(quad.take(4) =~= quad);
                        }
                    } else {
                        proof {
                            assert(ls0 + Seq::<Map<StrokeId, ShapeKey>>::empty() =~= ls0);
                        }
                    }
                }
            }
        }
        proof {
            assert(self.z_stack@.take(n as int) =~= self.z_stack@);
            assert(orders_cover(render_layers(self@, self@.z_stack), orders));
            assert(out@ == layer_shapes(render_layers(self@, self@.z_stack), orders));
        }
        out
    }
}

/// Hands out identifiers for elements, drawings and strokes. Every
/// identifier it gives is larger than all the ones it gave before.
pub struct IdAllocator {
    next_id: u64,
}

impl IdAllocator {
    /// The identifier that the next call of `generate` returns.
    pub closed spec fn next(&self) -> u64 {
        self.next_id
    }

    /// An allocator whose first identifier is 1000.
    pub fn new() -> (r: Self)
        ensures
            r.next() == 1000,
    {
        IdAllocator { next_id: 1000 }
    }

    /// Returns the next identifier and advances by one.
    pub fn generate(&mut self) -> (id: u64)
        requires
            old(self).next() < u64::MAX,
        ensures
            id == old(self).next(),
            final(self).next() == old(self).next() + 1,
    {
        let id = self.next_id;
        self.next_id = self.next_id + 1;
        id
    }
}

} // verus!
