//! Element (layer) settings: the active art layer, opacity and visibility.
use vstd::prelude::*;
use crate::graph::{SceneManager, SceneView, ElementView, ElementId, ArtLayerType, elements_view};

verus! {

/// The art layer that a layer index selects: 0 overlay, 1 line art,
/// 2 color art, 3 underlay, anything else line art.
pub open spec fn art_layer_of_index(layer_index: u8) -> ArtLayerType {
    if layer_index == 0 {
        ArtLayerType::Overlay
    } else if layer_index == 2 {
        ArtLayerType::ColorArt
    } else if layer_index == 3 {
        ArtLayerType::Underlay
    } else {
        ArtLayerType::LineArt
    }
}

/// Makes the art layer with the given index the one that tools draw into.
pub fn set_active_art_layer(scene: &mut SceneManager, layer_index: u8)
    ensures
        final(scene)@ == (SceneView { active_art_layer: art_layer_of_index(layer_index), ..old(scene)@ }),
{
    scene.active_art_layer = match layer_index {
        0 => ArtLayerType::Overlay,
        1 => ArtLayerType::LineArt,
        2 => ArtLayerType::ColorArt,
        3 => ArtLayerType::Underlay,
        _ => ArtLayerType::LineArt,
    };
}

/// The scene with one element replaced by `e`; unchanged when there is no such element.
pub open spec fn with_element(s: SceneView, eid: ElementId, e: ElementView) -> SceneView {
    if s.elements.contains_key(eid) {
        SceneView { elements: s.elements.insert(eid, e), ..s }
    } else {
        s
    }
}

/// Sets the opacity of an element, given as the bit pattern of a float
/// already clamped to `[0, 1]`.
pub fn set_opacity(scene: &mut SceneManager, element_id: ElementId, opacity_bits: u32)
    requires
        old(scene)@.wf(),
    ensures
        final(scene)@ == with_element(old(scene)@, element_id,
            ElementView { opacity_bits, ..old(scene)@.elements[element_id] }),
        final(scene)@.wf(),
{
    if let Some(mut el) = scene.elements.remove(&element_id) {
        proof {
            assert(old(scene)@.elements.contains_key(element_id));
            assert(old(scene)@.elements[element_id] == el@);
        }
        el.opacity_bits = opacity_bits;
        scene.elements.insert(element_id, el);
        proof {
            assert(elements_view(scene.elements@) =~= elements_view(old(scene).elements@).insert(element_id, el@));
            let r = scene@;
            assert forall|k: ElementId| #[trigger] r.elements.contains_key(k)
                implies crate::timeline::timeline_wf(r.elements[k].exposures) by {
                assert(old(scene)@.elements.contains_key(k));
            }
        }
    } else {
        proof {
            assert(scene.elements@ =~= old(scene).elements@);
        }
    }
}

/// Shows or hides an element.
pub fn set_visibility(scene: &mut SceneManager, element_id: ElementId, is_visible: bool)
    requires
        old(scene)@.wf(),
    ensures
        final(scene)@ == with_element(old(scene)@, element_id,
            ElementView { is_visible, ..old(scene)@.elements[element_id] }),
        final(scene)@.wf(),
{
    if let Some(mut el) = scene.elements.remove(&element_id) {
        proof {
            assert(old(scene)@.elements.contains_key(element_id));
            assert(old(scene)@.elements[element_id] == el@);
        }
        el.is_visible = is_visible;
        scene.elements.insert(element_id, el);
        proof {
            assert(elements_view(scene.elements@) =~= elements_view(old(scene).elements@).insert(element_id, el@));
            let r = scene@;
            assert forall|k: ElementId| #[trigger] r.elements.contains_key(k)
                implies crate::timeline::timeline_wf(r.elements[k].exposures) by {
                assert(old(scene)@.elements.contains_key(k));
            }
        }
    } else {
        proof {
            assert(scene.elements@ =~= old(scene).elements@);
        }
    }
}

} // verus!
