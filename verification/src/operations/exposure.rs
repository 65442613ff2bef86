//! Editing the exposure blocks of an element's timeline.
use vstd::prelude::*;
use crate::graph::{SceneManager, SceneView, ElementView, ElementId, FrameNumber, DrawingId, elements_view};
use crate::timeline::{
    ExposureBlock, carve, with_exposure, split_at, set_exposure_in, clear_exposure_in, split_exposure_in,
    timeline_wf, drawing_at, lemma_with_exposure, lemma_carve, lemma_split_at, lemma_carve_again,
};

verus! {

/// The scene with the timeline of element `eid` replaced by `m`; unchanged
/// when there is no such element.
pub open spec fn with_timeline(s: SceneView, eid: ElementId, m: Map<FrameNumber, ExposureBlock>) -> SceneView {
    if s.elements.contains_key(eid) {
        SceneView { elements: s.elements.insert(eid, ElementView { exposures: m, ..s.elements[eid] }), ..s }
    } else {
        s
    }
}

/// What `set_exposure` makes of a scene.
pub open spec fn set_exposure_spec(s: SceneView, eid: ElementId, start: FrameNumber, duration: u32, did: DrawingId) -> SceneView {
    if duration == 0 || !s.elements.contains_key(eid) {
        s
    } else {
        with_timeline(s, eid, with_exposure(s.elements[eid].exposures, start, duration, did))
    }
}

/// What `clear_exposure` makes of a scene.
pub open spec fn clear_exposure_spec(s: SceneView, eid: ElementId, start: FrameNumber, duration: u32) -> SceneView {
    if duration == 0 || !s.elements.contains_key(eid) {
        s
    } else {
        with_timeline(s, eid, carve(s.elements[eid].exposures, start, (start + duration) as u32))
    }
}

/// What `split_exposure` makes of a scene.
pub open spec fn split_exposure_spec(s: SceneView, eid: ElementId, cut: FrameNumber) -> SceneView {
    if !s.elements.contains_key(eid) {
        s
    } else {
        with_timeline(s, eid, split_at(s.elements[eid].exposures, cut))
    }
}

/// What `update_exposure` makes of a scene: the block that starts on
/// `old_start` is cleared and its drawing exposed on the new run of frames.
pub open spec fn update_exposure_spec(
    s: SceneView,
    eid: ElementId,
    old_start: FrameNumber,
    new_start: FrameNumber,
    new_duration: u32,
) -> SceneView {
    if new_duration == 0 || !s.elements.contains_key(eid) || !s.elements[eid].exposures.contains_key(old_start) {
        s
    } else {
        let b = s.elements[eid].exposures[old_start];
        set_exposure_spec(clear_exposure_spec(s, eid, old_start, b.duration), eid, new_start, new_duration, b.drawing_id)
    }
}

/// Replacing one element's timeline by a well-formed one keeps the scene well formed.
proof fn lemma_with_timeline_wf(s: SceneView, eid: ElementId, m: Map<FrameNumber, ExposureBlock>)
    requires
        s.wf(),
        timeline_wf(m),
    ensures
        with_timeline(s, eid, m).wf(),
{
    let r = with_timeline(s, eid, m);
    assert forall|k: ElementId| #[trigger] r.elements.contains_key(k) implies timeline_wf(r.elements[k].exposures) by {
        if k != eid {
            assert(s.elements.contains_key(k));
        }
    }
}

/// Exposes drawing `drawing_id` of element `element_id` on the frames
/// `[start_frame, start_frame + duration)`, cutting back or removing the
/// blocks that were there. Does nothing for a zero duration or an unknown element.
pub fn set_exposure(
    scene: &mut SceneManager,
    element_id: ElementId,
    start_frame: FrameNumber,
    duration: u32,
    drawing_id: DrawingId,
)
    requires
        old(scene)@.wf(),
        duration == 0 || !old(scene)@.elements.contains_key(element_id) || start_frame + duration <= u32::MAX,
    ensures
        final(scene)@ == set_exposure_spec(old(scene)@, element_id, start_frame, duration, drawing_id),
        final(scene)@.wf(),
{
    if duration == 0 {
        return;
    }
    if let Some(mut el) = scene.elements.remove(&element_id) {
        proof {
            assert(old(scene)@.elements.contains_key(element_id));
            assert(old(scene)@.elements[element_id] == el@);
        }
        let ghost el0 = el;
        set_exposure_in(&mut el.exposures, start_frame, duration, drawing_id);
        scene.elements.insert(element_id, el);
        proof {
            assert(el@ == ElementView { exposures: el.exposures@, ..el0@ });
            assert(elements_view(scene.elements@) =~= elements_view(old(scene).elements@).insert(element_id, el@));
            lemma_with_timeline_wf(old(scene)@, element_id, el.exposures@);
        }
    } else {
        proof {
            assert(scene.elements@ =~= old(scene).elements@);
        }
    }
}

/// Empties the frames `[start_frame, start_frame + duration)` of element
/// `element_id`. Does nothing for a zero duration or an unknown element.
pub fn clear_exposure(scene: &mut SceneManager, element_id: ElementId, start_frame: FrameNumber, duration: u32)
    requires
        old(scene)@.wf(),
        duration == 0 || !old(scene)@.elements.contains_key(element_id) || start_frame + duration <= u32::MAX,
    ensures
        final(scene)@ == clear_exposure_spec(old(scene)@, element_id, start_frame, duration),
        final(scene)@.wf(),
{
    if duration == 0 {
        return;
    }
    if let Some(mut el) = scene.elements.remove(&element_id) {
        proof {
            assert(old(scene)@.elements.contains_key(element_id));
            assert(old(scene)@.elements[element_id] == el@);
        }
        let ghost el0 = el;
        clear_exposure_in(&mut el.exposures, start_frame, duration);
        scene.elements.insert(element_id, el);
        proof {
            assert(el@ == ElementView { exposures: el.exposures@, ..el0@ });
            assert(elements_view(scene.elements@) =~= elements_view(old(scene).elements@).insert(element_id, el@));
            lemma_with_timeline_wf(old(scene)@, element_id, el.exposures@);
        }
    } else {
        proof {
            assert(scene.elements@ =~= old(scene).elements@);
        }
    }
}

/// Splits the block of element `element_id` that straddles `cut_frame` into
/// the part before `cut_frame` and the part from it on.
pub fn split_exposure(scene: &mut SceneManager, element_id: ElementId, cut_frame: FrameNumber)
    requires
        old(scene)@.wf(),
    ensures
        final(scene)@ == split_exposure_spec(old(scene)@, element_id, cut_frame),
        final(scene)@.wf(),
{
    if let Some(mut el) = scene.elements.remove(&element_id) {
        proof {
            assert(old(scene)@.elements.contains_key(element_id));
            assert(old(scene)@.elements[element_id] == el@);
        }
        let ghost el0 = el;
        split_exposure_in(&mut el.exposures, cut_frame);
        scene.elements.insert(element_id, el);
        proof {
            assert(el@ == ElementView { exposures: el.exposures@, ..el0@ });
            assert(elements_view(scene.elements@) =~= elements_view(old(scene).elements@).insert(element_id, el@));
            lemma_with_timeline_wf(old(scene)@, element_id, el.exposures@);
        }
    } else {
        proof {
            assert(scene.elements@ =~= old(scene).elements@);
        }
    }
}

/// Moves or resizes the block of element `element_id` that starts on
/// `old_start`: its frames are emptied, then its drawing is exposed on
/// `[new_start, new_start + new_duration)`. Does nothing for a zero duration
/// or when no block starts on `old_start`.
pub fn update_exposure(
    scene: &mut SceneManager,
    element_id: ElementId,
    old_start: FrameNumber,
    new_start: FrameNumber,
    new_duration: u32,
)
    requires
        old(scene)@.wf(),
        new_duration == 0 || !old(scene)@.elements.contains_key(element_id)
            || !old(scene)@.elements[element_id].exposures.contains_key(old_start)
            || new_start + new_duration <= u32::MAX,
    ensures
        final(scene)@ == update_exposure_spec(old(scene)@, element_id, old_start, new_start, new_duration),
        final(scene)@.wf(),
{
    if new_duration == 0 {
        return;
    }
    let mut extracted: Option<(u32, DrawingId)> = None;
    if let Some(el) = scene.elements.get(&element_id) {
        proof {
            assert(scene@.elements.contains_key(element_id));
            assert(scene@.elements[element_id] == el@);
        }
        if let Some(block) = el.get_exposure_at(old_start) {
            if block.start_frame == old_start {
                extracted = Some((block.duration, block.drawing_id));
            }
        }
    }
    proof {
        let s = old(scene)@;
        if s.elements.contains_key(element_id) {
            let m = s.elements[element_id].exposures;
            if m.contains_key(old_start) {
                assert(crate::timeline::covers_at(m, old_start, old_start as int));
                crate::timeline::lemma_cover_unique(m, old_start as int, old_start);
                assert(extracted == Some((m[old_start].duration, m[old_start].drawing_id)));
            } else {
                if exists|k: u32| crate::timeline::covers_at(m, k, old_start as int) {
                    let k = choose|k: u32| crate::timeline::covers_at(m, k, old_start as int);
                    crate::timeline::lemma_cover_unique(m, old_start as int, k);
                }
                assert(extracted is None);
            }
        }
    }
    if let Some((old_duration, drawing_id)) = extracted {
        clear_exposure(scene, element_id, old_start, old_duration);
        set_exposure(scene, element_id, new_start, new_duration, drawing_id);
    }
}

/// After `set_exposure`, the run of frames shows the new drawing and every
/// other frame of that element shows what it showed before.
pub proof fn law_set_exposure_frames(s: SceneView, eid: ElementId, start: FrameNumber, duration: u32, did: DrawingId, f: int)
    requires
        s.wf(),
        s.elements.contains_key(eid),
        duration > 0,
        start + duration <= u32::MAX,
    ensures
        drawing_at(set_exposure_spec(s, eid, start, duration, did).elements[eid].exposures, f)
            == if start <= f < start + duration { Some(did) } else { drawing_at(s.elements[eid].exposures, f) },
{
    lemma_with_exposure(s.elements[eid].exposures, start, duration, did);
}

/// After `clear_exposure`, the run of frames shows nothing and every other
/// frame of that element shows what it showed before.
pub proof fn law_clear_exposure_frames(s: SceneView, eid: ElementId, start: FrameNumber, duration: u32, f: int)
    requires
        s.wf(),
        s.elements.contains_key(eid),
        duration > 0,
        start + duration <= u32::MAX,
    ensures
        drawing_at(clear_exposure_spec(s, eid, start, duration).elements[eid].exposures, f)
            == if start <= f < start + duration { None } else { drawing_at(s.elements[eid].exposures, f) },
{
    lemma_carve(s.elements[eid].exposures, start, (start + duration) as u32);
}

/// Splitting a block changes no frame of the element.
pub proof fn law_split_exposure_frames(s: SceneView, eid: ElementId, cut: FrameNumber, f: int)
    requires
        s.wf(),
        s.elements.contains_key(eid),
    ensures
        drawing_at(split_exposure_spec(s, eid, cut).elements[eid].exposures, f) == drawing_at(s.elements[eid].exposures, f),
{
    lemma_split_at(s.elements[eid].exposures, cut);
}

/// Setting and then clearing the same run of frames leaves every frame as
/// if only the clearing had happened.
pub proof fn law_clear_after_set(s: SceneView, eid: ElementId, start: FrameNumber, duration: u32, did: DrawingId, f: int)
    requires
        s.wf(),
        s.elements.contains_key(eid),
        duration > 0,
        start + duration <= u32::MAX,
    ensures
        drawing_at(clear_exposure_spec(set_exposure_spec(s, eid, start, duration, did), eid, start, duration).elements[eid].exposures, f)
            == drawing_at(clear_exposure_spec(s, eid, start, duration).elements[eid].exposures, f),
{
    let m = s.elements[eid].exposures;
    lemma_with_exposure(m, start, duration, did);
    let m1 = with_exposure(m, start, duration, did);
    lemma_carve(m1, start, (start + duration) as u32);
    lemma_carve(m, start, (start + duration) as u32);
    assert(drawing_at(m1, f) == if start <= f < start + duration { Some(did) } else { drawing_at(m, f) });
}

/// After `update_exposure` of the block starting on `old_start`, the new run
/// of frames shows that block's drawing, the rest of the block's old frames
/// show nothing, and every other frame shows what it showed before. (The
/// new run must end within the frame numbers.)
pub proof fn law_update_exposure_frames(
    s: SceneView,
    eid: ElementId,
    old_start: FrameNumber,
    new_start: FrameNumber,
    new_duration: u32,
    f: int,
)
    requires
        s.wf(),
        s.elements.contains_key(eid),
        s.elements[eid].exposures.contains_key(old_start),
        new_duration > 0,
        new_start + new_duration <= u32::MAX,
    ensures
        ({
            let b = s.elements[eid].exposures[old_start];
            drawing_at(update_exposure_spec(s, eid, old_start, new_start, new_duration).elements[eid].exposures, f)
                == if new_start <= f < new_start + new_duration {
                    Some(b.drawing_id)
                } else if old_start <= f < old_start + b.duration {
                    None
                } else {
                    drawing_at(s.elements[eid].exposures, f)
                }
        }),
{
    let m = s.elements[eid].exposures;
    let b = m[old_start];
    let e = (old_start + b.duration) as u32;
    lemma_carve(m, old_start, e);
    let m1 = carve(m, old_start, e);
    lemma_with_exposure(m1, new_start, new_duration, b.drawing_id);
    assert(drawing_at(m1, f) == if old_start <= f < e { None } else { drawing_at(m, f) });
}

/// Setting and then clearing the same run of frames gives the same scene as
/// clearing alone.
pub proof fn law_clear_after_set_scene(s: SceneView, eid: ElementId, start: FrameNumber, duration: u32, did: DrawingId)
    requires
        s.wf(),
        start + duration <= u32::MAX,
    ensures
        clear_exposure_spec(set_exposure_spec(s, eid, start, duration, did), eid, start, duration)
            == clear_exposure_spec(s, eid, start, duration),
{
    if duration > 0 && s.elements.contains_key(eid) {
        let m = s.elements[eid].exposures;
        let e = (start + duration) as u32;
        lemma_carve_again(m, start, e, ExposureBlock { drawing_id: did, start_frame: start, duration });
        let s1 = set_exposure_spec(s, eid, start, duration, did);
        assert(s1.elements[eid].exposures == with_exposure(m, start, duration, did));
        assert(clear_exposure_spec(s1, eid, start, duration).elements =~= clear_exposure_spec(s, eid, start, duration).elements);
    }
}

/// Clearing a run of frames a second time changes nothing.
pub proof fn law_clear_twice(s: SceneView, eid: ElementId, start: FrameNumber, duration: u32)
    requires
        s.wf(),
        start + duration <= u32::MAX,
    ensures
        clear_exposure_spec(clear_exposure_spec(s, eid, start, duration), eid, start, duration)
            == clear_exposure_spec(s, eid, start, duration),
{
    if duration > 0 && s.elements.contains_key(eid) {
        let m = s.elements[eid].exposures;
        let e = (start + duration) as u32;
        lemma_carve_again(m, start, e, ExposureBlock { drawing_id: 0, start_frame: start, duration });
        let s1 = clear_exposure_spec(s, eid, start, duration);
        assert(clear_exposure_spec(s1, eid, start, duration).elements =~= s1.elements);
    }
}

/// `update_exposure` is clearing the block that starts on `old_start` and
/// then exposing its drawing on the new run of frames; with a zero duration
/// or no block starting there, nothing changes.
pub proof fn law_update_is_clear_then_set(
    s: SceneView,
    eid: ElementId,
    old_start: FrameNumber,
    new_start: FrameNumber,
    new_duration: u32,
)
    ensures
        update_exposure_spec(s, eid, old_start, new_start, new_duration) == if new_duration > 0
            && s.elements.contains_key(eid) && s.elements[eid].exposures.contains_key(old_start) {
            let b = s.elements[eid].exposures[old_start];
            set_exposure_spec(clear_exposure_spec(s, eid, old_start, b.duration), eid, new_start, new_duration, b.drawing_id)
        } else {
            s
        },
{
}

} // verus!
