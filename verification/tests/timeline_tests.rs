use animlab_core::graph::{SceneManager, DrawingElement, IdAllocator, DrawingData};
use animlab_core::operations::exposure::{set_exposure, clear_exposure, split_exposure, update_exposure};
use animlab_core::timeline::{ExposureBlock, exposure_at};
use std::collections::BTreeMap;

fn scene_with_element(id: u64) -> SceneManager {
    let mut scene = SceneManager::new();
    let el = DrawingElement::new(id, "Layer".to_string());
    scene.elements.insert(id, el);
    scene.z_stack.push(id);
    scene.active_element_id = Some(id);
    scene
}

fn blocks(scene: &SceneManager, id: u64) -> Vec<(u32, u64, u32, u32)> {
    scene.elements[&id].exposures.iter().map(|(k, b)| (*k, b.drawing_id, b.start_frame, b.duration)).collect()
}

#[test]
fn id_allocator_counts_up_from_one_thousand() {
    let mut a = IdAllocator::new();
    assert_eq!(a.generate(), 1000);
    assert_eq!(a.generate(), 1001);
    assert_eq!(a.generate(), 1002);
}

#[test]
fn set_exposure_on_empty_timeline() {
    let mut scene = scene_with_element(7);
    set_exposure(&mut scene, 7, 3, 4, 50);
    assert_eq!(blocks(&scene, 7), vec![(3, 50, 3, 4)]);
}

#[test]
fn set_exposure_zero_duration_does_nothing() {
    let mut scene = scene_with_element(7);
    set_exposure(&mut scene, 7, 3, 0, 50);
    assert!(blocks(&scene, 7).is_empty());
}

#[test]
fn set_exposure_unknown_element_does_nothing() {
    let mut scene = scene_with_element(7);
    set_exposure(&mut scene, 8, 3, 2, 50);
    assert!(blocks(&scene, 7).is_empty());
    assert!(!scene.elements.contains_key(&8));
}

#[test]
fn set_exposure_inside_a_block_splits_it_in_three() {
    let mut scene = scene_with_element(7);
    set_exposure(&mut scene, 7, 1, 10, 50);
    set_exposure(&mut scene, 7, 4, 3, 60);
    assert_eq!(blocks(&scene, 7), vec![(1, 50, 1, 3), (4, 60, 4, 3), (7, 50, 7, 4)]);
}

#[test]
fn set_exposure_over_several_blocks() {
    let mut scene = scene_with_element(7);
    set_exposure(&mut scene, 7, 1, 3, 50);
    set_exposure(&mut scene, 7, 4, 3, 51);
    set_exposure(&mut scene, 7, 7, 3, 52);
    set_exposure(&mut scene, 7, 2, 6, 60);
    assert_eq!(blocks(&scene, 7), vec![(1, 50, 1, 1), (2, 60, 2, 6), (8, 52, 8, 2)]);
}

#[test]
fn set_exposure_replacing_whole_block_at_same_start() {
    let mut scene = scene_with_element(7);
    set_exposure(&mut scene, 7, 5, 2, 50);
    set_exposure(&mut scene, 7, 5, 2, 51);
    assert_eq!(blocks(&scene, 7), vec![(5, 51, 5, 2)]);
}

#[test]
fn clear_exposure_cuts_a_hole() {
    let mut scene = scene_with_element(7);
    set_exposure(&mut scene, 7, 1, 10, 50);
    clear_exposure(&mut scene, 7, 3, 2);
    assert_eq!(blocks(&scene, 7), vec![(1, 50, 1, 2), (5, 50, 5, 6)]);
}

#[test]
fn clear_exposure_removes_covered_blocks() {
    let mut scene = scene_with_element(7);
    set_exposure(&mut scene, 7, 2, 2, 50);
    set_exposure(&mut scene, 7, 4, 2, 51);
    clear_exposure(&mut scene, 7, 1, 10);
    assert!(blocks(&scene, 7).is_empty());
}

#[test]
fn split_exposure_keeps_frames() {
    let mut scene = scene_with_element(7);
    set_exposure(&mut scene, 7, 1, 10, 50);
    split_exposure(&mut scene, 7, 4);
    assert_eq!(blocks(&scene, 7), vec![(1, 50, 1, 3), (4, 50, 4, 7)]);
    // cutting at a block's first frame or outside any block changes nothing
    split_exposure(&mut scene, 7, 4);
    split_exposure(&mut scene, 7, 20);
    assert_eq!(blocks(&scene, 7), vec![(1, 50, 1, 3), (4, 50, 4, 7)]);
}

#[test]
fn update_exposure_moves_a_block() {
    let mut scene = scene_with_element(7);
    set_exposure(&mut scene, 7, 1, 3, 50);
    set_exposure(&mut scene, 7, 4, 3, 51);
    update_exposure(&mut scene, 7, 4, 2, 2);
    assert_eq!(blocks(&scene, 7), vec![(1, 50, 1, 1), (2, 51, 2, 2)]);
}

#[test]
fn update_exposure_needs_a_block_start() {
    let mut scene = scene_with_element(7);
    set_exposure(&mut scene, 7, 1, 3, 50);
    update_exposure(&mut scene, 7, 2, 10, 2);
    update_exposure(&mut scene, 7, 1, 10, 0);
    assert_eq!(blocks(&scene, 7), vec![(1, 50, 1, 3)]);
}

#[test]
fn exposure_at_finds_covering_block() {
    let mut m = BTreeMap::new();
    m.insert(2u32, ExposureBlock { drawing_id: 9, start_frame: 2, duration: 3 });
    m.insert(8u32, ExposureBlock { drawing_id: 10, start_frame: 8, duration: 1 });
    assert_eq!(exposure_at(&m, 1), None);
    assert_eq!(exposure_at(&m, 2).map(|b| b.drawing_id), Some(9));
    assert_eq!(exposure_at(&m, 4).map(|b| b.drawing_id), Some(9));
    assert_eq!(exposure_at(&m, 5), None);
    assert_eq!(exposure_at(&m, 8).map(|b| b.drawing_id), Some(10));
}

#[test]
fn get_drawing_follows_exposures() {
    let mut scene = scene_with_element(7);
    let el = scene.elements.get_mut(&7).unwrap();
    el.library.insert(50, DrawingData::new());
    el.library.get_mut(&50).unwrap().line_art.vector_elements.insert(1, 99);
    set_exposure(&mut scene, 7, 2, 2, 50);
    let el = &scene.elements[&7];
    assert!(el.get_drawing(1).is_none());
    assert_eq!(el.get_drawing(3).unwrap().line_art.vector_elements.get(&1), Some(&99));
    assert!(el.get_drawing(4).is_none());
}

#[test]
fn law_read_after_set_and_clear() {
    let mut scene = scene_with_element(7);
    set_exposure(&mut scene, 7, 1, 20, 50);
    set_exposure(&mut scene, 7, 5, 5, 60);
    clear_exposure(&mut scene, 7, 12, 3);
    let el = &scene.elements[&7];
    for f in 1..30u32 {
        let got = el.get_exposure_at(f).map(|b| b.drawing_id);
        let want = if (5..10).contains(&f) { Some(60) } else if (12..15).contains(&f) || f >= 21 { None } else { Some(50) };
        assert_eq!(got, want, "frame {}", f);
    }
}

#[test]
fn scene_length_is_last_frame_shown() {
    let mut scene = scene_with_element(7);
    assert_eq!(scene.get_scene_length(), 1);
    set_exposure(&mut scene, 7, 3, 5, 50);
    assert_eq!(scene.get_scene_length(), 7);
    let el = DrawingElement::new(8, "B".to_string());
    scene.elements.insert(8, el);
    set_exposure(&mut scene, 8, 10, 2, 51);
    assert_eq!(scene.get_scene_length(), 11);
}

#[test]
fn ensure_drawing_exists_adds_one_frame_drawing() {
    let mut scene = scene_with_element(7);
    scene.current_frame = 4;
    let mut a = IdAllocator::new();
    scene.ensure_drawing_exists(&mut a);
    assert_eq!(blocks(&scene, 7), vec![(4, 1000, 4, 1)]);
    assert!(scene.elements[&7].library.contains_key(&1000));
    // a second call finds the drawing and allocates nothing
    scene.ensure_drawing_exists(&mut a);
    assert_eq!(a.generate(), 1001);
    assert_eq!(blocks(&scene, 7).len(), 1);
}

#[test]
fn update_exposure_empties_old_frames_and_fills_new_ones() {
    let mut scene = scene_with_element(7);
    set_exposure(&mut scene, 7, 1, 3, 50);
    set_exposure(&mut scene, 7, 4, 3, 51);
    update_exposure(&mut scene, 7, 4, 10, 2);
    assert_eq!(blocks(&scene, 7), vec![(1, 50, 1, 3), (10, 51, 10, 2)]);
    let el = &scene.elements[&7];
    for f in 4..7 {
        assert!(el.get_exposure_at(f).is_none());
    }
    assert_eq!(el.get_exposure_at(11).map(|b| b.drawing_id), Some(51));
    assert_eq!(el.get_exposure_at(2).map(|b| b.drawing_id), Some(50));
}

#[test]
fn clearing_twice_is_clearing_once() {
    let mut scene = scene_with_element(7);
    set_exposure(&mut scene, 7, 1, 10, 50);
    clear_exposure(&mut scene, 7, 3, 4);
    let once = blocks(&scene, 7);
    assert_eq!(once, vec![(1, 50, 1, 2), (7, 50, 7, 4)]);
    clear_exposure(&mut scene, 7, 3, 4);
    assert_eq!(blocks(&scene, 7), once);
}

#[test]
fn clear_after_set_is_clear_alone() {
    let mut a = scene_with_element(7);
    set_exposure(&mut a, 7, 1, 10, 50);
    let mut b = scene_with_element(7);
    set_exposure(&mut b, 7, 1, 10, 50);
    set_exposure(&mut a, 7, 3, 4, 60);
    clear_exposure(&mut a, 7, 3, 4);
    clear_exposure(&mut b, 7, 3, 4);
    assert_eq!(blocks(&a, 7), blocks(&b, 7));
}
