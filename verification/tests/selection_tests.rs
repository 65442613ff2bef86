use animlab_core::graph::{SceneManager, DrawingElement, DrawingData, ArtLayerType, IdAllocator};
use animlab_core::command::{Command, CommandHistory, AddStrokeCommand};
use animlab_core::operations::exposure::set_exposure;
use animlab_core::operations::layers::{set_active_art_layer, set_opacity, set_visibility};
use animlab_core::operations::selection::{select_all, copy_selection, delete_selection, flip_selection, paste_clipboard};
use std::collections::HashSet;

/// A scene with element 7 showing drawing 50 on frames 1..=10 and two line-art strokes.
fn scene() -> (SceneManager, CommandHistory) {
    let mut scene = SceneManager::new();
    let mut el = DrawingElement::new(7, "Layer".to_string());
    el.library.insert(50, DrawingData::new());
    scene.elements.insert(7, el);
    scene.z_stack.push(7);
    scene.active_element_id = Some(7);
    set_exposure(&mut scene, 7, 1, 10, 50);
    let mut h = CommandHistory::new();
    for (id, key) in [(1u64, 100u64), (2, 200)] {
        h.push_and_execute(
            Command::AddStroke(AddStrokeCommand { element_id: 7, drawing_id: 50, art_layer: ArtLayerType::LineArt, stroke_id: id, element: key }),
            &mut scene,
        );
    }
    (scene, h)
}

fn line_art_len(scene: &SceneManager) -> usize {
    scene.elements[&7].library[&50].line_art.vector_elements.len()
}

#[test]
fn set_active_art_layer_maps_indices() {
    let mut s = SceneManager::new();
    set_active_art_layer(&mut s, 0);
    assert_eq!(s.active_art_layer, ArtLayerType::Overlay);
    set_active_art_layer(&mut s, 2);
    assert_eq!(s.active_art_layer, ArtLayerType::ColorArt);
    set_active_art_layer(&mut s, 3);
    assert_eq!(s.active_art_layer, ArtLayerType::Underlay);
    set_active_art_layer(&mut s, 9);
    assert_eq!(s.active_art_layer, ArtLayerType::LineArt);
    set_active_art_layer(&mut s, 0);
    set_active_art_layer(&mut s, 1);
    assert_eq!(s.active_art_layer, ArtLayerType::LineArt);
}

#[test]
fn opacity_and_visibility() {
    let (mut s, _) = scene();
    set_opacity(&mut s, 7, 0.5f32.to_bits());
    assert_eq!(f32::from_bits(s.elements[&7].opacity_bits), 0.5);
    set_visibility(&mut s, 7, false);
    assert!(!s.elements[&7].is_visible);
    set_visibility(&mut s, 9, false);
    assert!(!s.elements.contains_key(&9));
}

#[test]
fn select_all_selects_active_layer() {
    let (mut s, _) = scene();
    select_all(&mut s);
    let want: HashSet<u64> = [1, 2].into_iter().collect();
    assert_eq!(s.selected_strokes, want);
    s.active_art_layer = ArtLayerType::Overlay;
    select_all(&mut s);
    assert!(s.selected_strokes.is_empty());
    s.current_frame = 20;
    s.active_art_layer = ArtLayerType::LineArt;
    select_all(&mut s);
    assert!(s.selected_strokes.is_empty());
}

#[test]
fn copy_selection_copies_selected_shapes() {
    let (mut s, _) = scene();
    s.selected_strokes.insert(2);
    s.selected_strokes.insert(99);
    let mut clip = vec![5, 6, 7];
    copy_selection(&s, &mut clip);
    assert_eq!(clip, vec![200]);
}

#[test]
fn delete_selection_and_undo() {
    let (mut s, mut h) = scene();
    s.selected_strokes.insert(1);
    s.selected_strokes.insert(2);
    delete_selection(&mut s, &mut h);
    assert_eq!(line_art_len(&s), 0);
    assert!(s.selected_strokes.is_empty());
    h.undo(&mut s);
    assert_eq!(line_art_len(&s), 1);
    h.undo(&mut s);
    assert_eq!(line_art_len(&s), 2);
}

#[test]
fn delete_without_selection_does_nothing() {
    let (mut s, mut h) = scene();
    delete_selection(&mut s, &mut h);
    assert_eq!(line_art_len(&s), 2);
}

#[test]
fn flip_selection_replaces_selected_shapes() {
    let (mut s, mut h) = scene();
    s.selected_strokes.insert(1);
    flip_selection(&mut s, &mut h, &vec![(1, 111), (2, 222), (3, 333)]);
    let l = &s.elements[&7].library[&50].line_art.vector_elements;
    assert_eq!(l.get(&1), Some(&111));
    assert_eq!(l.get(&2), Some(&200));
    assert_eq!(l.get(&3), None);
    h.undo(&mut s);
    assert_eq!(s.elements[&7].library[&50].line_art.vector_elements.get(&1), Some(&100));
}

#[test]
fn paste_clipboard_adds_and_selects() {
    let (mut s, mut h) = scene();
    let mut a = IdAllocator::new();
    paste_clipboard(&mut s, &mut h, &mut a, &vec![900, 901]);
    let l = &s.elements[&7].library[&50].line_art.vector_elements;
    assert_eq!(l.get(&1000), Some(&900));
    assert_eq!(l.get(&1001), Some(&901));
    let want: HashSet<u64> = [1000, 1001].into_iter().collect();
    assert_eq!(s.selected_strokes, want);
    h.undo(&mut s);
    assert_eq!(line_art_len(&s), 2);
    assert_eq!(a.generate(), 1002);
}

#[test]
fn paste_empty_clipboard_does_nothing() {
    let (mut s, mut h) = scene();
    let mut a = IdAllocator::new();
    paste_clipboard(&mut s, &mut h, &mut a, &vec![]);
    assert_eq!(line_art_len(&s), 2);
    assert_eq!(a.generate(), 1000);
}

#[test]
fn paste_creates_drawing_on_empty_frame() {
    let (mut s, mut h) = scene();
    s.current_frame = 15;
    let mut a = IdAllocator::new();
    paste_clipboard(&mut s, &mut h, &mut a, &vec![900]);
    let el = &s.elements[&7];
    assert_eq!(el.get_exposure_at(15).map(|b| b.drawing_id), Some(1000));
    assert_eq!(el.library[&1000].line_art.vector_elements.get(&1001), Some(&900));
}

#[test]
fn collect_renderable_orders_layers_bottom_up() {
    let (mut s, _) = scene();
    s.elements.get_mut(&7).unwrap().library.get_mut(&50).unwrap().underlay.vector_elements.insert(3, 300);
    s.elements.get_mut(&7).unwrap().library.get_mut(&50).unwrap().overlay.vector_elements.insert(4, 400);
    let r = s.collect_renderable_elements();
    assert_eq!(r.len(), 4);
    assert_eq!(r[0], 300);
    assert_eq!(r[3], 400);
    let mid: HashSet<u64> = r[1..3].iter().copied().collect();
    assert_eq!(mid, [100, 200].into_iter().collect::<HashSet<u64>>());
    set_visibility(&mut s, 7, false);
    assert!(s.collect_renderable_elements().is_empty());
}

#[test]
fn active_art_layer_lookup() {
    let (mut s, _) = scene();
    let (did, layer) = s.get_active_art_layer().unwrap();
    assert_eq!(did, 50);
    assert_eq!(layer.vector_elements.len(), 2);
    s.current_frame = 30;
    assert!(s.get_active_art_layer().is_none());
    s.current_frame = 2;
    s.active_element_id = None;
    assert!(s.get_active_art_layer().is_none());
}
