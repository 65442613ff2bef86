use animlab_core::graph::{SceneManager, DrawingElement, DrawingData, ArtLayerType};
use animlab_core::command::{
    Command, CommandHistory, AddStrokeCommand, CutCommand, AffineCommand, BatchCommand, LayerCommand,
    ToggleLayerStateCommand, ReorderLayerCommand,
};
use animlab_core::operations::exposure::set_exposure;
use std::collections::HashMap;

/// A scene with element 7 showing drawing 50 on frames 1..=10.
fn scene() -> SceneManager {
    let mut scene = SceneManager::new();
    let mut el = DrawingElement::new(7, "Layer".to_string());
    el.library.insert(50, DrawingData::new());
    scene.elements.insert(7, el);
    scene.z_stack.push(7);
    scene.active_element_id = Some(7);
    set_exposure(&mut scene, 7, 1, 10, 50);
    scene
}

fn line_art(scene: &SceneManager) -> HashMap<u64, u64> {
    scene.elements[&7].library[&50].line_art.vector_elements.clone()
}

fn add(id: u64, key: u64) -> AddStrokeCommand {
    AddStrokeCommand { element_id: 7, drawing_id: 50, art_layer: ArtLayerType::LineArt, stroke_id: id, element: key }
}

#[test]
fn add_stroke_execute_and_undo() {
    let mut s = scene();
    let c = add(1, 100);
    c.execute(&mut s);
    assert_eq!(line_art(&s).get(&1), Some(&100));
    c.undo(&mut s);
    assert!(line_art(&s).is_empty());
}

#[test]
fn add_stroke_into_missing_drawing_does_nothing() {
    let mut s = scene();
    let c = AddStrokeCommand { element_id: 7, drawing_id: 51, art_layer: ArtLayerType::LineArt, stroke_id: 1, element: 100 };
    c.execute(&mut s);
    assert!(line_art(&s).is_empty());
    assert!(!s.elements[&7].library.contains_key(&51));
}

#[test]
fn cut_replaces_stroke_by_fragments_and_undo_restores() {
    let mut s = scene();
    add(1, 100).execute(&mut s);
    add(2, 200).execute(&mut s);
    let c = CutCommand {
        element_id: 7,
        drawing_id: 50,
        art_layer: ArtLayerType::LineArt,
        severed_stroke_id: 1,
        original_element: 100,
        new_fragments: vec![(10, 101), (11, 102)],
    };
    c.execute(&mut s);
    let l = line_art(&s);
    assert_eq!(l.len(), 3);
    assert_eq!(l.get(&1), None);
    assert_eq!(l.get(&10), Some(&101));
    assert_eq!(l.get(&11), Some(&102));
    c.undo(&mut s);
    let l = line_art(&s);
    assert_eq!(l.len(), 2);
    assert_eq!(l.get(&1), Some(&100));
    assert_eq!(l.get(&2), Some(&200));
}

#[test]
fn affine_execute_and_undo() {
    let mut s = scene();
    add(1, 100).execute(&mut s);
    let c = AffineCommand {
        element_id: 7,
        drawing_id: 50,
        art_layer: ArtLayerType::LineArt,
        old_elements: vec![(1, 100)],
        new_elements: vec![(1, 150)],
    };
    c.execute(&mut s);
    assert_eq!(line_art(&s).get(&1), Some(&150));
    c.undo(&mut s);
    assert_eq!(line_art(&s).get(&1), Some(&100));
}

#[test]
fn toggle_twice_restores() {
    let mut s = scene();
    let c = ToggleLayerStateCommand { element_id: 7, toggle_visibility: true };
    c.execute(&mut s);
    assert!(!s.elements[&7].is_visible);
    c.execute(&mut s);
    assert!(s.elements[&7].is_visible);
    let lock = ToggleLayerStateCommand { element_id: 7, toggle_visibility: false };
    lock.execute(&mut s);
    assert!(s.elements[&7].is_locked);
    lock.undo(&mut s);
    assert!(!s.elements[&7].is_locked);
}

#[test]
fn layer_add_and_remove() {
    let mut s = scene();
    let el = DrawingElement::new(8, "Second".to_string());
    let c = LayerCommand { element_id: 8, element: el, is_add: true };
    c.execute(&mut s);
    assert_eq!(s.z_stack, vec![7, 8]);
    assert_eq!(s.elements[&8].name, "Second");
    c.undo(&mut s);
    assert_eq!(s.z_stack, vec![7]);
    assert!(!s.elements.contains_key(&8));
    let r = LayerCommand { element_id: 7, element: s.elements[&7].duplicate(), is_add: false };
    r.execute(&mut s);
    assert!(s.z_stack.is_empty());
    assert!(s.elements.is_empty());
    r.undo(&mut s);
    assert_eq!(s.z_stack, vec![7]);
    assert_eq!(s.elements[&7].exposures.len(), 1);
}

#[test]
fn reorder_and_undo() {
    let mut s = SceneManager::new();
    s.z_stack = vec![1, 2, 3, 4];
    let c = ReorderLayerCommand { element_id: 1, old_index: 0, new_index: 2 };
    c.execute(&mut s);
    assert_eq!(s.z_stack, vec![2, 3, 1, 4]);
    c.undo(&mut s);
    assert_eq!(s.z_stack, vec![1, 2, 3, 4]);
    let far = ReorderLayerCommand { element_id: 2, old_index: 1, new_index: 99 };
    far.execute(&mut s);
    assert_eq!(s.z_stack, vec![1, 3, 4, 2]);
    far.undo(&mut s);
    assert_eq!(s.z_stack, vec![1, 2, 3, 4]);
    let out = ReorderLayerCommand { element_id: 2, old_index: 9, new_index: 0 };
    out.execute(&mut s);
    assert_eq!(s.z_stack, vec![1, 2, 3, 4]);
}

#[test]
fn batch_does_in_order_and_undoes_in_reverse() {
    let mut s = scene();
    let b = BatchCommand {
        commands: vec![
            Command::AddStroke(add(1, 100)),
            Command::Affine(AffineCommand {
                element_id: 7,
                drawing_id: 50,
                art_layer: ArtLayerType::LineArt,
                old_elements: vec![(1, 100)],
                new_elements: vec![(1, 300)],
            }),
        ],
    };
    b.execute(&mut s);
    assert_eq!(line_art(&s).get(&1), Some(&300));
    b.undo(&mut s);
    assert!(line_art(&s).is_empty());
}

#[test]
fn history_undo_redo() {
    let mut s = scene();
    let mut h = CommandHistory::new();
    h.push_and_execute(Command::AddStroke(add(1, 100)), &mut s);
    h.push_and_execute(Command::AddStroke(add(2, 200)), &mut s);
    assert_eq!(line_art(&s).len(), 2);
    h.undo(&mut s);
    assert_eq!(line_art(&s).len(), 1);
    h.undo(&mut s);
    assert!(line_art(&s).is_empty());
    // nothing left to undo
    h.undo(&mut s);
    assert!(line_art(&s).is_empty());
    h.redo(&mut s);
    assert_eq!(line_art(&s).get(&1), Some(&100));
    h.redo(&mut s);
    assert_eq!(line_art(&s).len(), 2);
    h.redo(&mut s);
    assert_eq!(line_art(&s).len(), 2);
}

#[test]
fn new_edit_drops_redo() {
    let mut s = scene();
    let mut h = CommandHistory::new();
    h.push_and_execute(Command::AddStroke(add(1, 100)), &mut s);
    h.undo(&mut s);
    h.push_and_execute(Command::AddStroke(add(2, 200)), &mut s);
    h.redo(&mut s);
    let l = line_art(&s);
    assert_eq!(l.len(), 1);
    assert_eq!(l.get(&2), Some(&200));
}

#[test]
fn law_undo_after_push_restores_scene() {
    let mut s = scene();
    add(5, 500).execute(&mut s);
    let before = line_art(&s);
    let mut h = CommandHistory::new();
    h.push_and_execute(
        Command::Cut(CutCommand {
            element_id: 7,
            drawing_id: 50,
            art_layer: ArtLayerType::LineArt,
            severed_stroke_id: 5,
            original_element: 500,
            new_fragments: vec![(6, 600)],
        }),
        &mut s,
    );
    assert_ne!(line_art(&s), before);
    h.undo(&mut s);
    assert_eq!(line_art(&s), before);
    h.redo(&mut s);
    assert_eq!(line_art(&s).get(&6), Some(&600));
}
