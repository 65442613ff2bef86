use animlab_core::engine::AnimLabEngine;
use animlab_core::geometry::boolean::BooleanSlicer;
use animlab_core::geometry::tessellator::Extruder;
use animlab_core::tools::{SliceResult, resolve_lasso_cut, resolve_erase, topmost_hit, add_to_selection, select_clicked};
use animlab_core::graph::{IdAllocator, ArtLayerType};
use animlab_core::command::{Command, AddStrokeCommand};
use animlab_core::operations::exposure::set_exposure;
use std::collections::HashSet;

#[test]
fn new_engine_has_one_drawing_layer() {
    let e = AnimLabEngine::new();
    assert_eq!(e.scene.z_stack, vec![1000]);
    assert_eq!(e.scene.active_element_id, Some(1000));
    let el = &e.scene.elements[&1000];
    assert_eq!(el.name, "Drawing");
    assert!(el.library.contains_key(&1001));
    assert_eq!(el.get_exposure_at(1).map(|b| (b.drawing_id, b.duration)), Some((1001, 1)));
    assert_eq!(e.get_scene_length(), 1);
    assert_eq!(e.get_timeline_blocks(), vec![1000, 1, 1, 1, 1001]);
    assert!(!e.has_selection());
}

#[test]
fn add_drawing_layer_modes() {
    let mut e = AnimLabEngine::new();
    set_exposure(&mut e.scene, 1000, 1, 12, 1001);
    e.set_current_frame(5);
    e.add_drawing_layer("Empty".to_string(), 0);
    assert_eq!(e.scene.active_element_id, Some(1002));
    assert!(e.scene.elements[&1002].exposures.is_empty());
    e.add_drawing_layer("Here".to_string(), 1);
    let el = &e.scene.elements[&1003];
    assert_eq!(el.get_exposure_at(5).map(|b| (b.drawing_id, b.start_frame, b.duration)), Some((1004, 5, 1)));
    e.add_drawing_layer("Whole".to_string(), 2);
    let el = &e.scene.elements[&1005];
    assert_eq!(el.get_exposure_at(1).map(|b| (b.drawing_id, b.start_frame, b.duration)), Some((1006, 1, 12)));
    assert_eq!(e.scene.z_stack, vec![1000, 1002, 1003, 1005]);
    e.trigger_undo();
    assert_eq!(e.scene.z_stack, vec![1000, 1002, 1003]);
    assert!(!e.scene.elements.contains_key(&1005));
    e.trigger_redo();
    assert_eq!(e.scene.z_stack, vec![1000, 1002, 1003, 1005]);
}

#[test]
fn add_drawing_layer_refused_at_cap() {
    let mut e = AnimLabEngine::new();
    e.scene.z_stack = (0..100).collect();
    e.add_drawing_layer("Too many".to_string(), 1);
    assert_eq!(e.scene.z_stack.len(), 100);
    assert_eq!(e.id_allocator.generate(), 1002);
}

#[test]
fn delete_drawing_layer_and_undo() {
    let mut e = AnimLabEngine::new();
    e.add_drawing_layer("Second".to_string(), 1);
    assert_eq!(e.scene.active_element_id, Some(1002));
    e.delete_drawing_layer(1002);
    assert_eq!(e.scene.z_stack, vec![1000]);
    assert_eq!(e.scene.active_element_id, Some(1000));
    e.trigger_undo();
    assert_eq!(e.scene.z_stack, vec![1000, 1002]);
    assert!(e.scene.elements[&1002].library.contains_key(&1003));
    e.delete_drawing_layer(4242);
    assert_eq!(e.scene.z_stack, vec![1000, 1002]);
}

#[test]
fn timeline_blocks_top_down() {
    let mut e = AnimLabEngine::new();
    e.add_drawing_layer("Second".to_string(), 0);
    set_exposure(&mut e.scene, 1002, 4, 2, 77);
    set_exposure(&mut e.scene, 1002, 1, 2, 76);
    assert_eq!(e.get_timeline_blocks(), vec![1002, 2, 1, 2, 76, 4, 2, 77, 1000, 1, 1, 1, 1001]);
}

#[test]
fn cut_selection_fills_clipboard() {
    let mut e = AnimLabEngine::new();
    e.history.push_and_execute(
        Command::AddStroke(AddStrokeCommand { element_id: 1000, drawing_id: 1001, art_layer: ArtLayerType::LineArt, stroke_id: 5, element: 55 }),
        &mut e.scene,
    );
    e.scene.selected_strokes.insert(5);
    assert!(e.has_selection());
    e.cut_selection();
    assert_eq!(e.clipboard, vec![55]);
    assert!(e.scene.elements[&1000].library[&1001].line_art.vector_elements.is_empty());
    assert!(!e.has_selection());
}

#[test]
fn runs_partition_flags() {
    assert_eq!(BooleanSlicer::runs(&vec![]), vec![]);
    assert_eq!(
        BooleanSlicer::runs(&vec![false, false, true, false, true, true]),
        vec![(0, 2, false), (2, 3, true), (3, 4, false), (4, 6, true)]
    );
}

#[test]
fn sweep_fragments_keep_untouched_runs_of_two() {
    let hit = vec![false, false, false, true, false, true, true, false, false];
    assert_eq!(BooleanSlicer::sweep_fragments(&hit), vec![(0, 3), (7, 9)]);
    assert_eq!(BooleanSlicer::sweep_fragments(&vec![true, true]), vec![]);
    assert_eq!(BooleanSlicer::sweep_fragments(&vec![false]), vec![]);
}

#[test]
fn lasso_fragments_share_crossing_points() {
    let inside = vec![false, false, true, true, true, false];
    let (ins, outs) = BooleanSlicer::lasso_fragments(&inside);
    assert_eq!(ins, vec![(2, 6)]);
    assert_eq!(outs, vec![(0, 3)]);
    let (ins, outs) = BooleanSlicer::lasso_fragments(&vec![true, false, false]);
    assert_eq!(ins, vec![(0, 2)]);
    assert_eq!(outs, vec![(1, 3)]);
    let (ins, outs) = BooleanSlicer::lasso_fragments(&vec![true]);
    assert!(ins.is_empty() && outs.is_empty());
}

#[test]
fn ribbon_indices_two_triangles_per_segment() {
    assert!(Extruder::ribbon_indices(0).is_empty());
    assert!(Extruder::ribbon_indices(1).is_empty());
    assert_eq!(Extruder::ribbon_indices(3), vec![0, 1, 2, 1, 3, 2, 2, 3, 4, 3, 5, 4]);
    assert_eq!(Extruder::ribbon_indices(32768).len(), 6 * 32767);
}

#[test]
fn resolve_lasso_cut_numbers_fragments_and_selects_inside() {
    let mut e = AnimLabEngine::new();
    let mut a = IdAllocator::new();
    a.generate();
    a.generate();
    let results = vec![
        SliceResult { stroke_id: 5, original: 55, inside: vec![], outside: vec![1, 2] },
        SliceResult { stroke_id: 6, original: 66, inside: vec![60], outside: vec![61, 62] },
    ];
    let cmd = resolve_lasso_cut(&mut e.scene, &mut a, &results).unwrap();
    match &cmd {
        Command::Batch(b) => {
            assert_eq!(b.commands.len(), 1);
            match &b.commands[0] {
                Command::Cut(c) => {
                    assert_eq!(c.severed_stroke_id, 6);
                    assert_eq!(c.original_element, 66);
                    assert_eq!(c.new_fragments, vec![(1002, 60), (1003, 61), (1004, 62)]);
                    assert_eq!(c.element_id, 1000);
                    assert_eq!(c.drawing_id, 1001);
                }
                _ => panic!("expected a cut"),
            }
        }
        _ => panic!("expected a batch"),
    }
    assert_eq!(e.scene.selected_strokes, [1002u64].into_iter().collect::<HashSet<u64>>());
    assert_eq!(a.generate(), 1005);
    let none = resolve_lasso_cut(&mut e.scene, &mut a, &vec![results[0].clone_shallow()]);
    assert!(none.is_none());
}

trait Shallow {
    fn clone_shallow(&self) -> SliceResult;
}

impl Shallow for SliceResult {
    fn clone_shallow(&self) -> SliceResult {
        SliceResult { stroke_id: self.stroke_id, original: self.original, inside: self.inside.clone(), outside: self.outside.clone() }
    }
}

#[test]
fn resolve_erase_cuts_every_touched_stroke() {
    let e = AnimLabEngine::new();
    let mut a = IdAllocator::new();
    let results = vec![
        SliceResult { stroke_id: 5, original: 55, inside: vec![], outside: vec![] },
        SliceResult { stroke_id: 6, original: 66, inside: vec![], outside: vec![61, 62] },
    ];
    let cmd = resolve_erase(&e.scene, &mut a, &results).unwrap();
    match cmd {
        Command::Batch(b) => {
            assert_eq!(b.commands.len(), 2);
            match &b.commands[1] {
                Command::Cut(c) => assert_eq!(c.new_fragments, vec![(1000, 61), (1001, 62)]),
                _ => panic!("expected a cut"),
            }
        }
        _ => panic!("expected a batch"),
    }
    assert!(resolve_erase(&e.scene, &mut a, &vec![]).is_none());
}

#[test]
fn active_art_layer_mut_writes_into_the_scene() {
    let mut e = AnimLabEngine::new();
    {
        let (did, layer) = e.scene.get_active_art_layer_mut().expect("frame 1 shows drawing 1001");
        assert_eq!(did, 1001);
        layer.vector_elements.insert(5, 9);
    }
    let (did, layer) = e.scene.get_active_art_layer().unwrap();
    assert_eq!(did, 1001);
    assert_eq!(layer.vector_elements.get(&5), Some(&9));
    let drawing = &e.scene.elements[&1000].library[&1001];
    assert_eq!(drawing.get_art_layer(ArtLayerType::LineArt).vector_elements.len(), 1);
    assert!(drawing.get_art_layer(ArtLayerType::Overlay).vector_elements.is_empty());

    e.set_current_frame(2);
    assert!(e.scene.get_active_art_layer_mut().is_none());
}

#[test]
fn cut_selection_records_one_undoable_cut_per_stroke() {
    let mut e = AnimLabEngine::new();
    for (sid, key) in [(5u64, 55u64), (6, 66), (7, 77)] {
        e.history.push_and_execute(
            Command::AddStroke(AddStrokeCommand { element_id: 1000, drawing_id: 1001, art_layer: ArtLayerType::LineArt, stroke_id: sid, element: key }),
            &mut e.scene,
        );
    }
    e.scene.selected_strokes.insert(5);
    e.scene.selected_strokes.insert(7);
    e.cut_selection();
    let mut clip = e.clipboard.clone();
    clip.sort();
    assert_eq!(clip, vec![55, 77]);
    let layer = &e.scene.elements[&1000].library[&1001].line_art.vector_elements;
    assert_eq!(layer.len(), 1);
    assert_eq!(layer.get(&6), Some(&66));
    // Two undos bring both strokes back, one at a time.
    e.trigger_undo();
    assert_eq!(e.scene.elements[&1000].library[&1001].line_art.vector_elements.len(), 2);
    e.trigger_undo();
    assert_eq!(e.scene.elements[&1000].library[&1001].line_art.vector_elements.len(), 3);
}

#[test]
fn new_engine_element_is_opaque_and_normal() {
    let e = AnimLabEngine::new();
    let el = &e.scene.elements[&1000];
    assert_eq!(el.opacity_bits, 1.0f32.to_bits());
    assert_eq!(el.blend_mode, animlab_core::graph::BlendMode::Normal);
    assert_eq!(el.z_nudge_bits, 0);
}

#[test]
fn record_stroke_adds_to_the_target_drawing() {
    let mut e = AnimLabEngine::new();
    let c = animlab_core::tools::record_stroke(&e.scene, &mut e.id_allocator, 42);
    match &c {
        Command::AddStroke(a) => {
            assert_eq!((a.element_id, a.drawing_id, a.stroke_id, a.element), (1000, 1001, 1002, 42));
            assert_eq!(a.art_layer, ArtLayerType::LineArt);
        }
        _ => panic!("expected a stroke addition"),
    }
    assert_eq!(e.id_allocator.generate(), 1003);
}

#[test]
fn topmost_hit_takes_the_largest_nonzero_id() {
    assert_eq!(topmost_hit(&vec![3, 9, 4]), Some(9));
    assert_eq!(topmost_hit(&vec![0]), None);
    assert_eq!(topmost_hit(&vec![]), None);
}

#[test]
fn select_click_and_lasso() {
    let mut e = AnimLabEngine::new();
    e.scene.selected_strokes.insert(1);
    select_clicked(&mut e.scene, Some(8));
    assert_eq!(e.scene.selected_strokes, HashSet::from([8]));
    add_to_selection(&mut e.scene, &vec![2, 8, 3]);
    assert_eq!(e.scene.selected_strokes, HashSet::from([2, 3, 8]));
    select_clicked(&mut e.scene, None);
    assert!(e.scene.selected_strokes.is_empty());
}

#[test]
fn timeline_layers_from_top_down() {
    let mut e = AnimLabEngine::new();
    e.add_drawing_layer("Ink".to_string(), 0);
    let layers = e.timeline_layers();
    assert_eq!(layers, vec![(1002, "Ink".to_string()), (1000, "Drawing".to_string())]);
}

#[test]
fn last_frame_accepted_where_nothing_is_created() {
    let mut e = AnimLabEngine::new();
    e.set_current_frame(u32::MAX);
    e.add_drawing_layer("Empty".to_string(), 0);
    assert_eq!(e.scene.z_stack, vec![1000, 1002]);
    e.scene.active_element_id = None;
    let before = e.id_allocator.generate();
    e.scene.ensure_drawing_exists(&mut e.id_allocator);
    assert_eq!(e.id_allocator.generate(), before + 1);
}

#[test]
fn undo_of_removing_a_middle_layer_brings_it_back_on_top() {
    let mut e = AnimLabEngine::new();
    e.add_drawing_layer("Top".to_string(), 0);
    assert_eq!(e.scene.z_stack, vec![1000, 1002]);
    e.delete_drawing_layer(1000);
    assert_eq!(e.scene.z_stack, vec![1002]);
    e.trigger_undo();
    assert_eq!(e.scene.z_stack, vec![1002, 1000]);
    assert_eq!(e.scene.elements[&1000].name, "Drawing");
    assert!(e.scene.elements[&1000].library.contains_key(&1001));
}
