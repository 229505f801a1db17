use cut_creator::cut::{shape_value, Cut};
use cut_creator::knot::{Knot, VALUE_ONE};
use splines::{Interpolation, Key, Spline};

fn times(v: &[Knot]) -> Vec<i64> {
    v.iter().map(|k| k.time).collect()
}

fn values(v: &[Knot]) -> Vec<u32> {
    v.iter().map(|k| k.value).collect()
}

#[test]
fn new_cut_defaults() {
    let c = Cut::new();
    assert_eq!(times(c.cut_knots()), vec![-4, 0, 16, 32, 36]);
    assert_eq!(values(c.cut_knots()), vec![0, 0, VALUE_ONE / 2, VALUE_ONE, VALUE_ONE]);
    assert_eq!(times(c.fader_knots()), vec![0, 16, 17, 24, 25, 32]);
    assert_eq!(c.quantization(), 16);
    assert_eq!(c.bars(), 2);
    assert!(!c.is_looped());
    assert!(!c.is_warped());
    assert!(!c.needs_save());
    assert_eq!(c.get_undo_len(), 0);
    assert_eq!(c.get_redo_len(), 0);
    assert_eq!(c.domain(), (0, 32));
}

#[test]
fn insert_is_recorded_and_undone() {
    let mut c = Cut::new();
    assert_eq!(c.insert_cut_knot(8, 100), Some(2));
    assert_eq!(times(c.cut_knots()), vec![-4, 0, 8, 16, 32, 36]);
    assert!(c.needs_save());
    assert_eq!(c.get_undo_len(), 1);
    assert!(c.undo());
    assert_eq!(c.cut_knots(), Cut::new().cut_knots());
    assert_eq!(c.get_undo_len(), 0);
    assert_eq!(c.get_redo_len(), 1);
    assert!(c.redo());
    assert_eq!(times(c.cut_knots()), vec![-4, 0, 8, 16, 32, 36]);
    // redo makes no fresh undo group
    assert_eq!(c.get_undo_len(), 0);
    assert_eq!(c.get_redo_len(), 0);
}

#[test]
fn undo_after_redo_meets_the_older_group() {
    let mut c = Cut::new();
    c.insert_cut_knot(8, 100);
    c.move_cut_knot(2, 12, 200);
    assert!(c.undo());
    assert!(c.redo());
    assert_eq!(c.get_undo_len(), 1);
    assert!(c.undo());
    assert_eq!(c.cut_knots(), Cut::new().cut_knots());
}

#[test]
fn insert_outside_domain_changes_nothing() {
    let mut c = Cut::new();
    assert_eq!(c.insert_cut_knot(40, 0), None);
    assert_eq!(c.insert_fader_knot(-1, 0), None);
    assert_eq!(c.get_undo_len(), 0);
}

#[test]
fn overwriting_the_first_editable_knot_realigns_the_sentinel() {
    let mut c = Cut::new();
    assert_eq!(c.insert_cut_knot(0, 300), Some(1));
    assert_eq!(values(c.cut_knots())[0..2], [300, 300]);
}

#[test]
fn undo_redo_round_trip_over_several_edits() {
    let mut c = Cut::new();
    let start_cut = c.cut_knots().clone();
    let start_fader = c.fader_knots().clone();
    c.insert_cut_knot(8, 100);
    c.move_cut_knot(2, 12, 200);
    c.toggle_fader_knot(1);
    c.insert_fader_knot(20, VALUE_ONE);
    c.delete_cut_knot(3);
    let end_cut = c.cut_knots().clone();
    let end_fader = c.fader_knots().clone();
    assert_eq!(c.get_undo_len(), 5);
    for _ in 0..5 {
        assert!(c.undo());
    }
    assert!(!c.undo());
    assert_eq!(c.cut_knots(), &start_cut);
    assert_eq!(c.fader_knots(), &start_fader);
    for _ in 0..5 {
        assert!(c.redo());
    }
    assert!(!c.redo());
    assert_eq!(c.cut_knots(), &end_cut);
    assert_eq!(c.fader_knots(), &end_fader);
}

#[test]
fn an_edit_after_undo_clears_redo() {
    let mut c = Cut::new();
    c.insert_cut_knot(8, 100);
    c.undo();
    assert_eq!(c.get_redo_len(), 1);
    c.insert_cut_knot(4, 100);
    assert_eq!(c.get_redo_len(), 0);
    assert!(!c.redo());
}

#[test]
fn a_change_free_edit_records_nothing() {
    let mut c = Cut::new();
    assert!(!c.move_cut_knot(2, 16, (VALUE_ONE / 2) as i64));
    assert!(!c.deselect_all());
    assert!(!c.delete_selected());
    assert_eq!(c.get_undo_len(), 0);
}

#[test]
fn deleting_a_selected_interior_knot() {
    let mut c = Cut::new();
    assert!(c.toggle_cut_knot(2));
    assert!(c.delete_selected());
    assert_eq!(times(c.cut_knots()), vec![-4, 0, 32, 36]);
    assert!(c.undo());
    assert!(c.cut_knots()[2].selected);
    assert_eq!(times(c.cut_knots()), vec![-4, 0, 16, 32, 36]);
}

#[test]
fn deleting_an_end_knot_is_refused() {
    let mut c = Cut::new();
    assert!(!c.delete_cut_knot(0));
    assert!(!c.delete_cut_knot(4));
    assert!(c.delete_cut_knot(2));
    assert_eq!(times(c.cut_knots()), vec![-4, 0, 32, 36]);
    assert!(!c.delete_fader_knot(0));
    assert!(!c.delete_fader_knot(5));
}

#[test]
fn escape_and_box_selection_are_recorded() {
    let mut c = Cut::new();
    assert!(c.select_in_box(10, 20, 0, VALUE_ONE));
    assert!(c.cut_knots()[2].selected);
    assert!(c.fader_knots()[1].selected);
    assert!(c.fader_knots()[2].selected);
    assert!(c.deselect_all());
    assert_eq!(c.get_undo_len(), 2);
    c.undo();
    assert!(c.cut_knots()[2].selected);
}

#[test]
fn single_knot_drag_is_one_undo_step() {
    let mut c = Cut::new();
    c.begin_drag();
    assert!(c.is_dragging());
    c.drag_cut_knot(2, 10, 10);
    c.drag_cut_knot(2, 20, 20);
    assert_eq!(c.cut_knots()[2].time, 20);
    assert_eq!(c.insert_cut_knot(4, 0), None);
    assert!(!c.undo());
    assert!(c.end_drag());
    assert!(!c.is_dragging());
    assert_eq!(c.get_undo_len(), 1);
    assert!(c.undo());
    assert_eq!(c.cut_knots(), Cut::new().cut_knots());
}

#[test]
fn dragging_the_start_knot_moves_its_sentinel_value() {
    let mut c = Cut::new();
    c.begin_drag();
    c.drag_cut_knot(1, 5, 400);
    assert_eq!(times(c.cut_knots()), vec![-4, 0, 16, 32, 36]);
    assert_eq!(values(c.cut_knots())[0..2], [400, 400]);
    c.end_drag();
    c.undo();
    assert_eq!(c.cut_knots(), Cut::new().cut_knots());
}

#[test]
fn group_drag_moves_selected_knots_and_undoes_at_once() {
    let mut c = Cut::new();
    c.toggle_cut_knot(2);
    c.toggle_fader_knot(2);
    let before_cut = c.cut_knots().clone();
    let before_fader = c.fader_knots().clone();
    c.begin_drag();
    c.drag_selected(2, 0);
    c.drag_selected(4, 0);
    assert_eq!(c.cut_knots()[2].time, 20);
    assert_eq!(c.fader_knots()[2].time, 21);
    assert!(c.end_drag());
    assert_eq!(c.get_undo_len(), 3);
    c.undo();
    assert_eq!(c.cut_knots(), &before_cut);
    assert_eq!(c.fader_knots(), &before_fader);
}

#[test]
fn a_drag_that_changes_nothing_records_nothing() {
    let mut c = Cut::new();
    c.begin_drag();
    c.drag_selected(3, 3);
    assert!(c.end_drag());
    assert_eq!(c.get_undo_len(), 0);
    assert!(!c.end_drag());
}

#[test]
fn mark_saved_clears_history() {
    let mut c = Cut::new();
    c.insert_cut_knot(8, 1);
    c.undo();
    c.insert_cut_knot(8, 1);
    c.mark_saved();
    assert!(!c.needs_save());
    assert_eq!(c.get_undo_len(), 0);
    assert_eq!(c.get_redo_len(), 0);
}

#[test]
fn shape_clamps_without_warping() {
    let one = VALUE_ONE as i64;
    assert_eq!(shape_value(-5, false), 0);
    assert_eq!(shape_value(one + 5, false), one);
    assert_eq!(shape_value(7, false), 7);
}

#[test]
fn shape_wraps_with_warping() {
    let one = VALUE_ONE as i64;
    assert_eq!(shape_value(one + 5, true), 5);
    assert_eq!(shape_value(-5, true), one - 5);
    assert_eq!(shape_value(one, true), one);
    assert_eq!(shape_value(0, true), 0);
}

#[test]
fn sample_value_outside_domain_is_none() {
    let mut c = Cut::new();
    // domain is bar 0 to bar 2
    assert_eq!(c.sample_value(-1, 16, 5), None);
    assert_eq!(c.sample_value(33, 16, 5), None);
    assert_eq!(c.sample_value(2, 1, -5), Some(0));
    assert_eq!(c.sample_value(1, 2, VALUE_ONE as i64 + 9), Some(VALUE_ONE as i64));
    c.set_warping(true);
    assert_eq!(c.sample_value(1, 2, VALUE_ONE as i64 + 9), Some(9));
    assert!(c.contains_time(0, 1));
    assert!(!c.contains_time(-1, 1_000_000));
}

#[test]
fn gate_value_in_fader_range() {
    let c = Cut::new();
    assert_eq!(c.gate_value(1, 1, 7), Some(7));
    assert_eq!(c.gate_value(3, 1, 7), None);
    assert_eq!(c.gate_value(1, 1, -7), Some(0));
}

#[test]
fn spline_keys_close_the_loop() {
    let mut c = Cut::new();
    assert_eq!(
        c.cut_spline_keys(),
        vec![(-4, 0), (0, 0), (16, VALUE_ONE / 2), (32, VALUE_ONE), (36, VALUE_ONE)]
    );
    c.set_looping(true);
    assert!(c.is_looped());
    assert_eq!(
        c.cut_spline_keys(),
        vec![(-4, 0), (0, 0), (16, VALUE_ONE / 2), (32, 0), (36, 0)]
    );
    let fader = c.fader_spline_keys();
    assert_eq!(fader.len(), 6);
    assert_eq!(fader[5], (32, 0));
    c.move_fader_knot(0, 0, 7);
    assert_eq!(c.fader_spline_keys()[5], (32, 7));
}

#[test]
fn catmull_rom_through_the_middle_knot() {
    let c = Cut::new();
    let q = c.quantization() as f32;
    let keys: Vec<Key<f32, f32>> = c
        .cut_spline_keys()
        .into_iter()
        .map(|(t, v)| Key::new(t as f32 / q, v as f32 / VALUE_ONE as f32, Interpolation::CatmullRom))
        .collect();
    let spline = Spline::from_vec(keys);
    let y = spline.sample(1.0).unwrap();
    assert!((y - 0.5).abs() < 1e-6);
    let raw = (y as f64 * VALUE_ONE as f64).round() as i64;
    assert_eq!(c.sample_value(1, 1, raw), Some(VALUE_ONE as i64 / 2));
}

fn knot(time: i64, value: u32, selected: bool) -> Knot {
    Knot { time, value, selected }
}

#[test]
fn restore_accepts_well_formed_curves() {
    let cut = vec![knot(-4, 9, false), knot(0, 5, true), knot(8, 6, false), knot(12, 7, false), knot(16, 1, false)];
    let fader = vec![knot(0, 0, true), knot(16, 0, false)];
    let c = Cut::restore(cut, fader, 16, 1, true, false).unwrap();
    assert_eq!(values(c.cut_knots()), vec![5, 5, 6, 7, 7]);
    assert!(c.cut_knots().iter().all(|k| !k.selected));
    assert!(c.fader_knots().iter().all(|k| !k.selected));
    assert_eq!(c.bars(), 1);
    assert!(c.is_looped());
    assert!(!c.needs_save());
}

#[test]
fn restore_rejects_malformed_curves() {
    let cut = vec![knot(-4, 0, false), knot(0, 0, false), knot(8, 0, false), knot(12, 0, false)];
    let fader = vec![knot(0, 0, false), knot(16, 0, false)];
    assert!(Cut::restore(cut.clone(), fader.clone(), 16, 1, false, false).is_some());
    assert!(Cut::restore(cut.clone(), fader.clone(), 0, 1, false, false).is_none());
    assert!(Cut::restore(cut[..3].to_vec(), fader.clone(), 16, 1, false, false).is_none());
    assert!(Cut::restore(cut.clone(), fader[..1].to_vec(), 16, 1, false, false).is_none());
    let mut unsorted = cut.clone();
    unsorted[2].time = 0;
    assert!(Cut::restore(unsorted, fader.clone(), 16, 1, false, false).is_none());
    let mut too_high = cut.clone();
    too_high[2].value = VALUE_ONE + 1;
    assert!(Cut::restore(too_high, fader, 16, 1, false, false).is_none());
}

#[test]
fn fader_knot_moves_stop_short_of_neighbours() {
    let mut c = Cut::new();
    assert!(c.move_fader_knot(2, 40, VALUE_ONE as i64 / 2));
    assert_eq!(c.fader_knots()[2], knot(23, VALUE_ONE / 2, false));
    assert!(!c.move_fader_knot(0, 5, 0));
    assert!(c.undo());
    assert_eq!(c.fader_knots(), Cut::new().fader_knots());
    c.begin_drag();
    c.drag_fader_knot(3, 0, 0);
    assert_eq!(c.fader_knots()[3], knot(18, 0, false));
    c.end_drag();
    assert_eq!(c.get_undo_len(), 1);
    c.undo();
    assert_eq!(c.fader_knots(), Cut::new().fader_knots());
}
