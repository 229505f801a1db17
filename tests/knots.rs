use cut_creator::knot::{
    delete_knot, delete_selected, deselect_all, drag_selected, insert_knot, move_knot, quantize, toggle_in_box,
    toggle_select, Knot, VALUE_ONE,
};

fn k(time: i64, value: u32) -> Knot {
    Knot { time, value, selected: false }
}

fn five() -> Vec<Knot> {
    vec![k(-4, 0), k(0, 0), k(16, VALUE_ONE / 2), k(32, VALUE_ONE), k(36, VALUE_ONE)]
}

fn times(v: &[Knot]) -> Vec<i64> {
    v.iter().map(|k| k.time).collect()
}

fn strictly_increasing(v: &[Knot]) -> bool {
    v.windows(2).all(|w| w[0].time < w[1].time)
}

#[test]
fn quantize_snaps_to_sixteenths() {
    // 0.0312 bar * 16 = 0.4992, which rounds to step 0
    assert_eq!(quantize(312, 10_000, 16), Some(0));
    // 0.0313 bar * 16 = 0.5008, which rounds to step 1 (0.0625 bar)
    assert_eq!(quantize(313, 10_000, 16), Some(1));
    assert_eq!(quantize(1, 4, 16), Some(4));
}

#[test]
fn quantize_rounds_halves_away_from_zero() {
    assert_eq!(quantize(1, 32, 16), Some(1));
    assert_eq!(quantize(-1, 32, 16), Some(-1));
    assert_eq!(quantize(-3, 100, 16), Some(0));
}

#[test]
fn quantize_out_of_range() {
    assert_eq!(quantize(i64::MAX, 1, 2), None);
    assert_eq!(quantize(i64::MAX, 1, 1), Some(i64::MAX));
}

#[test]
fn insert_keeps_order() {
    let mut v = five();
    assert_eq!(insert_knot(&mut v, 2, 8, 100), Some(2));
    assert_eq!(times(&v), vec![-4, 0, 8, 16, 32, 36]);
    assert_eq!(v[2], k(8, 100));
    assert_eq!(insert_knot(&mut v, 2, 24, 7), Some(4));
    assert_eq!(times(&v), vec![-4, 0, 8, 16, 24, 32, 36]);
    assert!(strictly_increasing(&v));
}

#[test]
fn insert_at_equal_time_overwrites_value() {
    let mut v = five();
    v[2].selected = true;
    assert_eq!(insert_knot(&mut v, 2, 16, 123), Some(2));
    assert_eq!(v.len(), 5);
    assert_eq!(v[2], Knot { time: 16, value: 123, selected: true });
}

#[test]
fn insert_clamps_value() {
    let mut v = five();
    assert_eq!(insert_knot(&mut v, 2, 20, u32::MAX), Some(3));
    assert_eq!(v[3].value, VALUE_ONE);
}

#[test]
fn insert_outside_editable_range_is_refused() {
    let mut v = five();
    assert_eq!(insert_knot(&mut v, 2, -1, 0), None);
    assert_eq!(insert_knot(&mut v, 2, 33, 0), None);
    assert_eq!(v, five());
    // on the sentinel bounds the value is overwritten
    assert_eq!(insert_knot(&mut v, 2, 32, 5), Some(3));
    assert_eq!(times(&v), times(&five()));
}

#[test]
fn move_clamps_short_of_neighbours() {
    let mut v = five();
    move_knot(&mut v, 2, 2, 100, 0);
    assert_eq!(v[2].time, 31);
    move_knot(&mut v, 2, 2, -100, 0);
    assert_eq!(v[2].time, 1);
    move_knot(&mut v, 2, 2, 20, 5);
    assert_eq!(v[2], k(20, 5));
    assert!(strictly_increasing(&v));
}

#[test]
fn move_clamps_value() {
    let mut v = five();
    move_knot(&mut v, 2, 2, 16, -5);
    assert_eq!(v[2].value, 0);
    move_knot(&mut v, 2, 2, 16, i64::MAX);
    assert_eq!(v[2].value, VALUE_ONE);
}

#[test]
fn move_keeps_sentinel_times() {
    let mut v = five();
    move_knot(&mut v, 2, 1, 10, 300);
    assert_eq!(v[1], k(0, 300));
    move_knot(&mut v, 2, 0, -100, 0);
    assert_eq!(v[0].time, -4);
    move_knot(&mut v, 2, 3, 0, 0);
    assert_eq!(v[3].time, 32);
    move_knot(&mut v, 2, 4, 0, 0);
    assert_eq!(v[4].time, 36);
}

#[test]
fn delete_interior_knot() {
    let mut v = five();
    v[2].selected = true;
    assert!(delete_knot(&mut v, 2, 2));
    assert_eq!(times(&v), vec![-4, 0, 32, 36]);
}

#[test]
fn delete_sentinel_is_a_no_op() {
    let mut v = five();
    for i in [0usize, 1, 3, 4, 9] {
        assert!(!delete_knot(&mut v, 2, i));
        assert_eq!(v, five());
    }
}

#[test]
fn delete_fader_ends_is_a_no_op() {
    let mut v = vec![k(0, 0), k(8, 1), k(16, 0)];
    assert!(!delete_knot(&mut v, 1, 0));
    assert!(!delete_knot(&mut v, 1, 2));
    assert!(delete_knot(&mut v, 1, 1));
    assert_eq!(times(&v), vec![0, 16]);
}

#[test]
fn delete_selected_spares_sentinels() {
    let mut v = vec![k(-4, 0), k(0, 0), k(4, 1), k(8, 2), k(12, 3), k(32, 4), k(36, 4)];
    for knot in v.iter_mut() {
        knot.selected = true;
    }
    v[3].selected = false;
    assert!(delete_selected(&mut v, 2));
    assert_eq!(times(&v), vec![-4, 0, 8, 32, 36]);
    assert!(!delete_selected(&mut v, 2));
}

#[test]
fn toggle_and_deselect() {
    let mut v = five();
    toggle_select(&mut v, 2, 2);
    assert!(v[2].selected);
    assert!(deselect_all(&mut v, 2));
    assert_eq!(v, five());
    assert!(!deselect_all(&mut v, 2));
}

#[test]
fn box_selection_flips_knots_inside() {
    let mut v = five();
    v[3].selected = true;
    assert!(toggle_in_box(&mut v, 2, 10, 40, 0, VALUE_ONE));
    assert!(v[2].selected);
    assert!(!v[3].selected);
    assert!(v[4].selected);
    assert!(!v[1].selected);
    assert!(!toggle_in_box(&mut v, 2, 100, 200, 0, VALUE_ONE));
}

#[test]
fn drag_moves_selected_group_right() {
    let mut v = vec![k(-4, 0), k(0, 0), k(4, 10), k(8, 20), k(32, 1), k(36, 1)];
    v[2].selected = true;
    v[3].selected = true;
    let origin = v.clone();
    drag_selected(&mut v, &origin, 2, 4, 5);
    assert_eq!(times(&v), vec![-4, 0, 8, 12, 32, 36]);
    assert_eq!(v[2].value, 15);
    assert_eq!(v[3].value, 25);
    // far right: the rightmost stops one step short of the sentinel
    drag_selected(&mut v, &origin, 2, 100, 0);
    assert_eq!(times(&v), vec![-4, 0, 30, 31, 32, 36]);
    assert!(strictly_increasing(&v));
}

#[test]
fn drag_moves_selected_group_left() {
    let mut v = vec![k(-4, 0), k(0, 0), k(4, 10), k(8, 20), k(32, 1), k(36, 1)];
    v[2].selected = true;
    v[3].selected = true;
    let origin = v.clone();
    drag_selected(&mut v, &origin, 2, -100, -100);
    assert_eq!(times(&v), vec![-4, 0, 1, 2, 32, 36]);
    assert_eq!(v[2].value, 0);
}
