use cut_creator::knot::VALUE_ONE;
use cut_creator::resample::{frame_count, split_position, tap_position, SINC_TAPS};
use cut_creator::settings::CutSettings;
use cut_creator::wav::{Span, Wav, MIN_LEN};

#[test]
fn frames_for_two_bars_at_120_bpm() {
    assert_eq!(frame_count(48_000, 2, 120), Some(192_000));
    assert_eq!(frame_count(44_100, 1, 90), Some(117_600));
    assert_eq!(frame_count(u32::MAX, u32::MAX, 1), None);
}

#[test]
fn taps_outside_the_sample_are_silent() {
    let half = SINC_TAPS / 2;
    assert_eq!(tap_position(0, 0, half, 100), None);
    assert_eq!(tap_position(0, 5, half, 100), Some(0));
    assert_eq!(tap_position(97, 7, half, 100), Some(99));
    assert_eq!(tap_position(97, 8, half, 100), None);
    assert_eq!(tap_position(i128::MAX, 0, half, 100), None);
}

#[test]
fn position_splits_into_frame_and_fraction() {
    let half = VALUE_ONE as i64 / 2;
    assert_eq!(split_position(half, 1001), (500, VALUE_ONE / 2));
    assert_eq!(split_position(VALUE_ONE as i64, 10), (10, 0));
    assert_eq!(split_position(-1, 1), (-1, VALUE_ONE - 1));
}

#[test]
fn settings_default() {
    let s = CutSettings::default();
    assert!(!s.is_looped());
    assert!(s.is_warped());
    assert!(CutSettings::new(true, false).is_looped());
}

#[test]
fn wav_length_drag_is_clamped() {
    let mut w = Wav::new();
    w.set_data_len(50_000);
    w.begin_change();
    w.drag_len(45_000, 100_000);
    assert_eq!(w.get_data_len(), MIN_LEN);
    w.drag_len(-500_000, 100_000);
    assert_eq!(w.get_data_len(), 100_000);
    w.drag_len(0, 5_000);
    assert_eq!(w.get_data_len(), 5_000);
}

#[test]
fn wav_offset_drag_wraps() {
    let mut w = Wav::new();
    w.drag_offset(1, 100);
    assert_eq!(w.get_data_offset(), 99);
    w.drag_offset(-3, 100);
    assert_eq!(w.get_data_offset(), 2);
    w.drag_offset(-250, 100);
    assert_eq!(w.get_data_offset(), 52);
    assert_eq!(w.sample_index(10), Some(62));
    assert_eq!(w.sample_index(usize::MAX), None);
}

#[test]
fn wav_undo_redo() {
    let mut w = Wav::new();
    w.set_data_len(20_000);
    w.begin_change();
    w.drag_offset(-10, 1000);
    assert!(w.needs_save());
    assert!(w.undo());
    assert_eq!(w.span(), Span { offset: 0, len: 20_000 });
    assert_eq!(w.get_redo_len(), 1);
    assert!(w.redo());
    assert_eq!(w.get_data_offset(), 10);
    assert_eq!(w.get_undo_len(), 1);
    w.clear_undo_redo();
    assert!(!w.needs_save());
    assert!(!w.undo());
    assert!(!w.redo());
}

#[test]
fn wav_offset_can_be_reset() {
    let mut w = Wav::new();
    w.drag_offset(-7, 100);
    w.set_data_offset(0);
    assert_eq!(w.span(), Span { offset: 0, len: 0 });
    assert_eq!(w.get_undo_len(), 0);
}
