use synth_core::{const_splat, enclosing_div, splat_slot, splat_stereo, swap_stereo};

#[test]
fn enclosing_div_rounds_up() {
    assert_eq!(enclosing_div(16, 4), 4);
    assert_eq!(enclosing_div(17, 4), 5);
    assert_eq!(enclosing_div(0, 3), 0);
    assert_eq!(enclosing_div(usize::MAX, 2), usize::MAX / 2 + 1);
}

#[test]
fn const_splat_fills_lanes() {
    let v: [u32; 4] = const_splat(7);
    assert_eq!(v, [7, 7, 7, 7]);
}

#[test]
fn splat_stereo_alternates() {
    let v: [i32; 8] = splat_stereo([1, 2]);
    assert_eq!(v, [1, 2, 1, 2, 1, 2, 1, 2]);
}

#[test]
fn swap_stereo_exchanges_channels() {
    assert_eq!(swap_stereo([1, 2, 3, 4]), [2, 1, 4, 3]);
}

#[test]
fn splat_slot_picks_pair() {
    let v = [1, 2, 3, 4, 5, 6];
    assert_eq!(splat_slot(&v, 1), Some([3, 4, 3, 4, 3, 4]));
    assert_eq!(splat_slot(&v, 3), None);
}

#[test]
fn map_applies_to_each_lane() {
    let v = synth_core::simd_util::map([1u32, 2, 3, 4], |x| x * 10);
    assert_eq!(v, [10, 20, 30, 40]);
}
