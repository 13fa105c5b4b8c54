use ffrwd_bmff::time::{ms, rescale, ticks_to_micros};

#[test]
fn a_tick_lands_where_ffprobe_prints_it() {
    // Two frames of a 15360 timescale: 0.066666..., which ffprobe
    // prints as 0.066667 and this rounds to 67 ms.
    assert_eq!(ms(1024, 15360), 67);
    assert_eq!(ms(0, 15360), 0);
    // And a negative time is the mirror image, not a floor.
    assert_eq!(ms(-1024, 15360), -67);
    assert_eq!(ms(-119999, 1_200_000), -100);
}

#[test]
fn halves_go_away_from_zero() {
    assert_eq!(rescale(1, 2, 1), 1);
    assert_eq!(rescale(-1, 2, 1), -1);
    assert_eq!(rescale(3, 2, 1), 2);
    assert_eq!(rescale(-3, 2, 1), -2);
}

#[test]
fn nothing_wraps_at_the_ends() {
    assert_eq!(rescale(i64::MAX, 1, 1_000_000), i64::MAX);
    assert_eq!(rescale(i64::MIN, 1, 1_000_000), i64::MIN);
    // A timescale of zero is a file saying nothing, not a divide by
    // zero.
    assert_eq!(rescale(5, 0, 1000), 5000);
}

#[test]
fn ticks_scale_to_microseconds() {
    assert_eq!(ticks_to_micros(30, 1, 30), 1_000_000);
    assert_eq!(ticks_to_micros(2048, 1, 61440), 33_333);
    assert_eq!(ticks_to_micros(-5, 1, 30), 0);
    // A numerator that is not one multiplies on the way in.
    assert_eq!(ticks_to_micros(1, 1001, 30000), 33_367);
}
