use ffrwd_bmff::time::{minus, ms, plus, rescale, ticks_to_micros};

#[test]
fn a_negative_time_is_the_mirror_image() {
    for (value, from, to) in [(7i64, 3u64, 10u64), (1, 2, 1), (1001, 30000, 90000), (5, 0, 3)] {
        assert_eq!(rescale(-value, from, to), -rescale(value, from, to));
    }
}

#[test]
fn rescaling_keeps_order_and_itself() {
    assert_eq!(rescale(12345, 90000, 90000), 12345);
    assert_eq!(rescale(0, 7, 9), 0);
    let mut last = i64::MIN;
    for value in -50..50 {
        let next = rescale(value, 7, 3);
        assert!(next >= last);
        last = next;
    }
    assert_eq!(rescale(10, 4, 0), 0);
}

#[test]
fn a_time_base_that_says_nothing_is_no_time() {
    assert_eq!(ticks_to_micros(5, 0, 30), 0);
    assert_eq!(ticks_to_micros(5, 1, -30), 0);
    assert_eq!(ticks_to_micros(i64::MAX, i32::MAX, 1), i64::MAX as u64);
    assert_eq!(ms(3, 0), 3000);
}

#[test]
fn sums_are_held_at_the_ends() {
    assert_eq!(plus(i64::MAX, 1), i64::MAX);
    assert_eq!(plus(i64::MIN, -1), i64::MIN);
    assert_eq!(minus(i64::MIN, 1), i64::MIN);
    assert_eq!(minus(0, i64::MIN), i64::MAX);
    assert_eq!((plus(2, 3), minus(2, 3)), (5, -1));
}
