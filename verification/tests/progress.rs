use minedesign::model::progress::{counter_advance, REPORT_STRIDE};

#[test]
fn reports_when_a_stride_is_crossed() {
    assert_eq!(REPORT_STRIDE, 4096);
    assert_eq!(counter_advance(4000, 100, 1_000_000), (4100, true));
    assert_eq!(counter_advance(0, 4096, 1_000_000), (4096, true));
}

#[test]
fn stays_quiet_inside_a_stride() {
    assert_eq!(counter_advance(4096, 100, 1_000_000), (4196, false));
    assert_eq!(counter_advance(1, 4094, 1_000_000), (4095, false));
}

#[test]
fn reports_on_completion() {
    assert_eq!(counter_advance(10, 5, 15), (15, true));
    assert_eq!(counter_advance(10, 0, 10), (10, true));
}
