use iomon::ioprio::{format_ioprio, from_sched, ioprio_fits, read_ioprio};

#[test]
fn default_nice_is_be4() {
    assert_eq!(format_ioprio(None, 0, 0), "be/4");
}

#[test]
fn realtime_scheduler_is_rt4() {
    assert_eq!(format_ioprio(None, 0, 1), "rt/4");
    assert_eq!(format_ioprio(None, 0, 2), "rt/4");
}

#[test]
fn high_nice_kworker_is_be0() {
    assert_eq!(format_ioprio(None, -20, 0), "be/0");
}

#[test]
fn explicit_ioprio_wins_over_nice() {
    assert_eq!(format_ioprio(Some((2 << 13) | 0), 0, 0), "be/0");
    assert_eq!(format_ioprio(Some(3 << 13), 0, 0), "idle");
    assert_eq!(format_ioprio(Some((1 << 13) | 4), 0, 0), "rt/4");
}

#[test]
fn class_none_falls_back_to_scheduler() {
    assert_eq!(format_ioprio(Some(0), 0, 0), "be/4");
    assert_eq!(format_ioprio(Some(0), 0, 5), "idle");
}

#[test]
fn other_classes_and_levels() {
    assert_eq!(format_ioprio(Some(4 << 13), 0, 0), "?");
    assert_eq!(format_ioprio(Some((2 << 13) | 8191), 0, 0), "be/8191");
    assert_eq!(format_ioprio(Some(-1), 19, 0), "be/7");
    assert_eq!(format_ioprio(None, 100, 3), "be/7");
    assert_eq!(format_ioprio(None, -100, 0), "be/0");
    assert_eq!(from_sched(0, 0), 2 * 8192 + 4);
    assert_eq!(from_sched(i64::MIN, 1), 8192);
}

#[test]
fn the_kernels_reply_is_read() {
    assert_eq!(read_ioprio(Some((1 << 13) | 2), 0, 0), "rt/2");
    assert_eq!(read_ioprio(Some(-3), 0, 0), "be/4");
    assert_eq!(read_ioprio(None, 10, 2), "rt/6");
    assert!(ioprio_fits(None, i64::MAX - 20));
    assert!(!ioprio_fits(None, i64::MAX - 19));
    assert!(ioprio_fits(Some(8192), i64::MAX));
}
