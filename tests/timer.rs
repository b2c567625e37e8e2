use maple_core::timer::Timer;

#[test]
fn unit_ticks_visit_every_index_once_in_order() {
    let mut t = Timer::new(vec![3, 2, 4]);
    let mut seen = Vec::new();
    let mut changes = 0;
    for _ in 0..9 {
        if t.tick(1) {
            changes += 1;
        }
        seen.push(t.index);
    }
    assert_eq!(seen, vec![0, 0, 1, 1, 2, 2, 2, 2, 0]);
    assert_eq!(changes, 3);
    assert_eq!(t.index, 0);
    assert_eq!(t.elapsed, 0);
}

#[test]
fn whole_cycles_are_skipped() {
    let mut a = Timer::new(vec![3, 2, 4]);
    let mut b = Timer::new(vec![3, 2, 4]);
    let ca = a.tick(9 * 5 + 4);
    let cb = b.tick(4);
    assert_eq!(a.index, 1);
    assert_eq!(a.index, b.index);
    assert_eq!(a.elapsed, b.elapsed);
    assert_eq!(ca, cb);
}

#[test]
fn large_tick_catches_up_over_several_frames() {
    let mut t = Timer::new(vec![10, 10, 10, 10]);
    assert!(t.tick(35));
    assert_eq!(t.index, 3);
    assert_eq!(t.elapsed, 5);
}

#[test]
fn empty_timer_never_changes() {
    let mut t = Timer::new(vec![]);
    assert!(!t.tick(100));
    assert_eq!(t.index, 0);
    assert_eq!(t.progress(), (0, 0));
}

#[test]
fn all_zero_timer_never_changes() {
    let mut t = Timer::new(vec![0, 0, 0]);
    for d in [0u64, 1, 50, 1000] {
        assert!(!t.tick(d));
        assert_eq!(t.index, 0);
    }
}

#[test]
fn zero_intervals_are_passed_over() {
    let mut t = Timer::new(vec![5, 0, 5]);
    assert!(t.tick(5));
    assert_eq!(t.index, 2);
    assert_eq!(t.elapsed, 0);
}

#[test]
fn progress_reports_elapsed_of_current_interval() {
    let mut t = Timer::new(vec![100, 50]);
    t.tick(120);
    assert_eq!(t.index, 1);
    assert_eq!(t.progress(), (20, 50));
}
