use mitos_init::backoff::record_restart;
use mitos_init::boot::restart_with_backoff;

#[test]
fn five_quick_restarts_are_allowed_the_sixth_gives_up() {
    let mut times = Vec::new();
    for i in 0..5u64 {
        assert!(!record_restart(&mut times, 1000 + i));
    }
    assert!(record_restart(&mut times, 2000));
    assert_eq!(times.len(), 6);
}

#[test]
fn restarts_outside_the_window_are_forgotten() {
    let mut times = vec![1, 2, 3, 4, 5];
    assert!(!record_restart(&mut times, 20_000));
    assert_eq!(times, vec![20_000]);
    let mut times = vec![10_000, 15_000];
    assert!(!record_restart(&mut times, 20_000));
    assert_eq!(times, vec![15_000, 20_000]);
}

#[test]
fn the_services_child_falls_back_after_a_crash_loop() {
    let mut times = Vec::new();
    for i in 0..5u64 {
        assert!(restart_with_backoff(&mut times, i * 100));
    }
    assert!(!restart_with_backoff(&mut times, 600));
}
