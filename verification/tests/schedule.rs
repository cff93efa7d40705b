use vivere::schedule::{FrameSchedule, RunSchedule, TickReport};

#[test]
fn metrics_are_logged_on_the_interval_and_on_the_last_tick() {
    let mut s = RunSchedule::new(0, 250, 100);
    assert_eq!(s.end(), 250);
    let mut logged = Vec::new();
    let mut tick = 0;
    while s.running(tick) {
        tick += 1;
        if s.after_step(tick, 5).log_metrics {
            logged.push(tick);
        }
    }
    assert_eq!(tick, 250);
    assert_eq!(logged, vec![100, 200, 250]);
}

#[test]
fn a_zero_interval_logs_every_tick_and_progress_is_reported_on_multiples() {
    let mut s = RunSchedule::new(4999, 2, 0);
    assert_eq!(
        s.after_step(5000, 3),
        TickReport { log_metrics: true, progress: true, extinct: false }
    );
    assert_eq!(
        s.after_step(5001, 3),
        TickReport { log_metrics: true, progress: false, extinct: false }
    );
    assert!(!s.running(5001));
}

#[test]
fn extinction_is_announced_once() {
    let mut s = RunSchedule::new(10, 100, 7);
    assert!(!s.after_step(11, 2).extinct);
    assert!(s.after_step(12, 0).extinct);
    assert!(!s.after_step(13, 0).extinct);
    assert!(!s.after_step(14, 1).extinct);
    assert!(!s.after_step(15, 0).extinct);
}

#[test]
fn frames_are_captured_every_few_ticks_through_the_last() {
    let s = FrameSchedule::new(100, 20, 8);
    let mut frames = Vec::new();
    let mut tick = 100;
    while s.running(tick) {
        if s.frame_due(tick) {
            frames.push(tick);
        }
        tick += 1;
    }
    assert_eq!(frames, vec![100, 108, 116]);
    assert_eq!(tick, 121);
    let every_tick = FrameSchedule::new(0, 2, 0);
    assert!(every_tick.frame_due(1));
}
