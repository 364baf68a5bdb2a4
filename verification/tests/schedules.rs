use file_search::schedule::{Pace, Reaction, Schedule, WorkSignal, TICK_TIMEOUT_MS};

#[test]
fn signals_arm_the_timer() {
    let mut schedule = Schedule::new();
    assert_eq!(schedule.handle(WorkSignal::NucleoNotify), Reaction::TickAfter(TICK_TIMEOUT_MS));
    assert_eq!(schedule.handle(WorkSignal::NucleoNotify), Reaction::Wait);
    schedule.due();
    assert_eq!(schedule.handle(WorkSignal::WalkComplete), Reaction::TickAfter(0));
    assert_eq!(schedule.handle(WorkSignal::WalkComplete), Reaction::Wait);
    let query = WorkSignal::QueryUpdated("ab".to_string());
    assert_eq!(schedule.handle(query), Reaction::TickAfter(0));
    assert_eq!(schedule.last_query, "ab");
    assert!(schedule.will_notify);
    assert_eq!(schedule.handle(WorkSignal::Shutdown), Reaction::Exit);
}

#[test]
fn longer_queries_continue_shorter_ones() {
    let mut schedule = Schedule::new();
    assert!(schedule.continues("anything"));
    let _ = schedule.handle(WorkSignal::QueryUpdated("ab".to_string()));
    assert!(schedule.continues("abc"));
    assert!(schedule.continues("ab"));
    assert!(!schedule.continues("a"));
    assert!(!schedule.continues("xab"));
}

#[test]
fn searches_complete_when_the_walk_is_over_and_the_matcher_idle() {
    let mut schedule = Schedule::new();
    assert!(!schedule.completes(false));
    let _ = schedule.handle(WorkSignal::WalkComplete);
    assert!(schedule.completes(false));
    assert!(!schedule.completes(true));
}

#[test]
fn the_pace_follows_the_schedule() {
    let mut pace = Pace::new();
    assert_eq!(pace.take_signal(WorkSignal::WalkComplete), Reaction::TickAfter(0));
    assert!(pace.schedule().will_notify);
    assert!(!pace.take_due(true, true));
    assert!(!pace.schedule().will_notify);
    assert!(pace.take_due(false, false));
    pace.end_turn(false);
    assert!(!pace.has_ended());
    pace.end_turn(true);
    assert!(pace.has_ended());
}
