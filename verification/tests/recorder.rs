use hello_work::db::{add_project, add_work_session, init_db, WorkSession};
use hello_work::pomo::Pomo;
use hello_work::stats::last_week_chart;
use hello_work::util::truncate_with_ellipsis;

const LEN: u64 = 25 * 60;

/// Starting then canceling a session leaves no durable trace at all.
#[test]
fn cancellation_is_silent() {
    let db = init_db();
    let mut pomo = Pomo::new(LEN, db);
    pomo.init_session(1000);
    assert!(pomo.is_running());
    pomo.cancel_session();
    assert!(!pomo.is_running());
    assert!(pomo.db.work.is_empty());
    pomo.check_finished(1000 + 10 * LEN);
    assert!(pomo.db.work.is_empty());
}

/// Completion records exactly one session, with the configured length as
/// its duration rather than the drifting wall-clock difference, attributed
/// to the active project; repeated checks never record a second one.
#[test]
fn completion_check_is_idempotent() {
    let mut db = init_db();
    let r = add_project(&mut db, None).unwrap();
    let mut pomo = Pomo::new(LEN, db);
    pomo.projects.set_active(Some(r));
    pomo.init_session(1000);
    pomo.check_finished(1000 + LEN - 1);
    assert!(pomo.db.work.is_empty());
    pomo.check_finished(1000 + LEN + 7);
    assert_eq!(pomo.db.work.len(), 1);
    assert_eq!(pomo.db.work[0].time_start, 1000);
    assert_eq!(pomo.db.work[0].duration, LEN);
    assert_eq!(pomo.db.work[0].project_id, Some(r));
    assert!(!pomo.is_running());
    pomo.check_finished(1000 + 2 * LEN);
    pomo.check_finished(1000 + 3 * LEN);
    assert_eq!(pomo.db.work.len(), 1);
}

/// A completed session lands in the cache's totals without further ado.
#[test]
fn completion_refreshes_cache_totals() {
    let mut db = init_db();
    let r = add_project(&mut db, None).unwrap();
    let mut pomo = Pomo::new(LEN, db);
    pomo.projects.set_active(Some(r));
    pomo.init_session(0);
    pomo.check_finished(LEN);
    let walk = pomo.projects.get_all_tree_style();
    assert_eq!(walk.len(), 1);
    assert_eq!(walk[0].1.total_seconds, LEN);
}

/// The countdown renders the remaining time as `MM:SS` and a sentinel when
/// idle; elapsed time reads through `time_elapsed`.
#[test]
fn countdown_rendering() {
    let db = init_db();
    let mut pomo = Pomo::new(1500, db);
    assert_eq!(pomo.countdown_string(0), "--:--");
    assert_eq!(pomo.time_elapsed(5), None);
    pomo.init_session(100);
    assert_eq!(pomo.time_elapsed(160), Some(60));
    assert_eq!(pomo.countdown_string(100), "25:00");
    assert_eq!(pomo.countdown_string(160), "24:00");
    assert_eq!(pomo.countdown_string(100 + 1493), "00:07");
    assert_eq!(pomo.countdown_string(100 + 1500), "00:00");
    // A clock reading before the start renders the sentinel.
    assert_eq!(pomo.countdown_string(50), "--:--");
}

/// Session length is configured in minutes and held in seconds.
#[test]
fn session_length_changes() {
    let db = init_db();
    let mut pomo = Pomo::new(LEN, db);
    pomo.change_session_length(50);
    assert_eq!(pomo.session_length, 3000);
    pomo.init_session(0);
    assert_eq!(pomo.countdown_string(0), "50:00");
}

/// Minutes past 99 keep all their digits.
#[test]
fn countdown_long_sessions() {
    let db = init_db();
    let mut pomo = Pomo::new(7200 * 60, db);
    pomo.init_session(0);
    assert_eq!(pomo.countdown_string(0), "7200:00");
}

/// The trailing week, newest day first, each with its summed seconds.
#[test]
fn last_week_chart_shape() {
    let mut db = init_db();
    let today: u64 = 20000;
    add_work_session(
        &mut db,
        &WorkSession { time_start: today * 86400 + 60, duration: 1800, project_id: None },
    )
    .unwrap();
    add_work_session(
        &mut db,
        &WorkSession { time_start: (today - 3) * 86400 + 60, duration: 600, project_id: None },
    )
    .unwrap();
    let chart = last_week_chart(&db, today, 0);
    assert_eq!(chart.len(), 7);
    assert_eq!(chart[0], (today, 1800));
    assert_eq!(chart[1], (today - 1, 0));
    assert_eq!(chart[3], (today - 3, 600));
    assert_eq!(chart[6], (today - 6, 0));
}

/// Truncation keeps the first characters and marks the cut; short strings
/// pass through untouched.
#[test]
fn truncation() {
    assert_eq!(truncate_with_ellipsis("hello world".to_string(), 5), "hello...");
    assert_eq!(truncate_with_ellipsis("hello".to_string(), 5), "hello");
    assert_eq!(truncate_with_ellipsis("hi".to_string(), 5), "hi");
    assert_eq!(truncate_with_ellipsis(String::new(), 0), "");
    assert_eq!(truncate_with_ellipsis("abc".to_string(), 0), "...");
}

/// Truncation counts characters, not bytes.
#[test]
fn truncation_multibyte() {
    assert_eq!(truncate_with_ellipsis("αβγδε".to_string(), 3), "αβγ...");
    assert_eq!(truncate_with_ellipsis("αβγ".to_string(), 3), "αβγ");
}
