use aur_guard::daemon::{
    closes_connection, plan_feeds_check, poll_step, should_exit, Poll, Request, START_PINGS, STOP_CHECKS,
};
use aur_guard::feeds::{FeedEntry, FeedState};

fn s(v: &[&str]) -> Vec<String> {
    v.iter().map(|x| x.to_string()).collect()
}

fn state(entries: &[(&str, &[&str])]) -> FeedState {
    FeedState {
        updated_at: 0,
        packages: entries
            .iter()
            .map(|(n, c)| FeedEntry { name: n.to_string(), campaigns: s(c) })
            .collect(),
    }
}

#[test]
fn daemon_exit() {
    assert!(should_exit(true, 3, 0, 0, 0));
    assert!(should_exit(false, 0, 3_000_000_000, 0, 0));
    assert!(!should_exit(false, 1, 3_000_000_000, 0, 0));
    assert!(!should_exit(false, 0, 2_999_999_999, 0, 0));
    assert!(should_exit(false, 1, 0, 0, 300_000_000_001));
    assert!(!should_exit(false, 1, 0, 0, 300_000_000_000));
    assert!(should_exit(true, 0, i64::MAX, i64::MIN, 0));
}

#[test]
fn shutdown_closes_the_connection() {
    assert!(closes_connection(&Request::Shutdown));
    assert!(!closes_connection(&Request::Ping));
    assert!(!closes_connection(&Request::CheckPackages { names: s(&["a"]) }));
}

#[test]
fn first_feed_check() {
    let st = state(&[("zeta", &["c2"]), ("alvr", &["aur-infected", "chaos-rat"])]);
    let plan = plan_feeds_check(&st, &Vec::new(), false);
    assert_eq!(plan.set, s(&["alvr", "zeta"]));
    assert_eq!(plan.new_malware, s(&["alvr", "zeta"]));
    assert_eq!(plan.reasons, s(&["aur-infected, chaos-rat", "c2"]));
    assert!(plan.save);
}

#[test]
fn feed_check_against_baseline() {
    let st = state(&[("zeta", &["c2"]), ("alvr", &["x"])]);
    let plan = plan_feeds_check(&st, &s(&["alvr", "-bad", "old"]), true);
    assert_eq!(plan.new_malware, s(&["zeta"]));
    assert_eq!(plan.reasons, s(&["c2"]));
    assert!(plan.save);
    // the saved names bring nothing new the next time
    let again = plan_feeds_check(&st, &plan.set, true);
    assert!(again.new_malware.is_empty());
    assert!(again.reasons.is_empty());
    assert!(!again.save);
    // an invalid stored name never counts as known
    let bad = state(&[("-x", &["c"])]);
    let p1 = plan_feeds_check(&bad, &Vec::new(), true);
    let p2 = plan_feeds_check(&bad, &p1.set, true);
    assert_eq!(p2.new_malware, s(&["-x"]));
}

#[test]
fn bounded_polling() {
    assert_eq!(START_PINGS, 60);
    assert_eq!(STOP_CHECKS, 40);
    assert!(matches!(poll_step(1, 60, true), Poll::Done));
    assert!(matches!(poll_step(60, 60, true), Poll::Done));
    assert!(matches!(poll_step(1, 60, false), Poll::WaitAndRetry));
    assert!(matches!(poll_step(59, 60, false), Poll::WaitAndRetry));
    assert!(matches!(poll_step(60, 60, false), Poll::WaitAndGiveUp));
    assert!(matches!(poll_step(40, 40, false), Poll::WaitAndGiveUp));
    // waiting for a condition that never holds stops after exactly `limit` looks
    let mut looks = 0;
    for n in 1..=STOP_CHECKS {
        looks += 1;
        if !matches!(poll_step(n, STOP_CHECKS, false), Poll::WaitAndRetry) {
            break;
        }
    }
    assert_eq!(looks, 40);
}
