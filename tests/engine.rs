use comic_fake_view::{
    Config, ConfigError, Engine, Message, Pull, Retry, RunState, Stage, StartError,
};
use std::time::Duration;

fn config(tabs: usize, retries: usize) -> Config {
    Config {
        chrome_path: None,
        user_data_dir: "profile".to_string(),
        headless: true,
        wait_for_navigation: 3,
        max_retries: retries,
        tab_count: tabs,
        backoff_base_ms: 1000,
    }
}

fn urls(list: &[&str]) -> Vec<String> {
    list.iter().map(|s| s.to_string()).collect()
}

fn started(tabs: usize, retries: usize, list: &[&str]) -> Engine {
    match Engine::start(&config(tabs, retries), urls(list)) {
        Ok((e, _)) => e,
        Err(err) => panic!("start failed: {:?}", err),
    }
}

fn job(p: Pull) -> String {
    match p {
        Pull::Job(u) => u,
        other => panic!("expected a job, got {:?}", other),
    }
}

#[test]
fn start_announces_the_pending_count_first() {
    let (e, m) = Engine::start(&config(2, 1), urls(&["a", "b", "c"])).unwrap();
    assert!(matches!(m, Message::JobCount(3)));
    assert_eq!(e.pool_size(), 2);
    assert_eq!(e.stage(0), Stage::Ready);
    assert_eq!(e.stage(1), Stage::Ready);
}

#[test]
fn start_refuses_an_empty_pool() {
    let r = Engine::start(&config(0, 1), urls(&["a"]));
    assert!(matches!(r, Err(StartError::Config(ConfigError::NoTabs))));
}

#[test]
fn start_refuses_a_duplicate_url() {
    let r = Engine::start(&config(2, 1), urls(&["a", "b", "a"]));
    assert!(matches!(r, Err(StartError::DuplicateUrl)));
}

#[test]
fn feed_hands_out_urls_in_load_order() {
    let mut e = started(1, 0, &["a", "b", "c"]);
    for expected in ["a", "b", "c"] {
        assert_eq!(job(e.pull(0)), expected);
        assert_eq!(e.navigation_succeeded(0), expected);
        let (m, pause) = e.visit_recorded(0);
        assert!(matches!(m, Message::CompleteJob));
        assert_eq!(pause, 3);
    }
    assert!(matches!(e.pull(0), Pull::Drained));
    assert_eq!(e.stage(0), Stage::Exited);
}

#[test]
fn two_tabs_never_hold_the_same_url() {
    let mut e = started(2, 1, &["a", "b"]);
    let first = job(e.pull(0));
    let second = job(e.pull(1));
    assert_ne!(first, second);
    assert_eq!(e.stage(0), Stage::Navigating);
    assert_eq!(e.stage(1), Stage::Navigating);
}

#[test]
fn retryable_failures_wait_with_growing_delays_then_give_up() {
    let mut e = started(1, 2, &["a"]);
    assert_eq!(job(e.pull(0)), "a");
    match e.navigation_failed(0, true, "timeout".to_string()) {
        Retry::Wait(d) => assert_eq!(d, Duration::from_secs(1)),
        other => panic!("expected a wait, got {:?}", other),
    }
    match e.navigation_failed(0, true, "timeout".to_string()) {
        Retry::Wait(d) => assert_eq!(d, Duration::from_secs(2)),
        other => panic!("expected a wait, got {:?}", other),
    }
    match e.navigation_failed(0, true, "timeout again".to_string()) {
        Retry::GiveUp(Message::Error { url, message }) => {
            assert_eq!(url, "a");
            assert_eq!(message, "timeout again");
        }
        other => panic!("expected to give up, got {:?}", other),
    }
    assert_eq!(e.stage(0), Stage::Exited);
}

#[test]
fn a_retry_after_a_wait_can_still_succeed() {
    let mut e = started(1, 3, &["a"]);
    job(e.pull(0));
    assert!(matches!(e.navigation_failed(0, true, "x".to_string()), Retry::Wait(_)));
    assert_eq!(e.navigation_succeeded(0), "a");
    assert_eq!(e.stage(0), Stage::Marking);
    assert!(matches!(e.visit_recorded(0).0, Message::CompleteJob));
    assert_eq!(e.stage(0), Stage::Ready);
}

#[test]
fn a_fatal_failure_gives_up_at_once() {
    let mut e = started(1, 10, &["a", "b"]);
    job(e.pull(0));
    match e.navigation_failed(0, false, "channel closed".to_string()) {
        Retry::GiveUp(Message::Error { url, message }) => {
            assert_eq!(url, "a");
            assert_eq!(message, "channel closed");
        }
        other => panic!("expected to give up, got {:?}", other),
    }
    assert_eq!(e.stage(0), Stage::Exited);
}

#[test]
fn zero_retries_give_up_on_the_first_failure() {
    let mut e = started(1, 0, &["a"]);
    job(e.pull(0));
    assert!(matches!(
        e.navigation_failed(0, true, "timeout".to_string()),
        Retry::GiveUp(Message::Error { .. })
    ));
}

#[test]
fn exhausted_retries_leave_other_tabs_working() {
    let mut e = started(2, 1, &["a", "b", "c"]);
    assert_eq!(job(e.pull(0)), "a");
    assert_eq!(job(e.pull(1)), "b");
    assert!(matches!(e.navigation_failed(0, true, "t".to_string()), Retry::Wait(_)));
    assert!(matches!(e.navigation_failed(0, true, "t".to_string()), Retry::GiveUp(_)));
    assert_eq!(e.stage(0), Stage::Exited);
    assert_eq!(e.stage(1), Stage::Navigating);
    assert_eq!(e.navigation_succeeded(1), "b");
    e.visit_recorded(1);
    assert_eq!(job(e.pull(1)), "c");
    assert_eq!(e.navigation_succeeded(1), "c");
}

#[test]
fn cancel_before_any_pull_stops_every_tab() {
    let mut e = started(2, 1, &["a", "b"]);
    e.cancel();
    assert!(matches!(e.pull(0), Pull::Cancelled));
    assert!(matches!(e.pull(1), Pull::Cancelled));
    assert!(e.all_released());
    let td = e.finish(2).unwrap();
    assert!(!td.clean_store);
    assert!(matches!(td.message, Message::Finished));
}

#[test]
fn cancel_lets_teardown_run_while_tabs_still_work() {
    let mut e = started(2, 1, &["a", "b"]);
    job(e.pull(0));
    assert!(e.finish(2).is_none());
    e.cancel();
    assert!(!e.all_released());
    let td = e.finish(1).unwrap();
    assert!(!td.clean_store);
    assert!(e.finish(1).is_none());
}

#[test]
fn empty_start_announces_zero_and_tears_down() {
    let (mut e, m) = Engine::start(&config(2, 1), Vec::new()).unwrap();
    assert!(matches!(m, Message::JobCount(0)));
    assert!(matches!(e.pull(0), Pull::Drained));
    assert!(matches!(e.pull(1), Pull::Drained));
    assert!(e.all_released());
    let td = e.finish(0).unwrap();
    assert!(td.clean_store);
    assert!(matches!(td.message, Message::Finished));
}

#[test]
fn finish_runs_once() {
    let mut e = started(1, 1, &[]);
    assert!(e.finish(0).is_none());
    assert!(matches!(e.pull(0), Pull::Drained));
    assert!(e.finish(0).is_some());
    assert!(e.finish(0).is_none());
}

#[test]
fn two_tabs_three_urls_one_failing() {
    let (mut e, first) = Engine::start(&config(2, 2), urls(&["A", "B", "C"])).unwrap();
    let mut events = vec![first];
    let mut marked = Vec::new();

    assert_eq!(job(e.pull(0)), "A");
    assert_eq!(job(e.pull(1)), "B");
    marked.push(e.navigation_succeeded(0));
    events.push(e.visit_recorded(0).0);
    marked.push(e.navigation_succeeded(1));
    events.push(e.visit_recorded(1).0);

    assert_eq!(job(e.pull(0)), "C");
    loop {
        match e.navigation_failed(0, true, "navigation timed out".to_string()) {
            Retry::Wait(_) => continue,
            Retry::GiveUp(m) => {
                events.push(m);
                break;
            }
        }
    }
    assert!(matches!(e.pull(1), Pull::Drained));
    assert!(e.all_released());
    let td = e.finish(1).unwrap();
    assert!(!td.clean_store);

    assert_eq!(marked, vec!["A".to_string(), "B".to_string()]);
    assert_eq!(events.len(), 4);
    assert!(matches!(events[0], Message::JobCount(3)));
    assert!(matches!(events[1], Message::CompleteJob));
    assert!(matches!(events[2], Message::CompleteJob));
    match &events[3] {
        Message::Error { url, message } => {
            assert_eq!(url, "C");
            assert_eq!(message, "navigation timed out");
        }
        other => panic!("expected an error event, got {:?}", other),
    }
}

#[test]
fn run_state_follows_cancel_and_finish() {
    let mut e = started(1, 1, &["a"]);
    assert_eq!(e.run_state(), RunState::Running);
    e.cancel();
    assert_eq!(e.run_state(), RunState::Draining);
    e.cancel();
    assert_eq!(e.run_state(), RunState::Draining);
    assert!(e.finish(1).is_some());
    assert_eq!(e.run_state(), RunState::Finished);
}

#[test]
fn live_tabs_count_the_tabs_not_released() {
    let mut e = started(3, 0, &["a"]);
    assert_eq!(e.live_tabs(), 3);
    assert_eq!(job(e.pull(0)), "a");
    assert_eq!(e.live_tabs(), 3);
    assert!(matches!(e.pull(1), Pull::Drained));
    assert_eq!(e.live_tabs(), 2);
    assert!(matches!(e.navigation_failed(0, true, "t".to_string()), Retry::GiveUp(_)));
    assert_eq!(e.live_tabs(), 1);
    assert!(matches!(e.pull(2), Pull::Drained));
    assert_eq!(e.live_tabs(), 0);
    assert!(e.all_released());
}
