use mac_app_remover::{
    failures, is_affirmative, is_app_running, poll_log, process_pattern_for, quit_script_for,
    select_app, total_size, Action, AppInfo, Event, LogMsg, Phase, Removal, RemovalOutcome,
    RemovalResult, ResidualEntry, GRACE_SECONDS,
};

fn strings(items: &[&str]) -> Vec<String> {
    items.iter().map(|s| s.to_string()).collect()
}

fn removal(residuals: &[&str]) -> Removal {
    Removal::new("Foo".to_string(), "/Applications/Foo.app".to_string(), strings(residuals))
}

fn delete(path: &str) -> Action {
    Action::Delete { path: path.to_string() }
}

fn outcome(path: &str, result: RemovalResult) -> RemovalOutcome {
    RemovalOutcome { path: path.to_string(), result }
}

fn denied() -> RemovalResult {
    RemovalResult::Failure("Permission denied (os error 13)".to_string())
}

#[test]
fn a_removal_starts_idle_and_without_outcomes() {
    let r = removal(&["/Users/ana/Library/Caches/Foo"]);
    assert_eq!(r.phase(), Phase::Idle);
    assert!(r.outcomes().is_empty());
}

#[test]
fn a_removal_first_looks_for_the_running_application() {
    let mut r = removal(&[]);
    assert_eq!(r.step(Event::Start), Action::CheckRunning { pattern: "Foo.app".to_string() });
    assert_eq!(r.phase(), Phase::Checking);
}

#[test]
fn a_running_application_is_asked_to_quit_and_given_two_seconds() {
    let mut r = removal(&[]);
    r.step(Event::Start);
    assert_eq!(
        r.step(Event::Liveness(true)),
        Action::RequestQuit {
            script: "tell application \"Foo\" to quit".to_string(),
            grace_seconds: 2
        }
    );
    assert_eq!(r.phase(), Phase::Terminating);
    assert_eq!(r.step(Event::GraceElapsed), delete("/Applications/Foo.app"));
    assert_eq!(r.phase(), Phase::Deleting);
    assert_eq!(GRACE_SECONDS, 2);
}

#[test]
fn an_application_that_is_not_running_is_deleted_at_once() {
    let mut r = removal(&[]);
    r.step(Event::Start);
    assert_eq!(r.step(Event::Liveness(false)), delete("/Applications/Foo.app"));
    assert_eq!(r.phase(), Phase::Deleting);
}

#[test]
fn bundle_and_residual_are_both_deleted_and_both_succeed() {
    let mut r = removal(&["/Users/ana/Library/Caches/Foo"]);
    r.step(Event::Start);
    assert_eq!(r.step(Event::Liveness(false)), delete("/Applications/Foo.app"));
    assert_eq!(
        r.step(Event::Deleted(RemovalResult::Success)),
        delete("/Users/ana/Library/Caches/Foo")
    );
    assert_eq!(r.step(Event::Deleted(RemovalResult::Success)), Action::Finish);
    assert_eq!(r.phase(), Phase::Completed);
    assert_eq!(
        r.outcomes(),
        &vec![
            outcome("/Applications/Foo.app", RemovalResult::Success),
            outcome("/Users/ana/Library/Caches/Foo", RemovalResult::Success),
        ]
    );
    assert!(failures(r.outcomes()).is_empty());
}

#[test]
fn a_failed_bundle_deletion_does_not_stop_the_residual_ones() {
    let residuals = ["/r/1", "/r/2", "/r/3"];
    let mut r = removal(&residuals);
    r.step(Event::Start);
    r.step(Event::Liveness(false));
    assert_eq!(r.step(Event::Deleted(denied())), delete("/r/1"));
    assert_eq!(r.step(Event::Deleted(RemovalResult::Success)), delete("/r/2"));
    assert_eq!(r.step(Event::Deleted(RemovalResult::Success)), delete("/r/3"));
    assert_eq!(r.step(Event::Deleted(RemovalResult::Success)), Action::Finish);
    assert_eq!(r.phase(), Phase::Completed);
    let outcomes = r.outcomes();
    assert_eq!(outcomes.len(), 4);
    assert_eq!(outcomes[0], outcome("/Applications/Foo.app", denied()));
    let succeeded = outcomes.iter().filter(|o| o.result == RemovalResult::Success).count();
    assert_eq!(succeeded, 3);
    assert_eq!(
        failures(outcomes),
        strings(&["/Applications/Foo.app: Permission denied (os error 13)"])
    );
}

#[test]
fn every_failure_is_reported_in_the_order_of_the_attempts() {
    let mut r = removal(&["/r/1", "/r/2"]);
    r.step(Event::Start);
    r.step(Event::Liveness(false));
    r.step(Event::Deleted(RemovalResult::Failure("gone".to_string())));
    r.step(Event::Deleted(RemovalResult::Success));
    assert_eq!(r.step(Event::Deleted(RemovalResult::Failure("busy".to_string()))), Action::Finish);
    assert_eq!(failures(r.outcomes()), strings(&["/Applications/Foo.app: gone", "/r/2: busy"]));
}

#[test]
fn an_event_out_of_turn_is_rejected_and_changes_nothing() {
    let mut r = removal(&["/r/1"]);
    assert_eq!(r.step(Event::Liveness(true)), Action::Rejected);
    assert_eq!(r.step(Event::Deleted(RemovalResult::Success)), Action::Rejected);
    assert_eq!(r.step(Event::GraceElapsed), Action::Rejected);
    assert_eq!(r.phase(), Phase::Idle);
    r.step(Event::Start);
    assert_eq!(r.step(Event::Start), Action::Rejected);
    assert_eq!(r.step(Event::GraceElapsed), Action::Rejected);
    assert_eq!(r.phase(), Phase::Checking);
    r.step(Event::Liveness(true));
    assert_eq!(r.step(Event::Liveness(false)), Action::Rejected);
    assert_eq!(r.phase(), Phase::Terminating);
    r.step(Event::GraceElapsed);
    assert_eq!(r.step(Event::GraceElapsed), Action::Rejected);
    assert_eq!(r.phase(), Phase::Deleting);
    assert!(r.outcomes().is_empty());
}

#[test]
fn a_completed_removal_accepts_nothing_more() {
    let mut r = removal(&[]);
    r.step(Event::Start);
    r.step(Event::Liveness(false));
    assert_eq!(r.step(Event::Deleted(RemovalResult::Success)), Action::Finish);
    assert_eq!(r.step(Event::Deleted(RemovalResult::Success)), Action::Rejected);
    assert_eq!(r.step(Event::Start), Action::Rejected);
    assert_eq!(r.phase(), Phase::Completed);
    assert_eq!(r.outcomes().len(), 1);
}

#[test]
fn the_process_pattern_is_the_bundle_file_name() {
    assert_eq!(process_pattern_for("Google Chrome"), "Google Chrome.app");
}

#[test]
fn the_quit_script_names_the_application() {
    assert_eq!(quit_script_for("Google Chrome"), "tell application \"Google Chrome\" to quit");
}

#[test]
fn an_application_runs_where_the_search_succeeded() {
    assert!(is_app_running(Some(true)));
    assert!(!is_app_running(Some(false)));
    assert!(!is_app_running(None));
}

#[test]
fn failures_of_no_outcomes_are_none() {
    assert_eq!(failures(&Vec::new()), Vec::<String>::new());
}

#[test]
fn the_total_is_the_bundle_and_its_residual_data() {
    let related =
        vec![ResidualEntry { path: "/Users/ana/Library/Caches/Foo".to_string(), size: 30 }];
    assert_eq!(total_size(50, &related), Some(80));
}

#[test]
fn the_total_of_a_bundle_alone_is_its_size() {
    assert_eq!(total_size(50, &Vec::new()), Some(50));
}

#[test]
fn the_total_is_missing_where_it_does_not_fit() {
    let related = vec![
        ResidualEntry { path: "/a".to_string(), size: u64::MAX - 10 },
        ResidualEntry { path: "/b".to_string(), size: 6 },
    ];
    assert_eq!(total_size(4, &related), Some(u64::MAX));
    assert_eq!(total_size(5, &related), None);
}

#[test]
fn the_details_of_a_selection_carry_the_total() {
    let app = AppInfo {
        name: "Foo".to_string(),
        path: "/Applications/Foo.app".to_string(),
        size: 50,
        bundle_id: Some("com.example.foo".to_string()),
    };
    let related = vec![
        ResidualEntry { path: "/Users/ana/Library/Caches/Foo".to_string(), size: 30 },
        ResidualEntry { path: "/Users/ana/Library/Logs/Foo".to_string(), size: 5 },
    ];
    let details = select_app(&app, related).unwrap();
    assert_eq!(details.name, "Foo");
    assert_eq!(details.path, "/Applications/Foo.app");
    assert_eq!(details.size, 50);
    assert_eq!(details.bundle_id, Some("com.example.foo".to_string()));
    assert_eq!(details.related.len(), 2);
    assert_eq!(details.related[1].size, 5);
    assert_eq!(details.total_size, 85);
}

#[test]
fn there_are_no_details_where_the_total_does_not_fit() {
    let app = AppInfo {
        name: "Foo".to_string(),
        path: "/Applications/Foo.app".to_string(),
        size: u64::MAX,
        bundle_id: None,
    };
    let related = vec![ResidualEntry { path: "/a".to_string(), size: 1 }];
    assert_eq!(select_app(&app, related), None);
}

#[test]
fn polling_adds_the_lines_in_order() {
    let mut log = strings(&["earlier"]);
    let batch = vec![LogMsg::Line("one".to_string()), LogMsg::Line("two".to_string())];
    assert!(!poll_log(&mut log, &batch));
    assert_eq!(log, strings(&["earlier", "one", "two"]));
}

#[test]
fn polling_sees_the_end_of_the_removal() {
    let mut log = Vec::new();
    let batch = vec![LogMsg::Line("last".to_string()), LogMsg::Done];
    assert!(poll_log(&mut log, &batch));
    assert_eq!(log, strings(&["last"]));
}

#[test]
fn polling_in_two_looks_gives_what_one_look_gives() {
    let all = || {
        vec![
            LogMsg::Line("one".to_string()),
            LogMsg::Line("two".to_string()),
            LogMsg::Done,
            LogMsg::Line("three".to_string()),
        ]
    };
    let mut at_once = Vec::new();
    let done_at_once = poll_log(&mut at_once, &all());
    for cut in 0..=4 {
        let mut first = all();
        let second = first.split_off(cut);
        let mut in_parts = Vec::new();
        let done_first = poll_log(&mut in_parts, &first);
        let done_second = poll_log(&mut in_parts, &second);
        assert_eq!(in_parts, at_once);
        assert_eq!(done_first || done_second, done_at_once);
    }
    assert_eq!(at_once, strings(&["one", "two", "three"]));
    assert!(done_at_once);
}

#[test]
fn polling_nothing_changes_nothing() {
    let mut log = strings(&["kept"]);
    assert!(!poll_log(&mut log, &Vec::new()));
    assert_eq!(log, strings(&["kept"]));
}

#[test]
fn yes_is_said_in_four_ways() {
    for answer in ["s", "sim", "y", "yes", "S\n", " Sim ", "YES\r\n", "\tY"] {
        assert!(is_affirmative(answer));
    }
}

#[test]
fn anything_else_is_a_no() {
    for answer in ["", "\n", "n", "no", "nao", "yes please", "ye", "si m"] {
        assert!(!is_affirmative(answer));
    }
}
