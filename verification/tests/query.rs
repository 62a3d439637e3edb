use ccs::query::{
    all_names_can_be_cut, filter_by_path, filter_by_state, filter_by_time, invalid_duration_message,
    report, select_sessions, state_matches, Query,
};
use ccs::session::{Session, SessionState};
use ccs::time::Timestamp;

const NOON: i64 = 1_714_564_800; // 2024-05-01T12:00:00Z

fn at(secs: i64) -> Timestamp {
    Timestamp::new(secs, 0, 0).unwrap()
}

fn session(cwd: &str, ago: i64, state: SessionState) -> Session {
    Session {
        cwd: cwd.to_string(),
        started_at: at(NOON - 7200),
        name: None,
        state,
        last_activity: Timestamp::new(NOON - ago, 0, 0),
    }
}

fn everything() -> Query {
    Query { count: 10, time: None, path: None, state: None, json: false }
}

fn text(s: &str) -> Option<String> {
    Some(s.to_string())
}

fn some_sessions() -> Vec<Session> {
    vec![
        session("/work/API", 300, SessionState::Idle),
        session("/work/web", 20, SessionState::Thinking),
        session("/play/api", 9000, SessionState::Exited),
        session("/work/db", 100, SessionState::Tool("Bash".to_string())),
        session("/play/ÄPFEL", 50, SessionState::Plan),
        session("/play/x", 60, SessionState::Asking),
        session("/play/y", 70, SessionState::Responding),
    ]
}

fn cwds(list: &[Session]) -> Vec<&str> {
    list.iter().map(|s| s.cwd.as_str()).collect()
}

fn by_state(filter: &str) -> Vec<String> {
    filter_by_state(some_sessions(), filter).into_iter().map(|s| s.cwd).collect()
}

#[test]
fn path_filter_ignores_case() {
    assert_eq!(cwds(&filter_by_path(some_sessions(), "api")), vec!["/work/API", "/play/api"]);
    assert_eq!(cwds(&filter_by_path(some_sessions(), "APi")), vec!["/work/API", "/play/api"]);
    assert_eq!(cwds(&filter_by_path(some_sessions(), "äpfel")), vec!["/play/ÄPFEL"]);
    assert_eq!(cwds(&filter_by_path(some_sessions(), "nowhere")), Vec::<&str>::new());
    assert_eq!(filter_by_path(some_sessions(), "").len(), 7);
}

#[test]
fn state_filter() {
    assert_eq!(by_state("idle"), vec!["/work/API"]);
    let working = vec!["/work/web", "/work/db", "/play/y"];
    assert_eq!(by_state("working"), working);
    assert_eq!(by_state("thinking"), working);
    assert_eq!(by_state("responding"), working);
    assert_eq!(by_state("tool"), working);
    assert_eq!(by_state("planned"), vec!["/play/ÄPFEL"]);
    assert_eq!(by_state("plan"), vec!["/play/ÄPFEL"]);
    assert_eq!(by_state("asking"), vec!["/play/x"]);
    assert_eq!(by_state("waiting"), vec!["/play/ÄPFEL", "/play/x"]);
    assert_eq!(by_state("exited"), vec!["/play/api"]);
    assert_eq!(by_state("nothing"), Vec::<String>::new());
}

#[test]
fn state_filter_ignores_case() {
    assert_eq!(by_state("IDLE"), by_state("idle"));
    assert_eq!(by_state("Waiting"), by_state("waiting"));
    assert_eq!(by_state("TOOL:BASH"), vec!["/work/db"]);
}

#[test]
fn working_state_passes_by_its_label() {
    assert_eq!(by_state("bash"), vec!["/work/db"]);
    assert_eq!(by_state("think"), vec!["/work/web"]);
    assert_eq!(by_state("respond"), vec!["/play/y"]);
    // the other states pass by the whole word alone
    assert_eq!(by_state("idl"), Vec::<String>::new());
    assert_eq!(by_state("exit"), Vec::<String>::new());
    // the empty text is a part of every label
    assert_eq!(by_state(""), vec!["/work/web", "/work/db", "/play/y"]);
}

#[test]
fn states_against_lower_case_filters() {
    assert!(state_matches(&SessionState::Idle, "idle", "idle"));
    assert!(!state_matches(&SessionState::Idle, "Idle", "idle"));
    assert!(!state_matches(&SessionState::Plan, "pla", "planned"));
    assert!(state_matches(&SessionState::Tool("X".to_string()), "l:x", "tool:x"));
    assert!(!state_matches(&SessionState::Tool("X".to_string()), "y", "tool:x"));
}

#[test]
fn time_filter() {
    let now = at(NOON);
    let kept = filter_by_time(some_sessions(), 60, &now);
    assert_eq!(cwds(&kept), vec!["/work/web", "/play/ÄPFEL", "/play/x"]);
    // without activity the start counts
    let mut s = session("/a", 0, SessionState::Idle);
    s.last_activity = None;
    assert_eq!(filter_by_time(vec![s], 7200, &now).len(), 1);
    let mut s = session("/a", 0, SessionState::Idle);
    s.last_activity = None;
    assert_eq!(filter_by_time(vec![s], 7199, &now).len(), 0);
}

#[test]
fn most_recent_sessions_are_selected() {
    let all = select_sessions(some_sessions(), &everything(), &at(NOON)).unwrap();
    assert_eq!(
        cwds(&all),
        vec!["/work/web", "/play/ÄPFEL", "/play/x", "/play/y", "/work/db", "/work/API", "/play/api"]
    );
    let query = Query { count: 2, ..everything() };
    let two = select_sessions(some_sessions(), &query, &at(NOON)).unwrap();
    assert_eq!(cwds(&two), vec!["/work/web", "/play/ÄPFEL"]);
    let query = Query { count: 0, ..everything() };
    assert!(select_sessions(some_sessions(), &query, &at(NOON)).unwrap().is_empty());
}

#[test]
fn selected_sessions_pass_all_filters() {
    let query = Query {
        count: 10,
        time: text("2m"),
        path: text("WORK"),
        state: text("working"),
        json: false,
    };
    let kept = select_sessions(some_sessions(), &query, &at(NOON)).unwrap();
    assert_eq!(cwds(&kept), vec!["/work/web", "/work/db"]);
}

#[test]
fn invalid_time_selects_nothing() {
    let query = Query { time: text("soon"), ..everything() };
    assert!(select_sessions(some_sessions(), &query, &at(NOON)).is_none());
    assert_eq!(
        invalid_duration_message("soon"),
        "Invalid duration: soon (expected: 30m, 2h, 7d, etc.)"
    );
}

#[test]
fn names_are_looked_at_before_they_are_shown() {
    let mut list = some_sessions();
    assert!(all_names_can_be_cut(&list));
    list[3].name = Some("é".repeat(21));
    assert!(!all_names_can_be_cut(&list));
}

#[test]
fn report_of_no_sessions() {
    assert_eq!(report(&vec![], false, &at(NOON), "/home/me"), vec!["No sessions found."]);
    assert_eq!(report(&vec![], true, &at(NOON), "/home/me"), vec!["[]"]);
}

#[test]
fn report_as_a_tree() {
    colored::control::set_override(false);
    let list = vec![
        session("/work", 300, SessionState::Idle),
        session("/work/web", 20, SessionState::Thinking),
    ];
    assert_eq!(
        report(&list, false, &at(NOON), "/home/me"),
        vec![
            "IDLE          /work     5m ago  10:00",
            "└── THINKING  web      20s ago  10:00",
        ]
    );
}

#[test]
fn report_as_json() {
    let list = vec![session("/work", 300, SessionState::Idle), session("/w", 1, SessionState::Plan)];
    let lines = report(&list, true, &at(NOON), "/home/me");
    assert_eq!(lines.len(), 1);
    let value: serde_json::Value = serde_json::from_str(&lines[0]).unwrap();
    assert_eq!(value[0]["cwd"], "/work");
    assert_eq!(value[0]["state"], "IDLE");
    assert_eq!(value[1]["last_activity_relative"], "1s ago");
    assert!(value[1]["name"].is_null());
    assert!(value[2].is_null());
}
