use ccs::session::{
    cwd_to_project_key, find_transcript, is_finished, is_session_file, is_transcript_file,
    load_finished_session, load_finished_sessions, load_session, load_sessions, started_at_secs,
    transcript_file_name, Session, SessionFile, SessionMeta, SessionState, TranscriptFile,
    TranscriptPlace,
};
use ccs::time::{Timestamp, UtcOffset, MAX_SECS};
use ccs::transcript::{TranscriptInfo, TranscriptMeta, TranscriptState};

const NOON: i64 = 1_714_564_800; // 2024-05-01T12:00:00Z

fn at(secs: i64) -> Timestamp {
    Timestamp::new(secs, 0, 0).unwrap()
}

fn file(id: &str, cwd: &str, alive: bool, info: Option<TranscriptInfo>) -> SessionFile {
    SessionFile {
        meta: SessionMeta {
            pid: 7,
            session_id: id.to_string(),
            cwd: cwd.to_string(),
            started_at: NOON as u64 * 1000 + 999,
            name: Some("n".to_string()),
        },
        start_offset: UtcOffset::new(0),
        alive,
        info,
        activity_offset: UtcOffset::new(0),
    }
}

fn info(state: TranscriptState) -> Option<TranscriptInfo> {
    Some(TranscriptInfo { state, last_activity: Some(at(NOON + 5)) })
}

fn transcript(id: &str, cwd: &str) -> TranscriptFile {
    TranscriptFile {
        session_id: id.to_string(),
        age_secs: Some(60),
        meta: Some(TranscriptMeta { cwd: Some(cwd.to_string()), started_at: Some(at(NOON - 9)) }),
        tail: info(TranscriptState::Thinking),
        start_offset: UtcOffset::new(0),
        activity_offset: UtcOffset::new(0),
    }
}

fn ids(list: &[&str]) -> Vec<String> {
    list.iter().map(|s| s.to_string()).collect()
}

#[test]
fn project_keys() {
    assert_eq!(cwd_to_project_key(""), "");
    assert_eq!(cwd_to_project_key("/home/me/my_app.rs"), "-home-me-my-app-rs");
    assert_eq!(cwd_to_project_key("aZ09-"), "aZ09-");
    assert_eq!(cwd_to_project_key("/é\u{1f600}"), "---");
}

#[test]
fn project_key_is_its_own_key() {
    for cwd in ["/home/me/my_app.rs", "/é ä", "a-b"] {
        let key = cwd_to_project_key(cwd);
        assert_eq!(key.chars().count(), cwd.chars().count());
        assert!(key.chars().all(|c| c.is_ascii_alphanumeric() || c == '-'));
        assert_eq!(cwd_to_project_key(&key), key);
    }
}

#[test]
fn files_by_name() {
    assert_eq!(transcript_file_name("ab-12"), "ab-12.jsonl");
    assert!(is_session_file(&Some("json".to_string())));
    assert!(!is_session_file(&Some("jsonl".to_string())));
    assert!(!is_session_file(&None));
    assert!(is_transcript_file(&Some("jsonl".to_string())));
    assert!(!is_transcript_file(&Some("json".to_string())));
    assert!(!is_transcript_file(&None));
}

#[test]
fn transcript_of_a_session() {
    assert_eq!(find_transcript(true, &vec![true]), Some(TranscriptPlace::Primary));
    assert_eq!(find_transcript(false, &vec![]), None);
    assert_eq!(find_transcript(false, &vec![false, false]), None);
    assert_eq!(
        find_transcript(false, &vec![false, true, true]),
        Some(TranscriptPlace::Project(1))
    );
}

#[test]
fn start_in_seconds() {
    assert_eq!(started_at_secs(&file("a", "/a", true, None).meta), NOON);
    let mut last = file("a", "/a", true, None).meta;
    last.started_at = u64::MAX;
    assert_eq!(started_at_secs(&last), 18_446_744_073_709_551);
}

#[test]
fn session_of_a_file() {
    let s = load_session(file("a", "/a", true, info(TranscriptState::Thinking))).unwrap();
    assert_eq!(s.cwd, "/a");
    assert_eq!(s.started_at, at(NOON));
    assert_eq!(s.name, Some("n".to_string()));
    assert_eq!(s.state, SessionState::Thinking);
    assert_eq!(s.last_activity, Some(at(NOON + 5)));
}

#[test]
fn times_are_local() {
    let mut f = file("a", "/a", true, info(TranscriptState::Thinking));
    f.start_offset = UtcOffset::new(3600);
    f.activity_offset = UtcOffset::new(7200);
    assert_eq!(f.started_at(), Timestamp::new(NOON, 0, 3600));
    let s = load_session(f).unwrap();
    assert_eq!(s.started_at, Timestamp::new(NOON, 0, 3600).unwrap());
    assert_eq!(s.last_activity, Timestamp::new(NOON + 5, 0, 7200));
    let mut t = transcript("a", "/a");
    t.start_offset = UtcOffset::new(-3600);
    t.activity_offset = UtcOffset::new(-7200);
    let s = load_finished_session(&ids(&[]), t).unwrap();
    assert_eq!(s.started_at, Timestamp::new(NOON - 9, 0, -3600).unwrap());
    assert_eq!(s.last_activity, Timestamp::new(NOON + 5, 0, -7200));
}

#[test]
fn states_of_running_sessions() {
    let of = |state| load_session(file("a", "/a", true, info(state))).unwrap().state;
    assert_eq!(of(TranscriptState::Idle), SessionState::Idle);
    assert_eq!(of(TranscriptState::Thinking), SessionState::Thinking);
    assert_eq!(of(TranscriptState::Responding), SessionState::Responding);
    assert_eq!(of(TranscriptState::Plan), SessionState::Plan);
    assert_eq!(of(TranscriptState::Asking), SessionState::Asking);
    assert_eq!(of(TranscriptState::Tool("Bash".to_string())), SessionState::Tool("Bash".to_string()));
    let s = load_session(file("a", "/a", true, None)).unwrap();
    assert_eq!((s.state, s.last_activity), (SessionState::Idle, None));
}

#[test]
fn session_without_a_process_has_exited() {
    let s = load_session(file("a", "/a", false, info(TranscriptState::Thinking))).unwrap();
    assert_eq!((s.state, s.last_activity), (SessionState::Exited, Some(at(NOON + 5))));
    let s = load_session(file("a", "/a", false, None)).unwrap();
    assert_eq!((s.state, s.last_activity), (SessionState::Exited, None));
}

#[test]
fn session_without_a_start_is_left_out() {
    let mut f = file("a", "/a", true, None);
    f.start_offset = None;
    assert!(f.started_at().is_none());
    assert!(load_session(f).is_none());
    // beyond the calendar
    let mut f = file("a", "/a", true, None);
    f.meta.started_at = (MAX_SECS as u64 + 1) * 1000;
    assert!(load_session(f).is_none());
    let mut f = file("a", "/a", true, None);
    f.meta.started_at = MAX_SECS as u64 * 1000 + 999;
    assert!(load_session(f).is_some());
}

#[test]
fn finished_within_a_day() {
    assert!(is_finished(&ids(&[]), "a", Some(0)));
    assert!(is_finished(&ids(&["b"]), "a", Some(86_400)));
    assert!(!is_finished(&ids(&["b"]), "a", Some(86_401)));
    assert!(is_finished(&ids(&["b"]), "a", None));
    assert!(!is_finished(&ids(&["b", "a"]), "a", Some(0)));
}

#[test]
fn finished_session_of_a_transcript() {
    let s = load_finished_session(&ids(&["b"]), transcript("a", "/a")).unwrap();
    assert_eq!(s.cwd, "/a");
    assert_eq!(s.started_at, at(NOON - 9));
    assert_eq!(s.name, None);
    assert_eq!(s.state, SessionState::Exited);
    assert_eq!(s.last_activity, Some(at(NOON + 5)));
    let mut t = transcript("a", "/a");
    t.tail = None;
    assert_eq!(load_finished_session(&ids(&[]), t).unwrap().last_activity, None);
}

#[test]
fn transcripts_that_are_not_shown() {
    assert!(load_finished_session(&ids(&["a"]), transcript("a", "/a")).is_none());
    let mut t = transcript("a", "/a");
    t.age_secs = Some(90_000);
    assert!(load_finished_session(&ids(&[]), t).is_none());
    let mut t = transcript("a", "/a");
    t.meta = None;
    assert!(load_finished_session(&ids(&[]), t).is_none());
    let mut t = transcript("a", "/a");
    t.meta = Some(TranscriptMeta { cwd: None, started_at: Some(at(NOON)) });
    assert!(load_finished_session(&ids(&[]), t).is_none());
    let mut t = transcript("a", "/a");
    t.meta = Some(TranscriptMeta { cwd: Some("/a".to_string()), started_at: None });
    assert!(load_finished_session(&ids(&[]), t).is_none());
}

#[test]
fn finished_sessions_are_appended() {
    let mut out: Vec<Session> = vec![load_session(file("x", "/x", true, None)).unwrap()];
    let files = vec![transcript("a", "/a"), transcript("b", "/b"), transcript("c", "/c")];
    load_finished_sessions(&ids(&["b"]), files, &mut out);
    let cwds: Vec<&str> = out.iter().map(|s| s.cwd.as_str()).collect();
    assert_eq!(cwds, vec!["/x", "/a", "/c"]);
}

#[test]
fn all_sessions_are_loaded() {
    let mut unstarted = file("c", "/c", true, None);
    unstarted.start_offset = None;
    let files = vec![file("a", "/a", true, None), unstarted, file("b", "/b", false, None)];
    let transcripts = vec![
        transcript("b", "/b"),
        transcript("c", "/c"),
        transcript("d", "/d"),
        transcript("a", "/a"),
        transcript("e", "/e"),
    ];
    let all = load_sessions(files, transcripts);
    let shown: Vec<(&str, SessionState)> =
        all.iter().map(|s| (s.cwd.as_str(), s.state.clone())).collect();
    assert_eq!(
        shown,
        vec![
            ("/a", SessionState::Idle),
            ("/b", SessionState::Exited),
            ("/d", SessionState::Exited),
            ("/e", SessionState::Exited),
        ]
    );
    assert!(load_sessions(vec![], vec![]).is_empty());
}

#[test]
fn active_session_is_not_finished() {
    let all = load_sessions(vec![file("a", "/a", true, None)], vec![transcript("a", "/a")]);
    assert_eq!(all.len(), 1);
    assert_eq!(all[0].state, SessionState::Idle);
}

#[test]
fn activity_is_the_last_or_the_start() {
    let mut s = load_session(file("a", "/a", true, info(TranscriptState::Idle))).unwrap();
    assert_eq!(s.activity(), at(NOON + 5));
    s.last_activity = None;
    assert_eq!(s.activity(), at(NOON));
}
