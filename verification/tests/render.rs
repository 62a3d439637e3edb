use ccs::paint::{state_label_colored, state_label_plain};
use ccs::render::{
    align_rows, collect_rows, json_objects, name_can_be_cut, render_json, render_tree, shorten_home,
    truncate_name, Row,
};
use ccs::session::{Session, SessionState};
use ccs::time::Timestamp;
use ccs::tree::{build_tree, TreeNode};

const NOON: i64 = 1_714_564_800; // 2024-05-01T12:00:00Z

fn at(secs: i64) -> Timestamp {
    Timestamp::new(secs, 0, 0).unwrap()
}

fn session(cwd: &str, ago: i64, state: SessionState) -> Session {
    Session {
        cwd: cwd.to_string(),
        started_at: at(NOON - 7200),
        name: None,
        state,
        last_activity: Timestamp::new(NOON - ago, 0, 0),
    }
}

fn row(prefix: &str, state: &str, cwd: &str, name: &str, activity: &str) -> Row {
    Row {
        prefix: prefix.to_string(),
        state_plain: state.to_string(),
        state_colored: format!("<{state}>"),
        cwd: cwd.to_string(),
        name: name.to_string(),
        name_colored: name.to_uppercase(),
        activity: activity.to_string(),
        started: "10:00".to_string(),
    }
}

#[test]
fn labels_of_states() {
    assert_eq!(state_label_plain(&SessionState::Idle), "IDLE");
    assert_eq!(state_label_plain(&SessionState::Thinking), "THINKING");
    assert_eq!(state_label_plain(&SessionState::Responding), "RESPONDING");
    assert_eq!(state_label_plain(&SessionState::Plan), "PLANNED");
    assert_eq!(state_label_plain(&SessionState::Asking), "ASKING");
    assert_eq!(state_label_plain(&SessionState::Tool("Bash".to_string())), "TOOL:Bash");
    assert_eq!(state_label_plain(&SessionState::Exited), "EXITED");
}

fn states() -> Vec<SessionState> {
    vec![
        SessionState::Idle,
        SessionState::Thinking,
        SessionState::Responding,
        SessionState::Plan,
        SessionState::Asking,
        SessionState::Tool("Bash".to_string()),
        SessionState::Tool("Edit".to_string()),
        SessionState::Exited,
    ]
}

#[test]
fn labels_differ() {
    for a in states() {
        for b in states() {
            assert_eq!(state_label_plain(&a) == state_label_plain(&b), a == b);
        }
    }
}

#[test]
fn painted_labels_read_plain() {
    colored::control::set_override(true);
    for state in states() {
        let painted = state_label_colored(&state);
        let body = painted.strip_suffix("\u{1b}[0m").unwrap();
        let (begin, label) = body.split_once('m').unwrap();
        assert!(begin.starts_with("\u{1b}["));
        assert_eq!(label, state_label_plain(&state));
    }
}

#[test]
fn labels_in_colour() {
    colored::control::set_override(true);
    assert_eq!(state_label_colored(&SessionState::Idle), "\u{1b}[32mIDLE\u{1b}[0m");
    assert_eq!(state_label_colored(&SessionState::Thinking), "\u{1b}[1;33mTHINKING\u{1b}[0m");
    assert_eq!(state_label_colored(&SessionState::Responding), "\u{1b}[1;33mRESPONDING\u{1b}[0m");
    assert_eq!(state_label_colored(&SessionState::Plan), "\u{1b}[36mPLANNED\u{1b}[0m");
    assert_eq!(state_label_colored(&SessionState::Asking), "\u{1b}[36mASKING\u{1b}[0m");
    assert_eq!(
        state_label_colored(&SessionState::Tool("Bash".to_string())),
        "\u{1b}[34mTOOL:Bash\u{1b}[0m"
    );
    assert_eq!(state_label_colored(&SessionState::Exited), "\u{1b}[2mEXITED\u{1b}[0m");
}

#[test]
fn style_begins_anew_after_a_reset() {
    colored::control::set_override(true);
    assert_eq!(
        state_label_colored(&SessionState::Tool("a\u{1b}[0mb\u{1b}[0m\u{1b}[0m".to_string())),
        "\u{1b}[34mTOOL:a\u{1b}[0m\u{1b}[34mb\u{1b}[0m\u{1b}[34m\u{1b}[0m\u{1b}[34m\u{1b}[0m"
    );
    assert_eq!(
        state_label_colored(&SessionState::Tool("\u{1b}[1m\u{1b}[0".to_string())),
        "\u{1b}[34mTOOL:\u{1b}[1m\u{1b}[0\u{1b}[0m"
    );
    assert_eq!(state_label_colored(&SessionState::Tool(String::new())), "\u{1b}[34mTOOL:\u{1b}[0m");
}

#[test]
fn labels_without_colour() {
    colored::control::set_override(false);
    assert_eq!(state_label_colored(&SessionState::Idle), "IDLE");
    assert_eq!(state_label_colored(&SessionState::Tool("Bash".to_string())), "TOOL:Bash");
}

#[test]
fn empty_name_is_dimmed() {
    colored::control::set_override(true);
    let mut s = session("/a", 0, SessionState::Idle);
    s.name = Some(String::new());
    let list = vec![s];
    let mut rows = Vec::new();
    collect_rows(&build_tree(&list)[0], &at(NOON), "/home/me", "", None, None, &mut rows);
    assert_eq!(rows[0].name, "  []");
    assert_eq!(rows[0].name_colored, "  [\u{1b}[2m\u{1b}[0m]");
}

#[test]
fn home_is_shortened() {
    assert_eq!(shorten_home("/home/me/app", "/home/me"), "~/app");
    assert_eq!(shorten_home("/home/me", "/home/me"), "~");
    assert_eq!(shorten_home("/home/meg", "/home/me"), "~g");
    assert_eq!(shorten_home("/srv/app", "/home/me"), "/srv/app");
    assert_eq!(shorten_home("/home", "/home/me"), "/home");
    assert_eq!(shorten_home("/srv/app", ""), "~/srv/app");
    assert_eq!(shorten_home("/hömé/x", "/hömé"), "~/x");
}

#[test]
fn shortened_path_gives_the_whole_path_back() {
    let home = "/home/me";
    for path in ["/home/me/app", "/home/me"] {
        let short = shorten_home(path, home);
        assert_eq!(format!("{home}{}", short.strip_prefix('~').unwrap()), path);
    }
}

#[test]
fn long_names_are_cut() {
    let forty = "x".repeat(40);
    assert_eq!(truncate_name(&forty), forty);
    assert_eq!(truncate_name(&"x".repeat(41)), format!("{}...", "x".repeat(37)));
    assert_eq!(truncate_name(&String::new()), "");
    let wide = format!("{}é{}", "x".repeat(35), "y".repeat(10));
    assert_eq!(truncate_name(&wide), format!("{}é...", "x".repeat(35)));
}

#[test]
fn names_that_cannot_be_cut() {
    assert!(name_can_be_cut(&None));
    assert!(name_can_be_cut(&Some("é".repeat(20))));
    assert!(!name_can_be_cut(&Some("é".repeat(21))));
    assert!(name_can_be_cut(&Some(format!("x{}", "é".repeat(20)))));
}

#[test]
fn rows_are_aligned() {
    let rows = vec![
        row("", "IDLE", "~/a", "", "5s ago"),
        row("\u{2514}\u{2500}\u{2500} ", "TOOL:Bash", "é", "  [n]", "1h 12m ago"),
    ];
    assert_eq!(
        align_rows(&rows),
        vec![
            "<IDLE>           ~/a             5s ago  10:00",
            "└── <TOOL:Bash>  é     [N]  1h 12m ago  10:00",
        ]
    );
    assert_eq!(align_rows(&vec![]), Vec::<String>::new());
}

#[test]
fn columns_are_of_one_width() {
    let rows = vec![
        row("", "IDLE", "/a", "  [name]", "5s ago"),
        row("xx", "EXITED", "/a/b", "", "23h 59m ago"),
    ];
    let lines = align_rows(&rows);
    assert_eq!(lines[0].len(), lines[1].len());
}

#[test]
fn rows_of_a_tree() {
    colored::control::set_override(false);
    let list = vec![
        session("/home/me/a", 100, SessionState::Idle),
        session("/home/me/a/b", 50, SessionState::Thinking),
        session("/home/me/a/c", 90, SessionState::Exited),
        session("/home/me/a/b/d", 10, SessionState::Plan),
        session("/home/me/a/b/e", 20, SessionState::Asking),
        session("/home/me/a/b/e/f", 30, SessionState::Responding),
        session("/home/me/a/c/g", 30, SessionState::Tool("Bash".to_string())),
    ];
    let mut rows = Vec::new();
    collect_rows(&build_tree(&list)[0], &at(NOON), "/home/me", "", None, None, &mut rows);
    let shown: Vec<(String, &str)> =
        rows.iter().map(|r| (format!("{}{}", r.prefix, r.state_plain), r.cwd.as_str())).collect();
    assert_eq!(
        shown,
        vec![
            ("IDLE".to_string(), "~/a"),
            ("├── THINKING".to_string(), "b"),
            ("│   ├── PLANNED".to_string(), "d"),
            ("    └── ASKING".to_string(), "e"),
            ("        └── RESPONDING".to_string(), "f"),
            ("└── EXITED".to_string(), "c"),
            ("    └── TOOL:Bash".to_string(), "g"),
        ]
    );
    assert_eq!(rows[1].activity, "50s ago");
    assert_eq!(rows[1].started, "10:00");
    assert_eq!(rows[1].name, "");
    assert_eq!(rows[1].name_colored, "");
}

#[test]
fn directory_that_is_its_parent_and_a_slash() {
    colored::control::set_override(false);
    let list = vec![
        session("/home/me/a", 100, SessionState::Idle),
        session("/home/me/a/", 50, SessionState::Idle),
    ];
    let mut rows = Vec::new();
    collect_rows(&build_tree(&list)[0], &at(NOON), "/home/me", "", None, None, &mut rows);
    assert_eq!(rows[1].cwd, "~/a/");
}

#[test]
fn rest_of_the_path_is_shown() {
    colored::control::set_override(false);
    let list = vec![
        session("/srv/é", 100, SessionState::Idle),
        session("/srv/é/ö/x", 50, SessionState::Idle),
    ];
    let mut rows = Vec::new();
    collect_rows(&build_tree(&list)[0], &at(NOON), "/home/me", "", None, None, &mut rows);
    assert_eq!(rows[1].cwd, "ö/x");
    // nodes put together by hand are cut at the same place
    let other = session("/elsewhere", 5, SessionState::Idle);
    let leaf = TreeNode { session: &other, children: Vec::new() };
    let root = TreeNode { session: &list[0], children: vec![leaf] };
    let mut rows = Vec::new();
    collect_rows(&root, &at(NOON), "/home/me", "", None, None, &mut rows);
    assert_eq!(rows[1].cwd, "re");
}

#[test]
fn tree_is_rendered() {
    colored::control::set_override(false);
    let mut list = vec![
        session("/home/me/a", 3700, SessionState::Idle),
        session("/home/me/a/bb", 50, SessionState::Thinking),
        session("/srv", 10, SessionState::Exited),
    ];
    list[1].name = Some("fix".to_string());
    assert_eq!(
        render_tree(&build_tree(&list), &at(NOON), "/home/me"),
        vec![
            "EXITED        /srv             10s ago  10:00",
            "IDLE          ~/a            1h 1m ago  10:00",
            "└── THINKING  bb      [fix]    50s ago  10:00",
        ]
    );
    assert_eq!(render_tree(&vec![], &at(NOON), "/home/me"), Vec::<String>::new());
}

#[test]
fn tree_is_rendered_in_colour() {
    colored::control::set_override(true);
    let mut list = vec![session("/srv", 10, SessionState::Exited)];
    list[0].name = Some("fix".to_string());
    assert_eq!(
        render_tree(&build_tree(&list), &at(NOON), "/home/me"),
        vec!["\u{1b}[2mEXITED\u{1b}[0m  /srv    [\u{1b}[2mfix\u{1b}[0m]  10s ago  10:00"]
    );
}

#[test]
fn row_for_each_session() {
    let list: Vec<Session> = ["/a", "/a/b", "/a", "/c", "/a/b/c"]
        .into_iter()
        .map(|cwd| session(cwd, 5, SessionState::Idle))
        .collect();
    assert_eq!(render_tree(&build_tree(&list), &at(NOON), "/home/me").len(), 5);
}

#[test]
fn objects_of_sessions() {
    let list = vec![session("/home/me/a", 90, SessionState::Idle)];
    let objects = json_objects(&list, &at(NOON), "/home/me");
    let text = |s: &str| Some(s.to_string());
    let expected: Vec<(String, Option<String>)> = vec![
        ("state".to_string(), text("IDLE")),
        ("cwd".to_string(), text("/home/me/a")),
        ("cwd_short".to_string(), text("~/a")),
        ("name".to_string(), None),
        ("last_activity".to_string(), text("2024-05-01T11:58:30+00:00")),
        ("last_activity_relative".to_string(), text("1m ago")),
        ("started_at".to_string(), text("2024-05-01T10:00:00+00:00")),
        ("started_at_time".to_string(), text("10:00")),
    ];
    assert_eq!(objects, vec![expected]);
}

#[test]
fn json_is_rendered() {
    let mut list = vec![session("/home/me/a", 90, SessionState::Tool("Bash".to_string()))];
    list[0].name = Some("say \"hi\"".to_string());
    list[0].last_activity = None;
    assert_eq!(
        render_json(&list, &at(NOON), "/home/me"),
        r#"[
  {
    "cwd": "/home/me/a",
    "cwd_short": "~/a",
    "last_activity": "2024-05-01T10:00:00+00:00",
    "last_activity_relative": "2h ago",
    "name": "say \"hi\"",
    "started_at": "2024-05-01T10:00:00+00:00",
    "started_at_time": "10:00",
    "state": "TOOL:Bash"
  }
]"#
    );
    list[0].name = None;
    assert!(render_json(&list, &at(NOON), "/home/me").contains("\"name\": null"));
    assert_eq!(render_json(&vec![], &at(NOON), "/home/me"), "[]");
}
