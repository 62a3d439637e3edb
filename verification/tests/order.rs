use ccs::order::sort_stable;
use ccs::session::{Session, SessionState};
use ccs::time::Timestamp;

fn session(cwd: &str, secs: i64) -> Session {
    Session {
        cwd: cwd.to_string(),
        started_at: Timestamp::new(secs, 0, 0).unwrap(),
        name: None,
        state: SessionState::Idle,
        last_activity: None,
    }
}

fn sorted(list: Vec<(&str, i64)>) -> Vec<String> {
    let mut v: Vec<Session> = list.into_iter().map(|(cwd, secs)| session(cwd, secs)).collect();
    sort_stable(&mut v);
    v.into_iter().map(|s| s.cwd).collect()
}

#[test]
fn sorting_keeps_every_item() {
    assert_eq!(sorted(vec![]), Vec::<String>::new());
    assert_eq!(sorted(vec![("a", 1)]), vec!["a"]);
    assert_eq!(sorted(vec![("a", 1), ("b", 3), ("c", 2), ("a", 1)]), vec!["b", "c", "a", "a"]);
}

#[test]
fn sorting_is_stable() {
    let list = vec![("a", 5), ("b", 9), ("c", 5), ("d", 9), ("e", 5)];
    assert_eq!(sorted(list), vec!["b", "d", "a", "c", "e"]);
}

#[test]
fn stable_order_is_that_of_std() {
    let list = vec![("a", 3), ("b", -1), ("c", 3), ("d", 8), ("e", -1), ("f", 0), ("g", 8)];
    let mut expected = list.clone();
    expected.sort_by_key(|p| -p.1);
    assert_eq!(sorted(list), expected.into_iter().map(|p| p.0).collect::<Vec<&str>>());
}
