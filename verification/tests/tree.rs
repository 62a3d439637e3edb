use ccs::session::{Session, SessionState};
use ccs::time::Timestamp;
use ccs::tree::{build_tree, is_below, sort_tree_nodes, try_insert, TreeNode};

fn session(cwd: &str, secs: i64) -> Session {
    Session {
        cwd: cwd.to_string(),
        started_at: Timestamp::new(0, 0, 0).unwrap(),
        name: None,
        state: SessionState::Idle,
        last_activity: Timestamp::new(secs, 0, 0),
    }
}

fn sessions(list: &[(&str, i64)]) -> Vec<Session> {
    list.iter().map(|(cwd, secs)| session(cwd, *secs)).collect()
}

/// Each session's directory, with the directories below it in brackets.
fn outline(nodes: &[TreeNode<'_>]) -> String {
    let parts: Vec<String> = nodes
        .iter()
        .map(|n| {
            if n.children.is_empty() {
                n.session.cwd.clone()
            } else {
                format!("{}({})", n.session.cwd, outline(&n.children))
            }
        })
        .collect();
    parts.join(" ")
}

fn count(nodes: &[TreeNode<'_>]) -> usize {
    nodes.iter().map(|n| 1 + count(&n.children)).sum()
}

#[test]
fn directories_below_others() {
    assert!(is_below("/a/b", "/a"));
    assert!(is_below("/a/", "/a"));
    assert!(is_below("/a/b/c", "/a"));
    assert!(is_below("/é/b", "/é"));
    assert!(!is_below("/ab", "/a"));
    assert!(!is_below("/a", "/a"));
    assert!(!is_below("/a", "/a/b"));
    assert!(!is_below("/b/c", "/a"));
    assert!(is_below("/a", ""));
    assert!(!is_below("/a", "/"));
}

#[test]
fn insertion_goes_deep() {
    let list = sessions(&[("/a", 1), ("/a/b", 2), ("/a/b/c", 3), ("/x", 4)]);
    let mut node = TreeNode { session: &list[0], children: Vec::new() };
    assert!(try_insert(&mut node, &list[1]));
    assert!(try_insert(&mut node, &list[2]));
    assert!(!try_insert(&mut node, &list[3]));
    assert_eq!(outline(&[node]), "/a(/a/b(/a/b/c))");
}

#[test]
fn nodes_are_sorted_at_every_depth() {
    let list = sessions(&[("/a", 1), ("/a/x", 2), ("/a/y", 3), ("/b", 9)]);
    let children = vec![
        TreeNode { session: &list[1], children: Vec::new() },
        TreeNode { session: &list[2], children: Vec::new() },
    ];
    let mut nodes = vec![
        TreeNode { session: &list[0], children },
        TreeNode { session: &list[3], children: Vec::new() },
    ];
    sort_tree_nodes(&mut nodes);
    assert_eq!(outline(&nodes), "/b /a(/a/y /a/x)");
}

#[test]
fn sessions_nest_by_directory() {
    let list = sessions(&[("/a/b/c", 5), ("/a", 1), ("/a/b", 2), ("/ab", 3), ("/a/d", 4)]);
    assert_eq!(outline(&build_tree(&list)), "/ab /a(/a/d /a/b(/a/b/c))");
    assert_eq!(outline(&build_tree(&vec![])), "");
}

#[test]
fn forest_has_every_session_once() {
    let list = sessions(&[("/a", 1), ("/a", 1), ("/a/b", 2), ("/c", 3), ("/a/b", 7)]);
    assert_eq!(count(&build_tree(&list)), 5);
}

#[test]
fn first_of_equal_directories_has_all_below_it() {
    let list = sessions(&[("/a", 1), ("/a", 2), ("/a/b", 3)]);
    assert_eq!(outline(&build_tree(&list)), "/a /a(/a/b)");
    let tree = build_tree(&list);
    assert_eq!(tree[1].session.last_activity, Timestamp::new(1, 0, 0));
}

#[test]
fn closest_directory_wins() {
    let list = sessions(&[("/a/b/c/d", 1), ("/a", 2), ("/a/b/c", 3)]);
    assert_eq!(outline(&build_tree(&list)), "/a(/a/b/c(/a/b/c/d))");
}

#[test]
fn siblings_lie_apart() {
    let list = sessions(&[("/a/b", 1), ("/a/bc", 2), ("/a/b/c", 3)]);
    assert_eq!(outline(&build_tree(&list)), "/a/bc /a/b(/a/b/c)");
}

#[test]
fn most_recent_first_with_ties_in_order() {
    let list = sessions(&[("/bbb", 5), ("/a", 5), ("/cc", 7)]);
    // equal times keep the order of the path lengths
    assert_eq!(outline(&build_tree(&list)), "/cc /a /bbb");
}

#[test]
fn order_of_the_sessions_does_not_matter() {
    let list = [("/a", 1), ("/a/b", 2), ("/c/d", 3), ("/a/c", 4), ("/c", 5), ("/a/b/e", 6)];
    let expected = "/c(/c/d) /a(/a/c /a/b(/a/b/e))";
    for turn in 0..list.len() {
        let mut turned = list.to_vec();
        turned.rotate_left(turn);
        assert_eq!(outline(&build_tree(&sessions(&turned))), expected);
        turned.reverse();
        assert_eq!(outline(&build_tree(&sessions(&turned))), expected);
    }
}

#[test]
fn sorting_twice_changes_nothing() {
    let list = sessions(&[("/a", 1), ("/a/x", 2), ("/a/y", 3), ("/b", 1), ("/c", 9)]);
    let mut nodes = build_tree(&list);
    let once = outline(&nodes);
    sort_tree_nodes(&mut nodes);
    assert_eq!(outline(&nodes), once);
}
