//! Sessions as a forest: each session below the one whose working directory holds its own.

use crate::forest::{law_children_lie_below, nested};
use crate::order::{lemma_sorted_by_map, sort_stable, sorted_by, Keyed};
use crate::session::Session;
use crate::text::{byte_count, byte_len, chars_of};
use vstd::prelude::*;

verus! {

/// A session and the sessions below it.
pub struct TreeNode<'a> {
    pub session: &'a Session,
    pub children: Vec<TreeNode<'a>>,
}

/// A session and the sessions below it, as the contracts see them.
pub struct Tree {
    pub session: Session,
    pub children: Seq<Tree>,
}

impl<'a> TreeNode<'a> {
    /// The tree that a node is the root of.
    pub open spec fn tree(self) -> Tree
        decreases self,
    {
        Tree {
            session: *self.session,
            children: Seq::new(
                self.children@.len(),
                |i: int|
                    if 0 <= i < self.children@.len() {
                        self.children@[i].tree()
                    } else {
                        arbitrary()
                    },
            ),
        }
    }
}

/// The trees that nodes are the roots of.
pub open spec fn forest(nodes: Seq<TreeNode<'_>>) -> Seq<Tree> {
    nodes.map_values(|n: TreeNode<'_>| n.tree())
}

/// Whether a directory lies below another: its path begins with the other's, and goes on with `/`.
pub open spec fn below(child: Seq<char>, parent: Seq<char>) -> bool {
    &&& parent.len() < child.len()
    &&& parent == child.take(parent.len() as int)
    &&& child[parent.len() as int] == '/'
}

/// Whether a directory lies below another.
pub fn is_below(child: &str, parent: &str) -> (r: bool)
    ensures
        r == below(child@, parent@),
{
    let c = chars_of(child);
    let p = chars_of(parent);
    if p.len() >= c.len() || c[p.len()] != '/' {
        return false;
    }
    let mut i: usize = 0;
    while i < p.len()
        invariant
            i <= p@.len() < c@.len(),
            c@ == child@,
            p@ == parent@,
            forall|j: int| 0 <= j < i ==> p@[j] == c@[j],
        decreases p@.len() - i,
    {
        if c[i] != p[i] {
            assert(child@.take(parent@.len() as int)[i as int] != parent@[i as int]);
            return false;
        }
        i = i + 1;
    }
    assert(parent@ =~= child@.take(parent@.len() as int));
    true
}

/// The position of the first tree, at or behind `from`, whose root holds the given directory; the
/// number of trees where there is none.
pub open spec fn first_above(trees: Seq<Tree>, cwd: Seq<char>, from: int) -> int
    decreases trees.len() - from,
{
    if from >= trees.len() || below(cwd, trees[from].session.cwd@) {
        from
    } else {
        first_above(trees, cwd, from + 1)
    }
}

/// A forest with one session more: it goes into the first tree whose root's directory holds its
/// own, as deep as it can; where there is no such tree, it is the root of a new one.
pub open spec fn grown(trees: Seq<Tree>, s: Session) -> Seq<Tree>
    decreases trees,
{
    let i = first_above(trees, s.cwd@, 0);
    if 0 <= i < trees.len() {
        trees.update(
            i,
            Tree { session: trees[i].session, children: grown(trees[i].children, s) },
        )
    } else {
        trees.push(Tree { session: s, children: Seq::empty() })
    }
}

/// Where `first_above` stops: every tree in front of it has a root that does not hold the
/// directory, and the tree there, if any, has one that does.
pub proof fn lemma_first_above(trees: Seq<Tree>, cwd: Seq<char>, from: int)
    requires
        0 <= from <= trees.len(),
    ensures
        from <= first_above(trees, cwd, from) <= trees.len(),
        forall|j: int|
            from <= j < first_above(trees, cwd, from) ==> !below(cwd, #[trigger] trees[j].session.cwd@),
        first_above(trees, cwd, from) < trees.len() ==> below(
            cwd,
            trees[first_above(trees, cwd, from)].session.cwd@,
        ),
    decreases trees.len() - from,
{
    if from < trees.len() && !below(cwd, trees[from].session.cwd@) {
        lemma_first_above(trees, cwd, from + 1);
    }
}

/// Tries to insert a session below a node, as deep as it can. Says whether it was inserted.
pub fn try_insert<'a>(node: &mut TreeNode<'a>, session: &'a Session) -> (r: bool)
    ensures
        r == below(session.cwd@, old(node).session.cwd@),
        final(node).tree() == (if r {
            Tree {
                session: old(node).tree().session,
                children: grown(old(node).tree().children, *session),
            }
        } else {
            old(node).tree()
        }),
        final(node).session == old(node).session,
    decreases old(node).tree(),
{
    if !is_below(session.cwd.as_str(), node.session.cwd.as_str()) {
        return false;
    }
    let ghost before = node.tree().children;
    let n: usize = node.children.len();
    let mut i: usize = 0;
    while i < n
        invariant
            i <= n,
            n == node.children@.len(),
            before == old(node).tree().children,
            node.session == old(node).session,
            node.tree().children == before,
            below(session.cwd@, old(node).session.cwd@),
            first_above(before, session.cwd@, 0) == first_above(before, session.cwd@, i as int),
        decreases n - i,
    {
        assert(before[i as int] == node.children@[i as int].tree());
        if try_insert(&mut node.children[i], session) {
            assert(node.tree().children =~= grown(before, *session));
            return true;
        }
        assert(node.tree().children =~= before);
        i = i + 1;
    }
    let leaf = TreeNode { session, children: Vec::new() };
    assert(leaf.tree().children =~= Seq::<Tree>::empty());
    node.children.push(leaf);
    assert(node.tree().children =~= grown(before, *session));
    true
}

/// The forest of the given sessions, inserted one after the other.
pub open spec fn grown_from(s: Seq<Session>) -> Seq<Tree>
    decreases s.len(),
{
    if s.len() == 0 {
        Seq::empty()
    } else {
        grown(grown_from(s.drop_last()), s.last())
    }
}

/// Sessions by the length of their directories' paths, the shortest first.
pub open spec fn shortest_first(s: Seq<Session>) -> Seq<Session> {
    sorted_by(s, |x: Session| byte_count(x.cwd@) as int)
}

/// A forest with the most recent activity first, at the top and below every root.
pub open spec fn newest_first(trees: Seq<Tree>) -> Seq<Tree>
    decreases trees, 1int,
{
    sorted_by(newest_first_below(trees), |t: Tree| t.session.key())
}

/// A forest with the most recent activity first below every root.
pub open spec fn newest_first_below(trees: Seq<Tree>) -> Seq<Tree>
    decreases trees, 0int,
{
    Seq::new(
        trees.len(),
        |i: int|
            if 0 <= i < trees.len() {
                Tree { session: trees[i].session, children: newest_first(trees[i].children) }
            } else {
                arbitrary()
            },
    )
}

/// The forest of the given sessions.
pub open spec fn session_forest(s: Seq<Session>) -> Seq<Tree> {
    newest_first(grown_from(shortest_first(s)))
}

/// Nodes are put in order as their sessions are.
impl<'a> Keyed for TreeNode<'a> {
    open spec fn key(&self) -> int {
        self.session.key()
    }

    fn sort_key(&self) -> (k: i128) {
        self.session.sort_key()
    }
}

/// Puts nodes in order, the most recent activity first, and the nodes below each as well.
pub fn sort_tree_nodes<'a>(nodes: &mut Vec<TreeNode<'a>>)
    ensures
        forest(final(nodes)@) == newest_first(forest(old(nodes)@)),
    decreases forest(old(nodes)@),
{
    let ghost before = forest(nodes@);
    let n: usize = nodes.len();
    let mut i: usize = 0;
    while i < n
        invariant
            i <= n,
            n == nodes@.len(),
            n == before.len(),
            before == forest(old(nodes)@),
            forall|j: int|
                0 <= j < n ==> (#[trigger] nodes@[j]).tree() == (if j < i {
                    Tree {
                        session: before[j].session,
                        children: newest_first(before[j].children),
                    }
                } else {
                    before[j]
                }),
        decreases n - i,
    {
        let ghost at = nodes@[i as int];
        assert(forest(at.children@) =~= before[i as int].children);
        sort_tree_nodes(&mut nodes[i].children);
        assert(nodes@[i as int].tree().children =~= forest(nodes@[i as int].children@));
        i = i + 1;
    }
    let ghost middle = nodes@;
    sort_stable(nodes);
    proof {
        lemma_sorted_by_map(
            middle,
            |m: TreeNode<'a>| m.tree(),
            |m: TreeNode<'a>| m.key(),
            |t: Tree| t.session.key(),
        );
        assert(forest(middle) =~= newest_first_below(before));
    }
}

/// A session to be placed by the length of its directory's path.
struct Unplaced<'a> {
    session: &'a Session,
}

impl<'a> Keyed for Unplaced<'a> {
    closed spec fn key(&self) -> int {
        byte_count(self.session.cwd@) as int
    }

    fn sort_key(&self) -> (k: i128) {
        byte_len(self.session.cwd.as_str()) as i128
    }
}

/// Inserts a session into a forest.
fn insert_session<'a>(roots: &mut Vec<TreeNode<'a>>, session: &'a Session)
    ensures
        forest(final(roots)@) == grown(forest(old(roots)@), *session),
{
    let ghost before = forest(roots@);
    let n: usize = roots.len();
    let mut i: usize = 0;
    while i < n
        invariant
            i <= n,
            n == roots@.len(),
            n == before.len(),
            before == forest(old(roots)@),
            forest(roots@) == before,
            first_above(before, session.cwd@, 0) == first_above(before, session.cwd@, i as int),
        decreases n - i,
    {
        assert(before[i as int] == roots@[i as int].tree());
        if try_insert(&mut roots[i], session) {
            assert(forest(roots@) =~= grown(before, *session));
            return ;
        }
        assert(forest(roots@) =~= before);
        i = i + 1;
    }
    let leaf = TreeNode { session, children: Vec::new() };
    assert(leaf.tree().children =~= Seq::<Tree>::empty());
    roots.push(leaf);
    assert(forest(roots@) =~= grown(before, *session));
}

/// The forest of the given sessions: each below the session with the closest directory above its
/// own, and the most recent activity first everywhere.
pub fn build_tree<'a>(sessions: &'a Vec<Session>) -> (r: Vec<TreeNode<'a>>)
    ensures
        forest(r@) == session_forest(sessions@),
        nested(forest(r@)),
{
    let mut by_length: Vec<Unplaced<'a>> = Vec::new();
    let mut i: usize = 0;
    while i < sessions.len()
        invariant
            i <= sessions@.len(),
            by_length@.len() == i,
            forall|j: int| 0 <= j < i ==> *(#[trigger] by_length@[j]).session == sessions@[j],
        decreases sessions@.len() - i,
    {
        by_length.push(Unplaced { session: &sessions[i] });
        i = i + 1;
    }
    assert(by_length@.map_values(|u: Unplaced<'a>| *u.session) =~= sessions@);
    let ghost unsorted = by_length@;
    sort_stable(&mut by_length);
    let ghost order = shortest_first(sessions@);
    proof {
        lemma_sorted_by_map(
            unsorted,
            |u: Unplaced<'a>| *u.session,
            |u: Unplaced<'a>| u.key(),
            |x: Session| byte_count(x.cwd@) as int,
        );
    }
    assert(by_length@.map_values(|u: Unplaced<'a>| *u.session) == order);
    let mut roots: Vec<TreeNode<'a>> = Vec::new();
    let mut j: usize = 0;
    assert(order.take(0) =~= Seq::<Session>::empty());
    assert(forest(roots@) =~= Seq::<Tree>::empty());
    while j < by_length.len()
        invariant
            j <= by_length@.len(),
            by_length@.map_values(|u: Unplaced<'a>| *u.session) == order,
            forest(roots@) == grown_from(order.take(j as int)),
        decreases by_length@.len() - j,
    {
        assert(order[j as int] == *by_length@[j as int].session);
        assert(order.take(j + 1).drop_last() =~= order.take(j as int));
        insert_session(&mut roots, by_length[j].session);
        j = j + 1;
    }
    assert(order.take(j as int) =~= order);
    sort_tree_nodes(&mut roots);
    proof {
        law_children_lie_below(sessions@);
    }
    roots
}

/// A path, a slash and anything behind it lies below the path, however long they are.
pub proof fn law_longer_path_lies_below(path: Seq<char>, rest: Seq<char>)
    ensures
        below(path + seq!['/'] + rest, path),
{
    let child = path + seq!['/'] + rest;
    assert(child.take(path.len() as int) =~= path);
    assert(child[path.len() as int] == '/');
}

/// What lies below a path is that path, a slash and something behind it.
pub proof fn law_path_below_is_longer(child: Seq<char>, parent: Seq<char>)
    requires
        below(child, parent),
    ensures
        child == parent + seq!['/'] + child.skip(parent.len() as int + 1),
{
    assert(child =~= parent + seq!['/'] + child.skip(parent.len() as int + 1));
}

/// A node is seen with its session and all its children, in order.
pub proof fn law_nodes_are_seen_whole(nodes: Seq<TreeNode<'_>>, i: int)
    requires
        0 <= i < nodes.len(),
    ensures
        forest(nodes).len() == nodes.len(),
        forest(nodes)[i].session == *nodes[i].session,
        forest(nodes)[i].children == forest(nodes[i].children@),
{
    assert(forest(nodes)[i].children =~= forest(nodes[i].children@));
}

} // verus!
