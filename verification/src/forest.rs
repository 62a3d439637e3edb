//! What holds of every forest of sessions.

use crate::order::{
    is_sorted, law_sorted_by, law_sorted_stays, lemma_sorted_none_clash, none_clash, put, sorted_by,
    Keyed,
};
use crate::session::Session;
use crate::text::{byte_count, lemma_encode_add};
use crate::tree::{
    below, first_above, grown, grown_from, law_longer_path_lies_below, law_path_below_is_longer,
    lemma_first_above, newest_first, newest_first_below, session_forest, shortest_first, Tree,
};
use vstd::multiset::Multiset;
use vstd::prelude::*;
use vstd::utf8::*;

verus! {

/// The sessions of a forest, at every depth.
pub open spec fn sessions_in(trees: Seq<Tree>) -> Multiset<Session>
    decreases trees,
{
    if trees.len() == 0 {
        Multiset::empty()
    } else {
        sessions_in(trees.drop_last()).add(sessions_in(trees.last().children)).insert(
            trees.last().session,
        )
    }
}

/// Whether every session's directory lies below that of the session above it.
pub open spec fn nested(trees: Seq<Tree>) -> bool
    decreases trees,
{
    forall|i: int|
        #![trigger trees[i]]
        0 <= i < trees.len() ==> {
            &&& forall|j: int|
                0 <= j < trees[i].children.len() ==> below(
                    (#[trigger] trees[i].children[j]).session.cwd@,
                    trees[i].session.cwd@,
                )
            &&& nested(trees[i].children)
        }
}

/// Whether no session's directory lies below that of a session beside it.
pub open spec fn apart(trees: Seq<Tree>) -> bool
    decreases trees,
{
    &&& forall|i: int, j: int|
        0 <= i < trees.len() && 0 <= j < trees.len() ==> !below(
            (#[trigger] trees[i]).session.cwd@,
            (#[trigger] trees[j]).session.cwd@,
        )
    &&& forall|i: int| #![trigger trees[i]] 0 <= i < trees.len() ==> apart(trees[i].children)
}

/// Whether, of sessions beside each other in one directory, only the first has sessions below it.
pub open spec fn first_has_all(trees: Seq<Tree>) -> bool
    decreases trees,
{
    &&& forall|i: int, j: int|
        0 <= i < j < trees.len() && (#[trigger] trees[i]).session.cwd@ == (
        #[trigger] trees[j]).session.cwd@ ==> trees[j].children.len() == 0
    &&& forall|i: int|
        #![trigger trees[i]]
        0 <= i < trees.len() ==> first_has_all(trees[i].children)
}

/// Whether no session of `all` has a directory above that of a root that is longer than `above`, and
/// none has one between that of a session and that of the session above it.
pub open spec fn closest(trees: Seq<Tree>, all: Seq<Session>, above: int) -> bool
    decreases trees,
{
    forall|i: int|
        #![trigger trees[i]]
        0 <= i < trees.len() ==> {
            &&& forall|k: int|
                0 <= k < all.len() && below(trees[i].session.cwd@, (#[trigger] all[k]).cwd@)
                    ==> all[k].cwd@.len() <= above
            &&& closest(trees[i].children, all, trees[i].session.cwd@.len() as int)
        }
}

/// Whether sessions beside each other stand with the most recent activity first.
pub open spec fn recent_first(trees: Seq<Tree>) -> bool
    decreases trees,
{
    &&& forall|i: int, j: int|
        0 <= i <= j < trees.len() ==> (#[trigger] trees[i]).session.active_at()@.rank() >= (
        #[trigger] trees[j]).session.active_at()@.rank()
    &&& forall|i: int|
        #![trigger trees[i]]
        0 <= i < trees.len() ==> recent_first(trees[i].children)
}

// ---- what insertion keeps ----

proof fn lemma_sessions_in_push(trees: Seq<Tree>, t: Tree)
    ensures
        sessions_in(trees.push(t)) == sessions_in(trees).add(sessions_in(t.children)).insert(
            t.session,
        ),
{
    assert(trees.push(t).drop_last() =~= trees);
}

/// The sessions of a forest of one tree.
pub proof fn lemma_sessions_in_one(t: Tree)
    ensures
        sessions_in(seq![t]) == sessions_in(t.children).insert(t.session),
{
    lemma_sessions_in_push(Seq::empty(), t);
    assert(Seq::<Tree>::empty().push(t) =~= seq![t]);
    assert(sessions_in(Seq::<Tree>::empty()) =~= Multiset::empty());
    assert(Multiset::<Session>::empty().add(sessions_in(t.children)) =~= sessions_in(t.children));
}

proof fn lemma_sessions_in_update(trees: Seq<Tree>, i: int, t: Tree, s: Session)
    requires
        0 <= i < trees.len(),
        t.session == trees[i].session,
        sessions_in(t.children) == sessions_in(trees[i].children).insert(s),
    ensures
        sessions_in(trees.update(i, t)) == sessions_in(trees).insert(s),
    decreases trees.len(),
{
    let after = trees.update(i, t);
    if i == trees.len() - 1 {
        assert(after.drop_last() =~= trees.drop_last());
    } else {
        assert(after.drop_last() =~= trees.drop_last().update(i, t));
        lemma_sessions_in_update(trees.drop_last(), i, t, s);
    }
    assert(sessions_in(after) =~= sessions_in(trees).insert(s));
}

proof fn lemma_grown_sessions(trees: Seq<Tree>, s: Session)
    ensures
        sessions_in(grown(trees, s)) == sessions_in(trees).insert(s),
    decreases trees,
{
    lemma_first_above(trees, s.cwd@, 0);
    let i = first_above(trees, s.cwd@, 0);
    if i < trees.len() {
        lemma_grown_sessions(trees[i].children, s);
        lemma_sessions_in_update(
            trees,
            i,
            Tree { session: trees[i].session, children: grown(trees[i].children, s) },
            s,
        );
    } else {
        let leaf = Tree { session: s, children: Seq::empty() };
        lemma_sessions_in_push(trees, leaf);
        assert(sessions_in(leaf.children) =~= Multiset::empty());
        assert(sessions_in(grown(trees, s)) =~= sessions_in(trees).insert(s));
    }
}

proof fn lemma_put_sessions(s: Seq<Tree>, x: Tree, key: spec_fn(Tree) -> int)
    ensures
        sessions_in(put(s, x, key)) == sessions_in(s.push(x)),
    decreases s.len(),
{
    if s.len() > 0 && key(s.last()) > key(x) {
        let rest = s.drop_last();
        lemma_put_sessions(rest, x, key);
        lemma_sessions_in_push(put(rest, x, key), s.last());
        lemma_sessions_in_push(rest, x);
        lemma_sessions_in_push(s, x);
        assert(sessions_in(put(s, x, key)) =~= sessions_in(s.push(x)));
    }
}

proof fn lemma_sorted_sessions(s: Seq<Tree>, key: spec_fn(Tree) -> int)
    ensures
        sessions_in(sorted_by(s, key)) == sessions_in(s),
    decreases s.len(),
{
    if s.len() > 0 {
        let rest = s.drop_last();
        let sorted = sorted_by(rest, key);
        lemma_sorted_sessions(rest, key);
        lemma_put_sessions(sorted, s.last(), key);
        lemma_sessions_in_push(sorted, s.last());
    }
}

proof fn lemma_newest_first_sessions(trees: Seq<Tree>)
    ensures
        sessions_in(newest_first(trees)) == sessions_in(trees),
        sessions_in(newest_first_below(trees)) == sessions_in(trees),
    decreases trees,
{
    lemma_sorted_sessions(newest_first_below(trees), |t: Tree| t.session.key());
    if trees.len() > 0 {
        let rest = trees.drop_last();
        lemma_newest_first_sessions(rest);
        lemma_newest_first_sessions(trees.last().children);
        assert(newest_first_below(trees).drop_last() =~= newest_first_below(rest));
    }
}

proof fn lemma_grown_from_sessions(s: Seq<Session>)
    ensures
        sessions_in(grown_from(s)) == s.to_multiset(),
    decreases s.len(),
{
    broadcast use vstd::seq_lib::group_to_multiset_ensures;

    if s.len() > 0 {
        lemma_grown_from_sessions(s.drop_last());
        lemma_grown_sessions(grown_from(s.drop_last()), s.last());
        assert(s =~= s.drop_last().push(s.last()));
    } else {
        assert(sessions_in(grown_from(s)) =~= s.to_multiset());
    }
}

/// Every session stands in the forest exactly as often as it was given.
pub proof fn law_every_session_once(s: Seq<Session>)
    ensures
        sessions_in(session_forest(s)) == s.to_multiset(),
{
    let order = shortest_first(s);
    lemma_newest_first_sessions(grown_from(order));
    lemma_grown_from_sessions(order);
    law_sorted_by(s, |x: Session| byte_count(x.cwd@) as int);
}

// ---- directories ----

/// A directory below another has the longer path, in bytes too.
proof fn lemma_below_is_longer(child: Seq<char>, parent: Seq<char>)
    requires
        below(child, parent),
    ensures
        byte_count(parent) < byte_count(child),
{
    let rest = child.skip(parent.len() as int);
    assert(child =~= parent + rest);
    lemma_encode_add(parent, rest);
    assert(encode_scalar(rest[0] as u32).len() > 0);
}

proof fn lemma_below_transitive(a: Seq<char>, b: Seq<char>, c: Seq<char>)
    requires
        below(a, b),
        below(b, c),
    ensures
        below(a, c),
{
    assert(a.take(b.len() as int).take(c.len() as int) =~= a.take(c.len() as int));
    assert(b[c.len() as int] == a.take(b.len() as int)[c.len() as int]);
}

/// Of two directories above a third, the longer path lies below the shorter; paths of one length
/// are the same.
proof fn lemma_both_above(s: Seq<char>, a: Seq<char>, b: Seq<char>)
    requires
        below(s, a),
        below(s, b),
    ensures
        a.len() == b.len() ==> a == b,
        a.len() < b.len() ==> below(b, a),
{
    if a.len() < b.len() {
        assert(s.take(b.len() as int).take(a.len() as int) =~= s.take(a.len() as int));
        assert(b[a.len() as int] == s.take(b.len() as int)[a.len() as int]);
    }
}

// ---- where a session stands ----

/// The sessions of one tree are among those of the forest.
pub proof fn lemma_sessions_of_part(trees: Seq<Tree>, i: int, q: Session)
    requires
        0 <= i < trees.len(),
    ensures
        sessions_in(trees).count(q) >= sessions_in(trees[i].children).count(q) + (if q
            == trees[i].session {
            1nat
        } else {
            0nat
        }),
    decreases trees.len(),
{
    if i < trees.len() - 1 {
        lemma_sessions_of_part(trees.drop_last(), i, q);
    }
}

/// The tree in which a session of a forest stands.
proof fn lemma_tree_of(trees: Seq<Tree>, q: Session) -> (j: int)
    requires
        sessions_in(trees).count(q) > 0,
    ensures
        0 <= j < trees.len(),
        q == trees[j].session || sessions_in(trees[j].children).count(q) > 0,
    decreases trees.len(),
{
    if q == trees.last().session || sessions_in(trees.last().children).count(q) > 0 {
        trees.len() - 1
    } else {
        lemma_tree_of(trees.drop_last(), q)
    }
}

/// A session that stands below another in a forest has its directory below the other's.
proof fn lemma_deep_below(t: Tree, q: Session)
    requires
        nested(seq![t]),
        sessions_in(t.children).count(q) > 0,
    ensures
        below(q.cwd@, t.session.cwd@),
    decreases t,
{
    assert(seq![t][0] == t);
    let k = lemma_tree_of(t.children, q);
    let c = t.children[k];
    if q != c.session {
        lemma_nested_part(t.children, k);
        lemma_deep_below(c, q);
        lemma_below_transitive(q.cwd@, c.session.cwd@, t.session.cwd@);
    }
}

/// A tree of a forest that is nested is nested.
proof fn lemma_nested_part(trees: Seq<Tree>, i: int)
    requires
        nested(trees),
        0 <= i < trees.len(),
    ensures
        nested(seq![trees[i]]),
        nested(trees[i].children),
{
    let t = trees[i];
    assert(seq![t][0] == t);
}

/// Whether no session of a forest has a longer path than that of `s`, in bytes.
spec fn none_longer(trees: Seq<Tree>, s: Session) -> bool {
    forall|q: Session|
        #[trigger] sessions_in(trees).count(q) > 0 ==> byte_count(q.cwd@) <= byte_count(s.cwd@)
}

proof fn lemma_none_longer_part(trees: Seq<Tree>, s: Session, i: int)
    requires
        none_longer(trees, s),
        0 <= i < trees.len(),
    ensures
        none_longer(trees[i].children, s),
        !below(trees[i].session.cwd@, s.cwd@),
{
    assert forall|q: Session| #[trigger]
        sessions_in(trees[i].children).count(q) > 0 implies byte_count(q.cwd@) <= byte_count(
        s.cwd@,
    ) by {
        lemma_sessions_of_part(trees, i, q);
    }
    lemma_sessions_of_part(trees, i, trees[i].session);
    if below(trees[i].session.cwd@, s.cwd@) {
        lemma_below_is_longer(trees[i].session.cwd@, s.cwd@);
    }
}

/// What insertion leaves of the roots: they stay where they are, and the inserted session may come
/// behind them.
proof fn lemma_grown_roots(trees: Seq<Tree>, s: Session)
    ensures
        grown(trees, s).len() >= trees.len(),
        forall|k: int|
            0 <= k < trees.len() ==> (#[trigger] grown(trees, s)[k]).session == trees[k].session,
        forall|k: int|
            trees.len() <= k < grown(trees, s).len() ==> (#[trigger] grown(trees, s)[k]).session == s,
{
    lemma_first_above(trees, s.cwd@, 0);
}

proof fn lemma_grown_keeps(trees: Seq<Tree>, s: Session)
    requires
        nested(trees),
        apart(trees),
        first_has_all(trees),
        none_longer(trees, s),
    ensures
        nested(grown(trees, s)),
        apart(grown(trees, s)),
        first_has_all(grown(trees, s)),
    decreases trees,
{
    let after = grown(trees, s);
    lemma_first_above(trees, s.cwd@, 0);
    let i = first_above(trees, s.cwd@, 0);
    assert forall|k: int| 0 <= k < trees.len() implies !below((#[trigger] trees[k]).session.cwd@, s.cwd@) by {
        lemma_none_longer_part(trees, s, k);
    }
    if i < trees.len() {
        let inner = trees[i].children;
        lemma_none_longer_part(trees, s, i);
        lemma_grown_keeps(inner, s);
        lemma_grown_roots(inner, s);
        assert forall|k: int| 0 <= k < after.len() implies {
            &&& forall|j: int|
                0 <= j < (#[trigger] after[k]).children.len() ==> below(
                    (#[trigger] after[k].children[j]).session.cwd@,
                    after[k].session.cwd@,
                )
            &&& nested(after[k].children)
            &&& apart(after[k].children)
            &&& first_has_all(after[k].children)
        } by {
            assert(trees[k].session == after[k].session);
            if k == i {
                assert forall|j: int| 0 <= j < after[i].children.len() implies below(
                    (#[trigger] after[i].children[j]).session.cwd@,
                    after[i].session.cwd@,
                ) by {
                    if j < inner.len() {
                        assert(inner[j].session == after[i].children[j].session);
                    }
                }
            }
        }
        assert forall|k: int, j: int| 0 <= k < after.len() && 0 <= j < after.len() implies !below(
            (#[trigger] after[k]).session.cwd@,
            (#[trigger] after[j]).session.cwd@,
        ) by {
            assert(trees[k].session == after[k].session);
            assert(trees[j].session == after[j].session);
        }
        assert forall|k: int, j: int|
            0 <= k < j < after.len() && (#[trigger] after[k]).session.cwd@ == (
            #[trigger] after[j]).session.cwd@ implies after[j].children.len() == 0 by {
            assert(trees[k].session == after[k].session);
            assert(trees[j].session == after[j].session);
        }
    } else {
        let leaf = Tree { session: s, children: Seq::empty() };
        assert(after == trees.push(leaf));
        assert forall|k: int| 0 <= k < after.len() implies {
            &&& forall|j: int|
                0 <= j < (#[trigger] after[k]).children.len() ==> below(
                    (#[trigger] after[k].children[j]).session.cwd@,
                    after[k].session.cwd@,
                )
            &&& nested(after[k].children)
            &&& apart(after[k].children)
            &&& first_has_all(after[k].children)
        } by {
            if k < trees.len() {
                assert(after[k] == trees[k]);
            }
        }
        assert forall|k: int, j: int| 0 <= k < after.len() && 0 <= j < after.len() implies !below(
            (#[trigger] after[k]).session.cwd@,
            (#[trigger] after[j]).session.cwd@,
        ) by {
            if k < trees.len() {
                assert(after[k] == trees[k]);
            }
            if j < trees.len() {
                assert(after[j] == trees[j]);
            }
        }
        assert forall|k: int, j: int|
            0 <= k < j < after.len() && (#[trigger] after[k]).session.cwd@ == (
            #[trigger] after[j]).session.cwd@ implies after[j].children.len() == 0 by {
            assert(after[k] == trees[k]);
            if j < trees.len() {
                assert(after[j] == trees[j]);
            }
        }
    }
}

/// One session more that lies above none of a forest's changes nothing.
proof fn lemma_closest_more(trees: Seq<Tree>, all: Seq<Session>, above: int, s: Session)
    requires
        closest(trees, all, above),
        none_longer(trees, s),
    ensures
        closest(trees, all.push(s), above),
    decreases trees,
{
    assert forall|i: int| 0 <= i < trees.len() implies {
        &&& forall|k: int|
            0 <= k < all.push(s).len() && below(
                (#[trigger] trees[i]).session.cwd@,
                (#[trigger] all.push(s)[k]).cwd@,
            ) ==> all.push(s)[k].cwd@.len() <= above
        &&& closest(trees[i].children, all.push(s), trees[i].session.cwd@.len() as int)
    } by {
        lemma_none_longer_part(trees, s, i);
        lemma_closest_more(
            trees[i].children,
            all,
            trees[i].session.cwd@.len() as int,
            s,
        );
        assert forall|k: int|
            0 <= k < all.push(s).len() && below(
                trees[i].session.cwd@,
                (#[trigger] all.push(s)[k]).cwd@,
            ) implies all.push(s)[k].cwd@.len() <= above by {
            if k < all.len() {
                assert(all.push(s)[k] == all[k]);
            }
        }
    }
}

/// Insertion puts a session below the closest directory, and takes no other session from its place.
proof fn lemma_grown_closest(trees: Seq<Tree>, s: Session, all: Seq<Session>, above: int)
    requires
        nested(trees),
        apart(trees),
        first_has_all(trees),
        none_longer(trees, s),
        closest(trees, all, above),
        forall|i: int| 0 <= i < trees.len() ==> (#[trigger] trees[i]).session.cwd@.len() > above,
        forall|k: int|
            0 <= k < all.len() && below(s.cwd@, (#[trigger] all[k]).cwd@) && all[k].cwd@.len()
                > above ==> sessions_in(trees).count(all[k]) > 0,
    ensures
        closest(grown(trees, s), all.push(s), above),
    decreases trees,
{
    let after = grown(trees, s);
    lemma_first_above(trees, s.cwd@, 0);
    let i = first_above(trees, s.cwd@, 0);
    lemma_closest_more(trees, all, above, s);
    if i < trees.len() {
        let t = trees[i];
        let len = t.session.cwd@.len() as int;
        lemma_none_longer_part(trees, s, i);
        assert forall|k: int|
            0 <= k < all.len() && below(s.cwd@, (#[trigger] all[k]).cwd@) && all[k].cwd@.len()
                > len implies sessions_in(t.children).count(all[k]) > 0 by {
            let q = all[k];
            let j = lemma_tree_of(trees, q);
            let u = trees[j];
            if q != u.session {
                lemma_nested_part(trees, j);
                lemma_deep_below(u, q);
                lemma_below_transitive(s.cwd@, q.cwd@, u.session.cwd@);
            }
            lemma_both_above(s.cwd@, u.session.cwd@, t.session.cwd@);
            lemma_both_above(s.cwd@, t.session.cwd@, u.session.cwd@);
            assert(u.session.cwd@ == t.session.cwd@);
            assert(q != u.session);
            assert(j == i) by {
                if i < j {
                    assert(u.children.len() == 0);
                    assert(sessions_in(u.children).count(q) == 0);
                }
            }
        }
        assert forall|k: int| 0 <= k < t.children.len() implies (
        #[trigger] t.children[k]).session.cwd@.len() > len by {}
        lemma_grown_closest(t.children, s, all, len);
        assert forall|k: int| 0 <= k < after.len() implies {
            &&& forall|m: int|
                0 <= m < all.push(s).len() && below(
                    (#[trigger] after[k]).session.cwd@,
                    (#[trigger] all.push(s)[m]).cwd@,
                ) ==> all.push(s)[m].cwd@.len() <= above
            &&& closest(after[k].children, all.push(s), after[k].session.cwd@.len() as int)
        } by {
            assert(trees[k].session == after[k].session);
        }
    } else {
        let leaf = Tree { session: s, children: Seq::empty() };
        assert(after == trees.push(leaf));
        assert forall|k: int| 0 <= k < after.len() implies {
            &&& forall|m: int|
                0 <= m < all.push(s).len() && below(
                    (#[trigger] after[k]).session.cwd@,
                    (#[trigger] all.push(s)[m]).cwd@,
                ) ==> all.push(s)[m].cwd@.len() <= above
            &&& closest(after[k].children, all.push(s), after[k].session.cwd@.len() as int)
        } by {
            if k < trees.len() {
                assert(after[k] == trees[k]);
            } else {
                assert forall|m: int|
                    0 <= m < all.push(s).len() && below(
                        s.cwd@,
                        (#[trigger] all.push(s)[m]).cwd@,
                    ) implies all.push(s)[m].cwd@.len() <= above by {
                    assert(all.push(s)[m] == all[m]);
                    let q = all[m];
                    if q.cwd@.len() > above {
                        let j = lemma_tree_of(trees, q);
                        if q != trees[j].session {
                            lemma_nested_part(trees, j);
                            lemma_deep_below(trees[j], q);
                            lemma_below_transitive(s.cwd@, q.cwd@, trees[j].session.cwd@);
                        }
                        assert(below(s.cwd@, trees[j].session.cwd@));
                    }
                }
            }
        }
    }
}

proof fn lemma_grown_from_keeps(order: Seq<Session>)
    requires
        is_sorted(order, |x: Session| byte_count(x.cwd@) as int),
    ensures
        nested(grown_from(order)),
        apart(grown_from(order)),
        first_has_all(grown_from(order)),
        closest(grown_from(order), order, -1),
    decreases order.len(),
{
    broadcast use vstd::seq_lib::group_to_multiset_ensures;

    if order.len() > 0 {
        let rest = order.drop_last();
        let s = order.last();
        let trees = grown_from(rest);
        let bytes = |x: Session| byte_count(x.cwd@) as int;
        assert forall|i: int, j: int| 0 <= i <= j < rest.len() implies bytes(#[trigger] rest[i])
            <= bytes(#[trigger] rest[j]) by {
            assert(rest[i] == order[i] && rest[j] == order[j]);
        }
        lemma_grown_from_keeps(rest);
        lemma_grown_from_sessions(rest);
        assert forall|q: Session| #[trigger] sessions_in(trees).count(q) > 0 implies byte_count(
            q.cwd@,
        ) <= byte_count(s.cwd@) by {
            assert(rest.to_multiset().contains(q));
            let k = rest.index_of(q);
            assert(order[k] == q);
            assert(bytes(order[k]) <= bytes(order[order.len() - 1]));
        }
        lemma_grown_keeps(trees, s);
        assert forall|k: int|
            0 <= k < rest.len() && below(s.cwd@, (#[trigger] rest[k]).cwd@) && rest[k].cwd@.len()
                > -1 implies sessions_in(trees).count(rest[k]) > 0 by {
            assert(rest.contains(rest[k]));
            assert(rest.to_multiset().contains(rest[k]));
        }
        lemma_grown_closest(trees, s, rest, -1);
        assert(rest.push(s) =~= order);
    }
}

// ---- what putting the most recent first keeps ----

/// The tree from which one comes that stands in the forest with the most recent first.
proof fn lemma_newest_from(trees: Seq<Tree>, i: int) -> (j: int)
    requires
        0 <= i < newest_first(trees).len(),
    ensures
        0 <= j < trees.len(),
        newest_first(trees)[i].session == trees[j].session,
        newest_first(trees)[i].children == newest_first(trees[j].children),
{
    broadcast use vstd::seq_lib::group_to_multiset_ensures;

    let key = |t: Tree| t.session.key();
    let parts = newest_first_below(trees);
    law_sorted_by(parts, key);
    let t = newest_first(trees)[i];
    assert(newest_first(trees).contains(t));
    assert(parts.to_multiset().contains(t));
    let j = parts.index_of(t);
    assert(parts[j] == t);
    j
}

proof fn lemma_newest_keeps(trees: Seq<Tree>, all: Seq<Session>, above: int)
    ensures
        nested(trees) ==> nested(newest_first(trees)),
        apart(trees) ==> apart(newest_first(trees)),
        closest(trees, all, above) ==> closest(newest_first(trees), all, above),
        recent_first(newest_first(trees)),
    decreases trees,
{
    let after = newest_first(trees);
    assert forall|i: int| 0 <= i < after.len() implies {
        &&& recent_first((#[trigger] after[i]).children)
        &&& apart(trees) ==> apart(after[i].children)
        &&& nested(trees) ==> nested(after[i].children) && forall|k: int|
            0 <= k < after[i].children.len() ==> below(
                (#[trigger] after[i].children[k]).session.cwd@,
                after[i].session.cwd@,
            )
        &&& closest(trees, all, above) ==> closest(
            after[i].children,
            all,
            after[i].session.cwd@.len() as int,
        ) && forall|k: int|
            0 <= k < all.len() && below(after[i].session.cwd@, (#[trigger] all[k]).cwd@)
                ==> all[k].cwd@.len() <= above
    } by {
        let j = lemma_newest_from(trees, i);
        lemma_newest_keeps(trees[j].children, all, trees[j].session.cwd@.len() as int);
        if nested(trees) {
            assert forall|k: int| 0 <= k < after[i].children.len() implies below(
                (#[trigger] after[i].children[k]).session.cwd@,
                after[i].session.cwd@,
            ) by {
                let m = lemma_newest_from(trees[j].children, k);
                assert(trees[j].children[m].session == after[i].children[k].session);
            }
        }
    }
    if apart(trees) {
        assert forall|i: int, j: int| 0 <= i < after.len() && 0 <= j < after.len() implies !below(
            (#[trigger] after[i]).session.cwd@,
            (#[trigger] after[j]).session.cwd@,
        ) by {
            let a = lemma_newest_from(trees, i);
            let b = lemma_newest_from(trees, j);
            assert(trees[a].session == after[i].session && trees[b].session == after[j].session);
        }
    }
    let key = |t: Tree| t.session.key();
    law_sorted_by(newest_first_below(trees), key);
    assert forall|i: int, j: int| 0 <= i <= j < after.len() implies (
    #[trigger] after[i]).session.active_at()@.rank() >= (
    #[trigger] after[j]).session.active_at()@.rank() by {
        assert(key(after[i]) <= key(after[j]));
    }
}

proof fn lemma_closest_same(trees: Seq<Tree>, a: Seq<Session>, b: Seq<Session>, above: int)
    requires
        closest(trees, a, above),
        forall|k: int| 0 <= k < b.len() ==> a.contains(#[trigger] b[k]),
    ensures
        closest(trees, b, above),
    decreases trees,
{
    assert forall|i: int| 0 <= i < trees.len() implies {
        &&& forall|k: int|
            0 <= k < b.len() && below((#[trigger] trees[i]).session.cwd@, (#[trigger] b[k]).cwd@)
                ==> b[k].cwd@.len() <= above
        &&& closest(trees[i].children, b, trees[i].session.cwd@.len() as int)
    } by {
        lemma_closest_same(trees[i].children, a, b, trees[i].session.cwd@.len() as int);
        assert forall|k: int|
            0 <= k < b.len() && below(trees[i].session.cwd@, (#[trigger] b[k]).cwd@) implies b[k].cwd@.len()
            <= above by {
            let m = a.index_of(b[k]);
            assert(a[m] == b[k]);
        }
    }
}

// ---- the laws ----

/// In a forest of sessions, every session's directory lies below that of the session above it.
pub proof fn law_children_lie_below(s: Seq<Session>)
    ensures
        nested(session_forest(s)),
{
    let order = shortest_first(s);
    law_sorted_by(s, |x: Session| byte_count(x.cwd@) as int);
    lemma_grown_from_keeps(order);
    lemma_newest_keeps(grown_from(order), order, -1);
}

/// In a forest of sessions, no session's directory lies below that of a session beside it.
pub proof fn law_siblings_lie_apart(s: Seq<Session>)
    ensures
        apart(session_forest(s)),
{
    let order = shortest_first(s);
    law_sorted_by(s, |x: Session| byte_count(x.cwd@) as int);
    lemma_grown_from_keeps(order);
    lemma_newest_keeps(grown_from(order), order, -1);
}

/// The deepest match wins: a session stands below the one with the closest directory above its
/// own. No session's directory lies between those of a session and the session above it, and none
/// lies above that of a root.
pub proof fn law_closest_directory_wins(s: Seq<Session>)
    ensures
        closest(session_forest(s), s, -1),
{
    broadcast use vstd::seq_lib::group_to_multiset_ensures;

    let order = shortest_first(s);
    law_sorted_by(s, |x: Session| byte_count(x.cwd@) as int);
    lemma_grown_from_keeps(order);
    lemma_newest_keeps(grown_from(order), order, -1);
    assert forall|k: int| 0 <= k < s.len() implies order.contains(#[trigger] s[k]) by {
        assert(s.contains(s[k]));
        assert(order.to_multiset().contains(s[k]));
    }
    lemma_closest_same(session_forest(s), order, s, -1);
}

/// In a forest of sessions, those beside each other stand with the most recent activity first.
pub proof fn law_most_recent_first(s: Seq<Session>)
    ensures
        recent_first(session_forest(s)),
{
    lemma_newest_keeps(grown_from(shortest_first(s)), s, -1);
}

/// The sessions of a forest in the order of its rows: each in front of those below it.
pub open spec fn preorder(trees: Seq<Tree>) -> Seq<Session>
    decreases trees,
{
    if trees.len() == 0 {
        Seq::empty()
    } else {
        preorder(trees.drop_last()) + seq![trees.last().session] + preorder(trees.last().children)
    }
}

/// The order of the rows leaves no session out and repeats none.
pub proof fn law_preorder_has_all(trees: Seq<Tree>)
    ensures
        preorder(trees).to_multiset() == sessions_in(trees),
    decreases trees,
{
    broadcast use vstd::seq_lib::group_to_multiset_ensures;

    if trees.len() > 0 {
        let front = preorder(trees.drop_last());
        let s = trees.last().session;
        let behind = preorder(trees.last().children);
        law_preorder_has_all(trees.drop_last());
        law_preorder_has_all(trees.last().children);
        vstd::seq_lib::lemma_multiset_commutative(front + seq![s], behind);
        assert(front + seq![s] =~= front.push(s));
        assert(preorder(trees).to_multiset() =~= sessions_in(trees));
    } else {
        assert(preorder(trees).to_multiset() =~= sessions_in(trees));
    }
}

/// Putting the most recent first twice changes nothing.
pub proof fn law_newest_first_stays(trees: Seq<Tree>)
    ensures
        newest_first(newest_first(trees)) == newest_first(trees),
    decreases trees,
{
    let key = |t: Tree| t.session.key();
    let after = newest_first(trees);
    law_sorted_by(newest_first_below(trees), key);
    assert forall|i: int| 0 <= i < after.len() implies (#[trigger] newest_first_below(after)[i])
        == after[i] by {
        let j = lemma_newest_from(trees, i);
        law_newest_first_stays(trees[j].children);
    }
    assert(newest_first_below(after) =~= after);
    law_sorted_stays(after, key);
}

// ---- one forest ----

/// Whether no two sessions of a forest share a directory or the time of their last activity, and
/// none stands in it twice.
spec fn all_differ(trees: Seq<Tree>) -> bool {
    &&& forall|q: Session| #[trigger] sessions_in(trees).count(q) <= 1
    &&& forall|p: Session, q: Session|
        #[trigger] sessions_in(trees).count(p) > 0 && #[trigger] sessions_in(trees).count(q) > 0 && (
        p.cwd@ == q.cwd@ || p.active_at()@.rank() == q.active_at()@.rank()) ==> p == q
}

/// A session that is the root of one tree stands in no other.
proof fn lemma_root_stands_once(trees: Seq<Tree>, i: int, j: int)
    requires
        0 <= i < trees.len(),
        0 <= j < trees.len(),
        trees[i].session == trees[j].session,
        sessions_in(trees).count(trees[i].session) <= 1,
    ensures
        i == j,
    decreases trees.len(),
{
    let q = trees[i].session;
    let rest = trees.drop_last();
    if i < trees.len() - 1 && j < trees.len() - 1 {
        lemma_root_stands_once(rest, i, j);
    } else if i < trees.len() - 1 {
        lemma_sessions_of_part(rest, i, q);
    } else if j < trees.len() - 1 {
        lemma_sessions_of_part(rest, j, q);
    }
}

/// Every root of one forest is a root of another that holds the same sessions.
proof fn lemma_same_roots(a: Seq<Tree>, b: Seq<Tree>, i: int) -> (j: int)
    requires
        nested(a),
        apart(a),
        nested(b),
        sessions_in(a) == sessions_in(b),
        0 <= i < a.len(),
    ensures
        0 <= j < b.len(),
        b[j].session == a[i].session,
{
    let r = a[i].session;
    lemma_sessions_of_part(a, i, r);
    let j = lemma_tree_of(b, r);
    let g = b[j].session;
    if r != g {
        lemma_nested_part(b, j);
        lemma_deep_below(b[j], r);
        lemma_sessions_of_part(b, j, g);
        let k = lemma_tree_of(a, g);
        let u = a[k].session;
        if g != u {
            lemma_nested_part(a, k);
            lemma_deep_below(a[k], g);
            lemma_below_transitive(r.cwd@, g.cwd@, u.cwd@);
        }
        assert(below(a[i].session.cwd@, a[k].session.cwd@));
    }
    j
}

/// A session below a root of one forest stands below the same root of another.
proof fn lemma_same_below(a: Seq<Tree>, b: Seq<Tree>, i: int, j: int, q: Session)
    requires
        nested(a),
        nested(b),
        apart(b),
        all_differ(b),
        sessions_in(a) == sessions_in(b),
        0 <= i < a.len(),
        0 <= j < b.len(),
        a[i].session == b[j].session,
        sessions_in(a[i].children).count(q) > 0,
    ensures
        sessions_in(b[j].children).count(q) == 1,
{
    let r = b[j].session;
    lemma_sessions_of_part(a, i, q);
    lemma_nested_part(a, i);
    lemma_deep_below(a[i], q);
    let k = lemma_tree_of(b, q);
    let g = b[k].session;
    assert(!below(b[k].session.cwd@, b[j].session.cwd@));
    assert(!below(b[j].session.cwd@, b[k].session.cwd@));
    lemma_nested_part(b, k);
    lemma_deep_below(b[k], q);
    lemma_both_above(q.cwd@, g.cwd@, r.cwd@);
    lemma_both_above(q.cwd@, r.cwd@, g.cwd@);
    lemma_sessions_of_part(b, k, g);
    lemma_sessions_of_part(b, j, r);
    assert(g == r);
    lemma_root_stands_once(b, k, j);
    lemma_sessions_of_part(b, j, q);
}

proof fn lemma_count_last(trees: Seq<Tree>, q: Session)
    requires
        trees.len() > 0,
    ensures
        sessions_in(trees).count(q) == sessions_in(trees.drop_last()).count(q) + sessions_in(
            trees.last().children,
        ).count(q) + (if q == trees.last().session {
            1nat
        } else {
            0nat
        }),
{
}

proof fn lemma_drop_last_keeps(trees: Seq<Tree>)
    requires
        trees.len() > 0,
        nested(trees),
        apart(trees),
        recent_first(trees),
        all_differ(trees),
    ensures
        nested(trees.drop_last()),
        apart(trees.drop_last()),
        recent_first(trees.drop_last()),
        all_differ(trees.drop_last()),
        nested(trees.last().children),
        apart(trees.last().children),
        recent_first(trees.last().children),
        all_differ(trees.last().children),
{
    let rest = trees.drop_last();
    let below_last = trees.last().children;
    assert(trees[trees.len() - 1] == trees.last());
    assert(forall|i: int| 0 <= i < rest.len() ==> #[trigger] rest[i] == trees[i]);
    assert forall|q: Session| #[trigger] sessions_in(rest).count(q) <= sessions_in(trees).count(q) by {}
    assert forall|q: Session| #[trigger]
        sessions_in(below_last).count(q) <= sessions_in(trees).count(q) by {}
    assert forall|q: Session| #[trigger] sessions_in(rest).count(q) <= 1 by {
        assert(sessions_in(trees).count(q) <= 1);
    }
    assert forall|q: Session| #[trigger] sessions_in(below_last).count(q) <= 1 by {
        assert(sessions_in(trees).count(q) <= 1);
    }
    assert forall|p: Session, q: Session|
        #[trigger] sessions_in(rest).count(p) > 0 && #[trigger] sessions_in(rest).count(q) > 0 && (
        p.cwd@ == q.cwd@ || p.active_at()@.rank() == q.active_at()@.rank()) implies p == q by {
        assert(sessions_in(trees).count(p) > 0 && sessions_in(trees).count(q) > 0);
    }
    assert forall|p: Session, q: Session|
        #[trigger] sessions_in(below_last).count(p) > 0 && #[trigger] sessions_in(below_last).count(q)
            > 0 && (p.cwd@ == q.cwd@ || p.active_at()@.rank() == q.active_at()@.rank()) implies p
        == q by {
        assert(sessions_in(trees).count(p) > 0 && sessions_in(trees).count(q) > 0);
    }
}

/// Nested forests of the same sessions are the same, where no two sessions share a directory or a
/// time.
proof fn lemma_one_forest(a: Seq<Tree>, b: Seq<Tree>)
    requires
        nested(a),
        apart(a),
        recent_first(a),
        all_differ(a),
        nested(b),
        apart(b),
        recent_first(b),
        all_differ(b),
        sessions_in(a) == sessions_in(b),
    ensures
        a == b,
    decreases a,
{
    if a.len() == 0 {
        if b.len() > 0 {
            lemma_sessions_of_part(b, 0, b[0].session);
            assert(sessions_in(a).count(b[0].session) == 0);
        }
        assert(a =~= b);
    } else {
        let n = a.len() - 1;
        let j = lemma_same_roots(a, b, n);
        let m = b.len() - 1;
        let i = lemma_same_roots(b, a, m);
        // the last root of each is the one with the oldest activity
        assert(a[i].session.active_at()@.rank() >= a[n].session.active_at()@.rank());
        assert(b[j].session.active_at()@.rank() >= b[m].session.active_at()@.rank());
        lemma_sessions_of_part(a, n, a[n].session);
        lemma_sessions_of_part(a, i, a[i].session);
        assert(a[n].session == b[m].session);
        let x = a.last();
        let y = b.last();
        assert forall|q: Session| #[trigger]
            sessions_in(x.children).count(q) == sessions_in(y.children).count(q) by {
            if sessions_in(x.children).count(q) > 0 {
                lemma_same_below(a, b, n, m, q);
                lemma_sessions_of_part(a, n, q);
                assert(sessions_in(a).count(q) <= 1);
            }
            if sessions_in(y.children).count(q) > 0 {
                lemma_same_below(b, a, m, n, q);
                lemma_sessions_of_part(b, m, q);
                assert(sessions_in(b).count(q) <= 1);
            }
        }
        assert(sessions_in(x.children) =~= sessions_in(y.children));
        lemma_drop_last_keeps(a);
        lemma_drop_last_keeps(b);
        assert(a[n].children == x.children);
        lemma_one_forest(x.children, y.children);
        assert forall|q: Session| #[trigger]
            sessions_in(a.drop_last()).count(q) == sessions_in(b.drop_last()).count(q) by {
            lemma_count_last(a, q);
            lemma_count_last(b, q);
        }
        assert(sessions_in(a.drop_last()) =~= sessions_in(b.drop_last()));
        lemma_one_forest(a.drop_last(), b.drop_last());
        assert(a =~= a.drop_last().push(x));
        assert(b =~= b.drop_last().push(y));
    }
}

/// The forest does not depend on the order in which its sessions are given, where no two of them
/// share a directory or the time of their last activity.
pub proof fn law_order_does_not_matter(s: Seq<Session>, t: Seq<Session>)
    requires
        s.to_multiset() == t.to_multiset(),
        forall|i: int, j: int|
            0 <= i < j < s.len() ==> (#[trigger] s[i]).cwd@ != (#[trigger] s[j]).cwd@
                && s[i].active_at()@.rank() != s[j].active_at()@.rank(),
    ensures
        session_forest(s) == session_forest(t),
{
    broadcast use vstd::seq_lib::group_to_multiset_ensures;

    let a = session_forest(s);
    let b = session_forest(t);
    law_children_lie_below(s);
    law_children_lie_below(t);
    law_siblings_lie_apart(s);
    law_siblings_lie_apart(t);
    law_most_recent_first(s);
    law_most_recent_first(t);
    law_every_session_once(s);
    law_every_session_once(t);
    assert(s.no_duplicates());
    s.lemma_multiset_has_no_duplicates();
    assert forall|q: Session| #[trigger] sessions_in(a).count(q) <= 1 by {
        if sessions_in(a).count(q) > 0 {
            assert(s.to_multiset().contains(q));
        }
    }
    assert forall|p: Session, q: Session|
        #[trigger] sessions_in(a).count(p) > 0 && #[trigger] sessions_in(a).count(q) > 0 && (p.cwd@
            == q.cwd@ || p.active_at()@.rank() == q.active_at()@.rank()) implies p == q by {
        assert(s.to_multiset().contains(p) && s.to_multiset().contains(q));
        let i = s.index_of(p);
        let j = s.index_of(q);
        assert(s[i] == p && s[j] == q);
    }
    lemma_one_forest(a, b);
}

// ---- which session stands below which ----

/// Whether one session stands directly below another in a forest.
pub open spec fn stands_below(trees: Seq<Tree>, child: Session, parent: Session) -> bool
    decreases trees,
{
    exists|i: int|
        #![trigger trees[i]]
        0 <= i < trees.len() && ((trees[i].session == parent && is_root(trees[i].children, child))
            || stands_below(trees[i].children, child, parent))
}

/// Whether a session is the root of a tree of a forest.
pub open spec fn is_root(trees: Seq<Tree>, s: Session) -> bool {
    exists|i: int| 0 <= i < trees.len() && (#[trigger] trees[i]).session == s
}

/// What holds of a session that stands directly below another.
proof fn lemma_stands_below(
    trees: Seq<Tree>,
    all: Seq<Session>,
    above: int,
    child: Session,
    parent: Session,
)
    requires
        nested(trees),
        closest(trees, all, above),
        stands_below(trees, child, parent),
    ensures
        below(child.cwd@, parent.cwd@),
        forall|k: int|
            0 <= k < all.len() && below(child.cwd@, (#[trigger] all[k]).cwd@) ==> all[k].cwd@.len()
                <= parent.cwd@.len(),
    decreases trees,
{
    let i = choose|i: int|
        #![trigger trees[i]]
        0 <= i < trees.len() && ((trees[i].session == parent && is_root(trees[i].children, child))
            || stands_below(trees[i].children, child, parent));
    let t = trees[i];
    if t.session == parent && is_root(t.children, child) {
        let j = choose|j: int| 0 <= j < t.children.len() && (#[trigger] t.children[j]).session == child;
        assert(below(t.children[j].session.cwd@, t.session.cwd@));
        assert(closest(t.children, all, t.session.cwd@.len() as int));
    } else {
        lemma_stands_below(t.children, all, t.session.cwd@.len() as int, child, parent);
    }
}

/// A session of a forest that is no root stands directly below another one of it.
proof fn lemma_no_root_stands_below(trees: Seq<Tree>, q: Session) -> (parent: Session)
    requires
        sessions_in(trees).count(q) > 0,
        !is_root(trees, q),
    ensures
        stands_below(trees, q, parent),
        sessions_in(trees).count(parent) > 0,
    decreases trees,
{
    let i = lemma_tree_of(trees, q);
    let t = trees[i];
    assert(t.session != q);
    if is_root(t.children, q) {
        lemma_sessions_of_part(trees, i, t.session);
        t.session
    } else {
        let p = lemma_no_root_stands_below(t.children, q);
        lemma_sessions_of_part(trees, i, p);
        p
    }
}

/// A session whose directory is that of another one, a slash and more is no root of the forest. It
/// stands directly below a session whose directory is as close as the other one's or closer: its own
/// directory is that one's, a slash and more, and no directory of any session lies between the two.
pub proof fn law_session_stands_below_closest(
    s: Seq<Session>,
    x: Session,
    y: Session,
    rest: Seq<char>,
) -> (parent: Session)
    requires
        s.contains(x),
        s.contains(y),
        x.cwd@ == y.cwd@ + seq!['/'] + rest,
    ensures
        forall|i: int|
            0 <= i < session_forest(s).len() ==> (#[trigger] session_forest(s)[i]).session.cwd@ != x.cwd@,
        stands_below(session_forest(s), x, parent),
        s.contains(parent),
        x.cwd@ == parent.cwd@ + seq!['/'] + x.cwd@.skip(parent.cwd@.len() as int + 1),
        parent.cwd@.len() >= y.cwd@.len(),
        forall|k: int, n: Seq<char>|
            0 <= k < s.len() && x.cwd@ == #[trigger] (s[k].cwd@ + seq!['/'] + n) ==> s[k].cwd@.len()
                <= parent.cwd@.len(),
{
    broadcast use vstd::seq_lib::group_to_multiset_ensures;

    let trees = session_forest(s);
    law_children_lie_below(s);
    law_closest_directory_wins(s);
    law_every_session_once(s);
    law_longer_path_lies_below(y.cwd@, rest);
    let m = s.index_of(y);
    assert(s[m] == y);
    assert forall|i: int| 0 <= i < trees.len() implies (#[trigger] trees[i]).session.cwd@ != x.cwd@ by {
        if trees[i].session.cwd@ == x.cwd@ {
            assert(below(trees[i].session.cwd@, s[m].cwd@));
        }
    }
    assert(s.to_multiset().contains(x));
    let parent = lemma_no_root_stands_below(trees, x);
    assert(s.to_multiset().contains(parent));
    lemma_stands_below(trees, s, -1, x, parent);
    law_path_below_is_longer(x.cwd@, parent.cwd@);
    assert(below(x.cwd@, s[m].cwd@));
    assert forall|k: int, n: Seq<char>|
        0 <= k < s.len() && x.cwd@ == #[trigger] (s[k].cwd@ + seq!['/'] + n) implies s[k].cwd@.len()
        <= parent.cwd@.len() by {
        law_longer_path_lies_below(s[k].cwd@, n);
        assert(below(x.cwd@, s[k].cwd@));
    }
    parent
}

/// A session whose directory is that of no other, a slash and more is a root of the forest.
pub proof fn law_session_below_none_is_root(s: Seq<Session>, x: Session)
    requires
        s.contains(x),
        forall|k: int, n: Seq<char>|
            0 <= k < s.len() ==> x.cwd@ != #[trigger] (s[k].cwd@ + seq!['/'] + n),
    ensures
        is_root(session_forest(s), x),
{
    broadcast use vstd::seq_lib::group_to_multiset_ensures;

    let trees = session_forest(s);
    if !is_root(trees, x) {
        law_children_lie_below(s);
        law_closest_directory_wins(s);
        law_every_session_once(s);
        assert(s.to_multiset().contains(x));
        let parent = lemma_no_root_stands_below(trees, x);
        assert(s.to_multiset().contains(parent));
        lemma_stands_below(trees, s, -1, x, parent);
        law_path_below_is_longer(x.cwd@, parent.cwd@);
        let k = s.index_of(parent);
        let n = x.cwd@.skip(parent.cwd@.len() as int + 1);
        assert(x.cwd@ == s[k].cwd@ + seq!['/'] + n);
    }
}

/// A session stands directly below another only where its directory is the other's, a slash and more.
pub proof fn law_only_directories_nest(s: Seq<Session>, child: Session, parent: Session)
    requires
        stands_below(session_forest(s), child, parent),
    ensures
        child.cwd@ == parent.cwd@ + seq!['/'] + child.cwd@.skip(parent.cwd@.len() as int + 1),
{
    law_children_lie_below(s);
    law_closest_directory_wins(s);
    lemma_stands_below(session_forest(s), s, -1, child, parent);
    law_path_below_is_longer(child.cwd@, parent.cwd@);
}

// ---- sessions in one directory ----

/// Whether, of sessions beside each other in one directory, at most one has sessions below it.
pub open spec fn one_has_all(trees: Seq<Tree>) -> bool
    decreases trees,
{
    &&& forall|i: int, j: int|
        0 <= i < j < trees.len() && (#[trigger] trees[i]).session.cwd@ == (
        #[trigger] trees[j]).session.cwd@ ==> trees[i].children.len() == 0 || trees[j].children.len()
            == 0
    &&& forall|i: int| #![trigger trees[i]] 0 <= i < trees.len() ==> one_has_all(trees[i].children)
}

/// Whether sessions beside each other with the same last activity are related as they stand.
pub open spec fn ties_related(trees: Seq<Tree>, related: spec_fn(Session, Session) -> bool) -> bool
    decreases trees,
{
    &&& forall|i: int, j: int|
        0 <= i < j < trees.len() && (#[trigger] trees[i]).session.active_at()@.rank() == (
        #[trigger] trees[j]).session.active_at()@.rank() ==> related(trees[i].session, trees[j].session)
    &&& forall|i: int|
        #![trigger trees[i]]
        0 <= i < trees.len() ==> ties_related(trees[i].children, related)
}

/// Whether sessions beside each other are related as they stand.
spec fn all_related(trees: Seq<Tree>, related: spec_fn(Session, Session) -> bool) -> bool
    decreases trees,
{
    &&& forall|i: int, j: int|
        0 <= i < j < trees.len() ==> related(
            (#[trigger] trees[i]).session,
            (#[trigger] trees[j]).session,
        )
    &&& forall|i: int|
        #![trigger trees[i]]
        0 <= i < trees.len() ==> all_related(trees[i].children, related)
}

proof fn lemma_newest_keeps_beside(trees: Seq<Tree>, related: spec_fn(Session, Session) -> bool)
    ensures
        one_has_all(trees) ==> one_has_all(newest_first(trees)),
        all_related(trees, related) ==> ties_related(newest_first(trees), related),
    decreases trees,
{
    let parts = newest_first_below(trees);
    let after = newest_first(trees);
    let key = |t: Tree| t.session.key();
    law_sorted_by(parts, key);
    assert forall|i: int| 0 <= i < after.len() implies {
        &&& one_has_all(trees) ==> one_has_all((#[trigger] after[i]).children)
        &&& all_related(trees, related) ==> ties_related(after[i].children, related)
    } by {
        let j = lemma_newest_from(trees, i);
        lemma_newest_keeps_beside(trees[j].children, related);
    }
    assert forall|i: int| 0 <= i < parts.len() implies (#[trigger] parts[i]).children.len()
        == trees[i].children.len() && parts[i].session == trees[i].session by {
        law_sorted_by(newest_first_below(trees[i].children), key);
    }
    if one_has_all(trees) {
        let clash = |a: Tree, b: Tree|
            a.session.cwd@ == b.session.cwd@ && a.children.len() > 0 && b.children.len() > 0;
        assert forall|i: int, j: int| 0 <= i < j < parts.len() implies !clash(
            #[trigger] parts[i],
            #[trigger] parts[j],
        ) by {
            assert(trees[i].session == parts[i].session && trees[j].session == parts[j].session);
        }
        lemma_sorted_none_clash(parts, key, clash);
        assert forall|i: int, j: int|
            0 <= i < j < after.len() && (#[trigger] after[i]).session.cwd@ == (
            #[trigger] after[j]).session.cwd@ implies after[i].children.len() == 0
            || after[j].children.len() == 0 by {
            assert(!clash(after[i], after[j]));
        }
    }
    if all_related(trees, related) {
        let clash = |a: Tree, b: Tree|
            a.session.active_at()@.rank() == b.session.active_at()@.rank() && !related(
                a.session,
                b.session,
            );
        assert forall|i: int, j: int| 0 <= i < j < parts.len() implies !clash(
            #[trigger] parts[i],
            #[trigger] parts[j],
        ) by {
            assert(trees[i].session == parts[i].session && trees[j].session == parts[j].session);
        }
        lemma_sorted_none_clash(parts, key, clash);
        assert forall|i: int, j: int|
            0 <= i < j < after.len() && (#[trigger] after[i]).session.active_at()@.rank() == (
            #[trigger] after[j]).session.active_at()@.rank() implies related(
            after[i].session,
            after[j].session,
        ) by {
            assert(!clash(after[i], after[j]));
        }
    }
}

proof fn lemma_first_has_all_is_one(trees: Seq<Tree>)
    requires
        first_has_all(trees),
    ensures
        one_has_all(trees),
    decreases trees,
{
    assert forall|i: int| 0 <= i < trees.len() implies one_has_all((#[trigger] trees[i]).children) by {
        lemma_first_has_all_is_one(trees[i].children);
    }
}

proof fn lemma_grown_related(
    trees: Seq<Tree>,
    s: Session,
    related: spec_fn(Session, Session) -> bool,
)
    requires
        all_related(trees, related),
        forall|q: Session| #[trigger] sessions_in(trees).count(q) > 0 ==> related(q, s),
    ensures
        all_related(grown(trees, s), related),
    decreases trees,
{
    let after = grown(trees, s);
    lemma_first_above(trees, s.cwd@, 0);
    lemma_grown_roots(trees, s);
    let i = first_above(trees, s.cwd@, 0);
    if i < trees.len() {
        assert forall|q: Session| #[trigger]
            sessions_in(trees[i].children).count(q) > 0 implies related(q, s) by {
            lemma_sessions_of_part(trees, i, q);
        }
        lemma_grown_related(trees[i].children, s, related);
    }
    assert forall|k: int, j: int| 0 <= k < j < after.len() implies related(
        (#[trigger] after[k]).session,
        (#[trigger] after[j]).session,
    ) by {
        assert(after[k].session == trees[k].session);
        if j < trees.len() {
            assert(after[j].session == trees[j].session);
        } else {
            lemma_sessions_of_part(trees, k, trees[k].session);
        }
    }
    assert forall|k: int| 0 <= k < after.len() implies all_related(
        (#[trigger] after[k]).children,
        related,
    ) by {
        if k < trees.len() && k != i {
            assert(after[k] == trees[k]);
        }
    }
}

proof fn lemma_grown_from_related(
    order: Seq<Session>,
    related: spec_fn(Session, Session) -> bool,
)
    requires
        none_clash(order, |a: Session, b: Session| !related(a, b)),
    ensures
        all_related(grown_from(order), related),
    decreases order.len(),
{
    broadcast use vstd::seq_lib::group_to_multiset_ensures;

    if order.len() > 0 {
        let rest = order.drop_last();
        let s = order.last();
        let trees = grown_from(rest);
        let clash = |a: Session, b: Session| !related(a, b);
        assert forall|i: int, j: int| 0 <= i < j < rest.len() implies !clash(
            #[trigger] rest[i],
            #[trigger] rest[j],
        ) by {
            assert(rest[i] == order[i] && rest[j] == order[j]);
        }
        lemma_grown_from_related(rest, related);
        lemma_grown_from_sessions(rest);
        assert forall|q: Session| #[trigger] sessions_in(trees).count(q) > 0 implies related(q, s) by {
            assert(rest.to_multiset().contains(q));
            let k = rest.index_of(q);
            assert(order[k] == q);
            assert(!clash(order[k], order[order.len() - 1]));
        }
        lemma_grown_related(trees, s, related);
    }
}

/// Of sessions in one directory, at most one has sessions below it.
pub proof fn law_one_of_a_directory_has_all(s: Seq<Session>)
    ensures
        one_has_all(session_forest(s)),
{
    let order = shortest_first(s);
    law_sorted_by(s, |x: Session| byte_count(x.cwd@) as int);
    lemma_grown_from_keeps(order);
    lemma_first_has_all_is_one(grown_from(order));
    lemma_newest_keeps_beside(grown_from(order), |a: Session, b: Session| true);
}

/// Sessions beside each other with the same last activity stand with the shorter paths first.
pub proof fn law_shorter_paths_first(s: Seq<Session>)
    ensures
        ties_related(
            session_forest(s),
            |a: Session, b: Session| encode_utf8(a.cwd@).len() <= encode_utf8(b.cwd@).len(),
        ),
{
    let related = |a: Session, b: Session| encode_utf8(a.cwd@).len() <= encode_utf8(b.cwd@).len();
    let bytes = |x: Session| byte_count(x.cwd@) as int;
    let order = shortest_first(s);
    law_sorted_by(s, bytes);
    let clash = |a: Session, b: Session| !related(a, b);
    assert forall|i: int, j: int| 0 <= i < j < order.len() implies !clash(
        #[trigger] order[i],
        #[trigger] order[j],
    ) by {
        assert(bytes(order[i]) <= bytes(order[j]));
    }
    lemma_grown_from_related(order, related);
    lemma_newest_keeps_beside(grown_from(order), related);
}

/// Sessions beside each other with the same last activity and paths of one length stand in the order
/// in which they were given.
pub proof fn law_ties_stay_as_given(s: Seq<Session>)
    requires
        s.no_duplicates(),
    ensures
        ties_related(
            session_forest(s),
            |a: Session, b: Session|
                encode_utf8(a.cwd@).len() == encode_utf8(b.cwd@).len() ==> s.index_of(a) < s.index_of(b),
        ),
{
    let related = |a: Session, b: Session|
        encode_utf8(a.cwd@).len() == encode_utf8(b.cwd@).len() ==> s.index_of(a) < s.index_of(b);
    let bytes = |x: Session| byte_count(x.cwd@) as int;
    let clash = |a: Session, b: Session| !related(a, b);
    assert forall|i: int, j: int| 0 <= i < j < s.len() implies !clash(
        #[trigger] s[i],
        #[trigger] s[j],
    ) by {
        assert(s.contains(s[i]) && s.contains(s[j]));
        assert(s[s.index_of(s[i])] == s[i] && s[s.index_of(s[j])] == s[j]);
    }
    lemma_sorted_none_clash(s, bytes, clash);
    lemma_grown_from_related(shortest_first(s), related);
    lemma_newest_keeps_beside(grown_from(shortest_first(s)), related);
}

/// The first session in a directory.
spec fn first_in(all: Seq<Session>, cwd: Seq<char>) -> Option<Session>
    decreases all.len(),
{
    if all.len() == 0 {
        None
    } else if first_in(all.drop_last(), cwd) is Some {
        first_in(all.drop_last(), cwd)
    } else if all.last().cwd@ == cwd {
        Some(all.last())
    } else {
        None
    }
}

proof fn lemma_first_in_push(all: Seq<Session>, s: Session, cwd: Seq<char>)
    ensures
        first_in(all.push(s), cwd) == (if first_in(all, cwd) is Some {
            first_in(all, cwd)
        } else if s.cwd@ == cwd {
            Some(s)
        } else {
            None
        }),
{
    assert(all.push(s).drop_last() =~= all);
}

proof fn lemma_first_in_is(all: Seq<Session>, m: int)
    requires
        0 <= m < all.len(),
        forall|j: int| 0 <= j < m ==> (#[trigger] all[j]).cwd@ != all[m].cwd@,
    ensures
        first_in(all, all[m].cwd@) == Some(all[m]),
    decreases all.len(),
{
    let rest = all.drop_last();
    if m < all.len() - 1 {
        assert(rest[m] == all[m]);
        assert forall|j: int| 0 <= j < m implies (#[trigger] rest[j]).cwd@ != rest[m].cwd@ by {
            assert(rest[j] == all[j]);
        }
        lemma_first_in_is(rest, m);
    } else {
        assert forall|j: int| 0 <= j < rest.len() implies (#[trigger] rest[j]).cwd@ != all[m].cwd@ by {
            assert(rest[j] == all[j]);
        }
        lemma_first_in_none(rest, all[m].cwd@);
    }
}

proof fn lemma_first_in_none(all: Seq<Session>, cwd: Seq<char>)
    requires
        forall|j: int| 0 <= j < all.len() ==> (#[trigger] all[j]).cwd@ != cwd,
    ensures
        first_in(all, cwd) is None,
    decreases all.len(),
{
    if all.len() > 0 {
        let rest = all.drop_last();
        assert(all[all.len() - 1].cwd@ != cwd);
        assert forall|j: int| 0 <= j < rest.len() implies (#[trigger] rest[j]).cwd@ != cwd by {
            assert(rest[j] == all[j]);
        }
        lemma_first_in_none(rest, cwd);
    }
}

proof fn lemma_first_in_stands(all: Seq<Session>, cwd: Seq<char>) -> (k: int)
    requires
        first_in(all, cwd) is Some,
    ensures
        0 <= k < all.len(),
        all[k].cwd@ == cwd,
        first_in(all, cwd) == Some(all[k]),
    decreases all.len(),
{
    if first_in(all.drop_last(), cwd) is Some {
        lemma_first_in_stands(all.drop_last(), cwd)
    } else {
        all.len() - 1
    }
}

proof fn lemma_put_first_in(s: Seq<Session>, x: Session, cwd: Seq<char>)
    ensures
        first_in(put(s, x, |y: Session| byte_count(y.cwd@) as int), cwd) == first_in(s.push(x), cwd),
    decreases s.len(),
{
    let bytes = |y: Session| byte_count(y.cwd@) as int;
    if s.len() > 0 && bytes(s.last()) > bytes(x) {
        let rest = s.drop_last();
        lemma_put_first_in(rest, x, cwd);
        lemma_first_in_push(put(rest, x, bytes), s.last(), cwd);
        lemma_first_in_push(rest, x, cwd);
        lemma_first_in_push(rest, s.last(), cwd);
        assert(rest.push(s.last()) =~= s);
        lemma_first_in_push(s, x, cwd);
    }
}

proof fn lemma_sorted_first_in(s: Seq<Session>, cwd: Seq<char>)
    ensures
        first_in(shortest_first(s), cwd) == first_in(s, cwd),
    decreases s.len(),
{
    if s.len() > 0 {
        let rest = s.drop_last();
        lemma_sorted_first_in(rest, cwd);
        lemma_put_first_in(shortest_first(rest), s.last(), cwd);
        lemma_first_in_push(shortest_first(rest), s.last(), cwd);
        lemma_first_in_push(rest, s.last(), cwd);
        assert(rest.push(s.last()) =~= s);
    }
}

/// Whether, of sessions beside each other in one directory, the first is the first of `all` in that
/// directory.
spec fn first_leads(trees: Seq<Tree>, all: Seq<Session>) -> bool
    decreases trees,
{
    forall|i: int|
        #![trigger trees[i]]
        0 <= i < trees.len() ==> {
            &&& (forall|j: int|
                0 <= j < i ==> (#[trigger] trees[j]).session.cwd@ != trees[i].session.cwd@)
                ==> first_in(all, trees[i].session.cwd@) == Some(trees[i].session)
            &&& first_leads(trees[i].children, all)
        }
}

proof fn lemma_first_leads_more(trees: Seq<Tree>, all: Seq<Session>, s: Session)
    requires
        first_leads(trees, all),
    ensures
        first_leads(trees, all.push(s)),
    decreases trees,
{
    assert forall|i: int| 0 <= i < trees.len() implies {
        &&& (forall|j: int|
            0 <= j < i ==> (#[trigger] trees[j]).session.cwd@ != (
            #[trigger] trees[i]).session.cwd@) ==> first_in(all.push(s), trees[i].session.cwd@) == Some(
            trees[i].session,
        )
        &&& first_leads(trees[i].children, all.push(s))
    } by {
        lemma_first_leads_more(trees[i].children, all, s);
        lemma_first_in_push(all, s, trees[i].session.cwd@);
    }
}

#[verifier::rlimit(40)]
proof fn lemma_grown_first_leads(trees: Seq<Tree>, s: Session, all: Seq<Session>)
    requires
        nested(trees),
        apart(trees),
        first_has_all(trees),
        first_leads(trees, all),
        forall|k: int|
            0 <= k < all.len() && (#[trigger] all[k]).cwd@ == s.cwd@ ==> sessions_in(trees).count(all[k])
                > 0,
    ensures
        first_leads(grown(trees, s), all.push(s)),
    decreases trees,
{
    let after = grown(trees, s);
    lemma_first_above(trees, s.cwd@, 0);
    let i = first_above(trees, s.cwd@, 0);
    lemma_first_leads_more(trees, all, s);
    if i < trees.len() {
        let t = trees[i];
        assert forall|k: int|
            0 <= k < all.len() && (#[trigger] all[k]).cwd@ == s.cwd@ implies sessions_in(
            t.children,
        ).count(all[k]) > 0 by {
            let q = all[k];
            let j = lemma_tree_of(trees, q);
            let u = trees[j];
            assert(!below(trees[j].session.cwd@, trees[i].session.cwd@));
            assert(!below(trees[i].session.cwd@, trees[j].session.cwd@));
            assert(q != u.session);
            lemma_nested_part(trees, j);
            lemma_deep_below(u, q);
            lemma_both_above(s.cwd@, u.session.cwd@, t.session.cwd@);
            lemma_both_above(s.cwd@, t.session.cwd@, u.session.cwd@);
            if i < j {
                assert(u.children.len() == 0);
                assert(sessions_in(u.children).count(q) == 0);
            }
        }
        lemma_grown_first_leads(t.children, s, all);
        assert forall|k: int| 0 <= k < after.len() implies {
            &&& (forall|j: int|
                0 <= j < k ==> (#[trigger] after[j]).session.cwd@ != (
                #[trigger] after[k]).session.cwd@) ==> first_in(all.push(s), after[k].session.cwd@)
                == Some(after[k].session)
            &&& first_leads(after[k].children, all.push(s))
        } by {
            assert(after[k].session == trees[k].session);
            assert(forall|j: int|
                0 <= j < after.len() ==> (#[trigger] after[j]).session == trees[j].session);
            if forall|j: int|
                0 <= j < k ==> (#[trigger] after[j]).session.cwd@ != after[k].session.cwd@ {
                assert forall|j: int| 0 <= j < k implies (#[trigger] trees[j]).session.cwd@
                    != trees[k].session.cwd@ by {
                    assert(after[j].session == trees[j].session);
                }
            }
        }
    } else {
        let leaf = Tree { session: s, children: Seq::empty() };
        assert(after == trees.push(leaf));
        assert forall|k: int| 0 <= k < after.len() implies {
            &&& (forall|j: int|
                0 <= j < k ==> (#[trigger] after[j]).session.cwd@ != (
                #[trigger] after[k]).session.cwd@) ==> first_in(all.push(s), after[k].session.cwd@)
                == Some(after[k].session)
            &&& first_leads(after[k].children, all.push(s))
        } by {
            assert(forall|j: int| 0 <= j < trees.len() ==> (#[trigger] after[j]) == trees[j]);
            if forall|j: int|
                0 <= j < k ==> (#[trigger] after[j]).session.cwd@ != after[k].session.cwd@ {
                assert forall|j: int| 0 <= j < k implies (#[trigger] trees[j]).session.cwd@
                    != after[k].session.cwd@ by {
                    assert(after[j] == trees[j]);
                }
                if k == trees.len() {
                    lemma_first_in_push(all, s, s.cwd@);
                    if first_in(all, s.cwd@) is Some {
                        let m = lemma_first_in_stands(all, s.cwd@);
                        let q = all[m];
                        let j = lemma_tree_of(trees, q);
                        if q != trees[j].session {
                            lemma_nested_part(trees, j);
                            lemma_deep_below(trees[j], q);
                        }
                        assert(below(s.cwd@, trees[j].session.cwd@) || trees[j].session.cwd@ == s.cwd@);
                    }
                } else {
                    assert(after[k] == trees[k]);
                }
            }
        }
    }
}

proof fn lemma_grown_from_first_leads(order: Seq<Session>)
    requires
        is_sorted(order, |x: Session| byte_count(x.cwd@) as int),
    ensures
        first_leads(grown_from(order), order),
    decreases order.len(),
{
    broadcast use vstd::seq_lib::group_to_multiset_ensures;

    if order.len() > 0 {
        let rest = order.drop_last();
        let s = order.last();
        let trees = grown_from(rest);
        let bytes = |x: Session| byte_count(x.cwd@) as int;
        assert forall|i: int, j: int| 0 <= i <= j < rest.len() implies bytes(#[trigger] rest[i])
            <= bytes(#[trigger] rest[j]) by {
            assert(rest[i] == order[i] && rest[j] == order[j]);
        }
        lemma_grown_from_first_leads(rest);
        lemma_grown_from_keeps(rest);
        lemma_grown_from_sessions(rest);
        assert forall|k: int|
            0 <= k < rest.len() && (#[trigger] rest[k]).cwd@ == s.cwd@ implies sessions_in(trees).count(
            rest[k],
        ) > 0 by {
            assert(rest.contains(rest[k]));
            assert(rest.to_multiset().contains(rest[k]));
        }
        lemma_grown_first_leads(trees, s, rest);
        assert(rest.push(s) =~= order);
    }
}

proof fn lemma_leader_has_below(trees: Seq<Tree>, all: Seq<Session>, child: Session, parent: Session)
    requires
        first_has_all(trees),
        first_leads(trees, all),
        stands_below(trees, child, parent),
    ensures
        first_in(all, parent.cwd@) == Some(parent),
    decreases trees,
{
    let i = choose|i: int|
        #![trigger trees[i]]
        0 <= i < trees.len() && ((trees[i].session == parent && is_root(trees[i].children, child))
            || stands_below(trees[i].children, child, parent));
    let t = trees[i];
    if t.session == parent && is_root(t.children, child) {
        assert(t.children.len() > 0);
        assert forall|j: int| 0 <= j < i implies (#[trigger] trees[j]).session.cwd@
            != trees[i].session.cwd@ by {
            if trees[j].session.cwd@ == trees[i].session.cwd@ {
                assert(trees[i].children.len() == 0);
            }
        }
    } else {
        lemma_leader_has_below(t.children, all, child, parent);
    }
}

proof fn lemma_newest_stands_below(trees: Seq<Tree>, child: Session, parent: Session)
    requires
        stands_below(newest_first(trees), child, parent),
    ensures
        stands_below(trees, child, parent),
    decreases trees,
{
    let after = newest_first(trees);
    let i = choose|i: int|
        #![trigger after[i]]
        0 <= i < after.len() && ((after[i].session == parent && is_root(after[i].children, child))
            || stands_below(after[i].children, child, parent));
    let j = lemma_newest_from(trees, i);
    if after[i].session == parent && is_root(after[i].children, child) {
        let k = choose|k: int|
            0 <= k < after[i].children.len() && (#[trigger] after[i].children[k]).session == child;
        let m = lemma_newest_from(trees[j].children, k);
        assert(trees[j].children[m].session == child);
        assert(is_root(trees[j].children, child));
    } else {
        lemma_newest_stands_below(trees[j].children, child, parent);
    }
}

/// Of sessions in one directory, the one that was given first has the sessions below it.
pub proof fn law_first_of_a_directory_has_all(s: Seq<Session>, child: Session, parent: Session, m: int)
    requires
        stands_below(session_forest(s), child, parent),
        0 <= m < s.len(),
        s[m].cwd@ == parent.cwd@,
        forall|j: int| 0 <= j < m ==> (#[trigger] s[j]).cwd@ != parent.cwd@,
    ensures
        parent == s[m],
{
    let order = shortest_first(s);
    let trees = grown_from(order);
    law_sorted_by(s, |x: Session| byte_count(x.cwd@) as int);
    lemma_grown_from_keeps(order);
    lemma_grown_from_first_leads(order);
    lemma_newest_stands_below(trees, child, parent);
    lemma_leader_has_below(trees, order, child, parent);
    lemma_sorted_first_in(s, parent.cwd@);
    lemma_first_in_is(s, m);
}

// ---- insertion and sorting of any forest ----

/// A session is inserted below the first root whose directory, a slash and more is its own; the other
/// trees stay as they are.
pub proof fn law_insertion_below_a_root(trees: Seq<Tree>, s: Session, i: int, rest: Seq<char>)
    requires
        0 <= i < trees.len(),
        s.cwd@ == trees[i].session.cwd@ + seq!['/'] + rest,
        forall|j: int, n: Seq<char>|
            0 <= j < i ==> s.cwd@ != #[trigger] (trees[j].session.cwd@ + seq!['/'] + n),
    ensures
        grown(trees, s).len() == trees.len(),
        grown(trees, s)[i].session == trees[i].session,
        grown(trees, s)[i].children == grown(trees[i].children, s),
        forall|j: int| 0 <= j < trees.len() && j != i ==> #[trigger] grown(trees, s)[j] == trees[j],
{
    law_longer_path_lies_below(trees[i].session.cwd@, rest);
    lemma_first_above(trees, s.cwd@, 0);
    let k = first_above(trees, s.cwd@, 0);
    if k < i {
        law_path_below_is_longer(s.cwd@, trees[k].session.cwd@);
        let n = s.cwd@.skip(trees[k].session.cwd@.len() as int + 1);
        assert(s.cwd@ == trees[k].session.cwd@ + seq!['/'] + n);
    }
    assert(k <= i) by {
        if k > i {
            assert(!below(s.cwd@, trees[i].session.cwd@));
        }
    }
}

/// A session is inserted as a new root, the last, where its directory is that of no root, a slash and
/// more.
pub proof fn law_insertion_as_a_root(trees: Seq<Tree>, s: Session)
    requires
        forall|j: int, n: Seq<char>|
            0 <= j < trees.len() ==> s.cwd@ != #[trigger] (trees[j].session.cwd@ + seq!['/'] + n),
    ensures
        grown(trees, s) == trees.push(Tree { session: s, children: Seq::empty() }),
{
    lemma_first_above(trees, s.cwd@, 0);
    let k = first_above(trees, s.cwd@, 0);
    if k < trees.len() {
        law_path_below_is_longer(s.cwd@, trees[k].session.cwd@);
        let n = s.cwd@.skip(trees[k].session.cwd@.len() as int + 1);
        assert(s.cwd@ == trees[k].session.cwd@ + seq!['/'] + n);
    }
}

/// The place in the forest with the most recent first of a tree of any forest.
proof fn lemma_newest_to(trees: Seq<Tree>, j: int) -> (i: int)
    requires
        0 <= j < trees.len(),
    ensures
        0 <= i < newest_first(trees).len(),
        newest_first(trees)[i].session == trees[j].session,
        newest_first(trees)[i].children == newest_first(trees[j].children),
{
    broadcast use vstd::seq_lib::group_to_multiset_ensures;

    let key = |t: Tree| t.session.key();
    let parts = newest_first_below(trees);
    law_sorted_by(parts, key);
    let t = parts[j];
    assert(parts.contains(t));
    assert(newest_first(trees).to_multiset().contains(t));
    let i = newest_first(trees).index_of(t);
    assert(newest_first(trees)[i] == t);
    i
}

proof fn lemma_stands_below_newest(trees: Seq<Tree>, child: Session, parent: Session)
    requires
        stands_below(trees, child, parent),
    ensures
        stands_below(newest_first(trees), child, parent),
    decreases trees,
{
    let after = newest_first(trees);
    let j = choose|j: int|
        #![trigger trees[j]]
        0 <= j < trees.len() && ((trees[j].session == parent && is_root(trees[j].children, child))
            || stands_below(trees[j].children, child, parent));
    let i = lemma_newest_to(trees, j);
    if trees[j].session == parent && is_root(trees[j].children, child) {
        let m = choose|m: int|
            0 <= m < trees[j].children.len() && (#[trigger] trees[j].children[m]).session == child;
        let k = lemma_newest_to(trees[j].children, m);
        assert(after[i].children[k].session == child);
        assert(is_root(after[i].children, child));
    } else {
        lemma_stands_below_newest(trees[j].children, child, parent);
    }
    assert(after[i].session == trees[j].session);
}

/// Putting the most recent first leaves every session where it stood: it has the same one above it,
/// or none. Beside each other, sessions stand with the most recent activity first.
pub proof fn law_newest_first_keeps_places(trees: Seq<Tree>, child: Session, parent: Session)
    ensures
        recent_first(newest_first(trees)),
        sessions_in(newest_first(trees)) == sessions_in(trees),
        stands_below(newest_first(trees), child, parent) <==> stands_below(trees, child, parent),
        is_root(newest_first(trees), child) <==> is_root(trees, child),
{
    lemma_newest_keeps(trees, Seq::empty(), 0);
    lemma_newest_first_sessions(trees);
    if stands_below(trees, child, parent) {
        lemma_stands_below_newest(trees, child, parent);
    }
    if stands_below(newest_first(trees), child, parent) {
        lemma_newest_stands_below(trees, child, parent);
    }
    if is_root(trees, child) {
        let j = choose|j: int| 0 <= j < trees.len() && (#[trigger] trees[j]).session == child;
        let i = lemma_newest_to(trees, j);
        assert(newest_first(trees)[i].session == child);
    }
    if is_root(newest_first(trees), child) {
        let i = choose|i: int|
            0 <= i < newest_first(trees).len() && (#[trigger] newest_first(trees)[i]).session == child;
        let j = lemma_newest_from(trees, i);
        assert(trees[j].session == child);
    }
}

} // verus!
