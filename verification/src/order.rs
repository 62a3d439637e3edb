//! Stable sorting by an integer key.

use vstd::prelude::*;

verus! {

/// Items that have a place in an order: those of the smaller key come first.
pub trait Keyed: Sized {
    /// The key.
    spec fn key(&self) -> int;

    /// The key.
    fn sort_key(&self) -> (k: i128)
        ensures
            k == self.key(),
    ;
}

/// An item put into a sorted sequence: behind every item whose key is not greater.
pub open spec fn put<T>(s: Seq<T>, x: T, key: spec_fn(T) -> int) -> Seq<T>
    decreases s.len(),
{
    if s.len() == 0 || key(s.last()) <= key(x) {
        s.push(x)
    } else {
        put(s.drop_last(), x, key).push(s.last())
    }
}

/// The items in the order of their keys; items of one key stay in the order that they had.
pub open spec fn sorted_by<T>(s: Seq<T>, key: spec_fn(T) -> int) -> Seq<T>
    decreases s.len(),
{
    if s.len() == 0 {
        s
    } else {
        put(sorted_by(s.drop_last(), key), s.last(), key)
    }
}

/// Whether keys never go down along a sequence.
pub open spec fn is_sorted<T>(s: Seq<T>, key: spec_fn(T) -> int) -> bool {
    forall|i: int, j: int| 0 <= i <= j < s.len() ==> key(#[trigger] s[i]) <= key(#[trigger] s[j])
}

/// Whether an item is of a key.
pub open spec fn has_key<T>(key: spec_fn(T) -> int, k: int) -> spec_fn(T) -> bool {
    |t: T| key(t) == k
}

/// The items of one key, in the order in which they stand.
pub open spec fn of_key<T>(s: Seq<T>, key: spec_fn(T) -> int, k: int) -> Seq<T> {
    s.filter(has_key(key, k))
}

proof fn lemma_put<T>(s: Seq<T>, x: T, key: spec_fn(T) -> int)
    ensures
        put(s, x, key).len() == s.len() + 1,
        put(s, x, key).to_multiset() == s.to_multiset().insert(x),
        is_sorted(s, key) ==> is_sorted(put(s, x, key), key),
        s.len() > 0 && is_sorted(s, key) ==> key(put(s, x, key).last()) == (if key(s.last()) <= key(x) {
            key(x)
        } else {
            key(s.last())
        }),
    decreases s.len(),
{
    broadcast use vstd::seq_lib::group_to_multiset_ensures;

    if s.len() == 0 || key(s.last()) <= key(x) {
        assert(put(s, x, key) == s.push(x));
        if is_sorted(s, key) {
            assert forall|i: int, j: int| 0 <= i <= j < s.push(x).len() implies key(
                #[trigger] s.push(x)[i],
            ) <= key(#[trigger] s.push(x)[j]) by {
                if j == s.len() && i < j {
                    assert(key(s[i]) <= key(s[s.len() - 1]));
                }
            }
        }
    } else {
        let rest = s.drop_last();
        let head = put(rest, x, key);
        lemma_put(rest, x, key);
        assert(s =~= rest.push(s.last()));
        assert(head.push(s.last()).to_multiset() =~= s.to_multiset().insert(x));
        if is_sorted(s, key) {
            assert(is_sorted(rest, key));
            let out = head.push(s.last());
            assert(key(head.last()) <= key(s.last())) by {
                if rest.len() > 0 {
                    assert(key(s[rest.len() - 1]) <= key(s[s.len() - 1]));
                }
            }
            assert forall|i: int, j: int| 0 <= i <= j < out.len() implies key(#[trigger] out[i])
                <= key(#[trigger] out[j]) by {
                if j == head.len() && i < j {
                    assert(key(head[i]) <= key(head[head.len() - 1]));
                }
            }
        }
    }
}

/// Sorting puts the keys in order and keeps every item, as often as it was there.
pub proof fn law_sorted_by<T>(s: Seq<T>, key: spec_fn(T) -> int)
    ensures
        is_sorted(sorted_by(s, key), key),
        sorted_by(s, key).len() == s.len(),
        sorted_by(s, key).to_multiset() == s.to_multiset(),
    decreases s.len(),
{
    broadcast use vstd::seq_lib::group_to_multiset_ensures;

    if s.len() > 0 {
        law_sorted_by(s.drop_last(), key);
        lemma_put(sorted_by(s.drop_last(), key), s.last(), key);
        assert(s =~= s.drop_last().push(s.last()));
    }
}

proof fn lemma_put_stable<T>(s: Seq<T>, x: T, key: spec_fn(T) -> int, k: int)
    requires
        is_sorted(s, key),
    ensures
        of_key(put(s, x, key), key, k) == of_key(s.push(x), key, k),
    decreases s.len(),
{
    let same = has_key(key, k);
    s.lemma_filter_push(x, same);
    if s.len() > 0 && key(s.last()) > key(x) {
        let rest = s.drop_last();
        assert(is_sorted(rest, key));
        lemma_put_stable(rest, x, key, k);
        put(rest, x, key).lemma_filter_push(s.last(), same);
        rest.lemma_filter_push(x, same);
        rest.lemma_filter_push(s.last(), same);
        assert(rest.push(s.last()) =~= s);
    }
}

/// Sorting is stable: the items of one key come out in the order in which they went in.
pub proof fn law_sorted_by_stable<T>(s: Seq<T>, key: spec_fn(T) -> int, k: int)
    ensures
        of_key(sorted_by(s, key), key, k) == of_key(s, key, k),
    decreases s.len(),
{
    let same = has_key(key, k);
    if s.len() > 0 {
        let rest = s.drop_last();
        law_sorted_by(rest, key);
        law_sorted_by_stable(rest, key, k);
        lemma_put_stable(sorted_by(rest, key), s.last(), key, k);
        sorted_by(rest, key).lemma_filter_push(s.last(), same);
        rest.lemma_filter_push(s.last(), same);
        assert(rest.push(s.last()) =~= s);
    }
}

proof fn lemma_last_of_key<T>(s: Seq<T>, key: spec_fn(T) -> int, k: int)
    requires
        is_sorted(s, key),
    ensures
        s.len() > 0 && key(s.last()) == k ==> of_key(s, key, k).len() > 0 && of_key(
            s,
            key,
            k,
        ).last() == s.last() && of_key(s.drop_last(), key, k) == of_key(s, key, k).drop_last(),
        s.len() > 0 && key(s.last()) != k ==> of_key(s.drop_last(), key, k) == of_key(s, key, k),
        s.len() == 0 || key(s.last()) < k ==> of_key(s, key, k).len() == 0,
    decreases s.len(),
{
    let same = has_key(key, k);
    reveal(Seq::filter);
    if s.len() > 0 {
        let rest = s.drop_last();
        rest.lemma_filter_push(s.last(), same);
        assert(rest.push(s.last()) =~= s);
        lemma_last_of_key(rest, key, k);
        if key(s.last()) == k {
            assert(of_key(rest, key, k) =~= of_key(s, key, k).drop_last());
        }
        if rest.len() > 0 {
            assert(key(s[rest.len() - 1]) <= key(s[s.len() - 1]));
        }
    }
}

/// There is one way to sort stably: two sorted sequences in which the items of each key stand in
/// the same order are the same.
pub proof fn law_stable_order_is_unique<T>(a: Seq<T>, b: Seq<T>, key: spec_fn(T) -> int)
    requires
        is_sorted(a, key),
        is_sorted(b, key),
        forall|k: int| #[trigger] of_key(a, key, k) == of_key(b, key, k),
    ensures
        a == b,
    decreases a.len(),
{
    if a.len() > 0 {
        lemma_last_of_key(a, key, key(a.last()));
        lemma_last_of_key(b, key, key(a.last()));
    }
    if b.len() > 0 {
        lemma_last_of_key(a, key, key(b.last()));
        lemma_last_of_key(b, key, key(b.last()));
        assert(of_key(a, key, key(b.last())) == of_key(b, key, key(b.last())));
    }
    if a.len() == 0 {
        assert(a =~= b);
    } else {
        let x = a.drop_last();
        let y = b.drop_last();
        assert forall|k: int| #[trigger] of_key(x, key, k) == of_key(y, key, k) by {
            lemma_last_of_key(a, key, k);
            lemma_last_of_key(b, key, k);
            assert(of_key(a, key, k) == of_key(b, key, k));
        }
        law_stable_order_is_unique(x, y, key);
        assert(a =~= x.push(a.last()));
        assert(b =~= y.push(b.last()));
    }
}

/// What is in order already stays as it is: sorting twice changes nothing.
pub proof fn law_sorted_stays<T>(s: Seq<T>, key: spec_fn(T) -> int)
    requires
        is_sorted(s, key),
    ensures
        sorted_by(s, key) == s,
    decreases s.len(),
{
    if s.len() > 0 {
        let rest = s.drop_last();
        law_sorted_stays(rest, key);
        if rest.len() > 0 {
            assert(key(s[rest.len() - 1]) <= key(s[s.len() - 1]));
        }
        assert(rest.push(s.last()) =~= s);
    }
}

/// Whether no two of a sequence, the one in front of the other, clash.
pub open spec fn none_clash<T>(s: Seq<T>, clash: spec_fn(T, T) -> bool) -> bool {
    forall|i: int, j: int| 0 <= i < j < s.len() ==> !clash(#[trigger] s[i], #[trigger] s[j])
}

proof fn lemma_put_none_clash<T>(
    s: Seq<T>,
    x: T,
    key: spec_fn(T) -> int,
    clash: spec_fn(T, T) -> bool,
)
    requires
        none_clash(s.push(x), clash),
        forall|a: T, b: T| key(a) < key(b) && #[trigger] clash(a, b) ==> clash(b, a),
    ensures
        none_clash(put(s, x, key), clash),
        forall|t: T| #[trigger] put(s, x, key).contains(t) ==> t == x || s.contains(t),
    decreases s.len(),
{
    let out = put(s, x, key);
    if s.len() > 0 && key(s.last()) > key(x) {
        let rest = s.drop_last();
        let last = s.last();
        let inner = put(rest, x, key);
        assert forall|i: int, j: int| 0 <= i < j < rest.push(x).len() implies !clash(
            #[trigger] rest.push(x)[i],
            #[trigger] rest.push(x)[j],
        ) by {
            assert(rest.push(x)[i] == s.push(x)[i]);
            if j == rest.len() {
                assert(s.push(x)[s.len() as int] == x);
            } else {
                assert(rest.push(x)[j] == s.push(x)[j]);
            }
        }
        lemma_put_none_clash(rest, x, key, clash);
        assert(!clash(s.push(x)[s.len() - 1], s.push(x)[s.len() as int]));
        assert(!clash(x, last));
        assert forall|i: int, j: int| 0 <= i < j < out.len() implies !clash(
            #[trigger] out[i],
            #[trigger] out[j],
        ) by {
            if j == inner.len() {
                assert(out[j] == last);
                assert(inner.contains(inner[i]));
                if inner[i] != x {
                    let k = rest.index_of(inner[i]);
                    assert(s.push(x)[k] == inner[i] && s.push(x)[s.len() - 1] == last);
                }
            } else {
                assert(out[i] == inner[i] && out[j] == inner[j]);
            }
        }
        assert forall|t: T| #[trigger] out.contains(t) implies t == x || s.contains(t) by {
            let k = out.index_of(t);
            if k < inner.len() {
                assert(inner[k] == t);
                assert(inner.contains(t));
                if t != x {
                    let m = rest.index_of(t);
                    assert(s[m] == t);
                }
            } else {
                assert(s[s.len() - 1] == t);
            }
        }
    } else {
        assert forall|t: T| #[trigger] out.contains(t) implies t == x || s.contains(t) by {
            let k = out.index_of(t);
            if k < s.len() {
                assert(s[k] == t);
            }
        }
    }
}

/// Where no two clash, no two clash after sorting; two that clash in the order of their keys must
/// clash in the other order as well.
pub proof fn lemma_sorted_none_clash<T>(
    s: Seq<T>,
    key: spec_fn(T) -> int,
    clash: spec_fn(T, T) -> bool,
)
    requires
        none_clash(s, clash),
        forall|a: T, b: T| key(a) < key(b) && #[trigger] clash(a, b) ==> clash(b, a),
    ensures
        none_clash(sorted_by(s, key), clash),
        forall|t: T| #[trigger] sorted_by(s, key).contains(t) ==> s.contains(t),
    decreases s.len(),
{
    if s.len() > 0 {
        let rest = s.drop_last();
        let sorted = sorted_by(rest, key);
        lemma_sorted_none_clash(rest, key, clash);
        assert forall|i: int, j: int| 0 <= i < j < sorted.push(s.last()).len() implies !clash(
            #[trigger] sorted.push(s.last())[i],
            #[trigger] sorted.push(s.last())[j],
        ) by {
            if j == sorted.len() {
                assert(sorted.contains(sorted[i]));
                let k = rest.index_of(sorted[i]);
                assert(s[k] == sorted[i] && s[s.len() - 1] == s.last());
            }
        }
        lemma_put_none_clash(sorted, s.last(), key, clash);
        assert forall|t: T| #[trigger] sorted_by(s, key).contains(t) implies s.contains(t) by {
            if t == s.last() {
                assert(s[s.len() - 1] == t);
            } else {
                let k = rest.index_of(t);
                assert(s[k] == t);
            }
        }
    }
}

/// Puts an item into a sorted list.
fn insert_sorted<T: Keyed>(v: &mut Vec<T>, x: T)
    ensures
        final(v)@ == put(old(v)@, x, |t: T| t.key()),
{
    let ghost key = |t: T| t.key();
    let k: i128 = x.sort_key();
    let mut at: usize = v.len();
    assert(v@.take(at as int) =~= v@);
    assert(put(v@.take(at as int), x, key) + v@.skip(at as int) =~= put(v@, x, key));
    while at > 0 && v[at - 1].sort_key() > k
        invariant
            at <= v@.len(),
            k == x.key(),
            v@ == old(v)@,
            key == (|t: T| t.key()),
            put(v@.take(at as int), x, key) + v@.skip(at as int) == put(old(v)@, x, key),
        decreases at,
    {
        proof {
            let head = v@.take(at as int);
            assert(head.drop_last() =~= v@.take(at - 1));
            assert(put(head.drop_last(), x, key).push(head.last()) + v@.skip(at as int) =~= put(
                v@.take(at - 1),
                x,
                key,
            ) + v@.skip(at - 1));
        }
        at = at - 1;
    }
    assert(put(v@.take(at as int), x, key) == v@.take(at as int).push(x));
    v.insert(at, x);
    assert(v@ =~= old(v)@.take(at as int).push(x) + old(v)@.skip(at as int));
}

/// Sorts a list by its items' keys; items of one key stay in the order that they had.
pub fn sort_stable<T: Keyed>(v: &mut Vec<T>)
    ensures
        final(v)@ == sorted_by(old(v)@, |t: T| t.key()),
{
    let ghost all = v@;
    let mut rest: Vec<T> = Vec::new();
    rest.append(v);
    let mut r: Vec<T> = Vec::new();
    assert(rest@ =~= all);
    assert(all.take(0) =~= Seq::<T>::empty());
    for x in it: rest
        invariant
            it.seq() == all,
            r@ == sorted_by(all.take(it.index() as int), |t: T| t.key()),
    {
        proof {
            let i = it.index() as int;
            assert(all.take(i + 1).drop_last() =~= all.take(i));
        }
        insert_sorted(&mut r, x);
    }
    assert(all.take(all.len() as int) =~= all);
    *v = r;
}

/// Sorting and a mapping that keeps the keys can change places.
pub proof fn lemma_sorted_by_map<A, B>(
    s: Seq<A>,
    f: spec_fn(A) -> B,
    key: spec_fn(A) -> int,
    key_of: spec_fn(B) -> int,
)
    requires
        forall|a: A| #[trigger] key_of(f(a)) == key(a),
    ensures
        sorted_by(s.map_values(f), key_of) == sorted_by(s, key).map_values(f),
    decreases s.len(),
{
    if s.len() == 0 {
        assert(s.map_values(f) =~= Seq::<B>::empty());
        assert(s.map_values(f) =~= sorted_by(s, key).map_values(f));
    } else {
        assert(s.map_values(f).drop_last() =~= s.drop_last().map_values(f));
        lemma_sorted_by_map(s.drop_last(), f, key, key_of);
        lemma_put_map(sorted_by(s.drop_last(), key), s.last(), f, key, key_of);
    }
}

proof fn lemma_put_map<A, B>(
    s: Seq<A>,
    x: A,
    f: spec_fn(A) -> B,
    key: spec_fn(A) -> int,
    key_of: spec_fn(B) -> int,
)
    requires
        forall|a: A| #[trigger] key_of(f(a)) == key(a),
    ensures
        put(s.map_values(f), f(x), key_of) == put(s, x, key).map_values(f),
    decreases s.len(),
{
    if s.len() == 0 || key(s.last()) <= key(x) {
        assert(s.map_values(f).push(f(x)) =~= s.push(x).map_values(f));
    } else {
        let head = put(s.drop_last(), x, key);
        lemma_put_map(s.drop_last(), x, f, key, key_of);
        assert(s.map_values(f).drop_last() =~= s.drop_last().map_values(f));
        assert(head.map_values(f).push(f(s.last())) =~= head.push(s.last()).map_values(f));
    }
}

} // verus!
