//! Which sessions are asked for, and what is answered.

use crate::forest::{law_every_session_once, preorder, sessions_in};
use crate::json::json_pretty;
use crate::order::{
    has_key, law_sorted_by, law_sorted_by_stable, sort_stable, sorted_by, Keyed,
};
use crate::paint::{label, state_label_plain};
use crate::render::{
    can_cut, forest_rows, law_every_session_has_a_row, law_row_shows_its_session, law_texts_of_a_row,
    lemma_nested_can_be_cut, name_can_be_cut, render_json, render_tree, rows_show, session_object,
    session_objects, shown_name, table_lines, Row,
};
use crate::session::{Session, SessionState, SessionStateView};
use crate::text::{
    ascii_lowered, contains_text, has_part, lowercase, same_text, stands_at, texts, to_lowercase,
};
use crate::time::{
    clock, duration, duration_readable, elapsed_secs, parse_duration, relative, seconds_since, Moment,
    Timestamp,
};
use crate::tree::{build_tree, session_forest};
use vstd::prelude::*;
use vstd::utf8::*;

verus! {

/// What is asked for.
pub struct Query {
    /// How many sessions at most.
    pub count: usize,
    /// How long ago the last activity may be, such as `30m`, `2h` or `7d`.
    pub time: Option<String>,
    /// A part of the working directory, in any mixture of cases.
    pub path: Option<String>,
    /// A state, in any mixture of cases.
    pub state: Option<String>,
    /// Whether the answer is to be JSON.
    pub json: bool,
}

/// Whether a session's directory has the given part, whatever the cases.
pub open spec fn on_path(s: Session, pattern: Seq<char>) -> bool {
    contains_text(lowercase(s.cwd@), lowercase(pattern))
}

/// Whether a state passes a filter. `filter` is the filter and `lower_label` the state's label, both
/// in lower case.
pub open spec fn state_passes(
    state: SessionStateView,
    filter: Seq<char>,
    lower_label: Seq<char>,
) -> bool {
    match state {
        SessionStateView::Idle => filter == "idle"@,
        SessionStateView::Thinking | SessionStateView::Responding | SessionStateView::Tool(_) => {
            ||| filter == "working"@
            ||| filter == "thinking"@
            ||| filter == "responding"@
            ||| filter == "tool"@
            ||| contains_text(lower_label, filter)
        },
        SessionStateView::Plan => filter == "planned"@ || filter == "plan"@ || filter == "waiting"@,
        SessionStateView::Asking => filter == "asking"@ || filter == "waiting"@,
        SessionStateView::Exited => filter == "exited"@,
    }
}

/// Whether a session's state passes a filter, whatever the cases.
pub open spec fn in_state(s: Session, filter: Seq<char>) -> bool {
    state_passes(s.state@, lowercase(filter), lowercase(label(s.state@)))
}

/// Whether a session's last activity is at most so many seconds ago.
pub open spec fn active_within(s: Session, secs: int, now: Moment) -> bool {
    elapsed_secs(now, s.active_at()@) <= secs
}

/// The sessions that pass the filters on the path and on the state.
pub open spec fn filtered(s: Seq<Session>, q: Query) -> Seq<Session> {
    let on = match q.path {
        Some(p) => s.filter(|x: Session| on_path(x, p@)),
        None => s,
    };
    match q.state {
        Some(f) => on.filter(|x: Session| in_state(x, f@)),
        None => on,
    }
}

/// The sessions that pass the filter on the time as well; `None` where the time asked for is none.
pub open spec fn filtered_by_time(s: Seq<Session>, q: Query, now: Moment) -> Option<Seq<Session>> {
    match q.time {
        Some(t) => match duration(t@) {
            Some(secs) => Some(filtered(s, q).filter(|x: Session| active_within(x, secs, now))),
            None => None,
        },
        None => Some(filtered(s, q)),
    }
}

/// The first items of a sequence, at most `n`.
pub open spec fn at_most<T>(s: Seq<T>, n: int) -> Seq<T> {
    if n < s.len() {
        s.take(n)
    } else {
        s
    }
}

/// The sessions in the order of their last activity, the most recent first.
pub open spec fn by_activity(s: Seq<Session>) -> Seq<Session> {
    sorted_by(s, |x: Session| x.key())
}

/// The sessions asked for: those that pass the filters, the most recent first, and no more than
/// asked for.
pub open spec fn selected(s: Seq<Session>, q: Query, now: Moment) -> Option<Seq<Session>> {
    match filtered_by_time(s, q, now) {
        Some(kept) => Some(at_most(by_activity(kept), q.count as int)),
        None => None,
    }
}

/// Whether a state passes a filter. `filter` is the filter and `lower_label` the state's label, both
/// in lower case.
pub fn state_matches(state: &SessionState, filter: &str, lower_label: &str) -> (r: bool)
    ensures
        r == state_passes(state@, filter@, lower_label@),
{
    match state {
        SessionState::Idle => same_text(filter, "idle"),
        SessionState::Thinking | SessionState::Responding | SessionState::Tool(_) => {
            same_text(filter, "working") || same_text(filter, "thinking") || same_text(
                filter,
                "responding",
            ) || same_text(filter, "tool") || has_part(lower_label, filter)
        },
        SessionState::Plan => same_text(filter, "planned") || same_text(filter, "plan")
            || same_text(filter, "waiting"),
        SessionState::Asking => same_text(filter, "asking") || same_text(filter, "waiting"),
        SessionState::Exited => same_text(filter, "exited"),
    }
}

/// The sessions whose directory has the given part, whatever the cases, in the order that they had.
/// Of texts of ASCII characters, the cases of the letters `A` to `Z` do not count.
pub fn filter_by_path(sessions: Vec<Session>, pattern: &str) -> (r: Vec<Session>)
    ensures
        r@ == sessions@.filter(|x: Session| on_path(x, pattern@)),
        is_ascii_chars(pattern@) ==> forall|i: int|
            0 <= i < sessions@.len() && is_ascii_chars((#[trigger] sessions@[i]).cwd@) ==> on_path(
                sessions@[i],
                pattern@,
            ) == contains_text(ascii_lowered(sessions@[i].cwd@), ascii_lowered(pattern@)),
{
    let ghost all = sessions@;
    let ghost keep = |x: Session| on_path(x, pattern@);
    let pat = to_lowercase(pattern);
    let mut r: Vec<Session> = Vec::new();
    assert(all.take(0).filter(keep) =~= Seq::<Session>::empty()) by {
        reveal(Seq::filter);
    }
    for s in it: sessions
        invariant
            it.seq() == all,
            keep == (|x: Session| on_path(x, pattern@)),
            pat@ == lowercase(pattern@),
            is_ascii_chars(pattern@) ==> pat@ == ascii_lowered(pattern@),
            is_ascii_chars(pattern@) ==> forall|i: int|
                0 <= i < it.index() && is_ascii_chars((#[trigger] all[i]).cwd@) ==> on_path(
                    all[i],
                    pattern@,
                ) == contains_text(ascii_lowered(all[i].cwd@), ascii_lowered(pattern@)),
            r@ == all.take(it.index() as int).filter(keep),
    {
        proof {
            let i = it.index() as int;
            assert(all.take(i + 1) =~= all.take(i).push(s));
            all.take(i).lemma_filter_push(s, keep);
        }
        if has_part(to_lowercase(s.cwd.as_str()).as_str(), pat.as_str()) {
            r.push(s);
        }
    }
    assert(all.take(all.len() as int) =~= all);
    r
}

/// The sessions whose state passes a filter, whatever the cases, in the order that they had. Of texts
/// of ASCII characters, the cases of the letters `A` to `Z` do not count.
pub fn filter_by_state(sessions: Vec<Session>, state_filter: &str) -> (r: Vec<Session>)
    ensures
        r@ == sessions@.filter(|x: Session| in_state(x, state_filter@)),
        is_ascii_chars(state_filter@) ==> forall|i: int|
            0 <= i < sessions@.len() && is_ascii_chars(label((#[trigger] sessions@[i]).state@))
                ==> in_state(sessions@[i], state_filter@) == state_passes(
                sessions@[i].state@,
                ascii_lowered(state_filter@),
                ascii_lowered(label(sessions@[i].state@)),
            ),
{
    let ghost all = sessions@;
    let ghost keep = |x: Session| in_state(x, state_filter@);
    let filter = to_lowercase(state_filter);
    let mut r: Vec<Session> = Vec::new();
    assert(all.take(0).filter(keep) =~= Seq::<Session>::empty()) by {
        reveal(Seq::filter);
    }
    for s in it: sessions
        invariant
            it.seq() == all,
            keep == (|x: Session| in_state(x, state_filter@)),
            filter@ == lowercase(state_filter@),
            is_ascii_chars(state_filter@) ==> filter@ == ascii_lowered(state_filter@),
            is_ascii_chars(state_filter@) ==> forall|i: int|
                0 <= i < it.index() && is_ascii_chars(label((#[trigger] all[i]).state@))
                    ==> in_state(all[i], state_filter@) == state_passes(
                    all[i].state@,
                    ascii_lowered(state_filter@),
                    ascii_lowered(label(all[i].state@)),
                ),
            r@ == all.take(it.index() as int).filter(keep),
    {
        proof {
            let i = it.index() as int;
            assert(all.take(i + 1) =~= all.take(i).push(s));
            all.take(i).lemma_filter_push(s, keep);
        }
        let lower_label = to_lowercase(state_label_plain(&s.state).as_str());
        if state_matches(&s.state, filter.as_str(), lower_label.as_str()) {
            r.push(s);
        }
    }
    assert(all.take(all.len() as int) =~= all);
    r
}

/// The sessions whose last activity is at most so many seconds ago, in the order that they had.
pub fn filter_by_time(sessions: Vec<Session>, secs: i64, now: &Timestamp) -> (r: Vec<Session>)
    ensures
        r@ == sessions@.filter(|x: Session| active_within(x, secs as int, now@)),
{
    let ghost all = sessions@;
    let ghost keep = |x: Session| active_within(x, secs as int, now@);
    let mut r: Vec<Session> = Vec::new();
    assert(all.take(0).filter(keep) =~= Seq::<Session>::empty()) by {
        reveal(Seq::filter);
    }
    for s in it: sessions
        invariant
            it.seq() == all,
            keep == (|x: Session| active_within(x, secs as int, now@)),
            r@ == all.take(it.index() as int).filter(keep),
    {
        proof {
            let i = it.index() as int;
            assert(all.take(i + 1) =~= all.take(i).push(s));
            all.take(i).lemma_filter_push(s, keep);
        }
        if seconds_since(now, &s.activity()) <= secs {
            r.push(s);
        }
    }
    assert(all.take(all.len() as int) =~= all);
    r
}

/// The sessions asked for; `None` where the time asked for is none.
pub fn select_sessions(sessions: Vec<Session>, query: &Query, now: &Timestamp) -> (r: Option<
    Vec<Session>,
>)
    requires
        query.time matches Some(t) ==> duration_readable(t@),
    ensures
        match r {
            Some(kept) => selected(sessions@, *query, now@) == Some(kept@),
            None => selected(sessions@, *query, now@) is None,
        },
{
    let mut kept = sessions;
    if let Some(pattern) = &query.path {
        kept = filter_by_path(kept, pattern.as_str());
    }
    if let Some(state_filter) = &query.state {
        kept = filter_by_state(kept, state_filter.as_str());
    }
    if let Some(time_str) = &query.time {
        match parse_duration(time_str.as_str()) {
            Some(secs) => {
                kept = filter_by_time(kept, secs, now);
            },
            None => {
                return None;
            },
        }
    }
    sort_stable(&mut kept);
    kept.truncate(query.count);
    Some(kept)
}

/// What is said of a time that is none.
pub fn invalid_duration_message(time_str: &str) -> (r: String)
    ensures
        r@ == "Invalid duration: "@ + time_str@ + " (expected: 30m, 2h, 7d, etc.)"@,
{
    "Invalid duration: ".to_string().concat(time_str).concat(" (expected: 30m, 2h, 7d, etc.)")
}

/// Whether the name of every session can be shown.
pub open spec fn all_can_be_cut(s: Seq<Session>) -> bool {
    forall|i: int| 0 <= i < s.len() ==> can_cut((#[trigger] s[i]).name)
}

/// Whether the name of every session can be shown.
pub fn all_names_can_be_cut(sessions: &Vec<Session>) -> (r: bool)
    ensures
        r == all_can_be_cut(sessions@),
{
    let mut i: usize = 0;
    while i < sessions.len()
        invariant
            i <= sessions@.len(),
            forall|j: int| 0 <= j < i ==> can_cut((#[trigger] sessions@[j]).name),
        decreases sessions@.len() - i,
    {
        if !name_can_be_cut(&sessions[i].name) {
            return false;
        }
        i = i + 1;
    }
    true
}

/// Whether lines are the answer: the sessions as JSON or as a tree, or that there is none.
pub open spec fn is_report(
    s: Seq<Session>,
    json: bool,
    now: Moment,
    home: Seq<char>,
    r: Seq<Seq<char>>,
) -> bool {
    if s.len() == 0 {
        r == seq![if json { "[]"@ } else { "No sessions found."@ }]
    } else if json {
        r == seq![json_pretty(session_objects(s, now, home))]
    } else {
        exists|rows: Seq<Row>| #[trigger]
            rows_show(rows, forest_rows(session_forest(s), now, home)) && r == table_lines(rows)
    }
}

/// The answer, line by line: the sessions as JSON or as a tree, or that there is none.
pub fn report(sessions: &Vec<Session>, json: bool, now: &Timestamp, home_str: &str) -> (r: Vec<
    String,
>)
    requires
        !json ==> all_can_be_cut(sessions@),
    ensures
        sessions@.len() == 0 && json ==> texts(r@) == seq!["[]"@],
        sessions@.len() == 0 && !json ==> texts(r@) == seq!["No sessions found."@],
        sessions@.len() > 0 && json ==> texts(r@) == seq![
            json_pretty(session_objects(sessions@, now@, home_str@)),
        ],
        sessions@.len() > 0 && !json ==> exists|rows: Seq<Row>| #[trigger]
            rows_show(rows, forest_rows(session_forest(sessions@), now@, home_str@)) && texts(r@)
                == table_lines(rows),
        is_report(sessions@, json, now@, home_str@, texts(r@)),
{
    if sessions.len() > 0 && !json {
        let tree = build_tree(sessions);
        proof {
            broadcast use vstd::seq_lib::group_to_multiset_ensures;

            lemma_nested_can_be_cut(session_forest(sessions@));
            law_every_session_once(sessions@);
            assert forall|q: Session| #[trigger]
                sessions_in(session_forest(sessions@)).count(q) > 0 implies can_cut(
                q.name,
            ) by {
                assert(sessions@.to_multiset().contains(q));
                let k = sessions@.index_of(q);
                assert(sessions@[k] == q);
            }
        }
        return render_tree(&tree, now, home_str);
    }
    let line = if sessions.len() > 0 {
        render_json(sessions, now, home_str)
    } else if json {
        "[]".to_string()
    } else {
        "No sessions found.".to_string()
    };
    let mut r: Vec<String> = Vec::new();
    r.push(line);
    assert(texts(r@) =~= seq![line@]);
    r
}

/// The filter on the path does not look at cases: patterns with one lower-case form treat directories
/// with one lower-case form alike.
pub proof fn law_path_filter_ignores_case(s: Session, t: Session, p: Seq<char>, q: Seq<char>)
    requires
        lowercase(s.cwd@) == lowercase(t.cwd@),
        lowercase(p) == lowercase(q),
    ensures
        on_path(s, p) == on_path(t, q),
{
}

/// The filter on the state does not look at cases: filters with one lower-case form keep the same
/// sessions.
pub proof fn law_state_filter_ignores_case(s: Session, f: Seq<char>, g: Seq<char>)
    requires
        lowercase(f) == lowercase(g),
    ensures
        in_state(s, f) == in_state(s, g),
{
}

/// A working session passes the filter on the state by its own label and by any part of it.
pub proof fn law_working_state_passes_by_label(s: Session, f: Seq<char>, at: int)
    requires
        s.state@ is Thinking || s.state@ is Responding || s.state@ is Tool,
        stands_at(lowercase(label(s.state@)), lowercase(f), at),
    ensures
        in_state(s, f),
{
}

proof fn lemma_filter_from<T>(s: Seq<T>, pred: spec_fn(T) -> bool, x: T)
    requires
        s.filter(pred).contains(x),
    ensures
        s.contains(x),
        pred(x),
{
    let f = s.filter(pred);
    let k = f.index_of(x);
    s.lemma_filter_pred(pred, k);
    s.lemma_filter_contains_rev(pred, x);
}

/// What is selected is asked for: every selected session was given and passes every filter.
pub proof fn law_selected_pass_filters(s: Seq<Session>, q: Query, now: Moment, x: Session)
    requires
        selected(s, q, now) matches Some(r) && r.contains(x),
    ensures
        s.contains(x),
        q.path matches Some(p) ==> on_path(x, p@),
        q.state matches Some(f) ==> in_state(x, f@),
        q.time matches Some(t) ==> duration(t@) is Some && active_within(
            x,
            duration(t@)->0,
            now,
        ),
{
    broadcast use vstd::seq_lib::group_to_multiset_ensures;

    let kept = filtered_by_time(s, q, now)->0;
    let all = by_activity(kept);
    let r = at_most(all, q.count as int);
    assert(all.contains(x)) by {
        let k = r.index_of(x);
        assert(all[k] == x);
    }
    law_sorted_by(kept, |y: Session| y.key());
    assert(kept.to_multiset().contains(x));
    let on = match q.path {
        Some(p) => s.filter(|y: Session| on_path(y, p@)),
        None => s,
    };
    match q.time {
        Some(t) => {
            let secs = duration(t@)->0;
            lemma_filter_from(filtered(s, q), |y: Session| active_within(y, secs, now), x);
        },
        None => {},
    }
    match q.state {
        Some(f) => {
            lemma_filter_from(on, |y: Session| in_state(y, f@), x);
        },
        None => {},
    }
    match q.path {
        Some(p) => {
            lemma_filter_from(s, |y: Session| on_path(y, p@), x);
        },
        None => {},
    }
}

/// What is selected is the most recent: no more sessions than asked for, the most recent first, and
/// no session that passes the filters and is left out is more recent than one that is selected.
pub proof fn law_selected_are_most_recent(s: Seq<Session>, q: Query, now: Moment)
    requires
        selected(s, q, now) is Some,
    ensures
        ({
            let r = selected(s, q, now)->0;
            let all = by_activity(filtered_by_time(s, q, now)->0);
            &&& r.len() <= q.count
            &&& r.len() < q.count ==> r == all
            &&& r.is_prefix_of(all)
            &&& all.to_multiset() == (filtered_by_time(s, q, now)->0).to_multiset()
            &&& forall|i: int, j: int|
                0 <= i <= j < all.len() ==> (#[trigger] all[i]).active_at()@.rank() >= (
                #[trigger] all[j]).active_at()@.rank()
        }),
{
    let kept = filtered_by_time(s, q, now)->0;
    let key = |y: Session| y.key();
    law_sorted_by(kept, key);
    let all = by_activity(kept);
    assert forall|i: int, j: int| 0 <= i <= j < all.len() implies (
    #[trigger] all[i]).active_at()@.rank() >= (#[trigger] all[j]).active_at()@.rank() by {
        assert(key(all[i]) <= key(all[j]));
    }
}

/// When a session was last active, or started where no activity is known.
pub open spec fn last_seen(s: Session) -> Moment {
    match s.last_activity {
        Some(t) => t@,
        None => s.started_at@,
    }
}

/// Whether a working session with a label is asked for by a filter, the filter in lower case: by one
/// of the words for working sessions, or by a part of its label.
pub open spec fn is_working_for(name: Seq<char>, f: Seq<char>) -> bool {
    ||| f == "working"@
    ||| f == "thinking"@
    ||| f == "responding"@
    ||| f == "tool"@
    ||| contains_text(lowercase(name), f)
}

/// Whether a session's state is asked for by a filter, the filter in lower case.
pub open spec fn is_asked_for(state: SessionState, f: Seq<char>) -> bool {
    match state {
        SessionState::Idle => f == "idle"@,
        SessionState::Thinking => is_working_for("THINKING"@, f),
        SessionState::Responding => is_working_for("RESPONDING"@, f),
        SessionState::Tool(name) => is_working_for("TOOL:"@ + name@, f),
        SessionState::Plan => f == "planned"@ || f == "plan"@ || f == "waiting"@,
        SessionState::Asking => f == "asking"@ || f == "waiting"@,
        SessionState::Exited => f == "exited"@,
    }
}

/// Whether a session is one that a query asks for: on the path, in the state and active within the
/// time that it asks for, as far as it does.
pub open spec fn answers(x: Session, q: Query, now: Moment) -> bool {
    &&& q.path matches Some(p) ==> contains_text(lowercase(x.cwd@), lowercase(p@))
    &&& q.state matches Some(f) ==> is_asked_for(x.state, lowercase(f@))
    &&& q.time matches Some(t) ==> duration(t@) matches Some(secs) && elapsed_secs(now, last_seen(x))
        <= secs
}

/// Which state a filter asks for, whatever the filter and the state are.
pub proof fn law_states_asked_for(x: Session, f: Seq<char>)
    ensures
        in_state(x, f) <==> is_asked_for(x.state, lowercase(f)),
{
}

/// Only a time that is no duration leaves a query without an answer.
pub proof fn law_only_invalid_time_is_refused(s: Seq<Session>, q: Query, now: Moment)
    ensures
        selected(s, q, now) is None <==> (q.time matches Some(t) && duration(t@) is None),
{
}

proof fn lemma_filter_all<T>(s: Seq<T>, pred: spec_fn(T) -> bool, x: T)
    requires
        s.contains(x),
        pred(x),
    ensures
        s.filter(pred).contains(x),
{
    s.lemma_filter_contains(pred, s.index_of(x));
}

proof fn lemma_kept(s: Seq<Session>, q: Query, now: Moment, x: Session)
    requires
        s.contains(x),
        answers(x, q, now),
    ensures
        filtered_by_time(s, q, now) matches Some(kept) && kept.contains(x),
{
    let on = match q.path {
        Some(p) => s.filter(|y: Session| on_path(y, p@)),
        None => s,
    };
    match q.path {
        Some(p) => {
            lemma_filter_all(s, |y: Session| on_path(y, p@), x);
        },
        None => {},
    }
    match q.state {
        Some(f) => {
            law_states_asked_for(x, f@);
            lemma_filter_all(on, |y: Session| in_state(y, f@), x);
        },
        None => {},
    }
    match q.time {
        Some(t) => {
            let secs = duration(t@)->0;
            lemma_filter_all(filtered(s, q), |y: Session| active_within(y, secs, now), x);
        },
        None => {},
    }
}

/// The selection is complete: every given session that the query asks for is selected, unless as many
/// as asked for are selected that were last active no earlier.
pub proof fn law_selection_is_complete(s: Seq<Session>, q: Query, now: Moment, x: Session)
    requires
        s.contains(x),
        answers(x, q, now),
    ensures
        selected(s, q, now) matches Some(r) && (r.contains(x) || (r.len() == q.count && forall|i: int|
            0 <= i < r.len() ==> last_seen(#[trigger] r[i]).rank() >= last_seen(x).rank())),
{
    broadcast use vstd::seq_lib::group_to_multiset_ensures;

    lemma_kept(s, q, now, x);
    let kept = filtered_by_time(s, q, now)->0;
    let key = |y: Session| y.key();
    law_sorted_by(kept, key);
    let all = by_activity(kept);
    assert(kept.to_multiset().contains(x));
    assert(all.to_multiset().contains(x));
    let k = all.index_of(x);
    let r = at_most(all, q.count as int);
    if k < r.len() {
        assert(r[k] == x);
    } else {
        assert forall|i: int| 0 <= i < r.len() implies last_seen(#[trigger] r[i]).rank() >= last_seen(
            x,
        ).rank() by {
            assert(r[i] == all[i]);
            assert(key(all[i]) <= key(all[k]));
        }
    }
}

/// The selection holds nothing but given sessions that the query asks for.
pub proof fn law_selection_is_sound(s: Seq<Session>, q: Query, now: Moment, x: Session)
    requires
        selected(s, q, now) matches Some(r) && r.contains(x),
    ensures
        s.contains(x),
        answers(x, q, now),
{
    law_selected_pass_filters(s, q, now, x);
    match q.state {
        Some(f) => law_states_asked_for(x, f@),
        None => {},
    }
}

/// The selection has the most recent activity first, and no more sessions than asked for: as many, or
/// all that there are.
pub proof fn law_selection_is_in_order(s: Seq<Session>, q: Query, now: Moment, i: int, j: int)
    requires
        selected(s, q, now) matches Some(r) && 0 <= i <= j < r.len(),
    ensures
        (selected(s, q, now)->0).len() <= q.count,
        last_seen((selected(s, q, now)->0)[i]).rank() >= last_seen(
            (selected(s, q, now)->0)[j],
        ).rank(),
{
    law_selected_are_most_recent(s, q, now);
    let r = selected(s, q, now)->0;
    let all = by_activity(filtered_by_time(s, q, now)->0);
    assert(r[i] == all[i] && r[j] == all[j]);
}

proof fn lemma_filter_push_two<T>(s: Seq<T>, x: T, pred: spec_fn(T) -> bool)
    ensures
        s.push(x).filter(pred) == (if pred(x) {
            s.filter(pred).push(x)
        } else {
            s.filter(pred)
        }),
{
    s.lemma_filter_push(x, pred);
}

/// One session more that the query asks for is one more to select from, and one that it does not ask
/// for changes nothing.
pub proof fn law_one_session_more_to_select_from(s: Seq<Session>, x: Session, q: Query, now: Moment)
    requires
        q.time matches Some(t) ==> duration(t@) is Some,
    ensures
        filtered_by_time(s, q, now) is Some,
        filtered_by_time(Seq::empty(), q, now) == Some(Seq::<Session>::empty()),
        filtered_by_time(s.push(x), q, now) == Some(
            if answers(x, q, now) {
                (filtered_by_time(s, q, now)->0).push(x)
            } else {
                filtered_by_time(s, q, now)->0
            },
        ),
{
    let on = match q.path {
        Some(p) => s.filter(|y: Session| on_path(y, p@)),
        None => s,
    };
    assert(filtered_by_time(Seq::empty(), q, now)->0 =~= Seq::<Session>::empty()) by {
        reveal(Seq::filter);
    }
    match q.path {
        Some(p) => {
            lemma_filter_push_two(s, x, |y: Session| on_path(y, p@));
        },
        None => {},
    }
    match q.state {
        Some(f) => {
            law_states_asked_for(x, f@);
            lemma_filter_push_two(on, x, |y: Session| in_state(y, f@));
        },
        None => {},
    }
    match q.time {
        Some(t) => {
            let secs = duration(t@)->0;
            lemma_filter_push_two(filtered(s, q), x, |y: Session| active_within(y, secs, now));
        },
        None => {},
    }
}

/// The selection is the beginning of all sessions that are asked for, in the order of their last
/// activity: as many as asked for, or all. Those that were last active at one time stay in the order
/// in which they were given.
pub proof fn law_selection_is_the_beginning(s: Seq<Session>, q: Query, now: Moment, k: int)
    requires
        selected(s, q, now) is Some,
    ensures
        ({
            let kept = filtered_by_time(s, q, now)->0;
            let all = by_activity(kept);
            let r = selected(s, q, now)->0;
            let rank = |x: Session| last_seen(x).rank();
            &&& r.len() == (if q.count < kept.len() {
                q.count as int
            } else {
                kept.len() as int
            })
            &&& all.len() == kept.len()
            &&& r == all.take(r.len() as int)
            &&& all.filter(has_key(rank, k)) == kept.filter(has_key(rank, k))
        }),
{
    let kept = filtered_by_time(s, q, now)->0;
    let key = |x: Session| x.key();
    let rank = |x: Session| last_seen(x).rank();
    let all = by_activity(kept);
    let r = selected(s, q, now)->0;
    law_sorted_by(kept, key);
    law_sorted_by_stable(kept, key, -k);
    assert(has_key(rank, k) =~= has_key(key, -k));
    assert(r =~= all.take(r.len() as int));
}

/// Names are shown that have at most forty bytes, or are cut between two characters.
pub proof fn law_names_that_can_be_shown(s: Seq<Session>)
    ensures
        all_can_be_cut(s) <==> forall|i: int|
            #![trigger s[i]]
            0 <= i < s.len() && s[i].name is Some ==> encode_utf8(s[i].name->0@).len() <= 40
                || is_char_boundary(encode_utf8(s[i].name->0@), 37),
{
}

/// Without sessions the answer says so, as JSON by an empty array.
pub proof fn law_report_of_no_sessions(json: bool, now: Moment, home: Seq<char>, r: Seq<Seq<char>>)
    requires
        is_report(Seq::empty(), json, now, home, r),
    ensures
        r.len() == 1,
        json ==> r[0] == "[]"@,
        !json ==> r[0] == "No sessions found."@,
{
}

/// As JSON the answer is one text, of an object for each session in the order of the selection.
pub proof fn law_report_as_json(s: Seq<Session>, now: Moment, home: Seq<char>, r: Seq<Seq<char>>)
    requires
        s.len() > 0,
        is_report(s, true, now, home, r),
    ensures
        r.len() == 1,
        r[0] == json_pretty(Seq::new(s.len(), |i: int| session_object(s[i], now, home))),
{
    assert(session_objects(s, now, home) =~= Seq::new(
        s.len(),
        |i: int| session_object(s[i], now, home),
    ));
}

/// As a tree the answer has a line for each session, in which the row of the session stands: every
/// session has one, each in front of those below it.
pub proof fn law_report_as_tree(
    s: Seq<Session>,
    now: Moment,
    home: Seq<char>,
    r: Seq<Seq<char>>,
) -> (rows: Seq<Row>)
    requires
        s.len() > 0,
        is_report(s, false, now, home, r),
    ensures
        r.len() == s.len(),
        rows.len() == s.len(),
        preorder(session_forest(s)).to_multiset() == s.to_multiset(),
        preorder(session_forest(s)).len() == s.len(),
        r == table_lines(rows),
        forall|i: int|
            #![trigger rows[i]]
            0 <= i < s.len() ==> {
                let x = preorder(session_forest(s))[i];
                &&& rows[i].state_plain@ == label(x.state@)
                &&& rows[i].activity@ == relative(elapsed_secs(now, last_seen(x)))
                &&& rows[i].started@ == clock(x.started_at@)
                &&& x.name is None ==> rows[i].name@.len() == 0
                &&& x.name matches Some(n) ==> rows[i].name@ == "  ["@ + shown_name(n@) + "]"@
            },
{
    broadcast use vstd::seq_lib::group_to_multiset_ensures;

    let trees = session_forest(s);
    let contents = forest_rows(trees, now, home);
    let rows = choose|rows: Seq<Row>| #[trigger]
        rows_show(rows, contents) && r == table_lines(rows);
    law_every_session_has_a_row(s, now, home);
    let order = preorder(trees);
    assert(order.len() == s.len()) by {
        assert(order.to_multiset().len() == order.len());
        assert(s.to_multiset().len() == s.len());
    }
    assert forall|i: int| 0 <= i < s.len() implies {
        let x = order[i];
        &&& (#[trigger] rows[i]).state_plain@ == label(x.state@)
        &&& rows[i].activity@ == relative(elapsed_secs(now, last_seen(x)))
        &&& rows[i].started@ == clock(x.started_at@)
        &&& x.name is None ==> rows[i].name@.len() == 0
        &&& x.name matches Some(n) ==> rows[i].name@ == "  ["@ + shown_name(n@) + "]"@
    } by {
        law_row_shows_its_session(trees, now, home, i);
        law_texts_of_a_row(rows[i], contents[i]);
    }
    rows
}

} // verus!
