//! Colours for terminals, and the labels of session states.

use crate::session::{SessionState, SessionStateView};
use colored::Colorize;
use vstd::prelude::*;

verus! {

/// The escape sequence that ends all styles.
pub open spec fn reset() -> Seq<char> {
    seq!['\u{1b}', '[', '0', 'm']
}

/// The escape sequence that begins the style of a code.
pub open spec fn style(code: Seq<char>) -> Seq<char> {
    seq!['\u{1b}', '['] + code + seq!['m']
}

/// A text in which the style begins anew after every sequence that ends all styles.
pub open spec fn restyled(s: Seq<char>, begin: Seq<char>) -> Seq<char>
    decreases s.len(),
{
    if s.len() == 0 {
        s
    } else if reset().is_prefix_of(s) {
        reset() + begin + restyled(s.skip(4), begin)
    } else {
        seq![s[0]] + restyled(s.drop_first(), begin)
    }
}

/// Whether a text has been painted in the style of a code. Where colours are off it is the text
/// itself, else the text between the sequences that begin and end the style. Whether they are off is
/// asked anew for each part, and an override may be set in between: the sequence that begins the
/// style may then be missing, in front or behind the sequences within the text.
pub open spec fn painted(s: Seq<char>, code: Seq<char>, out: Seq<char>) -> bool {
    let begin = style(code);
    ||| out == s
    ||| out == begin + restyled(s, begin) + reset()
    ||| out == begin + s + reset()
    ||| out == restyled(s, begin) + reset()
    ||| out == s + reset()
}

/// Calls `Colorize::green` of colored and writes the result out: green, or plain where the
/// environment, the terminal or an override turns colours off.
#[verifier::external_body]
fn paint_green(s: &str) -> (r: String)
    ensures
        painted(s@, "32"@, r@),
{
    s.green().to_string()
}

/// Calls `Colorize::yellow` and `Colorize::bold` of colored and writes the result out: bold yellow,
/// or plain where the environment, the terminal or an override turns colours off.
#[verifier::external_body]
fn paint_yellow_bold(s: &str) -> (r: String)
    ensures
        painted(s@, "1;33"@, r@),
{
    s.yellow().bold().to_string()
}

/// Calls `Colorize::cyan` of colored and writes the result out: cyan, or plain where the
/// environment, the terminal or an override turns colours off.
#[verifier::external_body]
fn paint_cyan(s: &str) -> (r: String)
    ensures
        painted(s@, "36"@, r@),
{
    s.cyan().to_string()
}

/// Calls `Colorize::blue` of colored and writes the result out: blue, or plain where the
/// environment, the terminal or an override turns colours off.
#[verifier::external_body]
fn paint_blue(s: &str) -> (r: String)
    ensures
        painted(s@, "34"@, r@),
{
    s.blue().to_string()
}

/// Calls `Colorize::dimmed` of colored and writes the result out: dimmed, or plain where the
/// environment, the terminal or an override turns colours off.
#[verifier::external_body]
pub(crate) fn paint_dimmed(s: &str) -> (r: String)
    ensures
        painted(s@, "2"@, r@),
{
    s.dimmed().to_string()
}

/// The label of a state.
pub open spec fn label(state: SessionStateView) -> Seq<char> {
    match state {
        SessionStateView::Idle => "IDLE"@,
        SessionStateView::Thinking => "THINKING"@,
        SessionStateView::Responding => "RESPONDING"@,
        SessionStateView::Plan => "PLANNED"@,
        SessionStateView::Asking => "ASKING"@,
        SessionStateView::Tool(name) => "TOOL:"@ + name,
        SessionStateView::Exited => "EXITED"@,
    }
}

/// The code of a state's style.
pub open spec fn label_code(state: SessionStateView) -> Seq<char> {
    match state {
        SessionStateView::Idle => "32"@,
        SessionStateView::Thinking => "1;33"@,
        SessionStateView::Responding => "1;33"@,
        SessionStateView::Plan => "36"@,
        SessionStateView::Asking => "36"@,
        SessionStateView::Tool(_) => "34"@,
        SessionStateView::Exited => "2"@,
    }
}

/// The label of a state.
pub fn state_label_plain(state: &SessionState) -> (r: String)
    ensures
        r@ == label(state@),
{
    match state {
        SessionState::Idle => "IDLE".to_string(),
        SessionState::Thinking => "THINKING".to_string(),
        SessionState::Responding => "RESPONDING".to_string(),
        SessionState::Plan => "PLANNED".to_string(),
        SessionState::Asking => "ASKING".to_string(),
        SessionState::Tool(name) => "TOOL:".to_string().concat(name.as_str()),
        SessionState::Exited => "EXITED".to_string(),
    }
}

/// The label of a state in the state's style.
pub fn state_label_colored(state: &SessionState) -> (r: String)
    ensures
        painted(label(state@), label_code(state@), r@),
{
    match state {
        SessionState::Idle => paint_green("IDLE"),
        SessionState::Thinking => paint_yellow_bold("THINKING"),
        SessionState::Responding => paint_yellow_bold("RESPONDING"),
        SessionState::Plan => paint_cyan("PLANNED"),
        SessionState::Asking => paint_cyan("ASKING"),
        SessionState::Tool(name) => paint_blue("TOOL:".to_string().concat(name.as_str()).as_str()),
        SessionState::Exited => paint_dimmed("EXITED"),
    }
}

proof fn lemma_initials(state: SessionStateView)
    ensures
        label(state).len() >= 2,
        label(state).take(2) == (match state {
            SessionStateView::Idle => seq!['I', 'D'],
            SessionStateView::Thinking => seq!['T', 'H'],
            SessionStateView::Responding => seq!['R', 'E'],
            SessionStateView::Plan => seq!['P', 'L'],
            SessionStateView::Asking => seq!['A', 'S'],
            SessionStateView::Tool(_) => seq!['T', 'O'],
            SessionStateView::Exited => seq!['E', 'X'],
        }),
        state matches SessionStateView::Tool(name) ==> label(state).skip(5) == name,
{
    reveal_strlit("IDLE");
    reveal_strlit("THINKING");
    reveal_strlit("RESPONDING");
    reveal_strlit("PLANNED");
    reveal_strlit("ASKING");
    reveal_strlit("TOOL:");
    reveal_strlit("EXITED");
}

/// No two states share a label.
pub proof fn law_labels_differ(a: SessionStateView, b: SessionStateView)
    requires
        label(a) == label(b),
    ensures
        a == b,
{
    lemma_initials(a);
    lemma_initials(b);
    let initials = label(a).take(2);
    assert(initials[0] == label(a)[0] && initials[1] == label(a)[1]);
}

/// Whether a character may stand in the code of a style.
pub open spec fn in_code(c: char) -> bool {
    ('0' <= c && c <= '9') || c == ';'
}

/// Where the code ends that begins at `from`.
pub open spec fn code_end(s: Seq<char>, from: int) -> int
    decreases s.len() - from,
{
    if 0 <= from < s.len() && in_code(s[from]) {
        code_end(s, from + 1)
    } else {
        from
    }
}

/// How many characters the escape sequence has that a text begins with; zero where it begins with
/// none.
pub open spec fn escape_len(s: Seq<char>) -> int {
    let end = code_end(s, 2);
    if s.len() > 2 && s[0] == '\u{1b}' && s[1] == '[' && 2 <= end < s.len() && s[end] == 'm' {
        end + 1
    } else {
        0
    }
}

/// A text without its escape sequences.
pub open spec fn unpainted(s: Seq<char>) -> Seq<char>
    decreases s.len(),
{
    if s.len() == 0 {
        s
    } else if 0 < escape_len(s) <= s.len() {
        unpainted(s.skip(escape_len(s)))
    } else {
        seq![s[0]] + unpainted(s.drop_first())
    }
}

proof fn lemma_code_end(s: Seq<char>, from: int)
    requires
        0 <= from <= s.len(),
    ensures
        from <= code_end(s, from) <= s.len(),
        forall|i: int| from <= i < code_end(s, from) ==> in_code(#[trigger] s[i]),
        code_end(s, from) < s.len() ==> !in_code(s[code_end(s, from)]),
    decreases s.len() - from,
{
    if from < s.len() && in_code(s[from]) {
        lemma_code_end(s, from + 1);
    }
}

proof fn lemma_code_end_is(s: Seq<char>, from: int, end: int)
    requires
        0 <= from <= end <= s.len(),
        forall|i: int| from <= i < end ==> in_code(#[trigger] s[i]),
        end < s.len() ==> !in_code(s[end]),
    ensures
        code_end(s, from) == end,
    decreases end - from,
{
    if from < end {
        lemma_code_end_is(s, from + 1, end);
    }
}

proof fn lemma_unpainted_style(code: Seq<char>, rest: Seq<char>)
    requires
        forall|i: int| 0 <= i < code.len() ==> in_code(#[trigger] code[i]),
    ensures
        unpainted(style(code) + rest) == unpainted(rest),
{
    let s = style(code) + rest;
    assert forall|i: int| 2 <= i < 2 + code.len() implies in_code(#[trigger] s[i]) by {
        assert(s[i] == code[i - 2]);
    }
    lemma_code_end_is(s, 2, 2 + code.len() as int);
    assert(s.skip(escape_len(s)) =~= rest);
}

proof fn lemma_unpainted_reset(rest: Seq<char>)
    ensures
        unpainted(reset() + rest) == unpainted(rest),
{
    lemma_unpainted_style(seq!['0'], rest);
    assert(style(seq!['0']) =~= reset());
}

/// An escape sequence does not reach into a text that begins with another.
proof fn lemma_unpainted_add(a: Seq<char>, b: Seq<char>)
    requires
        b.len() > 0 ==> b[0] == '\u{1b}',
    ensures
        unpainted(a + b) == unpainted(a) + unpainted(b),
    decreases a.len(),
{
    if a.len() == 0 {
        assert(a + b =~= b);
        assert(unpainted(a) + unpainted(b) =~= unpainted(b));
    } else if b.len() == 0 {
        assert(a + b =~= a);
        assert(unpainted(a) + unpainted(b) =~= unpainted(a));
    } else {
        let all = a + b;
        if a.len() > 2 {
            let end = code_end(a, 2);
            lemma_code_end(a, 2);
            assert forall|i: int| 2 <= i < end implies in_code(#[trigger] all[i]) by {
                assert(all[i] == a[i]);
            }
            lemma_code_end_is(all, 2, end);
        } else if a.len() == 2 {
            lemma_code_end_is(all, 2, 2);
        }
        assert(escape_len(all) == escape_len(a));
        let n = escape_len(a);
        if n > 0 {
            assert(all.skip(n) =~= a.skip(n) + b);
            lemma_unpainted_add(a.skip(n), b);
        } else {
            assert(all.drop_first() =~= a.drop_first() + b);
            lemma_unpainted_add(a.drop_first(), b);
            assert(seq![a[0]] + (unpainted(a.drop_first()) + unpainted(b)) =~= (seq![a[0]]
                + unpainted(a.drop_first())) + unpainted(b));
        }
    }
}

/// Where the next escape character stands at or behind `from`, or the length where there is none.
spec fn next_escape(s: Seq<char>, from: int) -> int
    decreases s.len() - from,
{
    if from >= s.len() || s[from] == '\u{1b}' {
        from
    } else {
        next_escape(s, from + 1)
    }
}

proof fn lemma_next_escape(s: Seq<char>, from: int)
    requires
        0 <= from <= s.len(),
    ensures
        from <= next_escape(s, from) <= s.len(),
        forall|i: int| from <= i < next_escape(s, from) ==> s[i] != '\u{1b}',
        next_escape(s, from) < s.len() ==> s[next_escape(s, from)] == '\u{1b}',
    decreases s.len() - from,
{
    if from < s.len() && s[from] != '\u{1b}' {
        lemma_next_escape(s, from + 1);
    }
}

/// A style begins anew only behind a sequence that ends all styles.
proof fn lemma_restyled_plain(a: Seq<char>, b: Seq<char>, begin: Seq<char>)
    requires
        forall|i: int| 0 <= i < a.len() ==> a[i] != '\u{1b}',
    ensures
        restyled(a + b, begin) == a + restyled(b, begin),
    decreases a.len(),
{
    if a.len() == 0 {
        assert(a + b =~= b);
        assert(a + restyled(b, begin) =~= restyled(b, begin));
    } else {
        assert((a + b)[0] == a[0]);
        assert((a + b).drop_first() =~= a.drop_first() + b);
        lemma_restyled_plain(a.drop_first(), b, begin);
        assert(seq![a[0]] + (a.drop_first() + restyled(b, begin)) =~= a + restyled(b, begin));
    }
}

proof fn lemma_unpainted_restyled(s: Seq<char>, code: Seq<char>)
    requires
        forall|i: int| 0 <= i < code.len() ==> in_code(#[trigger] code[i]),
    ensures
        unpainted(restyled(s, style(code))) == unpainted(s),
    decreases s.len(),
{
    let begin = style(code);
    if s.len() == 0 {
    } else if reset().is_prefix_of(s) {
        let rest = s.skip(4);
        assert(s =~= reset() + rest);
        lemma_unpainted_reset(rest);
        assert(restyled(s, begin) =~= reset() + (begin + restyled(rest, begin)));
        lemma_unpainted_reset(begin + restyled(rest, begin));
        lemma_unpainted_style(code, restyled(rest, begin));
        lemma_unpainted_restyled(rest, code);
    } else {
        let end = next_escape(s, 1);
        lemma_next_escape(s, 1);
        let a = s.subrange(1, end);
        let b = s.skip(end);
        let first = seq![s[0]];
        assert(s.drop_first() =~= a + b);
        lemma_restyled_plain(a, b, begin);
        assert(restyled(s, begin) =~= (first + a) + restyled(b, begin));
        assert(s =~= (first + a) + b);
        lemma_unpainted_restyled(b, code);
        lemma_unpainted_add(first + a, restyled(b, begin));
        lemma_unpainted_add(first + a, b);
    }
}

proof fn lemma_unpainted_plain(s: Seq<char>)
    requires
        forall|i: int| 0 <= i < s.len() ==> s[i] != '\u{1b}',
    ensures
        unpainted(s) == s,
    decreases s.len(),
{
    if s.len() > 0 {
        lemma_unpainted_plain(s.drop_first());
        assert(seq![s[0]] + s.drop_first() =~= s);
    }
}

/// Painting adds escape sequences and nothing else: without them a painted label is the plain label.
/// A label that has some of its own, in the name of a tool, loses those as well.
pub proof fn law_painted_label_reads_plain(state: SessionStateView, out: Seq<char>)
    requires
        painted(label(state), label_code(state), out),
    ensures
        unpainted(out) == unpainted(label(state)),
        (forall|i: int| 0 <= i < label(state).len() ==> label(state)[i] != '\u{1b}') ==> unpainted(out)
            == label(state),
{
    let s = label(state);
    let code = label_code(state);
    reveal_strlit("32");
    reveal_strlit("1;33");
    reveal_strlit("36");
    reveal_strlit("34");
    reveal_strlit("2");
    lemma_unpainted_restyled(s, code);
    let begin = style(code);
    let inner = restyled(s, begin);
    lemma_unpainted_reset(Seq::empty());
    assert(reset() + Seq::<char>::empty() =~= reset());
    lemma_unpainted_style(code, inner + reset());
    lemma_unpainted_style(code, s + reset());
    lemma_unpainted_add(inner, reset());
    lemma_unpainted_add(s, reset());
    assert(begin + inner + reset() =~= begin + (inner + reset()));
    assert(begin + s + reset() =~= begin + (s + reset()));
    assert(unpainted(inner) + Seq::<char>::empty() =~= unpainted(inner));
    assert(unpainted(s) + Seq::<char>::empty() =~= unpainted(s));
    if forall|i: int| 0 <= i < s.len() ==> s[i] != '\u{1b}' {
        lemma_unpainted_plain(s);
    }
}

/// The labels of the states, with a tool's name in full.
pub proof fn law_labels_of_states(name: Seq<char>)
    ensures
        label(SessionStateView::Idle) == "IDLE"@,
        label(SessionStateView::Thinking) == "THINKING"@,
        label(SessionStateView::Responding) == "RESPONDING"@,
        label(SessionStateView::Plan) == "PLANNED"@,
        label(SessionStateView::Asking) == "ASKING"@,
        label(SessionStateView::Tool(name)) == "TOOL:"@ + name,
        label(SessionStateView::Exited) == "EXITED"@,
{
}

/// The styles of the states: green, bold yellow, cyan, blue and dimmed, of a tool whatever its name.
pub proof fn law_styles_of_states(name: Seq<char>)
    ensures
        label_code(SessionStateView::Idle) == "32"@,
        label_code(SessionStateView::Thinking) == "1;33"@,
        label_code(SessionStateView::Responding) == "1;33"@,
        label_code(SessionStateView::Plan) == "36"@,
        label_code(SessionStateView::Asking) == "36"@,
        label_code(SessionStateView::Tool(name)) == "34"@,
        label_code(SessionStateView::Exited) == "2"@,
{
}

} // verus!
