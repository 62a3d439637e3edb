//! Sessions written out: as an aligned tree for a terminal, or as JSON.

use crate::forest::{
    law_every_session_once, law_preorder_has_all, lemma_sessions_in_one, lemma_sessions_of_part,
    nested, preorder, sessions_in,
};
use crate::json::{json_pretty, members_view, objects_view, text_view, to_json_pretty, Members};
use crate::paint::{label, label_code, paint_dimmed, painted, state_label_colored, state_label_plain};
use crate::session::{Session, SessionStateView};
use crate::text::{
    byte_count, byte_len, chars_of, lemma_encode_add, push_spaces, spaces, starts_with, text_of,
    texts,
};
use crate::time::{
    clock, clock_text, elapsed_secs, format_relative, relative, rfc3339_text, seconds_since,
    to_rfc3339, Moment, Timestamp,
};
use crate::tree::{below, forest, law_longer_path_lies_below, session_forest, Tree, TreeNode};
use vstd::prelude::*;
use vstd::utf8::*;

verus! {

/// A path in which `~` stands for the home directory that it begins with.
pub open spec fn shortened(path: Seq<char>, home: Seq<char>) -> Seq<char> {
    if home.is_prefix_of(path) {
        "~"@ + path.skip(home.len() as int)
    } else {
        path
    }
}

/// A path in which `~` stands for the home directory that it begins with.
pub fn shorten_home(path: &str, home: &str) -> (r: String)
    ensures
        r@ == shortened(path@, home@),
{
    if starts_with(path, home) {
        let p = chars_of(path);
        let h = chars_of(home);
        let rest = text_of(&p, h.len(), p.len());
        assert(rest@ =~= path@.skip(home@.len() as int));
        "~".to_string().concat(rest.as_str())
    } else {
        path.to_string()
    }
}

/// The longest name that is shown whole, in bytes.
pub const NAME_BYTES: usize = 40;

/// How many bytes of a longer name are shown.
pub const CUT_BYTES: usize = 37;

/// Whether a name can be shown: a long one is cut between two characters.
pub open spec fn can_cut(name: Option<String>) -> bool {
    match name {
        Some(n) => byte_count(n@) <= NAME_BYTES || is_char_boundary(
            encode_utf8(n@),
            CUT_BYTES as int,
        ),
        None => true,
    }
}

/// Whether a name can be shown.
pub fn name_can_be_cut(name: &Option<String>) -> (r: bool)
    ensures
        r == can_cut(*name),
{
    match name {
        Some(n) => byte_len(n.as_str()) <= NAME_BYTES || n.as_str().is_char_boundary(CUT_BYTES),
        None => true,
    }
}

/// A name as it is shown: a long one is cut, and dots stand for the rest.
pub open spec fn shown_name(name: Seq<char>) -> Seq<char> {
    if byte_count(name) > NAME_BYTES {
        decode_utf8(encode_utf8(name).subrange(0, CUT_BYTES as int)) + "..."@
    } else {
        name
    }
}

/// A name as it is shown.
pub fn truncate_name(name: &String) -> (r: String)
    requires
        byte_count(name@) > NAME_BYTES ==> is_char_boundary(encode_utf8(name@), CUT_BYTES as int),
    ensures
        r@ == shown_name(name@),
{
    if byte_len(name.as_str()) > NAME_BYTES {
        let (head, _) = name.as_str().split_at(CUT_BYTES);
        proof {
            encode_utf8_decode_utf8(head@);
        }
        head.to_string().concat("...")
    } else {
        name.clone()
    }
}

/// A row of the table, with its texts both plain and coloured.
pub struct Row {
    /// The lines that connect the row with the one above it.
    pub prefix: String,
    pub state_plain: String,
    pub state_colored: String,
    pub cwd: String,
    /// The name in brackets, or nothing.
    pub name: String,
    pub name_colored: String,
    pub activity: String,
    pub started: String,
}

/// What a row shows.
pub struct RowContent {
    pub prefix: Seq<char>,
    pub state: SessionStateView,
    pub cwd: Seq<char>,
    pub name: Option<Seq<char>>,
    pub activity: Seq<char>,
    pub started: Seq<char>,
}

/// A name in brackets.
pub open spec fn bracketed(name: Seq<char>) -> Seq<char> {
    "  ["@ + name + "]"@
}

/// Whether two texts show a name, plain and with the name itself dimmed. Both are empty where there
/// is no name.
pub open spec fn shows_name(name: Option<Seq<char>>, plain: Seq<char>, colored: Seq<char>) -> bool {
    match name {
        Some(n) => {
            &&& plain == bracketed(n)
            &&& exists|dimmed: Seq<char>| #[trigger]
                painted(n, "2"@, dimmed) && colored == bracketed(dimmed)
        },
        None => plain.len() == 0 && colored.len() == 0,
    }
}

impl Row {
    /// Whether a row shows the given content.
    pub open spec fn shows(self, c: RowContent) -> bool {
        &&& self.prefix@ == c.prefix
        &&& self.state_plain@ == label(c.state)
        &&& painted(label(c.state), label_code(c.state), self.state_colored@)
        &&& self.cwd@ == c.cwd
        &&& shows_name(c.name, self.name@, self.name_colored@)
        &&& self.activity@ == c.activity
        &&& self.started@ == c.started
    }
}

/// Whether rows show the given contents, one by one.
pub open spec fn rows_show(rows: Seq<Row>, contents: Seq<RowContent>) -> bool {
    &&& rows.len() == contents.len()
    &&& forall|i: int| 0 <= i < rows.len() ==> (#[trigger] rows[i]).shows(contents[i])
}

/// A directory as it is shown: below another one, without as many bytes as the other's path has and
/// one more; else with `~` for the home directory.
pub open spec fn shown_cwd(cwd: Seq<char>, parent: Option<Seq<char>>, home: Seq<char>) -> Seq<char> {
    match parent {
        Some(p) => if byte_count(cwd) > byte_count(p) + 1 {
            decode_utf8(encode_utf8(cwd).skip(byte_count(p) as int + 1))
        } else {
            shortened(cwd, home)
        },
        None => shortened(cwd, home),
    }
}

/// Whether a directory can be shown below another: it is cut between two characters.
pub open spec fn cwd_can_be_cut(cwd: Seq<char>, parent: Seq<char>) -> bool {
    byte_count(cwd) > byte_count(parent) + 1 ==> is_char_boundary(
        encode_utf8(cwd),
        byte_count(parent) as int + 1,
    )
}

/// Whether every directory in a forest can be shown.
pub open spec fn cwds_can_be_cut(trees: Seq<Tree>) -> bool
    decreases trees,
{
    forall|i: int|
        #![trigger trees[i]]
        0 <= i < trees.len() ==> {
            &&& forall|j: int|
                0 <= j < trees[i].children.len() ==> cwd_can_be_cut(
                    (#[trigger] trees[i].children[j]).session.cwd@,
                    trees[i].session.cwd@,
                )
            &&& cwds_can_be_cut(trees[i].children)
        }
}

proof fn lemma_cwds_of_part(trees: Seq<Tree>, i: int)
    requires
        cwds_can_be_cut(trees),
        0 <= i < trees.len(),
    ensures
        cwds_can_be_cut(seq![trees[i]]),
{
    let t = trees[i];
    assert(seq![t][0] == t);
}

/// What the row of a session shows.
pub open spec fn row_content(
    s: Session,
    now: Moment,
    home: Seq<char>,
    prefix: Seq<char>,
    parent: Option<Seq<char>>,
) -> RowContent {
    RowContent {
        prefix,
        state: s.state@,
        cwd: shown_cwd(s.cwd@, parent, home),
        name: match s.name {
            Some(n) => Some(shown_name(n@)),
            None => None,
        },
        activity: relative(elapsed_secs(now, s.active_at()@)),
        started: clock(s.started_at@),
    }
}

/// What connects a row with the one above it: the last one below it, or not.
pub open spec fn connector_text(last: bool) -> Seq<char> {
    if last {
        "\u{2514}\u{2500}\u{2500} "@
    } else {
        "\u{251c}\u{2500}\u{2500} "@
    }
}

/// What stands in front of a row's connector: nothing directly below a root, else what stands in
/// front of the connector above, and a column more.
pub open spec fn child_prefix(prefix: Seq<char>, below_root: bool, last: bool) -> Seq<char> {
    if below_root {
        Seq::empty()
    } else if last {
        prefix + "    "@
    } else {
        prefix + "\u{2502}   "@
    }
}

/// What the rows of a tree show: that of its root, and behind it those of the trees below, in
/// order. `connector` connects the root with the row above it, where there is one.
pub open spec fn tree_rows(
    t: Tree,
    now: Moment,
    home: Seq<char>,
    prefix: Seq<char>,
    connector: Option<Seq<char>>,
    parent: Option<Seq<char>>,
) -> Seq<RowContent>
    decreases t, t.children.len() + 1,
{
    let front = match connector {
        Some(c) => prefix + c,
        None => prefix,
    };
    seq![row_content(t.session, now, home, front, parent)] + child_rows(
        t,
        now,
        home,
        prefix,
        connector,
        t.children.len() as int,
    )
}

/// What the rows of the first `n` trees below a root show.
pub open spec fn child_rows(
    t: Tree,
    now: Moment,
    home: Seq<char>,
    prefix: Seq<char>,
    connector: Option<Seq<char>>,
    n: int,
) -> Seq<RowContent>
    decreases t, n,
{
    if n <= 0 || n > t.children.len() {
        Seq::empty()
    } else {
        let last = n == t.children.len();
        child_rows(t, now, home, prefix, connector, n - 1) + tree_rows(
            t.children[n - 1],
            now,
            home,
            child_prefix(prefix, connector is None, last),
            Some(connector_text(last)),
            Some(t.session.cwd@),
        )
    }
}

/// What the rows of a forest show.
pub open spec fn forest_rows(trees: Seq<Tree>, now: Moment, home: Seq<char>) -> Seq<RowContent>
    decreases trees.len(),
{
    if trees.len() == 0 {
        Seq::empty()
    } else {
        forest_rows(trees.drop_last(), now, home) + tree_rows(
            trees.last(),
            now,
            home,
            Seq::empty(),
            None,
            None,
        )
    }
}

/// Whether every name in a forest can be shown.
pub open spec fn names_can_be_cut(trees: Seq<Tree>) -> bool {
    forall|q: Session| #[trigger] sessions_in(trees).count(q) > 0 ==> can_cut(q.name)
}

/// A text that may be missing, as the contracts see it.
pub open spec fn str_view(s: Option<&str>) -> Option<Seq<char>> {
    match s {
        Some(s) => Some(s@),
        None => None,
    }
}

/// The directory of a session as it is shown.
fn display_cwd(cwd: &str, parent: Option<&str>, home: &str) -> (r: String)
    requires
        parent matches Some(p) ==> cwd_can_be_cut(cwd@, p@),
    ensures
        r@ == shown_cwd(cwd@, str_view(parent), home@),
{
    match parent {
        Some(p) => {
            let len: usize = byte_len(cwd);
            let above: usize = byte_len(p);
            if len > above && len - above > 1 {
                let (_, rest) = cwd.split_at(above + 1);
                proof {
                    encode_utf8_decode_utf8(rest@);
                    assert(encode_utf8(rest@) =~= encode_utf8(cwd@).skip(above + 1));
                }
                return rest.to_string();
            }
        },
        None => {},
    }
    shorten_home(cwd, home)
}

/// The row of a session.
fn session_row(
    sess: &Session,
    now: &Timestamp,
    home_str: &str,
    prefix: String,
    parent_cwd: Option<&str>,
) -> (r: Row)
    requires
        can_cut(sess.name),
        parent_cwd matches Some(p) ==> cwd_can_be_cut(sess.cwd@, p@),
    ensures
        r.shows(row_content(*sess, now@, home_str@, prefix@, str_view(parent_cwd))),
{
    let state_plain = state_label_plain(&sess.state);
    let state_colored = state_label_colored(&sess.state);
    let cwd = display_cwd(sess.cwd.as_str(), parent_cwd, home_str);
    let (name, name_colored) = match &sess.name {
        Some(n) => {
            let truncated = truncate_name(n);
            let dimmed = paint_dimmed(truncated.as_str());
            let plain = "  [".to_string().concat(truncated.as_str()).concat("]");
            let colored = "  [".to_string().concat(dimmed.as_str()).concat("]");
            assert(painted(truncated@, "2"@, dimmed@) && colored@ == bracketed(dimmed@));
            assert(exists|d: Seq<char>| #[trigger]
                painted(truncated@, "2"@, d) && colored@ == bracketed(d));
            (plain, colored)
        },
        None => (String::new(), String::new()),
    };
    let activity = format_relative(seconds_since(now, &sess.activity()));
    let started = clock_text(&sess.started_at);
    Row { prefix, state_plain, state_colored, cwd, name, name_colored, activity, started }
}

/// Appends the rows of a tree. `prefix` and `connector` stand in front of the root's row, and
/// `parent_cwd` is the directory of the session above it.
pub fn collect_rows(
    node: &TreeNode<'_>,
    now: &Timestamp,
    home_str: &str,
    prefix: &str,
    connector: Option<&str>,
    parent_cwd: Option<&str>,
    rows: &mut Vec<Row>,
)
    requires
        cwds_can_be_cut(seq![node.tree()]),
        names_can_be_cut(seq![node.tree()]),
        parent_cwd matches Some(p) ==> cwd_can_be_cut(node.session.cwd@, p@),
    ensures
        final(rows)@.len() >= old(rows)@.len(),
        final(rows)@.take(old(rows)@.len() as int) == old(rows)@,
        rows_show(
            final(rows)@.skip(old(rows)@.len() as int),
            tree_rows(
                node.tree(),
                now@,
                home_str@,
                prefix@,
                str_view(connector),
                str_view(parent_cwd),
            ),
        ),
    decreases node.tree(),
{
    let ghost t = node.tree();
    let ghost start = rows@.len() as int;
    let sess = node.session;
    proof {
        assert(seq![t][0] == t);
        lemma_sessions_of_part(seq![t], 0, t.session);
    }
    let full_prefix = match connector {
        Some(c) => prefix.to_string().concat(c),
        None => prefix.to_string(),
    };
    let row = session_row(sess, now, home_str, full_prefix, parent_cwd);
    rows.push(row);
    let child_count: usize = node.children.len();
    let mut ci: usize = 0;
    let ghost root = row_content(*sess, now@, home_str@, full_prefix@, str_view(parent_cwd));
    assert(rows@.take(start) =~= old(rows)@);
    assert(rows_show(rows@.skip(start), seq![root] + child_rows(t, now@, home_str@, prefix@, str_view(connector), 0)));
    while ci < child_count
        invariant
            ci <= child_count,
            child_count == node.children@.len(),
            t == node.tree(),
            *sess == *node.session,
            cwds_can_be_cut(seq![t]),
            names_can_be_cut(seq![t]),
            start == old(rows)@.len(),
            rows@.len() >= start,
            rows@.take(start) == old(rows)@,
            rows_show(
                rows@.skip(start),
                seq![root] + child_rows(
                    t,
                    now@,
                    home_str@,
                    prefix@,
                    str_view(connector),
                    ci as int,
                ),
            ),
        decreases child_count - ci,
    {
        let is_last = ci == child_count - 1;
        let child_connector = if is_last {
            "\u{2514}\u{2500}\u{2500} "
        } else {
            "\u{251c}\u{2500}\u{2500} "
        };
        let inner_prefix = if connector.is_some() {
            if is_last {
                prefix.to_string().concat("    ")
            } else {
                prefix.to_string().concat("\u{2502}   ")
            }
        } else {
            String::new()
        };
        let child = &node.children[ci];
        let ghost before = rows@;
        proof {
            assert(t.children[ci as int] == child.tree());
            assert(seq![t][0] == t);
            lemma_cwds_of_part(t.children, ci as int);
            assert forall|q: Session| #[trigger]
                sessions_in(seq![child.tree()]).count(q) > 0 implies can_cut(q.name) by {
                lemma_sessions_in_one(child.tree());
                lemma_sessions_of_part(t.children, ci as int, q);
                lemma_sessions_of_part(seq![t], 0, q);
            }
        }
        collect_rows(
            child,
            now,
            home_str,
            inner_prefix.as_str(),
            Some(child_connector),
            Some(sess.cwd.as_str()),
            rows,
        );
        proof {
            let more = tree_rows(
                t.children[ci as int],
                now@,
                home_str@,
                child_prefix(prefix@, connector is None, is_last),
                Some(connector_text(is_last)),
                Some(t.session.cwd@),
            );
            let so_far = seq![root] + child_rows(
                t,
                now@,
                home_str@,
                prefix@,
                str_view(connector),
                ci as int,
            );
            let next = seq![root] + child_rows(
                t,
                now@,
                home_str@,
                prefix@,
                str_view(connector),
                ci + 1,
            );
            assert(next =~= so_far + more);
            assert(rows@.take(start) =~= before.take(start));
            assert(rows@.skip(start) =~= before.skip(start) + rows@.skip(before.len() as int));
            assert(rows_show(rows@.skip(start), next));
        }
        ci = ci + 1;
    }
}

/// The greatest of the rows' widths, by the given measure; zero where there is no row.
pub open spec fn widest(rows: Seq<Row>, width: spec_fn(Row) -> int) -> int
    decreases rows.len(),
{
    if rows.len() == 0 {
        0
    } else if width(rows.last()) > widest(rows.drop_last(), width) {
        width(rows.last())
    } else {
        widest(rows.drop_last(), width)
    }
}

/// How wide the first column of a row is: the characters of its prefix and the bytes of its state.
pub open spec fn first_width(row: Row) -> int {
    (row.prefix@.len() + byte_count(row.state_plain@)) as int
}

/// How wide the columns of a table are.
pub struct Widths {
    pub first: int,
    pub cwd: int,
    pub name: int,
    pub activity: int,
}

/// How wide the columns of a table are: as wide as their widest text.
pub open spec fn widths(rows: Seq<Row>) -> Widths {
    Widths {
        first: widest(rows, |r: Row| first_width(r)),
        cwd: widest(rows, |r: Row| byte_count(r.cwd@) as int),
        name: widest(rows, |r: Row| byte_count(r.name@) as int),
        activity: widest(rows, |r: Row| byte_count(r.activity@) as int),
    }
}

/// A row as a line of text, in columns two spaces apart. All but the activity are flush left; the
/// last one is as wide as it is.
pub open spec fn line(row: Row, w: Widths) -> Seq<char> {
    row.prefix@ + row.state_colored@ + spaces(w.first - first_width(row)) + "  "@ + row.cwd@ + spaces(
        w.cwd - byte_count(row.cwd@),
    ) + "  "@ + row.name_colored@ + spaces(w.name - byte_count(row.name@)) + "  "@ + spaces(
        w.activity - row.activity@.len(),
    ) + row.activity@ + "  "@ + row.started@
}

/// The lines of a table.
pub open spec fn table_lines(rows: Seq<Row>) -> Seq<Seq<char>> {
    rows.map_values(|r: Row| line(r, widths(rows)))
}

/// The greater of two numbers.
fn greater(a: u128, b: u128) -> (r: u128)
    ensures
        r == if b > a {
            b
        } else {
            a
        },
{
    if b > a {
        b
    } else {
        a
    }
}

/// The lines of a table, with its columns aligned.
pub fn align_rows(rows: &Vec<Row>) -> (r: Vec<String>)
    ensures
        texts(r@) == table_lines(rows@),
{
    let mut first: u128 = 0;
    let mut cwd: u128 = 0;
    let mut name: u128 = 0;
    let mut activity: u128 = 0;
    let mut i: usize = 0;
    while i < rows.len()
        invariant
            i <= rows@.len(),
            first == widths(rows@.take(i as int)).first,
            cwd == widths(rows@.take(i as int)).cwd,
            name == widths(rows@.take(i as int)).name,
            activity == widths(rows@.take(i as int)).activity,
        decreases rows@.len() - i,
    {
        let row = &rows[i];
        assert(rows@.take(i + 1).drop_last() =~= rows@.take(i as int));
        first = greater(
            first,
            chars_of(row.prefix.as_str()).len() as u128 + byte_len(row.state_plain.as_str()) as u128,
        );
        cwd = greater(cwd, byte_len(row.cwd.as_str()) as u128);
        name = greater(name, byte_len(row.name.as_str()) as u128);
        activity = greater(activity, byte_len(row.activity.as_str()) as u128);
        i = i + 1;
    }
    assert(rows@.take(i as int) =~= rows@);
    let ghost w = widths(rows@);
    let mut r: Vec<String> = Vec::new();
    let mut k: usize = 0;
    while k < rows.len()
        invariant
            k <= rows@.len(),
            w == widths(rows@),
            first == w.first,
            cwd == w.cwd,
            name == w.name,
            activity == w.activity,
            texts(r@) == table_lines(rows@).take(k as int),
        decreases rows@.len() - k,
    {
        let ghost before = r@;
        let row = &rows[k];
        r.push(row_line(row, first, cwd, name, activity, Ghost(w)));
        assert(texts(r@) =~= texts(before).push(line(*row, w)));
        assert(table_lines(rows@).take(k + 1) =~= table_lines(rows@).take(k as int).push(
            line(*row, w),
        ));
        k = k + 1;
    }
    assert(table_lines(rows@).take(k as int) =~= table_lines(rows@));
    r
}

/// The spaces that fill a text of `width` up to `column`.
fn fill(s: &mut String, column: u128, width: u128)
    ensures
        final(s)@ == old(s)@ + spaces(column - width),
{
    if column > width {
        push_spaces(s, column - width);
    } else {
        assert(s@ =~= old(s)@ + spaces(column - width));
    }
}

/// A row as a line of text, in columns of the given widths.
fn row_line(
    row: &Row,
    first: u128,
    cwd: u128,
    name: u128,
    activity: u128,
    Ghost(w): Ghost<Widths>,
) -> (s: String)
    requires
        w == (Widths { first: first as int, cwd: cwd as int, name: name as int, activity: activity as int }),
    ensures
        s@ == line(*row, w),
{
    let mut s = row.prefix.clone();
    s.append(row.state_colored.as_str());
    fill(
        &mut s,
        first,
        chars_of(row.prefix.as_str()).len() as u128 + byte_len(row.state_plain.as_str()) as u128,
    );
    s.append("  ");
    s.append(row.cwd.as_str());
    fill(&mut s, cwd, byte_len(row.cwd.as_str()) as u128);
    s.append("  ");
    s.append(row.name_colored.as_str());
    fill(&mut s, name, byte_len(row.name.as_str()) as u128);
    s.append("  ");
    fill(&mut s, activity, chars_of(row.activity.as_str()).len() as u128);
    s.append(row.activity.as_str());
    s.append("  ");
    s.append(row.started.as_str());
    s
}

/// The lines of a forest of sessions: a table with a row for each session, in the order of the
/// forest.
pub fn render_tree(nodes: &Vec<TreeNode<'_>>, now: &Timestamp, home_str: &str) -> (r: Vec<String>)
    requires
        cwds_can_be_cut(forest(nodes@)),
        names_can_be_cut(forest(nodes@)),
    ensures
        exists|rows: Seq<Row>| #[trigger]
            rows_show(rows, forest_rows(forest(nodes@), now@, home_str@)) && texts(r@)
                == table_lines(rows),
{
    let ghost trees = forest(nodes@);
    let mut rows: Vec<Row> = Vec::new();
    let mut i: usize = 0;
    assert(trees.take(0) =~= Seq::<Tree>::empty());
    while i < nodes.len()
        invariant
            i <= nodes@.len(),
            trees == forest(nodes@),
            cwds_can_be_cut(trees),
            names_can_be_cut(trees),
            rows_show(rows@, forest_rows(trees.take(i as int), now@, home_str@)),
        decreases nodes@.len() - i,
    {
        let ghost before = rows@;
        proof {
            let t = nodes@[i as int].tree();
            assert(trees[i as int] == t);
            lemma_cwds_of_part(trees, i as int);
            assert forall|q: Session| #[trigger]
                sessions_in(seq![t]).count(q) > 0 implies can_cut(q.name) by {
                lemma_sessions_in_one(t);
                lemma_sessions_of_part(trees, i as int, q);
            }
        }
        collect_rows(&nodes[i], now, home_str, "", None, None, &mut rows);
        proof {
            reveal_strlit("");
            assert(""@ =~= Seq::<char>::empty());
            assert(trees.take(i + 1).drop_last() =~= trees.take(i as int));
            assert(rows@ =~= before + rows@.skip(before.len() as int));
        }
        i = i + 1;
    }
    assert(trees.take(i as int) =~= trees);
    align_rows(&rows)
}

/// The members of the JSON object of a session.
pub open spec fn session_object(s: Session, now: Moment, home: Seq<char>) -> Seq<
    (Seq<char>, Option<Seq<char>>),
> {
    let active = s.active_at()@;
    let started = s.started_at@;
    seq![
        ("state"@, Some(label(s.state@))),
        ("cwd"@, Some(s.cwd@)),
        ("cwd_short"@, Some(shortened(s.cwd@, home))),
        ("name"@, text_view(s.name)),
        ("last_activity"@, Some(rfc3339_text(active.secs, active.nanos, active.offset))),
        ("last_activity_relative"@, Some(relative(elapsed_secs(now, active)))),
        ("started_at"@, Some(rfc3339_text(started.secs, started.nanos, started.offset))),
        ("started_at_time"@, Some(clock(started))),
    ]
}

/// The members of the JSON objects of sessions.
pub open spec fn session_objects(s: Seq<Session>, now: Moment, home: Seq<char>) -> Seq<
    Seq<(Seq<char>, Option<Seq<char>>)>,
> {
    s.map_values(|x: Session| session_object(x, now, home))
}

/// The members of the JSON object of a session.
fn json_object(s: &Session, now: &Timestamp, home_str: &str) -> (m: Members)
    ensures
        members_view(m@) == session_object(*s, now@, home_str@),
{
    let active = s.activity();
    let name = match &s.name {
        Some(n) => Some(n.clone()),
        None => None,
    };
    let mut m: Members = Vec::new();
    m.push(("state".to_string(), Some(state_label_plain(&s.state))));
    m.push(("cwd".to_string(), Some(s.cwd.clone())));
    m.push(("cwd_short".to_string(), Some(shorten_home(s.cwd.as_str(), home_str))));
    m.push(("name".to_string(), name));
    m.push(("last_activity".to_string(), Some(to_rfc3339(&active))));
    m.push(
        ("last_activity_relative".to_string(), Some(format_relative(seconds_since(now, &active)))),
    );
    m.push(("started_at".to_string(), Some(to_rfc3339(&s.started_at))));
    m.push(("started_at_time".to_string(), Some(clock_text(&s.started_at))));
    assert(members_view(m@) =~= session_object(*s, now@, home_str@));
    m
}

/// The members of the JSON objects of sessions.
pub fn json_objects(sessions: &Vec<Session>, now: &Timestamp, home_str: &str) -> (r: Vec<Members>)
    ensures
        objects_view(r@) == session_objects(sessions@, now@, home_str@),
{
    let mut r: Vec<Members> = Vec::new();
    let ghost all = session_objects(sessions@, now@, home_str@);
    let mut i: usize = 0;
    while i < sessions.len()
        invariant
            i <= sessions@.len(),
            all == session_objects(sessions@, now@, home_str@),
            objects_view(r@) == all.take(i as int),
        decreases sessions@.len() - i,
    {
        let ghost before = r@;
        r.push(json_object(&sessions[i], now, home_str));
        assert(objects_view(r@) =~= objects_view(before).push(all[i as int]));
        assert(all.take(i + 1) =~= all.take(i as int).push(all[i as int]));
        i = i + 1;
    }
    assert(all.take(i as int) =~= all);
    r
}

/// Sessions as indented JSON: an array with an object for each session.
pub fn render_json(sessions: &Vec<Session>, now: &Timestamp, home_str: &str) -> (r: String)
    ensures
        r@ == json_pretty(session_objects(sessions@, now@, home_str@)),
{
    to_json_pretty(&json_objects(sessions, now, home_str))
}

/// Whether a row is that of a session: shows its state, its name and its times.
pub open spec fn is_row_of(c: RowContent, s: Session, now: Moment) -> bool {
    exists|home: Seq<char>, prefix: Seq<char>, parent: Option<Seq<char>>|
        c == #[trigger] row_content(s, now, home, prefix, parent)
}

/// Whether rows are those of sessions, one by one.
pub open spec fn are_rows_of(rows: Seq<RowContent>, s: Seq<Session>, now: Moment) -> bool {
    &&& rows.len() == s.len()
    &&& forall|i: int| 0 <= i < rows.len() ==> is_row_of(#[trigger] rows[i], s[i], now)
}

proof fn lemma_are_rows_of_add(
    a: Seq<RowContent>,
    b: Seq<RowContent>,
    s: Seq<Session>,
    t: Seq<Session>,
    now: Moment,
)
    requires
        are_rows_of(a, s, now),
        are_rows_of(b, t, now),
    ensures
        are_rows_of(a + b, s + t, now),
{
}

proof fn lemma_tree_rows(
    t: Tree,
    now: Moment,
    home: Seq<char>,
    prefix: Seq<char>,
    connector: Option<Seq<char>>,
    parent: Option<Seq<char>>,
)
    ensures
        are_rows_of(
            tree_rows(t, now, home, prefix, connector, parent),
            seq![t.session] + preorder(t.children),
            now,
        ),
    decreases t, t.children.len() + 1,
{
    let front = match connector {
        Some(c) => prefix + c,
        None => prefix,
    };
    let n = t.children.len() as int;
    let root = row_content(t.session, now, home, front, parent);
    lemma_child_rows(t, now, home, prefix, connector, n);
    assert(t.children.take(n) =~= t.children);
    assert(is_row_of(root, t.session, now));
    assert(are_rows_of(seq![root], seq![t.session], now));
    lemma_are_rows_of_add(
        seq![root],
        child_rows(t, now, home, prefix, connector, n),
        seq![t.session],
        preorder(t.children),
        now,
    );
}

proof fn lemma_child_rows(
    t: Tree,
    now: Moment,
    home: Seq<char>,
    prefix: Seq<char>,
    connector: Option<Seq<char>>,
    n: int,
)
    requires
        0 <= n <= t.children.len(),
    ensures
        are_rows_of(
            child_rows(t, now, home, prefix, connector, n),
            preorder(t.children.take(n)),
            now,
        ),
    decreases t, n,
{
    if n > 0 {
        let last = n == t.children.len();
        let child = t.children[n - 1];
        let inner = child_prefix(prefix, connector is None, last);
        let c = Some(connector_text(last));
        let p = Some(t.session.cwd@);
        lemma_child_rows(t, now, home, prefix, connector, n - 1);
        lemma_tree_rows(child, now, home, inner, c, p);
        lemma_are_rows_of_add(
            child_rows(t, now, home, prefix, connector, n - 1),
            tree_rows(child, now, home, inner, c, p),
            preorder(t.children.take(n - 1)),
            seq![child.session] + preorder(child.children),
            now,
        );
        assert(t.children.take(n).drop_last() =~= t.children.take(n - 1));
        assert(preorder(t.children.take(n)) =~= preorder(t.children.take(n - 1)) + (seq![child.session]
            + preorder(child.children)));
    }
}

/// A forest has a row for each of its sessions, each in front of those below it.
pub proof fn law_row_for_each_session(trees: Seq<Tree>, now: Moment, home: Seq<char>)
    ensures
        are_rows_of(forest_rows(trees, now, home), preorder(trees), now),
    decreases trees.len(),
{
    if trees.len() > 0 {
        let t = trees.last();
        law_row_for_each_session(trees.drop_last(), now, home);
        lemma_tree_rows(t, now, home, Seq::empty(), None, None);
        lemma_are_rows_of_add(
            forest_rows(trees.drop_last(), now, home),
            tree_rows(t, now, home, Seq::empty(), None, None),
            preorder(trees.drop_last()),
            seq![t.session] + preorder(t.children),
            now,
        );
        assert(preorder(trees) =~= preorder(trees.drop_last()) + (seq![t.session] + preorder(
            t.children,
        )));
    }
}

/// Every session that is shown has exactly one row: the rows are those of the sessions, in some
/// order.
pub proof fn law_every_session_has_a_row(s: Seq<Session>, now: Moment, home: Seq<char>)
    ensures
        are_rows_of(forest_rows(session_forest(s), now, home), preorder(session_forest(s)), now),
        preorder(session_forest(s)).to_multiset() == s.to_multiset(),
{
    law_row_for_each_session(session_forest(s), now, home);
    law_preorder_has_all(session_forest(s));
    law_every_session_once(s);
}

/// A directory below another can be shown below it, without the other's path and the `/` behind
/// that. Where nothing is left then, it is shown as it is elsewhere.
pub proof fn law_rest_of_path_is_shown(cwd: Seq<char>, parent: Seq<char>, home: Seq<char>)
    requires
        below(cwd, parent),
    ensures
        cwd_can_be_cut(cwd, parent),
        shown_cwd(cwd, Some(parent), home) == (if cwd.len() > parent.len() + 1 {
            cwd.skip(parent.len() as int + 1)
        } else {
            shortened(cwd, home)
        }),
{
    let slash = seq!['/'];
    let rest = cwd.skip(parent.len() as int + 1);
    assert(cwd =~= (parent + slash) + rest);
    lemma_encode_add(parent, slash);
    lemma_encode_add(parent + slash, rest);
    assert(byte_count(slash) == 1) by {
        assert(slash.drop_first() =~= Seq::<char>::empty());
        reveal_with_fuel(encode_utf8, 2);
    }
    assert(encode_utf8(cwd).skip(byte_count(parent) as int + 1) =~= encode_utf8(rest));
    encode_utf8_decode_utf8(rest);
    if rest.len() > 0 {
        assert(encode_scalar(rest[0] as u32).len() > 0);
    }
}

/// In a forest in which every directory lies below the one above it, every directory can be shown.
pub proof fn lemma_nested_can_be_cut(trees: Seq<Tree>)
    requires
        nested(trees),
    ensures
        cwds_can_be_cut(trees),
    decreases trees,
{
    assert forall|i: int| 0 <= i < trees.len() implies {
        &&& forall|j: int|
            0 <= j < (#[trigger] trees[i]).children.len() ==> cwd_can_be_cut(
                (#[trigger] trees[i].children[j]).session.cwd@,
                trees[i].session.cwd@,
            )
        &&& cwds_can_be_cut(trees[i].children)
    } by {
        lemma_nested_can_be_cut(trees[i].children);
        assert forall|j: int| 0 <= j < trees[i].children.len() implies cwd_can_be_cut(
            (#[trigger] trees[i].children[j]).session.cwd@,
            trees[i].session.cwd@,
        ) by {
            law_rest_of_path_is_shown(
                trees[i].children[j].session.cwd@,
                trees[i].session.cwd@,
                Seq::empty(),
            );
        }
    }
}

proof fn lemma_widest(rows: Seq<Row>, width: spec_fn(Row) -> int, i: int)
    requires
        0 <= i < rows.len(),
    ensures
        width(rows[i]) <= widest(rows, width),
    decreases rows.len(),
{
    if i < rows.len() - 1 {
        lemma_widest(rows.drop_last(), width, i);
    }
}

/// The columns of a table are aligned: with the spaces behind it, the text of every row fills the
/// first, the second and the third column exactly, and no activity is wider than its column.
pub proof fn law_columns_align(rows: Seq<Row>, i: int)
    requires
        0 <= i < rows.len(),
    ensures
        first_width(rows[i]) + spaces(widths(rows).first - first_width(rows[i])).len() == widths(
            rows,
        ).first,
        byte_count(rows[i].cwd@) + spaces(widths(rows).cwd - byte_count(rows[i].cwd@)).len()
            == widths(rows).cwd,
        byte_count(rows[i].name@) + spaces(widths(rows).name - byte_count(rows[i].name@)).len()
            == widths(rows).name,
        byte_count(rows[i].activity@) <= widths(rows).activity,
{
    lemma_widest(rows, |r: Row| first_width(r), i);
    lemma_widest(rows, |r: Row| byte_count(r.cwd@) as int, i);
    lemma_widest(rows, |r: Row| byte_count(r.name@) as int, i);
    lemma_widest(rows, |r: Row| byte_count(r.activity@) as int, i);
}

/// A path that begins with that of the home directory is shown with `~` in front, and gives the whole
/// path back with the home directory in its place; any other path is shown as it is.
pub proof fn law_shortened_path_expands(path: Seq<char>, home: Seq<char>)
    ensures
        home.is_prefix_of(path) ==> shortened(path, home)[0] == '~' && home + shortened(
            path,
            home,
        ).drop_first() == path,
        !home.is_prefix_of(path) ==> shortened(path, home) == path,
{
    reveal_strlit("~");
    if home.is_prefix_of(path) {
        assert(home + shortened(path, home).drop_first() =~= path);
    }
}

// ---- what a row shows ----

/// A name of at most forty bytes is shown whole.
pub proof fn law_short_name_is_whole(name: Seq<char>)
    requires
        encode_utf8(name).len() <= 40,
    ensures
        shown_name(name) == name,
{
}

/// Of a longer name the first 37 bytes are shown, and dots behind them.
pub proof fn law_long_name_is_cut(head: Seq<char>, tail: Seq<char>)
    requires
        encode_utf8(head).len() == 37,
        encode_utf8(head + tail).len() > 40,
    ensures
        shown_name(head + tail) == head + "..."@,
{
    lemma_encode_add(head, tail);
    assert(encode_utf8(head + tail).subrange(0, 37) =~= encode_utf8(head));
    encode_utf8_decode_utf8(head);
}

/// The row of a session shows its state, its name and its times, whatever its state is: how long ago
/// its last activity was, or its start only where it has none, and at what time of day it started.
pub proof fn law_row_shows_its_session(trees: Seq<Tree>, now: Moment, home: Seq<char>, i: int)
    requires
        0 <= i < preorder(trees).len(),
    ensures
        forest_rows(trees, now, home).len() == preorder(trees).len(),
        ({
            let c = forest_rows(trees, now, home)[i];
            let s = preorder(trees)[i];
            &&& c.state == s.state@
            &&& s.last_activity matches Some(t) ==> c.activity == relative(elapsed_secs(now, t@))
            &&& s.last_activity is None ==> c.activity == relative(elapsed_secs(now, s.started_at@))
            &&& c.started == clock(s.started_at@)
            &&& s.name is None ==> c.name is None
            &&& s.name matches Some(n) ==> c.name == Some(shown_name(n@))
        }),
{
    law_row_for_each_session(trees, now, home);
    assert(is_row_of(forest_rows(trees, now, home)[i], preorder(trees)[i], now));
}

/// The texts of a row are those of what it shows; the name stands in brackets, and the name itself is
/// dimmed.
pub proof fn law_texts_of_a_row(row: Row, c: RowContent)
    requires
        row.shows(c),
    ensures
        row.prefix@ == c.prefix,
        row.state_plain@ == label(c.state),
        painted(label(c.state), label_code(c.state), row.state_colored@),
        row.cwd@ == c.cwd,
        row.activity@ == c.activity,
        row.started@ == c.started,
        c.name is None ==> row.name@.len() == 0 && row.name_colored@.len() == 0,
        c.name matches Some(n) ==> row.name@ == "  ["@ + n + "]"@ && exists|d: Seq<char>| #[trigger]
            painted(n, "2"@, d) && row.name_colored@ == "  ["@ + d + "]"@,
{
    if c.name is Some {
        let n = c.name->0;
        let d = choose|d: Seq<char>| #[trigger]
            painted(n, "2"@, d) && row.name_colored@ == bracketed(d);
        assert(painted(n, "2"@, d) && row.name_colored@ == "  ["@ + d + "]"@);
    }
}

/// Rows show contents one by one.
pub proof fn law_rows_show_one_by_one(rows: Seq<Row>, contents: Seq<RowContent>, i: int)
    requires
        rows_show(rows, contents),
        0 <= i < rows.len(),
    ensures
        rows.len() == contents.len(),
        rows[i].shows(contents[i]),
{
}

// ---- where a row stands ----

/// A root's row shows the whole directory, with `~` for the home directory, and nothing in front.
/// Below another session, a row shows what its directory has behind the other's and a slash, and in
/// front of it the connector.
pub proof fn law_first_row_of_a_tree(
    t: Tree,
    now: Moment,
    home: Seq<char>,
    prefix: Seq<char>,
    connector: Seq<char>,
    parent: Seq<char>,
    rest: Seq<char>,
)
    ensures
        tree_rows(t, now, home, Seq::empty(), None, None)[0].prefix == Seq::<char>::empty(),
        tree_rows(t, now, home, Seq::empty(), None, None)[0].cwd == shortened(t.session.cwd@, home),
        tree_rows(t, now, home, prefix, Some(connector), Some(parent))[0].prefix == prefix + connector,
        rest.len() > 0 && t.session.cwd@ == parent + seq!['/'] + rest ==> tree_rows(
            t,
            now,
            home,
            prefix,
            Some(connector),
            Some(parent),
        )[0].cwd == rest,
{
    if rest.len() > 0 && t.session.cwd@ == parent + seq!['/'] + rest {
        law_longer_path_lies_below(parent, rest);
        law_rest_of_path_is_shown(t.session.cwd@, parent, home);
        assert(t.session.cwd@.skip(parent.len() as int + 1) =~= rest);
    }
}

proof fn lemma_child_rows_begin(
    t: Tree,
    now: Moment,
    home: Seq<char>,
    prefix: Seq<char>,
    connector: Option<Seq<char>>,
    n: int,
    m: int,
)
    requires
        0 <= n <= m <= t.children.len(),
    ensures
        child_rows(t, now, home, prefix, connector, n).is_prefix_of(
            child_rows(t, now, home, prefix, connector, m),
        ),
    decreases m - n,
{
    let a = child_rows(t, now, home, prefix, connector, n);
    let c = child_rows(t, now, home, prefix, connector, m);
    if n < m {
        let b = child_rows(t, now, home, prefix, connector, m - 1);
        lemma_child_rows_begin(t, now, home, prefix, connector, n, m - 1);
        assert(c.take(b.len() as int) =~= b);
        assert(a =~= c.subrange(0, a.len() as int));
    } else {
        assert(a =~= c.subrange(0, a.len() as int));
    }
}

/// The rows of the trees below a root follow its own row, tree by tree. Each is connected by a corner
/// where it is the last, else by a branch. Below a root nothing stands in front of the connector;
/// deeper down what stood in front of the connector above, and a column more, which is empty for the
/// last and has a line for the others.
pub proof fn law_rows_of_children_follow(
    t: Tree,
    now: Moment,
    home: Seq<char>,
    prefix: Seq<char>,
    connector: Option<Seq<char>>,
    parent: Option<Seq<char>>,
    k: int,
)
    requires
        0 <= k < t.children.len(),
    ensures
        ({
            let last = k == t.children.len() - 1;
            let corner = if last {
                "\u{2514}\u{2500}\u{2500} "@
            } else {
                "\u{251c}\u{2500}\u{2500} "@
            };
            let front = if connector is None {
                Seq::empty()
            } else if last {
                prefix + "    "@
            } else {
                prefix + "\u{2502}   "@
            };
            let at = 1 + preorder(t.children.take(k)).len() as int;
            let end = at + 1 + preorder(t.children[k].children).len();
            end <= tree_rows(t, now, home, prefix, connector, parent).len() && tree_rows(
                t,
                now,
                home,
                prefix,
                connector,
                parent,
            ).subrange(at, end) == tree_rows(
                t.children[k],
                now,
                home,
                front,
                Some(corner),
                Some(t.session.cwd@),
            )
        }),
{
    let all = tree_rows(t, now, home, prefix, connector, parent);
    let n = t.children.len() as int;
    let last = k == n - 1;
    let inner = tree_rows(
        t.children[k],
        now,
        home,
        child_prefix(prefix, connector is None, last),
        Some(connector_text(last)),
        Some(t.session.cwd@),
    );
    let a = child_rows(t, now, home, prefix, connector, k);
    let b = child_rows(t, now, home, prefix, connector, k + 1);
    let c = child_rows(t, now, home, prefix, connector, n);
    lemma_child_rows_begin(t, now, home, prefix, connector, k + 1, n);
    lemma_child_rows(t, now, home, prefix, connector, k);
    lemma_tree_rows(
        t.children[k],
        now,
        home,
        child_prefix(prefix, connector is None, last),
        Some(connector_text(last)),
        Some(t.session.cwd@),
    );
    let at = 1 + a.len() as int;
    let end = at + inner.len();
    assert(b == a + inner);
    assert(b =~= c.subrange(0, b.len() as int));
    assert(all.subrange(at, end) =~= inner) by {
        assert forall|i: int| 0 <= i < inner.len() implies all.subrange(at, end)[i] == inner[i] by {
            assert(all[at + i] == c[a.len() + i]);
            assert(b[a.len() + i] == c.subrange(0, b.len() as int)[a.len() + i]);
        }
    }
}

/// The rows of a forest are those of its trees, tree by tree.
pub proof fn law_rows_of_trees_follow(trees: Seq<Tree>, now: Moment, home: Seq<char>, k: int)
    requires
        0 <= k < trees.len(),
    ensures
        ({
            let at = preorder(trees.take(k)).len() as int;
            let end = at + 1 + preorder(trees[k].children).len();
            end <= forest_rows(trees, now, home).len() && forest_rows(trees, now, home).subrange(
                at,
                end,
            ) == tree_rows(trees[k], now, home, Seq::empty(), None, None)
        }),
    decreases trees.len(),
{
    let rest = trees.drop_last();
    let all = forest_rows(trees, now, home);
    let before = forest_rows(rest, now, home);
    law_row_for_each_session(rest, now, home);
    if k < rest.len() {
        law_rows_of_trees_follow(rest, now, home, k);
        assert(rest.take(k) =~= trees.take(k));
        let at = preorder(trees.take(k)).len() as int;
        let end = at + 1 + preorder(trees[k].children).len();
        assert(all.subrange(at, end) =~= before.subrange(at, end));
    } else {
        let t = trees[k];
        lemma_tree_rows(t, now, home, Seq::empty(), None, None);
        assert(trees.take(k) =~= rest);
        let at = preorder(rest).len() as int;
        let end = at + 1 + preorder(t.children).len();
        assert(all.subrange(at, end) =~= tree_rows(t, now, home, Seq::empty(), None, None));
    }
}

// ---- the table ----

proof fn lemma_widest_is_some(rows: Seq<Row>, width: spec_fn(Row) -> int) -> (i: int)
    requires
        rows.len() > 0,
        forall|r: Row| #[trigger] width(r) >= 0,
    ensures
        0 <= i < rows.len(),
        width(rows[i]) == widest(rows, width),
    decreases rows.len(),
{
    let rest = rows.drop_last();
    if width(rows.last()) > widest(rest, width) {
        rows.len() - 1
    } else if rest.len() == 0 {
        assert(widest(rest, width) == 0);
        0
    } else {
        lemma_widest_is_some(rest, width)
    }
}

/// A column is as wide as the widest of its texts, and no wider.
pub proof fn law_columns_are_as_wide_as_needed(rows: Seq<Row>) -> (at: (int, int, int, int))
    requires
        rows.len() > 0,
    ensures
        0 <= at.0 < rows.len(),
        0 <= at.1 < rows.len(),
        0 <= at.2 < rows.len(),
        0 <= at.3 < rows.len(),
        widths(rows).first == rows[at.0].prefix@.len() + encode_utf8(rows[at.0].state_plain@).len(),
        widths(rows).cwd == encode_utf8(rows[at.1].cwd@).len(),
        widths(rows).name == encode_utf8(rows[at.2].name@).len(),
        widths(rows).activity == encode_utf8(rows[at.3].activity@).len(),
        forall|i: int|
            #![trigger rows[i]]
            0 <= i < rows.len() ==> {
                &&& rows[i].prefix@.len() + encode_utf8(rows[i].state_plain@).len() <= widths(
                    rows,
                ).first
                &&& encode_utf8(rows[i].cwd@).len() <= widths(rows).cwd
                &&& encode_utf8(rows[i].name@).len() <= widths(rows).name
                &&& encode_utf8(rows[i].activity@).len() <= widths(rows).activity
            },
{
    assert forall|i: int| 0 <= i < rows.len() implies {
        &&& (#[trigger] rows[i]).prefix@.len() + encode_utf8(rows[i].state_plain@).len() <= widths(
            rows,
        ).first
        &&& encode_utf8(rows[i].cwd@).len() <= widths(rows).cwd
        &&& encode_utf8(rows[i].name@).len() <= widths(rows).name
        &&& encode_utf8(rows[i].activity@).len() <= widths(rows).activity
    } by {
        lemma_widest(rows, |r: Row| first_width(r), i);
        lemma_widest(rows, |r: Row| byte_count(r.cwd@) as int, i);
        lemma_widest(rows, |r: Row| byte_count(r.name@) as int, i);
        lemma_widest(rows, |r: Row| byte_count(r.activity@) as int, i);
    }
    (
        lemma_widest_is_some(rows, |r: Row| first_width(r)),
        lemma_widest_is_some(rows, |r: Row| byte_count(r.cwd@) as int),
        lemma_widest_is_some(rows, |r: Row| byte_count(r.name@) as int),
        lemma_widest_is_some(rows, |r: Row| byte_count(r.activity@) as int),
    )
}

/// A line of the table holds its row's texts, each filled up with spaces to the width of its column,
/// with two spaces between them; the activity is filled up in front.
pub proof fn law_line_of_a_row(rows: Seq<Row>, i: int)
    requires
        0 <= i < rows.len(),
    ensures
        table_lines(rows).len() == rows.len(),
        ({
            let r = rows[i];
            let w = widths(rows);
            table_lines(rows)[i] == r.prefix@ + r.state_colored@ + spaces(
                w.first - r.prefix@.len() - encode_utf8(r.state_plain@).len(),
            ) + "  "@ + r.cwd@ + spaces(w.cwd - encode_utf8(r.cwd@).len()) + "  "@ + r.name_colored@
                + spaces(w.name - encode_utf8(r.name@).len()) + "  "@ + spaces(
                w.activity - r.activity@.len(),
            ) + r.activity@ + "  "@ + r.started@
        }),
{
}

// ---- JSON ----

/// The JSON object of a session holds its state, its directory whole and with `~` for the home
/// directory, its name or null, and its times: the last activity, or the start only where it has
/// none, and the start.
pub proof fn law_members_of_a_session(s: Session, now: Moment, home: Seq<char>)
    ensures
        ({
            let active = match s.last_activity {
                Some(t) => t@,
                None => s.started_at@,
            };
            let start = s.started_at@;
            let m = session_object(s, now, home);
            &&& m.len() == 8
            &&& m[0] == ("state"@, Some(label(s.state@)))
            &&& m[1] == ("cwd"@, Some(s.cwd@))
            &&& m[2] == ("cwd_short"@, Some(shortened(s.cwd@, home)))
            &&& m[3] == ("name"@, text_view(s.name))
            &&& m[4] == ("last_activity"@, Some(rfc3339_text(active.secs, active.nanos, active.offset)))
            &&& m[5] == ("last_activity_relative"@, Some(relative(elapsed_secs(now, active))))
            &&& m[6] == ("started_at"@, Some(rfc3339_text(start.secs, start.nanos, start.offset)))
            &&& m[7] == ("started_at_time"@, Some(clock(start)))
        }),
{
}

/// Every session has its JSON object, in order.
pub proof fn law_object_for_each_session(s: Seq<Session>, now: Moment, home: Seq<char>, i: int)
    requires
        0 <= i < s.len(),
    ensures
        session_objects(s, now, home).len() == s.len(),
        session_objects(s, now, home)[i] == session_object(s[i], now, home),
{
}

/// Directories of a forest and of its trees can be shown wherever they are cut between two
/// characters, and where they are not cut at all.
pub proof fn law_directories_that_can_be_shown(cwd: Seq<char>, parent: Seq<char>)
    ensures
        cwd_can_be_cut(cwd, parent) <==> encode_utf8(cwd).len() <= encode_utf8(parent).len() + 1
            || is_char_boundary(encode_utf8(cwd), encode_utf8(parent).len() as int + 1),
{
}

} // verus!
