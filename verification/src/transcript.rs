//! Transcripts: what the entries of a session's log say about the session's state, its last
//! activity and where it was started.

use crate::json::{json_value, parse_json, text_under, text_view, Json, JsonView};
use crate::text::{
    law_first_line_comes_first, law_last_line_needs_no_line_feed, lines, same_text, split_lines, texts,
};
use crate::time::{
    elapsed_secs, moment, parse_rfc3339, rfc3339_moment, seconds_since, Moment, Timestamp,
};
use vstd::prelude::*;
use vstd::utf8::*;

verus! {

/// What a session is doing, as far as its transcript shows.
#[derive(Debug, Clone, PartialEq)]
pub enum TranscriptState {
    Idle,
    Thinking,
    Responding,
    Plan,
    Asking,
    /// Running the tool of this name.
    Tool(String),
}

/// A `TranscriptState` as the contracts see it.
pub enum TranscriptStateView {
    Idle,
    Thinking,
    Responding,
    Plan,
    Asking,
    Tool(Seq<char>),
}

impl View for TranscriptState {
    type V = TranscriptStateView;

    open spec fn view(&self) -> TranscriptStateView {
        match *self {
            TranscriptState::Idle => TranscriptStateView::Idle,
            TranscriptState::Thinking => TranscriptStateView::Thinking,
            TranscriptState::Responding => TranscriptStateView::Responding,
            TranscriptState::Plan => TranscriptStateView::Plan,
            TranscriptState::Asking => TranscriptStateView::Asking,
            TranscriptState::Tool(name) => TranscriptStateView::Tool(name@),
        }
    }
}

/// What the end of a transcript shows.
pub struct TranscriptInfo {
    pub state: TranscriptState,
    pub last_activity: Option<Timestamp>,
}

/// What the beginning of a transcript shows (for finished sessions, which have no session file).
pub struct TranscriptMeta {
    pub cwd: Option<String>,
    pub started_at: Option<Timestamp>,
}

/// One entry of a transcript.
pub struct Entry {
    pub entry_type: Option<String>,
    pub subtype: Option<String>,
    pub timestamp: Option<String>,
    pub message: Option<MessagePayload>,
}

/// The message of an entry.
pub struct MessagePayload {
    pub role: Option<String>,
    pub stop_reason: Option<Json>,
    pub content: Option<Json>,
}

/// Whether a text is there and is the given one.
pub open spec fn is_text(s: Option<String>, t: Seq<char>) -> bool {
    s matches Some(s) && s@ == t
}

/// Whether a text is there and is the given one.
fn text_is(s: &Option<String>, t: &str) -> (r: bool)
    ensures
        r == is_text(*s, t@),
{
    match s {
        Some(s) => same_text(s.as_str(), t),
        None => false,
    }
}

/// The last item of the type `tool_use`.
pub open spec fn last_tool_use(items: Seq<Json>) -> Option<Json>
    decreases items.len(),
{
    if items.len() == 0 {
        None
    } else if text_under(items.last()@, "type"@) == Some("tool_use"@) {
        Some(items.last())
    } else {
        last_tool_use(items.drop_last())
    }
}

/// The state of a session that waits for a tool: by the name of the last tool in the content.
pub open spec fn tool_use_state(content: Option<Json>) -> TranscriptStateView {
    match content {
        Some(Json::Array(items)) => match last_tool_use(items@) {
            Some(item) => match text_under(item@, "name"@) {
                Some(name) => if name == "ExitPlanMode"@ {
                    TranscriptStateView::Plan
                } else if name == "AskUserQuestion"@ {
                    TranscriptStateView::Asking
                } else {
                    TranscriptStateView::Tool(name)
                },
                None => TranscriptStateView::Tool("?"@),
            },
            None => TranscriptStateView::Tool("?"@),
        },
        _ => TranscriptStateView::Tool("?"@),
    }
}

/// The state of a session that waits for a tool.
pub fn classify_tool_use(content: &Option<Json>) -> (r: TranscriptState)
    ensures
        r@ == tool_use_state(*content),
{
    let items = match content {
        Some(Json::Array(items)) => items,
        _ => {
            return TranscriptState::Tool("?".to_string());
        },
    };
    let mut i: usize = items.len();
    assert(items@.take(i as int) =~= items@);
    while i > 0
        invariant
            i <= items@.len(),
            *content == Some(Json::Array(*items)),
            last_tool_use(items@) == last_tool_use(items@.take(i as int)),
        decreases i,
    {
        let item = &items[i - 1];
        assert(items@.take(i as int).drop_last() =~= items@.take(i - 1));
        let is_tool_use = match item.text_under("type") {
            Some(t) => same_text(t.as_str(), "tool_use"),
            None => false,
        };
        if is_tool_use {
            return match item.text_under("name") {
                Some(name) => if same_text(name.as_str(), "ExitPlanMode") {
                    TranscriptState::Plan
                } else if same_text(name.as_str(), "AskUserQuestion") {
                    TranscriptState::Asking
                } else {
                    TranscriptState::Tool(name.clone())
                },
                None => TranscriptState::Tool("?".to_string()),
            };
        }
        i = i - 1;
    }
    TranscriptState::Tool("?".to_string())
}

/// The type of the last item that has one.
pub open spec fn last_type(items: Seq<Json>) -> Option<Seq<char>>
    decreases items.len(),
{
    if items.len() == 0 {
        None
    } else if text_under(items.last()@, "type"@) is Some {
        text_under(items.last()@, "type"@)
    } else {
        last_type(items.drop_last())
    }
}

/// The state of a session whose message is still being written: by the type of the last content
/// block.
pub open spec fn streaming_state(content: Option<Json>) -> TranscriptStateView {
    match content {
        Some(Json::Array(items)) => if last_type(items@) == Some("text"@) {
            TranscriptStateView::Responding
        } else {
            TranscriptStateView::Thinking
        },
        _ => TranscriptStateView::Thinking,
    }
}

/// The state of a session whose message is still being written.
pub fn classify_streaming(content: &Option<Json>) -> (r: TranscriptState)
    ensures
        r@ == streaming_state(*content),
{
    let items = match content {
        Some(Json::Array(items)) => items,
        _ => {
            return TranscriptState::Thinking;
        },
    };
    let mut i: usize = items.len();
    assert(items@.take(i as int) =~= items@);
    while i > 0
        invariant
            i <= items@.len(),
            *content == Some(Json::Array(*items)),
            last_type(items@) == last_type(items@.take(i as int)),
        decreases i,
    {
        assert(items@.take(i as int).drop_last() =~= items@.take(i - 1));
        match items[i - 1].text_under("type") {
            Some(t) => {
                return if same_text(t.as_str(), "text") {
                    TranscriptState::Responding
                } else {
                    TranscriptState::Thinking
                };
            },
            None => {},
        }
        i = i - 1;
    }
    TranscriptState::Thinking
}

/// Whether entries of this type say nothing about the state.
pub open spec fn says_nothing(entry_type: Option<String>) -> bool {
    ||| is_text(entry_type, "file-history-snapshot"@)
    ||| is_text(entry_type, "attachment"@)
    ||| is_text(entry_type, "permission-mode"@)
    ||| is_text(entry_type, "progress"@)
    ||| is_text(entry_type, "last-prompt"@)
}

/// The state that an assistant's message shows: by the reason why it stopped, if it did. One that
/// is still being written shows an idle session where the transcript is stale.
pub open spec fn assistant_state(msg: MessagePayload, stale: bool) -> TranscriptStateView {
    match msg.stop_reason {
        Some(Json::Text(reason)) => if reason@ == "tool_use"@ {
            tool_use_state(msg.content)
        } else {
            TranscriptStateView::Idle
        },
        Some(Json::Null) | None => if stale {
            TranscriptStateView::Idle
        } else {
            streaming_state(msg.content)
        },
        _ => TranscriptStateView::Idle,
    }
}

/// The state that an entry shows, or `None` where it shows none.
pub open spec fn entry_state(e: Entry, stale: bool) -> Option<TranscriptStateView> {
    if is_text(e.entry_type, "system"@) && is_text(e.subtype, "turn_duration"@) {
        Some(TranscriptStateView::Idle)
    } else if says_nothing(e.entry_type) {
        None
    } else {
        match e.message {
            Some(msg) => if is_text(msg.role, "assistant"@) {
                Some(assistant_state(msg, stale))
            } else if is_text(msg.role, "user"@) {
                match msg.content {
                    Some(Json::Text(_)) | Some(Json::Array(_)) => Some(TranscriptStateView::Thinking),
                    _ => None,
                }
            } else {
                None
            },
            None => None,
        }
    }
}

/// The state that a transcript shows: the one that its last entry with a state shows; idle where
/// no entry shows any.
pub open spec fn entries_state(entries: Seq<Entry>, stale: bool) -> TranscriptStateView
    decreases entries.len(),
{
    if entries.len() == 0 {
        TranscriptStateView::Idle
    } else {
        match entry_state(entries.last(), stale) {
            Some(state) => state,
            None => entries_state(entries.drop_last(), stale),
        }
    }
}

/// After how many seconds without activity a message that is still being written is no longer
/// believed in.
pub const STALE_SECS: i64 = 600;

/// Whether the last activity is so long ago that a message still being written is stale.
pub open spec fn is_stale(last_activity: Option<Moment>, now: Moment) -> bool {
    last_activity matches Some(then) && elapsed_secs(now, then) > STALE_SECS
}

/// The state that an assistant's message shows.
fn classify_assistant(msg: &MessagePayload, stale: bool) -> (r: TranscriptState)
    ensures
        r@ == assistant_state(*msg, stale),
{
    match &msg.stop_reason {
        Some(Json::Text(reason)) => if same_text(reason.as_str(), "tool_use") {
            classify_tool_use(&msg.content)
        } else {
            TranscriptState::Idle
        },
        Some(Json::Null) | None => if stale {
            TranscriptState::Idle
        } else {
            classify_streaming(&msg.content)
        },
        _ => TranscriptState::Idle,
    }
}

/// The state that an entry shows, or `None` where it shows none.
fn classify_entry(e: &Entry, stale: bool) -> (r: Option<TranscriptState>)
    ensures
        match r {
            Some(state) => entry_state(*e, stale) == Some(state@),
            None => entry_state(*e, stale) is None,
        },
{
    if text_is(&e.entry_type, "system") && text_is(&e.subtype, "turn_duration") {
        return Some(TranscriptState::Idle);
    }
    if text_is(&e.entry_type, "file-history-snapshot") || text_is(&e.entry_type, "attachment")
        || text_is(&e.entry_type, "permission-mode") || text_is(&e.entry_type, "progress")
        || text_is(&e.entry_type, "last-prompt") {
        return None;
    }
    match &e.message {
        Some(msg) => if text_is(&msg.role, "assistant") {
            Some(classify_assistant(msg, stale))
        } else if text_is(&msg.role, "user") {
            match &msg.content {
                // a prompt, or the result of a tool: the assistant goes on
                Some(Json::Text(_)) | Some(Json::Array(_)) => Some(TranscriptState::Thinking),
                _ => None,
            }
        } else {
            None
        },
        None => None,
    }
}

/// The state that a transcript shows.
pub fn determine_state(
    entries: &Vec<Entry>,
    last_activity: &Option<Timestamp>,
    now: &Timestamp,
) -> (r: TranscriptState)
    ensures
        r@ == entries_state(entries@, is_stale(moment(*last_activity), now@)),
{
    let stale = match last_activity {
        Some(then) => seconds_since(now, then) > STALE_SECS,
        None => false,
    };
    let mut i: usize = entries.len();
    assert(entries@.take(i as int) =~= entries@);
    while i > 0
        invariant
            i <= entries@.len(),
            stale == is_stale(moment(*last_activity), now@),
            entries_state(entries@, stale) == entries_state(entries@.take(i as int), stale),
        decreases i,
    {
        assert(entries@.take(i as int).drop_last() =~= entries@.take(i - 1));
        match classify_entry(&entries[i - 1], stale) {
            Some(state) => {
                return state;
            },
            None => {},
        }
        i = i - 1;
    }
    TranscriptState::Idle
}

/// The moment that an entry's timestamp gives.
pub open spec fn entry_moment(e: Entry) -> Option<Moment> {
    match e.timestamp {
        Some(s) => rfc3339_moment(s@),
        None => None,
    }
}

/// The moment of the last entry whose timestamp can be read.
pub open spec fn last_moment(entries: Seq<Entry>) -> Option<Moment>
    decreases entries.len(),
{
    if entries.len() == 0 {
        None
    } else if entry_moment(entries.last()) is Some {
        entry_moment(entries.last())
    } else {
        last_moment(entries.drop_last())
    }
}

/// The time of the last entry whose timestamp can be read.
pub fn last_activity(entries: &Vec<Entry>) -> (r: Option<Timestamp>)
    ensures
        moment(r) == last_moment(entries@),
{
    let mut i: usize = entries.len();
    assert(entries@.take(i as int) =~= entries@);
    while i > 0
        invariant
            i <= entries@.len(),
            last_moment(entries@) == last_moment(entries@.take(i as int)),
        decreases i,
    {
        assert(entries@.take(i as int).drop_last() =~= entries@.take(i - 1));
        let t = match &entries[i - 1].timestamp {
            Some(s) => parse_rfc3339(s.as_str()),
            None => None,
        };
        if t.is_some() {
            return t;
        }
        i = i - 1;
    }
    None
}

/// How many bytes at the end of a transcript are read.
pub const TAIL_BYTES: u64 = 65_536;

/// Where the end of a transcript begins that is read: its last bytes, or all of a smaller file.
pub fn tail_start(file_size: u64) -> (r: u64)
    ensures
        r == (if file_size > TAIL_BYTES {
            file_size - TAIL_BYTES
        } else {
            0
        }),
{
    file_size.saturating_sub(TAIL_BYTES)
}

/// The lines of a transcript's end that are whole.
pub open spec fn whole_lines(text: Seq<char>, read_from: int) -> Seq<Seq<char>> {
    if read_from > 0 {
        lines(text).drop_first()
    } else {
        lines(text)
    }
}

/// The lines of a transcript's end. Where it was read from the middle of the file, the first line
/// is likely cut, and left out.
pub fn tail_lines(buf: &str, read_from: u64) -> (r: Vec<String>)
    requires
        read_from > 0 ==> buf@.len() > 0,
    ensures
        texts(r@) == (if read_from > 0 {
            lines(buf@).drop_first()
        } else {
            lines(buf@)
        }),
        texts(r@) == whole_lines(buf@, read_from as int),
{
    let mut r = split_lines(buf);
    if read_from > 0 {
        assert(texts(r@).len() > 0);
        let ghost before = r@;
        r.remove(0);
        assert(texts(r@) =~= texts(before).drop_first());
    }
    r
}

/// The entries among the lines' readings: those of the lines that could be read.
pub open spec fn readable(parsed: Seq<Option<Entry>>) -> Seq<Entry>
    decreases parsed.len(),
{
    if parsed.len() == 0 {
        Seq::empty()
    } else {
        match parsed.last() {
            Some(e) => readable(parsed.drop_last()).push(e),
            None => readable(parsed.drop_last()),
        }
    }
}

/// The last activity that the end of a transcript shows, from the readings of its lines.
pub open spec fn tail_moment(parsed: Seq<Option<Entry>>) -> Option<Moment> {
    last_moment(readable(parsed))
}

/// The state that the end of a transcript shows, from the readings of its lines.
pub open spec fn tail_state(parsed: Seq<Option<Entry>>, now: Moment) -> TranscriptStateView {
    entries_state(readable(parsed), is_stale(tail_moment(parsed), now))
}

/// What the end of a transcript shows, from the readings of its lines.
pub fn read_transcript_tail(parsed: Vec<Option<Entry>>, now: &Timestamp) -> (r: TranscriptInfo)
    ensures
        moment(r.last_activity) == tail_moment(parsed@),
        r.state@ == tail_state(parsed@, now@),
        moment(r.last_activity) == last_moment(readable(parsed@)),
        r.state@ == entries_state(
            readable(parsed@),
            is_stale(last_moment(readable(parsed@)), now@),
        ),
{
    let ghost all = parsed@;
    let mut entries: Vec<Entry> = Vec::new();
    assert(all.take(0) =~= Seq::<Option<Entry>>::empty());
    for p in it: parsed
        invariant
            it.seq() == all,
            entries@ == readable(all.take(it.index() as int)),
    {
        proof {
            let i = it.index() as int;
            assert(all.take(i + 1).drop_last() =~= all.take(i));
        }
        match p {
            Some(e) => entries.push(e),
            None => {},
        }
    }
    assert(all.take(all.len() as int) =~= all);
    let last_activity = last_activity(&entries);
    let state = determine_state(&entries, &last_activity, now);
    TranscriptInfo { state, last_activity }
}

/// Calls `std::str::from_utf8`: the text of bytes that are valid UTF-8.
#[verifier::external_body]
fn std_from_utf8(bytes: &[u8]) -> (r: Option<&str>)
    ensures
        match r {
            Some(s) => valid_utf8(bytes@) && s@ == decode_utf8(bytes@),
            None => !valid_utf8(bytes@),
        },
{
    std::str::from_utf8(bytes).ok()
}

/// The first value that is there.
pub open spec fn first_some<T>(s: Seq<Option<T>>) -> Option<T>
    decreases s.len(),
{
    if s.len() == 0 {
        None
    } else if s[0] is Some {
        s[0]
    } else {
        first_some(s.drop_first())
    }
}

/// The working directory that an entry gives.
pub open spec fn value_cwd(v: JsonView) -> Option<Seq<char>> {
    text_under(v, "cwd"@)
}

/// The moment that an entry gives.
pub open spec fn value_moment(v: JsonView) -> Option<Moment> {
    match text_under(v, "timestamp"@) {
        Some(s) => rfc3339_moment(s),
        None => None,
    }
}

/// The working directory that a line of a transcript gives.
pub open spec fn line_cwd(line: Seq<char>) -> Option<Seq<char>> {
    match json_value(line) {
        Some(v) => value_cwd(v),
        None => None,
    }
}

/// The moment that a line of a transcript gives.
pub open spec fn line_moment(line: Seq<char>) -> Option<Moment> {
    match json_value(line) {
        Some(v) => value_moment(v),
        None => None,
    }
}

impl TranscriptMeta {
    /// Takes up what one more entry gives: what is known already stays.
    pub fn note(&mut self, entry: &Json)
        ensures
            text_view(final(self).cwd) == (if old(self).cwd is Some {
                text_view(old(self).cwd)
            } else {
                value_cwd(entry@)
            }),
            moment(final(self).started_at) == (if old(self).started_at is Some {
                moment(old(self).started_at)
            } else {
                value_moment(entry@)
            }),
    {
        if self.cwd.is_none() {
            self.cwd = match entry.text_under("cwd") {
                Some(s) => Some(s.clone()),
                None => None,
            };
        }
        if self.started_at.is_none() {
            self.started_at = match entry.text_under("timestamp") {
                Some(s) => parse_rfc3339(s.as_str()),
                None => None,
            };
        }
    }
}

proof fn lemma_first_some_push<T>(s: Seq<Option<T>>, x: Option<T>)
    ensures
        first_some(s.push(x)) == (if first_some(s) is Some {
            first_some(s)
        } else {
            x
        }),
    decreases s.len(),
{
    reveal_with_fuel(first_some, 2);
    if s.len() == 0 {
        assert(s.push(x).drop_first() =~= Seq::<Option<T>>::empty());
    } else if s[0] is None {
        assert(s.push(x).drop_first() =~= s.drop_first().push(x));
        lemma_first_some_push(s.drop_first(), x);
    }
}

proof fn lemma_first_some_take<T>(s: Seq<Option<T>>, i: int)
    requires
        0 <= i <= s.len(),
        first_some(s.take(i)) is Some,
    ensures
        first_some(s) == first_some(s.take(i)),
    decreases s.len() - i,
{
    if i == s.len() {
        assert(s.take(i) =~= s);
    } else {
        assert(s.take(i + 1) =~= s.take(i).push(s[i]));
        lemma_first_some_push(s.take(i), s[i]);
        lemma_first_some_take(s, i + 1);
    }
}

/// The working directory that the beginning of a transcript gives.
pub open spec fn head_cwd(text: Seq<char>) -> Option<Seq<char>> {
    first_some(lines(text).map_values(|l: Seq<char>| line_cwd(l)))
}

/// The moment that the beginning of a transcript gives.
pub open spec fn head_moment(text: Seq<char>) -> Option<Moment> {
    first_some(lines(text).map_values(|l: Seq<char>| line_moment(l)))
}

/// How many bytes at the beginning of a transcript are read.
pub const HEAD_BYTES: usize = 8192;

/// Where and when a session was started, from the first bytes of its transcript: the working
/// directory of the first line that gives one, and the time of the first line that gives one.
pub fn read_transcript_meta(bytes: &[u8]) -> (r: Option<TranscriptMeta>)
    ensures
        match r {
            Some(meta) => {
                &&& valid_utf8(bytes@)
                &&& text_view(meta.cwd) == head_cwd(decode_utf8(bytes@))
                &&& moment(meta.started_at) == head_moment(decode_utf8(bytes@))
                &&& text_view(meta.cwd) == first_some(
                    lines(decode_utf8(bytes@)).map_values(|l: Seq<char>| line_cwd(l)),
                )
                &&& moment(meta.started_at) == first_some(
                    lines(decode_utf8(bytes@)).map_values(|l: Seq<char>| line_moment(l)),
                )
            },
            None => !valid_utf8(bytes@),
        },
{
    let text = match std_from_utf8(bytes) {
        Some(text) => text,
        None => {
            return None;
        },
    };
    let all = split_lines(text);
    let ghost ls = lines(text@);
    let ghost cwds = ls.map_values(|l: Seq<char>| line_cwd(l));
    let ghost moments = ls.map_values(|l: Seq<char>| line_moment(l));
    let mut meta = TranscriptMeta { cwd: None, started_at: None };
    let mut i: usize = 0;
    while i < all.len() && !(meta.cwd.is_some() && meta.started_at.is_some())
        invariant
            i <= all@.len(),
            texts(all@) == ls,
            ls.len() == all@.len(),
            cwds == ls.map_values(|l: Seq<char>| line_cwd(l)),
            moments == ls.map_values(|l: Seq<char>| line_moment(l)),
            text_view(meta.cwd) == first_some(cwds.take(i as int)),
            moment(meta.started_at) == first_some(moments.take(i as int)),
        decreases all@.len() - i,
    {
        assert(texts(all@)[i as int] == all@[i as int]@);
        proof {
            assert(cwds.take(i + 1) =~= cwds.take(i as int).push(cwds[i as int]));
            lemma_first_some_push(cwds.take(i as int), cwds[i as int]);
            assert(moments.take(i + 1) =~= moments.take(i as int).push(moments[i as int]));
            lemma_first_some_push(moments.take(i as int), moments[i as int]);
        }
        match parse_json(all[i].as_str()) {
            Some(entry) => meta.note(&entry),
            None => {},
        }
        i = i + 1;
    }
    proof {
        if i < all@.len() {
            lemma_first_some_take(cwds, i as int);
            lemma_first_some_take(moments, i as int);
        } else {
            assert(cwds.take(i as int) =~= cwds);
            assert(moments.take(i as int) =~= moments);
        }
    }
    Some(meta)
}

/// The last entry that shows a state decides: entries behind it that show none change nothing.
pub proof fn law_last_telling_entry_decides(entries: Seq<Entry>, i: int, stale: bool)
    requires
        0 <= i < entries.len(),
        entry_state(entries[i], stale) is Some,
        forall|j: int| i < j < entries.len() ==> entry_state(#[trigger] entries[j], stale) is None,
    ensures
        entry_state(entries[i], stale) == Some(entries_state(entries, stale)),
    decreases entries.len(),
{
    if i < entries.len() - 1 {
        let rest = entries.drop_last();
        assert forall|j: int| i < j < rest.len() implies entry_state(#[trigger] rest[j], stale) is None by {
            assert(rest[j] == entries[j]);
        }
        law_last_telling_entry_decides(rest, i, stale);
    }
}

/// A transcript in which no entry shows a state is that of an idle session.
pub proof fn law_silent_transcript_is_idle(entries: Seq<Entry>, stale: bool)
    requires
        forall|j: int| 0 <= j < entries.len() ==> entry_state(#[trigger] entries[j], stale) is None,
    ensures
        entries_state(entries, stale) == TranscriptStateView::Idle,
    decreases entries.len(),
{
    if entries.len() > 0 {
        let rest = entries.drop_last();
        assert forall|j: int| 0 <= j < rest.len() implies entry_state(#[trigger] rest[j], stale) is None by {
            assert(rest[j] == entries[j]);
        }
        law_silent_transcript_is_idle(rest, stale);
    }
}

/// A stale transcript is believed in no message that is still being written: an assistant's message
/// without a reason to stop shows an idle session, and no entry shows one that responds.
pub proof fn law_stale_message_is_idle(entries: Seq<Entry>, msg: MessagePayload)
    ensures
        msg.stop_reason is None ==> assistant_state(msg, true) == TranscriptStateView::Idle,
        msg.stop_reason == Some(Json::Null) ==> assistant_state(msg, true)
            == TranscriptStateView::Idle,
        entries_state(entries, true) != TranscriptStateView::Responding,
    decreases entries.len(),
{
    if entries.len() > 0 {
        law_stale_message_is_idle(entries.drop_last(), msg);
    }
}

/// A line that cannot be read counts for nothing: without it the entries are the same.
pub proof fn law_unreadable_line_counts_for_nothing(parsed: Seq<Option<Entry>>, i: int)
    requires
        0 <= i < parsed.len(),
        parsed[i] is None,
    ensures
        readable(parsed.remove(i)) == readable(parsed),
    decreases parsed.len(),
{
    if i == parsed.len() - 1 {
        assert(parsed.remove(i) =~= parsed.drop_last());
    } else {
        law_unreadable_line_counts_for_nothing(parsed.drop_last(), i);
        assert(parsed.remove(i).drop_last() =~= parsed.drop_last().remove(i));
        assert(parsed.remove(i).last() == parsed.last());
    }
}

// ---- what the last entry of a transcript does ----

/// Whether an entry ends a turn.
pub open spec fn ends_turn(e: Entry) -> bool {
    text_view(e.entry_type) == Some("system"@) && text_view(e.subtype) == Some("turn_duration"@)
}

/// Whether an entry is of a type that is there for other ends than the conversation.
pub open spec fn is_aside(e: Entry) -> bool {
    ||| text_view(e.entry_type) == Some("file-history-snapshot"@)
    ||| text_view(e.entry_type) == Some("attachment"@)
    ||| text_view(e.entry_type) == Some("permission-mode"@)
    ||| text_view(e.entry_type) == Some("progress"@)
    ||| text_view(e.entry_type) == Some("last-prompt"@)
}

/// Whether an entry is part of the conversation and has the given message.
pub open spec fn says(e: Entry, msg: MessagePayload) -> bool {
    !ends_turn(e) && !is_aside(e) && e.message == Some(msg)
}

/// A transcript without entries is that of an idle session.
pub proof fn law_empty_transcript_is_idle(stale: bool)
    ensures
        entries_state(Seq::empty(), stale) == TranscriptStateView::Idle,
        last_moment(Seq::empty()) is None,
{
}

/// A session is idle at the end of a turn, whatever it did before.
pub proof fn law_end_of_turn_is_idle(entries: Seq<Entry>, e: Entry, stale: bool)
    requires
        ends_turn(e),
    ensures
        entries_state(entries.push(e), stale) == TranscriptStateView::Idle,
{
    assert(entries.push(e).drop_last() =~= entries);
}

/// An entry beside the conversation changes nothing, whatever message it has.
pub proof fn law_aside_changes_nothing(entries: Seq<Entry>, e: Entry, stale: bool)
    requires
        is_aside(e),
    ensures
        entries_state(entries.push(e), stale) == entries_state(entries, stale),
{
    reveal_strlit("system");
    reveal_strlit("file-history-snapshot");
    reveal_strlit("attachment");
    reveal_strlit("permission-mode");
    reveal_strlit("progress");
    reveal_strlit("last-prompt");
    assert("system"@.len() == 6 && "file-history-snapshot"@.len() == 21 && "attachment"@.len() == 10
        && "permission-mode"@.len() == 15 && "progress"@.len() == 8 && "last-prompt"@.len() == 11);
    assert(entries.push(e).drop_last() =~= entries);
}

/// An entry changes nothing that has no message, or one of neither the user nor the assistant.
pub proof fn law_other_messages_change_nothing(entries: Seq<Entry>, e: Entry, stale: bool)
    requires
        !ends_turn(e),
        e.message matches Some(msg) ==> text_view(msg.role) != Some("user"@) && text_view(msg.role)
            != Some("assistant"@),
    ensures
        entries_state(entries.push(e), stale) == entries_state(entries, stale),
{
    assert(entries.push(e).drop_last() =~= entries);
}

/// After a prompt or the result of a tool the assistant is thinking, whatever the content holds and
/// whatever the session did before. A user's message with any other content changes nothing.
pub proof fn law_assistant_goes_on_after_user(
    entries: Seq<Entry>,
    e: Entry,
    msg: MessagePayload,
    stale: bool,
)
    requires
        says(e, msg),
        text_view(msg.role) == Some("user"@),
    ensures
        msg.content matches Some(Json::Text(_)) ==> entries_state(entries.push(e), stale)
            == TranscriptStateView::Thinking,
        msg.content matches Some(Json::Array(_)) ==> entries_state(entries.push(e), stale)
            == TranscriptStateView::Thinking,
        !(msg.content matches Some(Json::Text(_))) && !(msg.content matches Some(Json::Array(_)))
            ==> entries_state(entries.push(e), stale) == entries_state(entries, stale),
{
    reveal_strlit("user");
    reveal_strlit("assistant");
    assert("user"@.len() == 4 && "assistant"@.len() == 9);
    assert(entries.push(e).drop_last() =~= entries);
}

/// A session is idle once the assistant has stopped for any reason but to use a tool.
pub proof fn law_stopped_assistant_is_idle(
    entries: Seq<Entry>,
    e: Entry,
    msg: MessagePayload,
    stale: bool,
)
    requires
        says(e, msg),
        text_view(msg.role) == Some("assistant"@),
        msg.stop_reason matches Some(reason) && reason != Json::Null,
        !(msg.stop_reason matches Some(Json::Text(reason)) && reason@ == "tool_use"@),
    ensures
        entries_state(entries.push(e), stale) == TranscriptStateView::Idle,
{
    assert(entries.push(e).drop_last() =~= entries);
}

/// A session whose assistant has stopped to use tools runs the last of them, by its name; to leave
/// the planning is to have planned, and to ask the user is to ask. Staleness does not count.
pub proof fn law_last_tool_is_used(
    entries: Seq<Entry>,
    e: Entry,
    msg: MessagePayload,
    stale: bool,
    items: Vec<Json>,
    i: int,
)
    requires
        says(e, msg),
        text_view(msg.role) == Some("assistant"@),
        msg.stop_reason matches Some(Json::Text(reason)) && reason@ == "tool_use"@,
        msg.content == Some(Json::Array(items)),
        0 <= i < items@.len(),
        text_under(items@[i]@, "type"@) == Some("tool_use"@),
        forall|j: int|
            i < j < items@.len() ==> text_under((#[trigger] items@[j])@, "type"@) != Some("tool_use"@),
    ensures
        ({
            let state = entries_state(entries.push(e), stale);
            match text_under(items@[i]@, "name"@) {
                Some(name) => {
                    &&& name == "ExitPlanMode"@ ==> state == TranscriptStateView::Plan
                    &&& name == "AskUserQuestion"@ ==> state == TranscriptStateView::Asking
                    &&& name != "ExitPlanMode"@ && name != "AskUserQuestion"@ ==> state
                        == TranscriptStateView::Tool(name)
                },
                None => state == TranscriptStateView::Tool("?"@),
            }
        }),
{
    reveal_strlit("ExitPlanMode");
    reveal_strlit("AskUserQuestion");
    assert("ExitPlanMode"@.len() == 12 && "AskUserQuestion"@.len() == 15);
    assert(entries.push(e).drop_last() =~= entries);
    lemma_last_tool_use(items@, i);
}

proof fn lemma_last_tool_use(items: Seq<Json>, i: int)
    requires
        0 <= i < items.len(),
        text_under(items[i]@, "type"@) == Some("tool_use"@),
        forall|j: int|
            i < j < items.len() ==> text_under((#[trigger] items[j])@, "type"@) != Some("tool_use"@),
    ensures
        last_tool_use(items) == Some(items[i]),
    decreases items.len(),
{
    if i < items.len() - 1 {
        assert(text_under(items[items.len() - 1]@, "type"@) != Some("tool_use"@));
        lemma_last_tool_use(items.drop_last(), i);
    }
}

/// A session whose assistant has stopped to use a tool runs an unknown one where the content shows
/// none.
pub proof fn law_unknown_tool_is_used(
    entries: Seq<Entry>,
    e: Entry,
    msg: MessagePayload,
    stale: bool,
)
    requires
        says(e, msg),
        text_view(msg.role) == Some("assistant"@),
        msg.stop_reason matches Some(Json::Text(reason)) && reason@ == "tool_use"@,
        msg.content matches Some(Json::Array(items)) ==> forall|j: int|
            0 <= j < items@.len() ==> text_under((#[trigger] items@[j])@, "type"@) != Some(
                "tool_use"@,
            ),
    ensures
        entries_state(entries.push(e), stale) == TranscriptStateView::Tool("?"@),
{
    assert(entries.push(e).drop_last() =~= entries);
    match msg.content {
        Some(Json::Array(items)) => lemma_no_tool_use(items@),
        _ => {},
    }
}

proof fn lemma_no_tool_use(items: Seq<Json>)
    requires
        forall|j: int|
            0 <= j < items.len() ==> text_under((#[trigger] items[j])@, "type"@) != Some("tool_use"@),
    ensures
        last_tool_use(items) is None,
    decreases items.len(),
{
    if items.len() > 0 {
        assert(text_under(items[items.len() - 1]@, "type"@) != Some("tool_use"@));
        lemma_no_tool_use(items.drop_last());
    }
}

/// Whether a message is one of the assistant's that has no reason to stop yet.
pub open spec fn is_being_written(msg: MessagePayload) -> bool {
    text_view(msg.role) == Some("assistant"@) && (msg.stop_reason is None || msg.stop_reason == Some(
        Json::Null,
    ))
}

/// A session whose assistant is still writing is idle where the transcript is stale.
pub proof fn law_stale_writing_is_idle(entries: Seq<Entry>, e: Entry, msg: MessagePayload)
    requires
        says(e, msg),
        is_being_written(msg),
    ensures
        entries_state(entries.push(e), true) == TranscriptStateView::Idle,
{
    assert(entries.push(e).drop_last() =~= entries);
}

/// A session whose assistant is still writing responds where the last block that has a type is text,
/// and thinks where it is of any other type.
pub proof fn law_last_block_is_written(
    entries: Seq<Entry>,
    e: Entry,
    msg: MessagePayload,
    items: Vec<Json>,
    i: int,
)
    requires
        says(e, msg),
        is_being_written(msg),
        msg.content == Some(Json::Array(items)),
        0 <= i < items@.len(),
        text_under(items@[i]@, "type"@) is Some,
        forall|j: int|
            i < j < items@.len() ==> text_under((#[trigger] items@[j])@, "type"@) is None,
    ensures
        entries_state(entries.push(e), false) == (if text_under(items@[i]@, "type"@) == Some(
            "text"@,
        ) {
            TranscriptStateView::Responding
        } else {
            TranscriptStateView::Thinking
        }),
{
    assert(entries.push(e).drop_last() =~= entries);
    lemma_last_type(items@, i);
}

proof fn lemma_last_type(items: Seq<Json>, i: int)
    requires
        0 <= i < items.len(),
        text_under(items[i]@, "type"@) is Some,
        forall|j: int| i < j < items.len() ==> text_under((#[trigger] items[j])@, "type"@) is None,
    ensures
        last_type(items) == text_under(items[i]@, "type"@),
    decreases items.len(),
{
    if i < items.len() - 1 {
        assert(text_under(items[items.len() - 1]@, "type"@) is None);
        lemma_last_type(items.drop_last(), i);
    }
}

/// A session whose assistant is still writing thinks where the content shows no block with a type.
pub proof fn law_unknown_block_is_thought(entries: Seq<Entry>, e: Entry, msg: MessagePayload)
    requires
        says(e, msg),
        is_being_written(msg),
        msg.content matches Some(Json::Array(items)) ==> forall|j: int|
            0 <= j < items@.len() ==> text_under((#[trigger] items@[j])@, "type"@) is None,
    ensures
        entries_state(entries.push(e), false) == TranscriptStateView::Thinking,
{
    assert(entries.push(e).drop_last() =~= entries);
    match msg.content {
        Some(Json::Array(items)) => lemma_no_type(items@),
        _ => {},
    }
}

proof fn lemma_no_type(items: Seq<Json>)
    requires
        forall|j: int| 0 <= j < items.len() ==> text_under((#[trigger] items[j])@, "type"@) is None,
    ensures
        last_type(items) is None,
    decreases items.len(),
{
    if items.len() > 0 {
        assert(text_under(items[items.len() - 1]@, "type"@) is None);
        lemma_no_type(items.drop_last());
    }
}

/// The last activity is the time of the last entry whose timestamp can be read, whatever the entry
/// is; an entry without such a timestamp leaves it as it was.
pub proof fn law_last_readable_time_counts(entries: Seq<Entry>, e: Entry)
    ensures
        e.timestamp matches Some(s) && rfc3339_moment(s@) is Some ==> last_moment(entries.push(e))
            == rfc3339_moment(e.timestamp->0@),
        e.timestamp is None ==> last_moment(entries.push(e)) == last_moment(entries),
        e.timestamp matches Some(s) && rfc3339_moment(s@) is None ==> last_moment(entries.push(e))
            == last_moment(entries),
{
    assert(entries.push(e).drop_last() =~= entries);
}

/// Outside leap seconds, a transcript is stale from the first whole second past ten minutes, and is
/// not where it shows no activity.
pub proof fn law_stale_after_ten_minutes(now: Moment, then: Moment)
    requires
        0 <= now.nanos < 1_000_000_000,
        0 <= then.nanos < 1_000_000_000,
    ensures
        !is_stale(None, now),
        is_stale(Some(then), now) <==> (now.secs - then.secs) * 1_000_000_000 + (now.nanos
            - then.nanos) >= 601_000_000_000,
{
}

/// Every line that can be read gives its entry, in order, and no other line gives one.
pub proof fn law_readable_lines_give_entries(parsed: Seq<Option<Entry>>, e: Entry)
    ensures
        readable(Seq::empty()) == Seq::<Entry>::empty(),
        readable(parsed.push(Some(e))) == readable(parsed).push(e),
        readable(parsed.push(None)) == readable(parsed),
{
    assert(parsed.push(Some(e)).drop_last() =~= parsed);
    assert(parsed.push(None).drop_last() =~= parsed);
}

/// The first value that is there is the one with none in front of it.
pub proof fn law_first_that_is_there<T>(s: Seq<Option<T>>, i: int)
    requires
        0 <= i < s.len(),
        forall|j: int| 0 <= j < i ==> (#[trigger] s[j]) is None,
    ensures
        s[i] is Some ==> first_some(s) == s[i],
        s[i] is None && i == s.len() - 1 ==> first_some(s) is None,
    decreases s.len(),
{
    if i > 0 {
        assert(s[0] is None);
        let rest = s.drop_first();
        assert forall|j: int| 0 <= j < i - 1 implies (#[trigger] rest[j]) is None by {
            assert(rest[j] == s[j + 1]);
        }
        law_first_that_is_there(rest, i - 1);
    } else {
        reveal_with_fuel(first_some, 2);
    }
}

/// A line gives the texts that its JSON value has under `cwd` and `timestamp`, the latter read as a
/// time; a line that is not JSON gives neither.
pub proof fn law_what_a_line_gives(line: Seq<char>)
    ensures
        match json_value(line) {
            Some(v) => line_cwd(line) == text_under(v, "cwd"@) && match text_under(
                v,
                "timestamp"@,
            ) {
                Some(s) => line_moment(line) == rfc3339_moment(s),
                None => line_moment(line) is None,
            },
            None => line_cwd(line) is None && line_moment(line) is None,
        },
{
}

/// The end of a transcript shows the last time and the state of the entries that can be read; its
/// messages are stale more than ten minutes after that time, in whole seconds.
pub proof fn law_tail_is_that_of_its_entries(parsed: Seq<Option<Entry>>, now: Moment)
    ensures
        tail_moment(parsed) == last_moment(readable(parsed)),
        tail_moment(parsed) matches Some(then) ==> tail_state(parsed, now) == entries_state(
            readable(parsed),
            elapsed_secs(now, then) > 600,
        ),
        tail_moment(parsed) is None ==> tail_state(parsed, now) == entries_state(
            readable(parsed),
            false,
        ),
{
}

/// After a prompt or the result of a tool the end of a transcript shows a session that thinks,
/// however long ago that was and whatever unreadable lines follow.
pub proof fn law_tail_after_user(
    parsed: Seq<Option<Entry>>,
    e: Entry,
    msg: MessagePayload,
    now: Moment,
)
    requires
        says(e, msg),
        text_view(msg.role) == Some("user"@),
        (msg.content matches Some(Json::Text(_))) || (msg.content matches Some(Json::Array(_))),
    ensures
        tail_state(parsed.push(Some(e)), now) == TranscriptStateView::Thinking,
        tail_state(parsed.push(Some(e)).push(None), now) == TranscriptStateView::Thinking,
{
    law_readable_lines_give_entries(parsed, e);
    law_readable_lines_give_entries(parsed.push(Some(e)), e);
    law_assistant_goes_on_after_user(readable(parsed), e, msg, true);
    law_assistant_goes_on_after_user(readable(parsed), e, msg, false);
}

/// The beginning of a transcript gives the directory of its first line that gives one, and the time
/// of its first line that gives one, be it the same line or not.
pub proof fn law_head_gives_the_first(text: Seq<char>, i: int)
    requires
        0 <= i < lines(text).len(),
    ensures
        line_cwd(lines(text)[i]) is Some && (forall|j: int|
            0 <= j < i ==> line_cwd(#[trigger] lines(text)[j]) is None) ==> head_cwd(text) == line_cwd(
            lines(text)[i],
        ),
        line_moment(lines(text)[i]) is Some && (forall|j: int|
            0 <= j < i ==> line_moment(#[trigger] lines(text)[j]) is None) ==> head_moment(text)
            == line_moment(lines(text)[i]),
{
    let cwds = lines(text).map_values(|l: Seq<char>| line_cwd(l));
    let moments = lines(text).map_values(|l: Seq<char>| line_moment(l));
    if forall|j: int| 0 <= j < i ==> line_cwd(#[trigger] lines(text)[j]) is None {
        assert forall|j: int| 0 <= j < i implies (#[trigger] cwds[j]) is None by {
            assert(cwds[j] == line_cwd(lines(text)[j]));
        }
        law_first_that_is_there(cwds, i);
    }
    if forall|j: int| 0 <= j < i ==> line_moment(#[trigger] lines(text)[j]) is None {
        assert forall|j: int| 0 <= j < i implies (#[trigger] moments[j]) is None by {
            assert(moments[j] == line_moment(lines(text)[j]));
        }
        law_first_that_is_there(moments, i);
    }
}

/// The beginning of a transcript gives no directory that none of its lines gives, and no such time.
pub proof fn law_head_gives_nothing_else(text: Seq<char>)
    ensures
        (forall|j: int| 0 <= j < lines(text).len() ==> line_cwd(#[trigger] lines(text)[j]) is None)
            ==> head_cwd(text) is None,
        (forall|j: int| 0 <= j < lines(text).len() ==> line_moment(#[trigger] lines(text)[j]) is None)
            ==> head_moment(text) is None,
{
    let n = lines(text).len() as int;
    let cwds = lines(text).map_values(|l: Seq<char>| line_cwd(l));
    let moments = lines(text).map_values(|l: Seq<char>| line_moment(l));
    if n > 0 {
        if forall|j: int| 0 <= j < n ==> line_cwd(#[trigger] lines(text)[j]) is None {
            assert forall|j: int| 0 <= j < n implies (#[trigger] cwds[j]) is None by {
                assert(cwds[j] == line_cwd(lines(text)[j]));
            }
            law_first_that_is_there(cwds, n - 1);
        }
        if forall|j: int| 0 <= j < n ==> line_moment(#[trigger] lines(text)[j]) is None {
            assert forall|j: int| 0 <= j < n implies (#[trigger] moments[j]) is None by {
                assert(moments[j] == line_moment(lines(text)[j]));
            }
            law_first_that_is_there(moments, n - 1);
        }
    }
}

/// Of a transcript that is read from the middle, what stands in front of the first line feed is left
/// out, and nothing else; of one that is read whole, nothing is.
pub proof fn law_cut_line_is_left_out(cut: Seq<char>, rest: Seq<char>, read_from: int)
    requires
        forall|i: int| 0 <= i < cut.len() ==> cut[i] != '\n',
    ensures
        read_from > 0 ==> whole_lines(cut.push('\n') + rest, read_from) == lines(rest),
        read_from > 0 && cut.len() > 0 ==> whole_lines(cut, read_from).len() == 0,
        read_from <= 0 ==> whole_lines(rest, read_from) == lines(rest),
{
    law_first_line_comes_first(cut, rest);
    if cut.len() > 0 {
        law_last_line_needs_no_line_feed(Seq::empty(), cut);
        assert(Seq::<char>::empty() + cut =~= cut);
    }
    assert(lines(cut.push('\n') + rest).drop_first() =~= lines(rest));
}

} // verus!
