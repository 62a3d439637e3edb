//! Sessions: what is known of each, and how that is put together from session files, transcripts
//! and running processes.

use crate::json::text_view;
use crate::order::Keyed;
use crate::text::same_text;
use crate::time::{in_local_time, local_moment, moment, Moment, Timestamp, UtcOffset};
use crate::transcript::{
    TranscriptInfo, TranscriptMeta, TranscriptState, TranscriptStateView,
};
use vstd::prelude::*;

verus! {

/// What a session file holds.
pub struct SessionMeta {
    pub pid: u32,
    pub session_id: String,
    pub cwd: String,
    /// Milliseconds since the epoch.
    pub started_at: u64,
    pub name: Option<String>,
}

/// What a session is doing.
#[derive(Debug, Clone, PartialEq)]
pub enum SessionState {
    Idle,
    Thinking,
    Responding,
    Plan,
    Asking,
    /// Running the tool of this name.
    Tool(String),
    Exited,
}

/// A `SessionState` as the contracts see it.
pub enum SessionStateView {
    Idle,
    Thinking,
    Responding,
    Plan,
    Asking,
    Tool(Seq<char>),
    Exited,
}

impl View for SessionState {
    type V = SessionStateView;

    open spec fn view(&self) -> SessionStateView {
        match *self {
            SessionState::Idle => SessionStateView::Idle,
            SessionState::Thinking => SessionStateView::Thinking,
            SessionState::Responding => SessionStateView::Responding,
            SessionState::Plan => SessionStateView::Plan,
            SessionState::Asking => SessionStateView::Asking,
            SessionState::Tool(name) => SessionStateView::Tool(name@),
            SessionState::Exited => SessionStateView::Exited,
        }
    }
}

/// A session.
pub struct Session {
    pub cwd: String,
    pub started_at: Timestamp,
    pub name: Option<String>,
    pub state: SessionState,
    pub last_activity: Option<Timestamp>,
}

impl Session {
    /// The time of the last activity, or of the start where none is known.
    pub open spec fn active_at(self) -> Timestamp {
        match self.last_activity {
            Some(t) => t,
            None => self.started_at,
        }
    }

    /// The time of the last activity, or of the start where none is known.
    pub fn activity(&self) -> (t: Timestamp)
        ensures
            t == self.active_at(),
    {
        match self.last_activity {
            Some(t) => t,
            None => self.started_at,
        }
    }
}

/// Sessions are put in order by their last activity, the most recent first.
impl Keyed for Session {
    open spec fn key(&self) -> int {
        -self.active_at()@.rank()
    }

    fn sort_key(&self) -> (k: i128) {
        -self.activity().rank()
    }
}

/// A character as it stands in the key of a project directory.
pub open spec fn key_char(c: char) -> char {
    if ('a' <= c && c <= 'z') || ('A' <= c && c <= 'Z') || ('0' <= c && c <= '9') || c == '-' {
        c
    } else {
        '-'
    }
}

/// The key of the project directory of a working directory: every character that is not a letter
/// or digit of ASCII or `-` gives way to `-`.
pub open spec fn project_key(cwd: Seq<char>) -> Seq<char> {
    cwd.map_values(|c: char| key_char(c))
}

/// The key of the project directory of a working directory.
pub fn cwd_to_project_key(cwd: &str) -> (r: String)
    ensures
        r@ == project_key(cwd@),
{
    let mut r = String::new();
    for c in it: cwd.chars()
        invariant
            it.seq() == cwd@,
            r@ == project_key(cwd@.take(it.index() as int)),
    {
        let k: char = if ('a' <= c && c <= 'z') || ('A' <= c && c <= 'Z') || ('0' <= c && c <= '9')
            || c == '-' {
            c
        } else {
            '-'
        };
        r.push(k);
        assert(r@ =~= project_key(cwd@.take(it.index() + 1)));
    }
    assert(cwd@.take(cwd@.len() as int) =~= cwd@);
    r
}

/// The name of the transcript file of a session.
pub fn transcript_file_name(session_id: &str) -> (r: String)
    ensures
        r@ == session_id@ + ".jsonl"@,
{
    session_id.to_string().concat(".jsonl")
}

/// Which file is a session's transcript.
#[derive(Debug, Clone, Copy, PartialEq, Eq)]
pub enum TranscriptPlace {
    /// The one in the project directory of the session's working directory.
    Primary,
    /// The one in the project directory at this position.
    Project(usize),
}

/// Which of the files that exist is a session's transcript.
pub open spec fn place_of(primary: bool, projects: Seq<bool>) -> Option<TranscriptPlace>
    decreases projects.len(),
{
    if primary {
        Some(TranscriptPlace::Primary)
    } else if projects.len() == 0 {
        None
    } else if place_of(primary, projects.drop_last()) is Some {
        place_of(primary, projects.drop_last())
    } else if projects.last() {
        Some(TranscriptPlace::Project((projects.len() - 1) as usize))
    } else {
        None
    }
}

/// Which file is a session's transcript: the one in the project directory of its working
/// directory where that file exists, else the one in the first project directory that has it.
pub fn find_transcript(primary: bool, projects: &Vec<bool>) -> (r: Option<TranscriptPlace>)
    ensures
        primary ==> r == Some(TranscriptPlace::Primary),
        !primary ==> match r {
            Some(TranscriptPlace::Project(i)) => {
                &&& i < projects@.len()
                &&& projects@[i as int]
                &&& forall|j: int| 0 <= j < i ==> !(#[trigger] projects@[j])
            },
            Some(TranscriptPlace::Primary) => false,
            None => forall|j: int| 0 <= j < projects@.len() ==> !(#[trigger] projects@[j]),
        },
        r == place_of(primary, projects@),
{
    proof {
        lemma_place_of(primary, projects@);
    }
    if primary {
        return Some(TranscriptPlace::Primary);
    }
    let mut i: usize = 0;
    while i < projects.len()
        invariant
            i <= projects@.len(),
            !primary,
            forall|j: int| 0 <= j < i ==> !(#[trigger] projects@[j]),
            forall|j: int|
                0 <= j < projects@.len() && projects@[j] && (forall|m: int|
                    0 <= m < j ==> !(#[trigger] projects@[m])) ==> place_of(primary, projects@) == Some(
                    TranscriptPlace::Project(j as usize),
                ),
            (forall|j: int| 0 <= j < projects@.len() ==> !(#[trigger] projects@[j])) ==> place_of(
                primary,
                projects@,
            ) is None,
        decreases projects@.len() - i,
    {
        if projects[i] {
            return Some(TranscriptPlace::Project(i));
        }
        i = i + 1;
    }
    None
}

/// Whether a file with this extension is a session file.
pub fn is_session_file(extension: &Option<String>) -> (r: bool)
    ensures
        r == (text_view(*extension) == Some("json"@)),
{
    match extension {
        Some(e) => same_text(e.as_str(), "json"),
        None => false,
    }
}

/// Whether a file with this extension is a transcript.
pub fn is_transcript_file(extension: &Option<String>) -> (r: bool)
    ensures
        r == (text_view(*extension) == Some("jsonl"@)),
{
    match extension {
        Some(e) => same_text(e.as_str(), "jsonl"),
        None => false,
    }
}

/// The second since the epoch in which a session was started.
pub fn started_at_secs(meta: &SessionMeta) -> (r: i64)
    ensures
        r == meta.started_at / 1000,
{
    (meta.started_at / 1000) as i64
}

/// The state of a session whose transcript shows the given one.
pub open spec fn running_state(s: TranscriptStateView) -> SessionStateView {
    match s {
        TranscriptStateView::Idle => SessionStateView::Idle,
        TranscriptStateView::Thinking => SessionStateView::Thinking,
        TranscriptStateView::Responding => SessionStateView::Responding,
        TranscriptStateView::Plan => SessionStateView::Plan,
        TranscriptStateView::Asking => SessionStateView::Asking,
        TranscriptStateView::Tool(name) => SessionStateView::Tool(name),
    }
}

/// The state of a session: exited where its process is gone, else the one that its transcript
/// shows, and idle where it has none.
pub open spec fn state_of(alive: bool, info: Option<TranscriptInfo>) -> SessionStateView {
    if !alive {
        SessionStateView::Exited
    } else {
        match info {
            Some(info) => running_state(info.state@),
            None => SessionStateView::Idle,
        }
    }
}

/// The last activity that a transcript shows.
pub open spec fn activity_of(info: Option<TranscriptInfo>) -> Option<Timestamp> {
    match info {
        Some(info) => info.last_activity,
        None => None,
    }
}

/// What is found out about a session that has a session file.
pub struct SessionFile {
    pub meta: SessionMeta,
    /// The offset of local time in the second in which the session was started, where the calendar
    /// has that second once.
    pub start_offset: Option<UtcOffset>,
    /// Whether the session's process runs.
    pub alive: bool,
    /// What the session's transcript shows, where it has one.
    pub info: Option<TranscriptInfo>,
    /// The offset of local time at the last activity that the transcript shows.
    pub activity_offset: Option<UtcOffset>,
}

impl SessionFile {
    /// When the session was started: in the second of its milliseconds, in local time. `None` where
    /// the calendar does not have that second once.
    pub open spec fn start(self) -> Option<Moment> {
        match self.start_offset {
            Some(o) => {
                let m = Moment { secs: self.meta.started_at as int / 1000, nanos: 0, offset: o@ };
                if m.in_range() {
                    Some(m)
                } else {
                    None
                }
            },
            None => None,
        }
    }

    /// When the session was started.
    pub fn started_at(&self) -> (r: Option<Timestamp>)
        ensures
            moment(r) == self.start(),
            r matches Some(t) ==> t@.secs == self.meta.started_at / 1000 && t@.nanos == 0,
    {
        match &self.start_offset {
            Some(o) => Timestamp::new(started_at_secs(&self.meta), 0, o.secs()),
            None => None,
        }
    }
}

/// Whether a session is the one of a session file.
pub open spec fn is_session_of(s: Session, f: SessionFile) -> bool {
    &&& f.start() == Some(s.started_at@)
    &&& s.cwd == f.meta.cwd
    &&& s.name == f.meta.name
    &&& s.state@ == state_of(f.alive, f.info)
    &&& moment(s.last_activity) == local_moment(activity_of(f.info), f.activity_offset)
}

/// The session of a session file, where its start is a time that the calendar has.
pub fn load_session(file: SessionFile) -> (r: Option<Session>)
    ensures
        match r {
            Some(s) => is_session_of(s, file),
            None => file.start() is None,
        },
{
    let started_at = match file.started_at() {
        Some(t) => t,
        None => {
            return None;
        },
    };
    let alive = file.alive;
    let (state, last_activity) = match file.info {
        Some(info) => {
            let state = if !alive {
                SessionState::Exited
            } else {
                match info.state {
                    TranscriptState::Idle => SessionState::Idle,
                    TranscriptState::Thinking => SessionState::Thinking,
                    TranscriptState::Responding => SessionState::Responding,
                    TranscriptState::Plan => SessionState::Plan,
                    TranscriptState::Asking => SessionState::Asking,
                    TranscriptState::Tool(name) => SessionState::Tool(name),
                }
            };
            (state, in_local_time(&info.last_activity, &file.activity_offset))
        },
        None => {
            let state = if alive {
                SessionState::Idle
            } else {
                SessionState::Exited
            };
            (state, None)
        },
    };
    Some(Session { cwd: file.meta.cwd, started_at, name: file.meta.name, state, last_activity })
}

/// For how many seconds after its last change the transcript of a finished session is shown.
pub const FINISHED_SECS: u64 = 86_400;

/// Whether an identifier is among those given.
pub open spec fn is_among(ids: Seq<String>, id: Seq<char>) -> bool {
    exists|i: int| 0 <= i < ids.len() && #[trigger] ids[i]@ == id
}

/// Whether the transcript of an identifier is that of a session that finished within a day, or at a
/// time unknown: of none of the active ones.
pub open spec fn is_finished_id(
    active_ids: Seq<String>,
    session_id: Seq<char>,
    age_secs: Option<u64>,
) -> bool {
    &&& !is_among(active_ids, session_id)
    &&& age_secs matches Some(age) ==> age <= FINISHED_SECS
}

/// Whether the transcript of an identifier is that of a session that finished within a day, or at a
/// time unknown.
pub fn is_finished(active_ids: &Vec<String>, session_id: &str, age_secs: Option<u64>) -> (r: bool)
    ensures
        r == is_finished_id(active_ids@, session_id@, age_secs),
{
    let mut i: usize = 0;
    while i < active_ids.len()
        invariant
            i <= active_ids@.len(),
            forall|j: int| 0 <= j < i ==> #[trigger] active_ids@[j]@ != session_id@,
        decreases active_ids@.len() - i,
    {
        if same_text(active_ids[i].as_str(), session_id) {
            return false;
        }
        i = i + 1;
    }
    match age_secs {
        Some(age) => age <= FINISHED_SECS,
        None => true,
    }
}

/// What is found out about a transcript.
pub struct TranscriptFile {
    pub session_id: String,
    /// The seconds since its last change, where they are known.
    pub age_secs: Option<u64>,
    /// What its beginning shows, where it can be read.
    pub meta: Option<TranscriptMeta>,
    /// What its end shows, where it can be read.
    pub tail: Option<TranscriptInfo>,
    /// The offset of local time at the start that its beginning shows.
    pub start_offset: Option<UtcOffset>,
    /// The offset of local time at the last activity that its end shows.
    pub activity_offset: Option<UtcOffset>,
}

/// Whether a transcript is that of a finished session to be shown, given the identifiers of the
/// active ones: it belongs to none of those, has changed within a day or at a time unknown, and
/// gives the session's working directory and start.
pub open spec fn is_shown(active_ids: Seq<String>, t: TranscriptFile) -> bool {
    &&& is_finished_id(active_ids, t.session_id@, t.age_secs)
    &&& t.meta matches Some(meta) && meta.cwd is Some && meta.started_at is Some
}

/// Whether a session is the finished one of a transcript. It has exited, and has no name.
pub open spec fn is_finished_session_of(s: Session, t: TranscriptFile) -> bool {
    &&& t.meta matches Some(meta) && meta.cwd == Some(s.cwd) && local_moment(
        meta.started_at,
        t.start_offset,
    ) == Some(s.started_at@)
    &&& s.name is None
    &&& s.state@ == SessionStateView::Exited
    &&& moment(s.last_activity) == local_moment(activity_of(t.tail), t.activity_offset)
}

/// The finished session of a transcript, where that is to be shown.
pub fn load_finished_session(active_ids: &Vec<String>, file: TranscriptFile) -> (r: Option<Session>)
    ensures
        match r {
            Some(s) => is_shown(active_ids@, file) && is_finished_session_of(s, file),
            None => !is_shown(active_ids@, file),
        },
{
    if !is_finished(active_ids, file.session_id.as_str(), file.age_secs) {
        return None;
    }
    let meta = match file.meta {
        Some(m) => m,
        None => {
            return None;
        },
    };
    let cwd = match meta.cwd {
        Some(c) => c,
        None => {
            return None;
        },
    };
    let started_at = match in_local_time(&meta.started_at, &file.start_offset) {
        Some(t) => t,
        None => {
            return None;
        },
    };
    let last_activity = match file.tail {
        Some(info) => in_local_time(&info.last_activity, &file.activity_offset),
        None => None,
    };
    Some(Session { cwd, started_at, name: None, state: SessionState::Exited, last_activity })
}

/// The transcripts of the finished sessions to be shown.
pub open spec fn shown(active_ids: Seq<String>, files: Seq<TranscriptFile>) -> Seq<TranscriptFile> {
    files.filter(|t: TranscriptFile| is_shown(active_ids, t))
}

/// Whether sessions are the finished ones of the given transcripts, one by one.
pub open spec fn are_finished_sessions_of(s: Seq<Session>, files: Seq<TranscriptFile>) -> bool {
    &&& s.len() == files.len()
    &&& forall|i: int| 0 <= i < s.len() ==> is_finished_session_of(#[trigger] s[i], files[i])
}

/// Appends the finished sessions of the given transcripts, in their order.
pub fn load_finished_sessions(
    active_ids: &Vec<String>,
    files: Vec<TranscriptFile>,
    out: &mut Vec<Session>,
)
    ensures
        final(out)@.len() >= old(out)@.len(),
        final(out)@.take(old(out)@.len() as int) == old(out)@,
        are_finished_sessions_of(
            final(out)@.skip(old(out)@.len() as int),
            shown(active_ids@, files@),
        ),
{
    let ghost all = files@;
    let ghost start = out@.len() as int;
    let ghost keep = |t: TranscriptFile| is_shown(active_ids@, t);
    assert(all.take(0).filter(keep) =~= Seq::<TranscriptFile>::empty()) by {
        reveal(Seq::filter);
    }
    for file in it: files
        invariant
            it.seq() == all,
            keep == (|t: TranscriptFile| is_shown(active_ids@, t)),
            start == old(out)@.len(),
            out@.len() >= start,
            out@.take(start) == old(out)@,
            are_finished_sessions_of(
                out@.skip(start),
                all.take(it.index() as int).filter(keep),
            ),
    {
        let ghost before = out@;
        proof {
            let i = it.index() as int;
            assert(all.take(i + 1) =~= all.take(i).push(file));
            all.take(i).lemma_filter_push(file, keep);
        }
        match load_finished_session(active_ids, file) {
            Some(s) => {
                out.push(s);
                assert(out@.take(start) =~= before.take(start));
                assert(out@.skip(start) =~= before.skip(start).push(s));
            },
            None => {},
        }
    }
    assert(all.take(all.len() as int) =~= all);
}

/// The session files whose sessions are shown: those whose start is a time that the calendar has.
pub open spec fn started(files: Seq<SessionFile>) -> Seq<SessionFile> {
    files.filter(|f: SessionFile| f.start() is Some)
}

/// Whether sessions are those of the given session files, one by one.
pub open spec fn are_sessions_of(s: Seq<Session>, files: Seq<SessionFile>) -> bool {
    &&& s.len() == files.len()
    &&& forall|i: int| 0 <= i < s.len() ==> is_session_of(#[trigger] s[i], files[i])
}

/// The identifiers of the sessions that have a session file.
pub open spec fn ids(files: Seq<SessionFile>) -> Seq<String> {
    files.map_values(|f: SessionFile| f.meta.session_id)
}

/// Whether sessions are all there are: those of the session files, and behind them the finished ones,
/// of which only the transcripts are left.
pub open spec fn are_all_sessions(
    files: Seq<SessionFile>,
    transcripts: Seq<TranscriptFile>,
    r: Seq<Session>,
) -> bool {
    &&& r.len() >= started(files).len()
    &&& are_sessions_of(r.take(started(files).len() as int), started(files))
    &&& are_finished_sessions_of(
        r.skip(started(files).len() as int),
        shown(ids(files), transcripts),
    )
}

/// All sessions: those of the session files, and behind them the finished ones, of which only the
/// transcripts are left.
pub fn load_sessions(files: Vec<SessionFile>, transcripts: Vec<TranscriptFile>) -> (r: Vec<Session>)
    ensures
        r@.len() >= started(files@).len(),
        are_sessions_of(r@.take(started(files@).len() as int), started(files@)),
        are_finished_sessions_of(
            r@.skip(started(files@).len() as int),
            shown(ids(files@), transcripts@),
        ),
        are_all_sessions(files@, transcripts@, r@),
{
    let ghost all = files@;
    let ghost keep = |f: SessionFile| f.start() is Some;
    let mut active_ids: Vec<String> = Vec::new();
    let mut r: Vec<Session> = Vec::new();
    assert(all.take(0).filter(keep) =~= Seq::<SessionFile>::empty()) by {
        reveal(Seq::filter);
    }
    for file in it: files
        invariant
            it.seq() == all,
            keep == (|f: SessionFile| f.start() is Some),
            active_ids@ == ids(all).take(it.index() as int),
            are_sessions_of(r@, all.take(it.index() as int).filter(keep)),
    {
        proof {
            let i = it.index() as int;
            assert(all.take(i + 1) =~= all.take(i).push(file));
            all.take(i).lemma_filter_push(file, keep);
            assert(ids(all).take(i + 1) =~= ids(all).take(i).push(file.meta.session_id));
        }
        active_ids.push(file.meta.session_id.clone());
        match load_session(file) {
            Some(s) => r.push(s),
            None => {},
        }
    }
    assert(all.take(all.len() as int) =~= all);
    assert(ids(all).take(all.len() as int) =~= ids(all));
    load_finished_sessions(&active_ids, transcripts, &mut r);
    r
}

/// A session has exited exactly where its process is gone.
pub proof fn law_exited_means_gone(alive: bool, info: Option<TranscriptInfo>)
    ensures
        state_of(alive, info) == SessionStateView::Exited <==> !alive,
{
}

/// The key of a project directory has a character for each of the path, letters and digits of ASCII
/// and `-` alone, and is its own key. Those characters it keeps; every other one gives way to `-`.
pub proof fn law_project_key(cwd: Seq<char>)
    ensures
        project_key(cwd).len() == cwd.len(),
        forall|i: int|
            #![trigger project_key(cwd)[i]]
            #![trigger cwd[i]]
            0 <= i < cwd.len() ==> project_key(cwd)[i] == (if ('a' <= cwd[i] && cwd[i] <= 'z') || ('A'
                <= cwd[i] && cwd[i] <= 'Z') || ('0' <= cwd[i] && cwd[i] <= '9') {
                cwd[i]
            } else {
                '-'
            }),
        forall|i: int|
            0 <= i < cwd.len() ==> {
                let c = #[trigger] project_key(cwd)[i];
                ('a' <= c && c <= 'z') || ('A' <= c && c <= 'Z') || ('0' <= c && c <= '9') || c == '-'
            },
        project_key(project_key(cwd)) == project_key(cwd),
{
    assert(project_key(project_key(cwd)) =~= project_key(cwd));
}

/// No transcript is shown as that of a finished session where a session file has its identifier.
pub proof fn law_no_active_session_is_finished(
    files: Seq<SessionFile>,
    transcripts: Seq<TranscriptFile>,
    i: int,
    k: int,
)
    requires
        0 <= i < files.len(),
        0 <= k < shown(ids(files), transcripts).len(),
    ensures
        shown(ids(files), transcripts)[k].session_id@ != files[i].meta.session_id@,
{
    let keep = |t: TranscriptFile| is_shown(ids(files), t);
    transcripts.lemma_filter_pred(keep, k);
    assert(ids(files)[i] == files[i].meta.session_id);
}

/// A session was last active at its last activity, and at its start only where it has none, whatever
/// its state is.
pub proof fn law_last_activity_counts(s: Session)
    ensures
        s.last_activity matches Some(t) ==> s.active_at() == t,
        s.last_activity is None ==> s.active_at() == s.started_at,
{
}

/// The state of a session whose process runs is the one that its transcript shows, and idle without
/// a transcript.
pub proof fn law_running_session_is_as_shown(info: TranscriptInfo)
    ensures
        state_of(true, None) == SessionStateView::Idle,
        match info.state@ {
            TranscriptStateView::Idle => state_of(true, Some(info)) == SessionStateView::Idle,
            TranscriptStateView::Thinking => state_of(true, Some(info)) == SessionStateView::Thinking,
            TranscriptStateView::Responding => state_of(true, Some(info))
                == SessionStateView::Responding,
            TranscriptStateView::Plan => state_of(true, Some(info)) == SessionStateView::Plan,
            TranscriptStateView::Asking => state_of(true, Some(info)) == SessionStateView::Asking,
            TranscriptStateView::Tool(name) => state_of(true, Some(info)) == SessionStateView::Tool(
                name,
            ),
        },
{
}

/// States are seen as they are.
pub proof fn law_states_are_seen_whole(s: SessionState, t: TranscriptState)
    ensures
        s@ is Idle <==> s is Idle,
        s@ is Thinking <==> s is Thinking,
        s@ is Responding <==> s is Responding,
        s@ is Plan <==> s is Plan,
        s@ is Asking <==> s is Asking,
        s@ is Exited <==> s is Exited,
        s matches SessionState::Tool(name) ==> s@ == SessionStateView::Tool(name@),
        t@ is Idle <==> t is Idle,
        t@ is Thinking <==> t is Thinking,
        t@ is Responding <==> t is Responding,
        t@ is Plan <==> t is Plan,
        t@ is Asking <==> t is Asking,
        t matches TranscriptState::Tool(name) ==> t@ == TranscriptStateView::Tool(name@),
{
}

/// Whether a session has the name, the directory and the times of a session file, and the state of
/// its process and transcript.
pub open spec fn is_made_of_file(s: Session, f: SessionFile) -> bool {
    &&& s.cwd@ == f.meta.cwd@
    &&& s.name == f.meta.name
    &&& s.started_at@.secs == f.meta.started_at as int / 1000
    &&& s.started_at@.nanos == 0
    &&& f.start_offset matches Some(o) && s.started_at@.offset == o@
    &&& !f.alive ==> s.state@ == SessionStateView::Exited
    &&& f.alive && f.info is None ==> s.state@ == SessionStateView::Idle
    &&& f.alive && f.info is Some ==> s.state@ == (match f.info->0.state@ {
        TranscriptStateView::Idle => SessionStateView::Idle,
        TranscriptStateView::Thinking => SessionStateView::Thinking,
        TranscriptStateView::Responding => SessionStateView::Responding,
        TranscriptStateView::Plan => SessionStateView::Plan,
        TranscriptStateView::Asking => SessionStateView::Asking,
        TranscriptStateView::Tool(name) => SessionStateView::Tool(name),
    })
    &&& has_activity_of(s, f.info, f.activity_offset)
}

/// Whether a session has the last activity that a transcript shows, in local time.
pub open spec fn has_activity_of(
    s: Session,
    info: Option<TranscriptInfo>,
    offset: Option<UtcOffset>,
) -> bool {
    if info is Some && info->0.last_activity is Some {
        let t = info->0.last_activity->0@;
        &&& s.last_activity matches Some(u) && u@.secs == t.secs && u@.nanos == t.nanos
        &&& offset matches Some(o) ==> s.last_activity->0@.offset == o@
        &&& offset is None ==> s.last_activity->0@.offset == t.offset
    } else {
        s.last_activity is None
    }
}

/// Whether a session file gives a session: the calendar has the second in which it was started.
pub open spec fn has_start(f: SessionFile) -> bool {
    f.start_offset is Some && f.meta.started_at as int / 1000 <= 8_210_266_876_799
        && -86_400 < f.start_offset->0@ < 86_400
}

/// Whether a session is that of a transcript alone: exited and without a name, with the directory,
/// the start and the last activity that the transcript shows.
pub open spec fn is_made_of_transcript(s: Session, t: TranscriptFile) -> bool {
    &&& t.meta matches Some(meta) && meta.cwd matches Some(cwd) && s.cwd@ == cwd@
    &&& t.meta matches Some(meta) && meta.started_at matches Some(start) && s.started_at@.secs
        == start@.secs && s.started_at@.nanos == start@.nanos && s.started_at@.offset == (
    match t.start_offset {
        Some(o) => o@,
        None => start@.offset,
    })
    &&& s.name is None
    &&& s.state@ == SessionStateView::Exited
    &&& has_activity_of(s, t.tail, t.activity_offset)
}

/// Whether a transcript is left of a finished session: no session file has its identifier, it has
/// changed within a day or at a time unknown, and its beginning gives a directory and a start.
pub open spec fn is_left_over(files: Seq<SessionFile>, t: TranscriptFile) -> bool {
    &&& forall|i: int|
        0 <= i < files.len() ==> (#[trigger] files[i]).meta.session_id@ != t.session_id@
    &&& t.age_secs matches Some(age) ==> age <= 86_400
    &&& t.meta matches Some(meta) && meta.cwd is Some && meta.started_at is Some
}

proof fn lemma_left_over(files: Seq<SessionFile>, t: TranscriptFile)
    ensures
        is_shown(ids(files), t) <==> is_left_over(files, t),
{
    if is_among(ids(files), t.session_id@) {
        let i = choose|i: int| 0 <= i < ids(files).len() && #[trigger] ids(files)[i]@ == t.session_id@;
        assert(files[i].meta.session_id@ == t.session_id@);
    }
    assert forall|i: int|
        0 <= i < files.len() && !is_among(ids(files), t.session_id@) implies (
    #[trigger] files[i]).meta.session_id@ != t.session_id@ by {
        assert(ids(files)[i]@ == files[i].meta.session_id@);
    }
}

/// Every transcript that is left of a finished session gives one, whatever its end shows.
pub proof fn law_left_over_transcript_is_listed(
    files: Seq<SessionFile>,
    transcripts: Seq<TranscriptFile>,
    r: Seq<Session>,
    k: int,
) -> (j: int)
    requires
        are_all_sessions(files, transcripts, r),
        0 <= k < transcripts.len(),
        is_left_over(files, transcripts[k]),
    ensures
        0 <= j < r.len(),
        is_made_of_transcript(r[j], transcripts[k]),
{
    let keep = |t: TranscriptFile| is_shown(ids(files), t);
    let t = transcripts[k];
    lemma_left_over(files, t);
    transcripts.lemma_filter_contains(keep, k);
    let n = started(files).len() as int;
    let m = shown(ids(files), transcripts).index_of(t);
    assert(is_finished_session_of(r.skip(n)[m], t));
    n + m
}

/// Every session file whose start the calendar has gives a session.
pub proof fn law_session_file_is_listed(
    files: Seq<SessionFile>,
    transcripts: Seq<TranscriptFile>,
    r: Seq<Session>,
    i: int,
) -> (j: int)
    requires
        are_all_sessions(files, transcripts, r),
        0 <= i < files.len(),
        has_start(files[i]),
    ensures
        0 <= j < r.len(),
        is_made_of_file(r[j], files[i]),
{
    let keep = |f: SessionFile| f.start() is Some;
    let f = files[i];
    files.lemma_filter_contains(keep, i);
    let n = started(files).len() as int;
    let m = started(files).index_of(f);
    assert(is_session_of(r.take(n)[m], f));
    m
}

/// Every session that is listed is that of a session file or of a transcript that is left.
pub proof fn law_listed_session_has_a_source(
    files: Seq<SessionFile>,
    transcripts: Seq<TranscriptFile>,
    r: Seq<Session>,
    j: int,
) -> (k: int)
    requires
        are_all_sessions(files, transcripts, r),
        0 <= j < r.len(),
    ensures
        (0 <= k < files.len() && is_made_of_file(r[j], files[k])) || (0 <= k < transcripts.len()
            && is_left_over(files, transcripts[k]) && is_made_of_transcript(r[j], transcripts[k])),
{
    let n = started(files).len() as int;
    if j < n {
        let keep = |f: SessionFile| f.start() is Some;
        files.lemma_filter_pred(keep, j);
        let f = started(files)[j];
        files.lemma_filter_contains_rev(keep, f);
        assert(is_session_of(r.take(n)[j], f));
        files.index_of(f)
    } else {
        let keep = |t: TranscriptFile| is_shown(ids(files), t);
        transcripts.lemma_filter_pred(keep, j - n);
        let t = shown(ids(files), transcripts)[j - n];
        transcripts.lemma_filter_contains_rev(keep, t);
        assert(is_finished_session_of(r.skip(n)[j - n], t));
        lemma_left_over(files, t);
        transcripts.index_of(t)
    }
}

/// One session file more gives one session more, the last of those of session files, where the
/// calendar has its start.
pub proof fn law_one_session_file_more(files: Seq<SessionFile>, f: SessionFile)
    requires
        f.start_offset matches Some(o) ==> -86_400 < o@ < 86_400,
    ensures
        started(files.push(f)) == (if has_start(f) {
            started(files).push(f)
        } else {
            started(files)
        }),
        started(Seq::empty()) == Seq::<SessionFile>::empty(),
{
    let keep = |f: SessionFile| f.start() is Some;
    files.lemma_filter_push(f, keep);
    reveal(Seq::filter);
    assert(started(Seq::empty()) =~= Seq::<SessionFile>::empty());
}

/// One transcript more gives one session more, the last of all, where it is left of a finished one.
pub proof fn law_one_transcript_more(
    files: Seq<SessionFile>,
    transcripts: Seq<TranscriptFile>,
    t: TranscriptFile,
)
    ensures
        shown(ids(files), transcripts.push(t)) == (if is_left_over(files, t) {
            shown(ids(files), transcripts).push(t)
        } else {
            shown(ids(files), transcripts)
        }),
        shown(ids(files), Seq::empty()) == Seq::<TranscriptFile>::empty(),
{
    let keep = |t: TranscriptFile| is_shown(ids(files), t);
    lemma_left_over(files, t);
    transcripts.lemma_filter_push(t, keep);
    reveal(Seq::filter);
    assert(shown(ids(files), Seq::empty()) =~= Seq::<TranscriptFile>::empty());
}

/// The sessions stand in the order of their sources: those of the session files, and behind them
/// those of the transcripts.
pub proof fn law_sessions_follow_their_sources(
    files: Seq<SessionFile>,
    transcripts: Seq<TranscriptFile>,
    r: Seq<Session>,
    j: int,
)
    requires
        are_all_sessions(files, transcripts, r),
        0 <= j < r.len(),
    ensures
        r.len() == started(files).len() + shown(ids(files), transcripts).len(),
        j < started(files).len() ==> is_made_of_file(r[j], started(files)[j]),
        j >= started(files).len() ==> is_made_of_transcript(
            r[j],
            shown(ids(files), transcripts)[j - started(files).len()],
        ),
{
    let n = started(files).len() as int;
    if j < n {
        assert(is_session_of(r.take(n)[j], started(files)[j]));
    } else {
        assert(is_finished_session_of(r.skip(n)[j - n], shown(ids(files), transcripts)[j - n]));
    }
}

proof fn lemma_place_of(primary: bool, projects: Seq<bool>)
    ensures
        !primary && (forall|j: int| 0 <= j < projects.len() ==> !(#[trigger] projects[j])) ==> place_of(
            primary,
            projects,
        ) is None,
        forall|i: int|
            !primary && 0 <= i < projects.len() && #[trigger] projects[i] && (forall|m: int|
                0 <= m < i ==> !(#[trigger] projects[m])) ==> place_of(primary, projects) == Some(
                TranscriptPlace::Project(i as usize),
            ),
    decreases projects.len(),
{
    if !primary && projects.len() > 0 {
        let rest = projects.drop_last();
        lemma_place_of(primary, rest);
        assert(forall|j: int| 0 <= j < rest.len() ==> #[trigger] rest[j] == projects[j]);
        assert(projects[projects.len() - 1] == projects.last());
        assert forall|i: int|
            0 <= i < projects.len() && #[trigger] projects[i] && (forall|m: int|
                0 <= m < i ==> !(#[trigger] projects[m])) implies place_of(primary, projects) == Some(
            TranscriptPlace::Project(i as usize),
        ) by {
            if i < rest.len() {
                assert(rest[i]);
                assert forall|m: int| 0 <= m < i implies !(#[trigger] rest[m]) by {
                    assert(rest[m] == projects[m]);
                }
            } else {
                assert forall|m: int| 0 <= m < rest.len() implies !(#[trigger] rest[m]) by {
                    assert(rest[m] == projects[m]);
                }
            }
        }
    }
}

/// The transcript in the project directory of the session's own directory is preferred; else the
/// first project directory that has one counts, wherever it stands, and without any there is none.
pub proof fn law_first_transcript_counts(projects: Seq<bool>, i: int)
    ensures
        place_of(true, projects) == Some(TranscriptPlace::Primary),
        0 <= i < projects.len() && projects[i] && (forall|m: int|
            0 <= m < i ==> !(#[trigger] projects[m])) ==> place_of(false, projects) == Some(
            TranscriptPlace::Project(i as usize),
        ),
        (forall|m: int| 0 <= m < projects.len() ==> !(#[trigger] projects[m])) ==> place_of(
            false,
            projects,
        ) is None,
{
    lemma_place_of(false, projects);
}

} // verus!
