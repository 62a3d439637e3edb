use ccs::json::{json_of, parse_json, Json};
use ccs::time::Timestamp;
use ccs::transcript::{
    classify_streaming, classify_tool_use, determine_state, last_activity, read_transcript_meta,
    read_transcript_tail, tail_lines, tail_start, Entry, MessagePayload, TranscriptMeta,
    TranscriptState,
};

const NOON: i64 = 1_714_564_800; // 2024-05-01T12:00:00Z

fn at(secs: i64) -> Timestamp {
    Timestamp::new(secs, 0, 0).unwrap()
}

fn text(s: &str) -> Json {
    Json::Text(s.to_string())
}

fn object(members: Vec<(&str, Json)>) -> Json {
    Json::Object(members.into_iter().map(|(k, v)| (k.to_string(), v)).collect())
}

fn block(kind: &str) -> Json {
    object(vec![("type", text(kind))])
}

fn tool(name: &str) -> Json {
    object(vec![("type", text("tool_use")), ("name", text(name))])
}

fn entry(kind: &str, message: Option<MessagePayload>) -> Entry {
    Entry { entry_type: Some(kind.to_string()), subtype: None, timestamp: None, message }
}

fn message(role: &str, stop_reason: Option<Json>, content: Option<Json>) -> Option<MessagePayload> {
    Some(MessagePayload { role: Some(role.to_string()), stop_reason, content })
}

fn assistant(stop_reason: Option<Json>, content: Option<Json>) -> Entry {
    entry("assistant", message("assistant", stop_reason, content))
}

fn user(content: Option<Json>) -> Entry {
    entry("user", message("user", None, content))
}

fn turn_end() -> Entry {
    Entry {
        entry_type: Some("system".to_string()),
        subtype: Some("turn_duration".to_string()),
        timestamp: None,
        message: None,
    }
}

fn stamped(mut e: Entry, timestamp: &str) -> Entry {
    e.timestamp = Some(timestamp.to_string());
    e
}

fn state(entries: Vec<Entry>) -> TranscriptState {
    determine_state(&entries, &None, &at(NOON))
}

fn tool_state(name: &str) -> TranscriptState {
    TranscriptState::Tool(name.to_string())
}

#[test]
fn members_of_json_values() {
    let v = object(vec![("a", text("x")), ("b", Json::Null), ("c", Json::Bool(true))]);
    assert_eq!(v.get("b"), Some(&Json::Null));
    assert_eq!(v.get("d"), None);
    assert_eq!(text("a").get("a"), None);
    assert_eq!(Json::Array(vec![text("a")]).get("a"), None);
    assert_eq!(v.text_under("a"), Some(&"x".to_string()));
    assert_eq!(v.text_under("c"), None);
    assert_eq!(v.text_under("d"), None);
    assert_eq!(text("x").as_str(), Some(&"x".to_string()));
    assert_eq!(Json::Number("1".to_string()).as_str(), None);
}

#[test]
fn tool_use_by_the_last_tool() {
    let content = |items| Some(Json::Array(items));
    assert_eq!(classify_tool_use(&None), tool_state("?"));
    assert_eq!(classify_tool_use(&Some(text("x"))), tool_state("?"));
    assert_eq!(classify_tool_use(&content(vec![])), tool_state("?"));
    assert_eq!(classify_tool_use(&content(vec![block("text")])), tool_state("?"));
    assert_eq!(classify_tool_use(&content(vec![block("tool_use")])), tool_state("?"));
    assert_eq!(classify_tool_use(&content(vec![tool("Bash")])), tool_state("Bash"));
    assert_eq!(classify_tool_use(&content(vec![tool("ExitPlanMode")])), TranscriptState::Plan);
    assert_eq!(classify_tool_use(&content(vec![tool("AskUserQuestion")])), TranscriptState::Asking);
    assert_eq!(
        classify_tool_use(&content(vec![tool("ExitPlanMode"), tool("Edit"), block("text")])),
        tool_state("Edit")
    );
    // the last tool decides even where it has no name
    assert_eq!(classify_tool_use(&content(vec![tool("Edit"), block("tool_use")])), tool_state("?"));
}

#[test]
fn streaming_by_the_last_block() {
    let content = |items| Some(Json::Array(items));
    assert_eq!(classify_streaming(&None), TranscriptState::Thinking);
    assert_eq!(classify_streaming(&Some(text("text"))), TranscriptState::Thinking);
    assert_eq!(classify_streaming(&content(vec![])), TranscriptState::Thinking);
    assert_eq!(classify_streaming(&content(vec![block("text")])), TranscriptState::Responding);
    assert_eq!(
        classify_streaming(&content(vec![block("text"), block("thinking")])),
        TranscriptState::Thinking
    );
    // a block without a type is passed over
    assert_eq!(
        classify_streaming(&content(vec![block("text"), object(vec![]), text("x")])),
        TranscriptState::Responding
    );
}

#[test]
fn state_by_the_reason_to_stop() {
    let tools = || Some(Json::Array(vec![tool("Read")]));
    assert_eq!(state(vec![assistant(Some(text("end_turn")), tools())]), TranscriptState::Idle);
    assert_eq!(state(vec![assistant(Some(text("tool_use")), tools())]), tool_state("Read"));
    assert_eq!(state(vec![assistant(Some(text("max_tokens")), tools())]), TranscriptState::Idle);
    assert_eq!(state(vec![assistant(Some(Json::Bool(true)), tools())]), TranscriptState::Idle);
    let words = || Some(Json::Array(vec![block("text")]));
    assert_eq!(state(vec![assistant(Some(Json::Null), words())]), TranscriptState::Responding);
    assert_eq!(state(vec![assistant(None, words())]), TranscriptState::Responding);
    assert_eq!(state(vec![assistant(None, None)]), TranscriptState::Thinking);
}

#[test]
fn state_after_a_prompt() {
    assert_eq!(state(vec![user(Some(text("do it")))]), TranscriptState::Thinking);
    assert_eq!(state(vec![user(Some(Json::Array(vec![])))]), TranscriptState::Thinking);
    // any other content shows nothing
    assert_eq!(state(vec![user(Some(Json::Null))]), TranscriptState::Idle);
    assert_eq!(state(vec![user(None)]), TranscriptState::Idle);
    assert_eq!(state(vec![user(Some(text("do it"))), user(None)]), TranscriptState::Thinking);
}

#[test]
fn end_of_a_turn_is_idle() {
    assert_eq!(state(vec![user(Some(text("do it"))), turn_end()]), TranscriptState::Idle);
    // both the type and the subtype count
    let mut other = turn_end();
    other.subtype = Some("other".to_string());
    assert_eq!(state(vec![user(Some(text("do it"))), other]), TranscriptState::Thinking);
    let mut other = turn_end();
    other.entry_type = None;
    assert_eq!(state(vec![user(Some(text("do it"))), other]), TranscriptState::Thinking);
}

#[test]
fn last_telling_entry_decides() {
    for kind in ["file-history-snapshot", "attachment", "permission-mode", "progress", "last-prompt"] {
        let noise = entry(kind, message("assistant", Some(text("end_turn")), None));
        assert_eq!(state(vec![user(Some(text("do it"))), noise]), TranscriptState::Thinking);
    }
    let summary = entry("summary", message("other", None, Some(text("x"))));
    let silent = entry("assistant", None);
    assert_eq!(
        state(vec![assistant(Some(text("end_turn")), None), user(Some(text("x"))), summary, silent]),
        TranscriptState::Thinking
    );
}

#[test]
fn silent_transcript_is_idle() {
    assert_eq!(state(vec![]), TranscriptState::Idle);
    assert_eq!(state(vec![entry("progress", None), user(None)]), TranscriptState::Idle);
}

#[test]
fn stale_message_is_idle() {
    let words = || vec![assistant(None, Some(Json::Array(vec![block("text")])))];
    let then = Some(at(NOON));
    assert_eq!(determine_state(&words(), &then, &at(NOON + 600)), TranscriptState::Responding);
    assert_eq!(determine_state(&words(), &then, &at(NOON + 601)), TranscriptState::Idle);
    assert_eq!(determine_state(&words(), &then, &at(NOON - 5000)), TranscriptState::Responding);
    // only messages that are still being written go stale
    let tools = vec![assistant(Some(text("tool_use")), Some(Json::Array(vec![tool("Bash")])))];
    assert_eq!(determine_state(&tools, &then, &at(NOON + 9000)), tool_state("Bash"));
    let prompt = vec![user(Some(text("x")))];
    assert_eq!(determine_state(&prompt, &then, &at(NOON + 9000)), TranscriptState::Thinking);
}

#[test]
fn last_readable_timestamp_counts() {
    let entries = vec![
        stamped(user(None), "2024-05-01T11:00:00Z"),
        stamped(user(None), "2024-05-01T12:00:00+00:00"),
        stamped(user(None), "soon"),
        user(None),
    ];
    assert_eq!(last_activity(&entries), Some(at(NOON)));
    assert_eq!(last_activity(&vec![user(None)]), None);
    assert_eq!(last_activity(&vec![]), None);
}

#[test]
fn tail_of_a_file() {
    assert_eq!(tail_start(0), 0);
    assert_eq!(tail_start(65_536), 0);
    assert_eq!(tail_start(65_537), 1);
    assert_eq!(tail_start(100_000), 34_464);
    assert_eq!(tail_lines("a\nb\n", 0), vec!["a", "b"]);
    assert_eq!(tail_lines("a\nb\n", 1), vec!["b"]);
    assert_eq!(tail_lines("", 0), Vec::<String>::new());
    assert_eq!(tail_lines("a", 9), Vec::<String>::new());
}

#[test]
fn tail_of_a_transcript() {
    let info = read_transcript_tail(
        vec![
            Some(stamped(user(Some(text("x"))), "2024-05-01T11:59:00Z")),
            None,
            Some(stamped(
                assistant(None, Some(Json::Array(vec![block("text")]))),
                "2024-05-01T12:00:00Z",
            )),
            None,
        ],
        &at(NOON + 30),
    );
    assert_eq!(info.state, TranscriptState::Responding);
    assert_eq!(info.last_activity, Some(at(NOON)));
}

#[test]
fn stale_tail_is_idle() {
    let parsed = vec![
        Some(assistant(None, Some(Json::Array(vec![block("text")])))),
        Some(stamped(entry("progress", None), "2024-05-01T12:00:00Z")),
    ];
    let info = read_transcript_tail(parsed, &at(NOON + 601));
    assert_eq!(info.state, TranscriptState::Idle);
    assert_eq!(info.last_activity, Some(at(NOON)));
}

#[test]
fn unreadable_lines_count_for_nothing() {
    let with = read_transcript_tail(vec![None, Some(user(Some(text("x")))), None], &at(NOON));
    let without = read_transcript_tail(vec![Some(user(Some(text("x"))))], &at(NOON));
    assert_eq!(with.state, without.state);
    assert_eq!(with.last_activity, without.last_activity);
    let nothing = read_transcript_tail(vec![None, None], &at(NOON));
    assert_eq!(nothing.state, TranscriptState::Idle);
    assert_eq!(nothing.last_activity, None);
}

#[test]
fn head_of_a_transcript() {
    let head = concat(&[
        r#"{"type":"summary"}"#,
        r#"not json"#,
        r#"{"cwd":7,"timestamp":"soon"}"#,
        r#"{"cwd":"/work/é","timestamp":"later"}"#,
        r#"{"cwd":"/other","timestamp":"2024-05-01T14:00:00+02:00"}"#,
        r#"{"cwd":"/third","timestamp":"2024-05-01T15:00:00+02:00"}"#,
    ]);
    let meta = read_transcript_meta(head.as_bytes()).unwrap();
    assert_eq!(meta.cwd, Some("/work/é".to_string()));
    assert_eq!(meta.started_at, Timestamp::new(NOON, 0, 7200));
}

fn concat(lines: &[&str]) -> String {
    lines.iter().map(|l| format!("{l}\n")).collect()
}

#[test]
fn head_that_shows_little() {
    let meta = read_transcript_meta(b"").unwrap();
    assert_eq!((meta.cwd, meta.started_at), (None, None));
    let meta = read_transcript_meta(br#"{"cwd":"/work"}"#).unwrap();
    assert_eq!((meta.cwd, meta.started_at), (Some("/work".to_string()), None));
    // a line that is cut off cannot be read
    let meta = read_transcript_meta(br#"{"cwd":"/work","timest"#).unwrap();
    assert_eq!((meta.cwd, meta.started_at), (None, None));
    // only an object has members
    let meta = read_transcript_meta(br#"["cwd"]"#).unwrap();
    assert_eq!((meta.cwd, meta.started_at), (None, None));
}

#[test]
fn head_that_is_no_text() {
    assert!(read_transcript_meta(&[b'{', 0xff, b'}']).is_none());
    // cut within a character
    let bytes = "{\"cwd\":\"é".as_bytes();
    assert!(read_transcript_meta(&bytes[..bytes.len() - 1]).is_none());
}

#[test]
fn what_is_known_already_stays() {
    let mut meta = TranscriptMeta { cwd: None, started_at: None };
    meta.note(&Json::Null);
    meta.note(&object(vec![("timestamp", text("2024-05-01T12:00:00Z")), ("cwd", Json::Null)]));
    assert_eq!((meta.cwd.clone(), meta.started_at), (None, Some(at(NOON))));
    meta.note(&object(vec![("cwd", text("/a")), ("timestamp", text("2024-05-01T13:00:00Z"))]));
    meta.note(&object(vec![("cwd", text("/b"))]));
    assert_eq!(meta.cwd, Some("/a".to_string()));
    assert_eq!(meta.started_at, Some(at(NOON)));
}

#[test]
fn json_is_read() {
    assert_eq!(
        parse_json(r#"{"b": [null, true, 1.50, "x\n"], "a": {"c": -7}}"#),
        Some(object(vec![
            ("a", object(vec![("c", Json::Number("-7".to_string()))])),
            (
                "b",
                Json::Array(vec![
                    Json::Null,
                    Json::Bool(true),
                    Json::Number("1.5".to_string()),
                    text("x\n"),
                ])
            ),
        ]))
    );
    assert_eq!(parse_json("[]"), Some(Json::Array(vec![])));
    assert_eq!(parse_json("{}"), Some(Json::Object(vec![])));
    for s in ["", "{", "{'a': 1}", "nul", "1 2"] {
        assert_eq!(parse_json(s), None, "{s:?}");
    }
}

#[test]
fn values_of_serde_json() {
    let value: serde_json::Value = serde_json::from_str(r#"{"type": "text"}"#).unwrap();
    assert_eq!(json_of(value), block("text"));
    assert_eq!(json_of(serde_json::Value::from(12u64)), Json::Number("12".to_string()));
}
