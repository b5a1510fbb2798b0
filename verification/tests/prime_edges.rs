//! Edge cases of the Prime loader: timestamps, directories, malformed events.
use session_timeline::loaders::prime::{
    first_line_timestamp, last_line_timestamp, load_file_pub, scan_dir, session_files,
    session_stem, worth_reading, DirFile, FileLines,
};
use session_timeline::model::{Session, SessionKind, SpanKind};
use session_timeline::scan::Loaded;
use session_timeline::{scan_stats, ScanStats};

const T0: f64 = 100.0;
const T1: f64 = 300.0;

fn secs(t: f64) -> i128 {
    (t * 1e9).round() as i128
}

/// Scans a directory of session files, each a name and its text.
fn scan_prime(files: &[(&str, String)], stats: &mut ScanStats) -> Vec<Session> {
    let (t0, t1) = (secs(T0), secs(T1));
    let names: Vec<String> = files.iter().map(|f| f.0.to_string()).collect();
    let mut parts: Vec<Loaded> = Vec::new();
    for name in session_files(&names) {
        let text = &files.iter().find(|f| f.0 == name).unwrap().1;
        let first = first_line_timestamp(text.lines().next().unwrap_or(""));
        let last = last_line_timestamp(text, false);
        if !worth_reading(first, last, None, t0, t1) {
            continue;
        }
        let content = FileLines {
            lines: text.lines().map(|l| l.to_string()).collect(),
            undecodable: 0,
        };
        let stem = session_stem(&name).unwrap();
        let mut skipped = ScanStats::default();
        let session = load_file_pub(&stem, &content, t0, t1, &mut skipped);
        parts.push(Loaded { sessions: session.into_iter().collect(), stats: skipped });
    }
    scan_stats(parts, stats)
}

fn scan_lines(name: &str, lines: &[&str]) -> Vec<Session> {
    scan_prime(&[(name, lines.join("\n"))], &mut ScanStats::default())
}

#[test]
fn ts_fractional_seconds_and_utc_suffix() {
    let ss = scan_lines(
        "s1.jsonl",
        &[
            r#"{"type":"session","timestamp":"1970-01-01T00:01:40.123Z"}"#,
            r#"{"type":"message","timestamp":"1970-01-01T00:01:40.123Z","message":{"role":"user","content":"q"}}"#,
            r#"{"type":"message","timestamp":"1970-01-01T00:01:45","message":{"role":"assistant","content":[{"type":"text","text":"a"}]}}"#,
        ],
    );
    assert_eq!(ss.len(), 1);
    assert_eq!(ss[0].t_start, secs(100.123));
    assert_eq!(ss[0].t_end, secs(105.0));
}

#[test]
fn ts_numeric_timezone_offset() {
    let ss = scan_lines(
        "s1.jsonl",
        &[
            r#"{"type":"session","timestamp":"1970-01-01T01:01:40+01:00"}"#,
            r#"{"type":"message","timestamp":"1970-01-01T01:01:40+01:00","message":{"role":"user","content":"q"}}"#,
            r#"{"type":"message","timestamp":"1970-01-01T01:01:45+01:00","message":{"role":"assistant","content":[{"type":"text","text":"a"}]}}"#,
        ],
    );
    assert_eq!(ss.len(), 1);
    assert_eq!(ss[0].t_start, secs(100.0), "offset shifts epoch back");
}

#[test]
fn ts_garbage_timestamp_skips_message_not_file() {
    let ss = scan_lines(
        "s1.jsonl",
        &[
            r#"{"type":"session","timestamp":"1970-01-01T00:01:40Z"}"#,
            r#"{"type":"message","timestamp":"not a date","message":{"role":"user","content":"bad"}}"#,
            r#"{"type":"message","timestamp":"1970-01-01T00:01:41Z","message":{"role":"user","content":"good"}}"#,
            r#"{"type":"message","timestamp":"1970-01-01T00:01:50Z","message":{"role":"assistant","content":[{"type":"text","text":"a"}]}}"#,
        ],
    );
    assert_eq!(ss.len(), 1, "bad timestamp skips one message, not the file");
    assert_eq!(ss[0].title.as_deref(), Some("good"));
    assert!(
        ss[0].spans.iter().all(|s| s.kind != SpanKind::Idle),
        "no idle: the usable user turn starts the session"
    );
    assert_eq!(ss[0].union_duration(SpanKind::Inference), secs(9.0) as u128, "101 to 110");
}

#[test]
fn scan_dir_ignores_non_jsonl_and_missing_dir() {
    let lines = [
        r#"{"type":"session","timestamp":"1970-01-01T00:01:40Z"}"#,
        r#"{"type":"message","timestamp":"1970-01-01T00:01:40Z","message":{"role":"user","content":"q"}}"#,
        r#"{"type":"message","timestamp":"1970-01-01T00:01:50Z","message":{"role":"assistant","content":[{"type":"text","text":"a"}]}}"#,
    ];
    let entry = |name: &str, lines: &[&str]| DirFile {
        name: name.to_string(),
        mtime: None,
        content: FileLines {
            lines: lines.iter().map(|l| l.to_string()).collect(),
            undecodable: 0,
        },
    };
    let files = vec![
        entry("s1.jsonl", &lines),
        entry("readme.txt", &lines),
        entry("s2.jsonl.bak", &lines),
        entry(".jsonl", &lines),
    ];
    let out = scan_dir(Ok(files), secs(T0), secs(T1)).expect("dir readable");
    assert_eq!(out.len(), 1, "only .jsonl files count");
    assert!(scan_dir(Ok(vec![]), secs(T0), secs(T1)).unwrap().is_empty());

    let missing = scan_dir(Err("read nope: not found".to_string()), secs(T0), secs(T1));
    assert!(missing.is_err(), "missing dir: an error, no panic");
    assert_eq!(missing.unwrap_err(), "read nope: not found");
}

#[test]
fn orphan_tool_result_uses_fallback_bounds() {
    let ss = scan_lines(
        "s1.jsonl",
        &[
            r#"{"type":"session","timestamp":"1970-01-01T00:01:40Z"}"#,
            r#"{"type":"message","timestamp":"1970-01-01T00:01:40Z","message":{"role":"user","content":"q"}}"#,
            r#"{"type":"message","timestamp":"1970-01-01T00:02:00Z","message":{"role":"toolResult","toolCallId":"ghost","toolName":"shell","content":[{"type":"text","text":"late"}]}}"#,
        ],
    );
    assert_eq!(ss.len(), 1);
    let tools: Vec<_> = ss[0].spans.iter().filter(|s| s.kind == SpanKind::Tool).collect();
    assert_eq!(tools.len(), 1, "orphan result still produces a span");
    assert_eq!(tools[0].label, "shell");
    assert_eq!(tools[0].meta.as_ref().unwrap().result.as_deref(), Some("late"));
}

#[test]
fn unmatched_pending_tool_call_produces_no_tool_span() {
    let ss = scan_lines(
        "s1.jsonl",
        &[
            r#"{"type":"session","timestamp":"1970-01-01T00:01:40Z"}"#,
            r#"{"type":"message","timestamp":"1970-01-01T00:01:40Z","message":{"role":"user","content":"q"}}"#,
            r#"{"type":"message","timestamp":"1970-01-01T00:01:41Z","message":{"role":"assistant","content":[{"type":"toolCall","id":"nope","name":"web","arguments":{"q":"x"}}]}}"#,
            r#"{"type":"message","timestamp":"1970-01-01T00:01:50Z","message":{"role":"user","content":"next"}}"#,
        ],
    );
    assert!(
        ss[0].spans.iter().all(|s| s.kind != SpanKind::Tool),
        "un-answered toolCall yields no tool span"
    );
}

#[test]
fn prime_long_silence_is_idle_not_inference() {
    let ss = scan_lines(
        "s1.jsonl",
        &[
            r#"{"type":"session","timestamp":"1970-01-01T00:01:40Z"}"#,
            r#"{"type":"message","timestamp":"1970-01-01T00:01:40Z","message":{"role":"user","content":"q"}}"#,
            r#"{"type":"message","timestamp":"1970-01-01T00:01:50Z","message":{"role":"assistant","content":[{"type":"text","text":"a"}]}}"#,
            r#"{"type":"message","timestamp":"1970-01-01T00:11:50Z","message":{"role":"assistant","content":[{"type":"text","text":"b"}]}}"#,
        ],
    );
    let s = &ss[0];
    let long_idles: Vec<_> = s
        .spans
        .iter()
        .filter(|x| x.kind == SpanKind::Idle && x.label.contains("long silence"))
        .collect();
    assert_eq!(long_idles.len(), 1, "silence above the cap is idle (long silence)");
    assert_eq!(long_idles[0].t_end - long_idles[0].t_start, secs(600.0));
}

#[test]
fn prime_user_only_session_has_empty_spans_and_human_kind() {
    let ss = scan_lines(
        "s1.jsonl",
        &[
            r#"{"type":"session","timestamp":"1970-01-01T00:01:40Z"}"#,
            r#"{"type":"message","timestamp":"1970-01-01T00:01:40Z","message":{"role":"user","content":"just asking"}}"#,
        ],
    );
    assert_eq!(ss.len(), 1);
    assert_eq!(ss[0].kind, SessionKind::Human);
    assert!(ss[0].spans.is_empty(), "no span pairs, empty spans");
    assert_eq!(ss[0].t_start, secs(100.0));
    assert_eq!(ss[0].t_end, secs(100.0));
    assert_eq!(ss[0].title.as_deref(), Some("just asking"));
}

#[test]
fn prime_assistant_only_session_is_sub_kind() {
    let ss = scan_lines(
        "s1.jsonl",
        &[
            r#"{"type":"session","timestamp":"1970-01-01T00:01:40Z"}"#,
            r#"{"type":"message","timestamp":"1970-01-01T00:01:40Z","message":{"role":"assistant","content":[{"type":"text","text":"autonomous"}]}}"#,
            r#"{"type":"message","timestamp":"1970-01-01T00:01:45Z","message":{"role":"assistant","content":[{"type":"text","text":"still going"}]}}"#,
        ],
    );
    assert_eq!(ss.len(), 1);
    assert_eq!(ss[0].kind, SessionKind::Sub, "zero user rows");
    assert_eq!(ss[0].title, None, "no user message, no title");
    assert_eq!(ss[0].union_duration(SpanKind::Inference), secs(5.0) as u128);
}

#[test]
fn prime_events_missing_message_or_timestamp_are_skipped() {
    let ss = scan_lines(
        "s1.jsonl",
        &[
            r#"{"type":"session","timestamp":"1970-01-01T00:01:40Z"}"#,
            r#"{"type":"message","timestamp":"1970-01-01T00:01:40Z"}"#,
            r#"{"timestamp":"1970-01-01T00:01:41Z","message":{"role":"user","content":"no type field"}}"#,
            r#"{"type":"message","message":{"role":"user","content":"no timestamp"}}"#,
            r#"{"type":"message","timestamp":"1970-01-01T00:01:42Z","message":{"role":"user","content":"ok"}}"#,
            r#"{"type":"message","timestamp":"1970-01-01T00:01:50Z","message":{"role":"assistant","content":[{"type":"text","text":"a"}]}}"#,
        ],
    );
    assert_eq!(ss.len(), 1, "file survives malformed events");
    assert_eq!(ss[0].title.as_deref(), Some("ok"));
    assert_eq!(ss[0].union_duration(SpanKind::Inference), secs(8.0) as u128, "102 to 110");
}

#[test]
fn prime_toolcall_with_object_arguments_serialized() {
    let ss = scan_lines(
        "s1.jsonl",
        &[
            r#"{"type":"session","timestamp":"1970-01-01T00:01:40Z"}"#,
            r#"{"type":"message","timestamp":"1970-01-01T00:01:40Z","message":{"role":"user","content":"q"}}"#,
            r#"{"type":"message","timestamp":"1970-01-01T00:01:41Z","message":{"role":"assistant","content":[{"type":"toolCall","id":"o1","name":"search","arguments":{"query":"hello"}}]}}"#,
            r#"{"type":"message","timestamp":"1970-01-01T00:01:45Z","message":{"role":"toolResult","toolCallId":"o1","toolName":"search","content":[{"type":"text","text":"found"}]}}"#,
        ],
    );
    let tool = ss[0].spans.iter().find(|s| s.kind == SpanKind::Tool).expect("tool span");
    let args = tool.meta.as_ref().unwrap().args.as_deref().unwrap();
    assert!(args.contains("query"), "object args serialized: {args}");
    assert!(args.contains("hello"));
    assert_eq!(args, r#"{"query":"hello"}"#);
}
