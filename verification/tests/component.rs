//! What the loaders yield, decision by decision. Every row and line is made up.
use session_timeline::loaders::hermes::{
    scan_profile, select_sessions, Fetched, Messages, MsgRow, ProfileRows, SessRow,
};
use session_timeline::loaders::prime::{
    first_line_timestamp, last_line_timestamp, load_file_pub, session_files, session_stem,
    worth_reading, FileLines,
};
use session_timeline::model::{Session, SessionKind, SpanKind};
use session_timeline::profiles::Profile;
use session_timeline::scan::Loaded;
use session_timeline::text::PREVIEW_N;
use session_timeline::{scan_stats, ScanStats};

const T0: f64 = 100.0;
const T1: f64 = 300.0;

fn secs(t: f64) -> i128 {
    (t * 1e9).round() as i128
}

/// Scans a directory of session files, each a name and its text.
fn scan_prime(files: &[(&str, String)], stats: &mut ScanStats) -> Vec<Session> {
    let (t0, t1) = (secs(T0), secs(T1));
    let names: Vec<String> = files.iter().map(|f| f.0.to_string()).collect();
    let mut parts: Vec<Loaded> = Vec::new();
    for name in session_files(&names) {
        let text = &files.iter().find(|f| f.0 == name).unwrap().1;
        let first = first_line_timestamp(text.lines().next().unwrap_or(""));
        let last = last_line_timestamp(text, false);
        if !worth_reading(first, last, None, t0, t1) {
            continue;
        }
        let content = FileLines {
            lines: text.lines().map(|l| l.to_string()).collect(),
            undecodable: 0,
        };
        let stem = session_stem(&name).unwrap();
        let mut skipped = ScanStats::default();
        let session = load_file_pub(&stem, &content, t0, t1, &mut skipped);
        parts.push(Loaded { sessions: session.into_iter().collect(), stats: skipped });
    }
    scan_stats(parts, stats)
}

fn scan_lines(name: &str, lines: &[&str]) -> Vec<Session> {
    scan_prime(&[(name, lines.join("\n"))], &mut ScanStats::default())
}

fn sess_row(
    id: &str,
    title: Option<&str>,
    parent: Option<&str>,
    source: Option<&str>,
    started: f64,
    ended: f64,
) -> SessRow {
    SessRow {
        id: id.to_string(),
        title: title.map(|s| s.to_string()),
        parent: parent.map(|s| s.to_string()),
        source: source.map(|s| s.to_string()),
        archived: Some(0),
        started_at: Some(secs(started)),
        ended_at: Some(secs(ended)),
        last_activity_at: Some(secs(ended)),
    }
}

fn msg_row(
    id: i64,
    role: &str,
    content: &str,
    ts: f64,
    pmid: Option<&str>,
    tool_calls: Option<&str>,
    tool_call_id: Option<&str>,
) -> MsgRow {
    MsgRow {
        id,
        display_order: Some(id),
        active: Some(1),
        role: role.to_string(),
        tool_name: None,
        tool_call_id: tool_call_id.map(|s| s.to_string()),
        tool_calls: tool_calls.map(|s| s.to_string()),
        content: Some(content.to_string()),
        ts: secs(ts),
        pmid: pmid.map(|s| s.to_string()),
    }
}

/// What a database of these sessions says of the window, the messages being
/// those of the first session.
fn reply(rows: &[SessRow], msgs: &[MsgRow], t0: f64, t1: f64) -> ProfileRows {
    let rows: Vec<SessRow> = rows.to_vec();
    let mut sessions: Vec<Fetched> = Vec::new();
    for p in select_sessions(&rows, secs(t0), secs(t1)) {
        let own = if p == 0 { msgs.to_vec() } else { Vec::new() };
        sessions.push(Fetched {
            row: rows[p].clone(),
            messages: Messages::Rows { rows: own, undecodable: 0 },
        });
    }
    ProfileRows { sessions, undecodable: 0 }
}

fn scan_hermes(rows: &[SessRow], msgs: &[MsgRow], stats: &mut ScanStats) -> Vec<Session> {
    let part = scan_profile(&Profile::top(), Ok(reply(rows, msgs, T0, T1)));
    assert!(part.warning.is_none());
    scan_stats(vec![part.loaded], stats)
}

fn scan_rows(rows: &[SessRow], msgs: &[MsgRow]) -> Vec<Session> {
    scan_hermes(rows, msgs, &mut ScanStats::default())
}

#[test]
fn q2_session_overlapping_window_is_returned_unchanged() {
    let ss = scan_lines(
        "s1.jsonl",
        &[
            r#"{"type":"session","timestamp":"1970-01-01T00:00:10Z"}"#,
            r#"{"type":"message","timestamp":"1970-01-01T00:00:10Z","message":{"role":"user","content":"hi"}}"#,
            r#"{"type":"message","timestamp":"1970-01-01T00:06:40Z","message":{"role":"assistant","content":[{"type":"text","text":"yo"}]}}"#,
        ],
    );
    assert_eq!(ss.len(), 1);
    let s = &ss[0];
    assert_eq!((s.t_start, s.t_end), (secs(10.0), secs(400.0)), "extent from spans, not window");
}

#[test]
fn q2_session_ending_before_window_is_excluded() {
    let ss = scan_lines(
        "s1.jsonl",
        &[
            r#"{"type":"session","timestamp":"1970-01-01T00:00:01Z"}"#,
            r#"{"type":"message","timestamp":"1970-01-01T00:00:01Z","message":{"role":"user","content":"hi"}}"#,
            r#"{"type":"message","timestamp":"1970-01-01T00:00:05Z","message":{"role":"assistant","content":[{"type":"text","text":"yo"}]}}"#,
        ],
    );
    assert!(ss.is_empty(), "ended at t=5 < t0=100");
}

#[test]
fn q2_session_starting_after_window_is_excluded() {
    let ss = scan_lines(
        "s1.jsonl",
        &[
            r#"{"type":"session","timestamp":"1970-01-01T00:10:00Z"}"#,
            r#"{"type":"message","timestamp":"1970-01-01T00:10:00Z","message":{"role":"user","content":"hi"}}"#,
        ],
    );
    assert!(ss.is_empty(), "starts at t=600 > t1=300");
}

#[test]
fn q3_hermes_ids_are_namespaced() {
    let ss = scan_rows(
        &[sess_row("s1", Some("my title"), None, Some("tui"), 100.0, 200.0)],
        &[
            msg_row(1, "user", "hello", 100.0, None, None, None),
            msg_row(2, "assistant", "hi", 150.0, None, None, None),
        ],
    );
    assert_eq!(ss.len(), 1);
    assert_eq!(ss[0].id, "hermes:default:s1");
    assert_eq!(ss[0].profile.as_deref(), Some("default"));
    assert_eq!(ss[0].source.as_deref(), Some("tui"));
}

#[test]
fn q3_prime_ids_are_namespaced() {
    let ss = scan_lines(
        "abc123.jsonl",
        &[
            r#"{"type":"session","timestamp":"1970-01-01T00:01:40Z"}"#,
            r#"{"type":"message","timestamp":"1970-01-01T00:01:40Z","message":{"role":"user","content":"hi"}}"#,
        ],
    );
    assert_eq!(ss.len(), 1);
    assert_eq!(ss[0].id, "prime:abc123");
}

#[test]
fn q4_broken_source_is_skipped_and_counted() {
    let good = scan_profile(
        &Profile::top(),
        Ok(reply(
            &[sess_row("s1", None, None, Some("tui"), 100.0, 200.0)],
            &[
                msg_row(1, "user", "hello", 100.0, None, None, None),
                msg_row(2, "assistant", "hi", 150.0, None, None, None),
            ],
            T0,
            T1,
        )),
    );
    let bad = scan_profile(&Profile::of_directory(true, "broken"), Err("file is not a database".to_string()));
    assert_eq!(bad.warning.as_deref(), Some("file is not a database"));
    let mut stats = ScanStats::default();
    let ss = scan_stats(vec![good.loaded, bad.loaded], &mut stats);
    assert_eq!(ss.len(), 1, "good profile still loads");
    assert_eq!(stats.skipped_sources(), 1, "broken DB counted");
    assert_eq!(stats.skipped_sessions(), 0);
}

#[test]
fn q4_malformed_tool_calls_row_is_counted_not_fatal() {
    let mut stats = ScanStats::default();
    let ss = scan_hermes(
        &[sess_row("s1", None, None, Some("tui"), 100.0, 200.0)],
        &[
            msg_row(1, "user", "hello", 100.0, None, None, None),
            msg_row(2, "assistant", "thinking", 110.0, None, Some("not json {{{"), None),
            msg_row(3, "user", "again", 120.0, None, None, None),
        ],
        &mut stats,
    );
    assert_eq!(ss.len(), 1, "session survives a bad row");
    assert_eq!(stats.skipped_rows(), 1);
    assert!(!ss[0].spans.is_empty());
}

#[test]
fn q4_corrupt_prime_line_is_skipped_not_fatal() {
    let mut stats = ScanStats::default();
    let lines = [
        r#"{"type":"session","timestamp":"1970-01-01T00:01:40Z"}"#,
        "garbage line {",
        r#"{"type":"message","timestamp":"1970-01-01T00:01:41Z","message":{"role":"user","content":"hi"}}"#,
        r#"{"type":"message","timestamp":"1970-01-01T00:01:50Z","message":{"role":"assistant","content":[{"type":"text","text":"yo"}]}}"#,
    ];
    let ss = scan_prime(&[("s1.jsonl", lines.join("\n"))], &mut stats);
    assert_eq!(ss.len(), 1, "file survives a bad line");
    assert!(!ss[0].spans.is_empty());
    assert_eq!(stats.skipped_rows(), 1, "the bad line is counted");
}

#[test]
fn q5_injected_user_messages_do_not_make_a_session_human() {
    let ss = scan_rows(
        &[sess_row("s1", None, None, Some("tui"), 100.0, 200.0)],
        &[
            msg_row(1, "user", "injected", 100.0, Some("pm1"), None, None),
            msg_row(2, "assistant", "a", 110.0, None, None, None),
            msg_row(3, "user", "injected2", 120.0, Some("pm2"), None, None),
            msg_row(4, "assistant", "b", 130.0, None, None, None),
        ],
    );
    assert_eq!(ss.len(), 1);
    assert_eq!(ss[0].kind, SessionKind::Sub, "injected is not human input");
}

#[test]
fn q5_subagent_with_parent_is_sub() {
    let ss = scan_rows(
        &[sess_row("child", None, Some("parent123"), Some("tui"), 100.0, 200.0)],
        &[
            msg_row(1, "user", "task", 100.0, None, None, None),
            msg_row(2, "assistant", "ok", 110.0, None, None, None),
        ],
    );
    assert_eq!(ss.len(), 1);
    assert_eq!(ss[0].kind, SessionKind::Sub, "parent_session_id set");
}

#[test]
fn q5_cron_source_is_transparent_not_a_kind() {
    let ss = scan_rows(
        &[sess_row("c1", None, None, Some("cron"), 100.0, 200.0)],
        &[
            msg_row(1, "user", "job", 100.0, None, None, None),
            msg_row(2, "assistant", "done", 110.0, None, None, None),
        ],
    );
    assert_eq!(ss.len(), 1);
    assert_eq!(ss[0].kind, SessionKind::Human);
    assert_eq!(ss[0].source.as_deref(), Some("cron"));
}

#[test]
fn q6_previews_are_capped_and_whitespace_collapsed() {
    let long: String = "a\\n b   c\\n\\n d".repeat(50);
    let last = format!(
        r#"{{"type":"message","timestamp":"1970-01-01T00:01:50Z","message":{{"role":"user","content":"{long}"}}}}"#
    );
    let ss = scan_lines(
        "s1.jsonl",
        &[
            r#"{"type":"session","timestamp":"1970-01-01T00:01:40Z"}"#,
            r#"{"type":"message","timestamp":"1970-01-01T00:01:40Z","message":{"role":"user","content":"first turn"}}"#,
            r#"{"type":"message","timestamp":"1970-01-01T00:01:41Z","message":{"role":"assistant","content":[{"type":"text","text":"short"}]}}"#,
            &last,
        ],
    );
    assert_eq!(ss.len(), 1);
    let idle = ss[0]
        .spans
        .iter()
        .find(|s| s.kind == SpanKind::Idle)
        .expect("idle before the long second user turn");
    let nu = idle.meta.as_ref().unwrap().next_user.as_ref().unwrap();
    assert_eq!(nu.chars().count(), PREVIEW_N);
    assert!(!nu.contains('\n') && !nu.contains("  "), "whitespace collapsed");
}

#[test]
fn q7_user_then_assistant_is_inference() {
    let ss = scan_rows(
        &[sess_row("s1", None, None, Some("tui"), 100.0, 200.0)],
        &[
            msg_row(1, "user", "q", 100.0, None, None, None),
            msg_row(2, "assistant", "a", 150.0, None, None, None),
        ],
    );
    let inf: Vec<_> = ss[0].spans.iter().filter(|s| s.kind == SpanKind::Inference).collect();
    assert_eq!(inf.len(), 1);
    assert_eq!((inf[0].t_start, inf[0].t_end), (secs(100.0), secs(150.0)));
}

#[test]
fn q7_tool_call_pairing_by_call_id() {
    let tool_calls =
        r#"[{"function":{"name":"terminal","arguments":"{\"cmd\":\"ls\"}"},"call_id":"c1"}]"#;
    let ss = scan_rows(
        &[sess_row("s1", None, None, Some("tui"), 100.0, 200.0)],
        &[
            msg_row(1, "user", "q", 100.0, None, None, None),
            msg_row(2, "assistant", "running", 110.0, None, Some(tool_calls), None),
            msg_row(3, "tool", "output text", 130.0, None, None, Some("c1")),
        ],
    );
    let tools: Vec<_> = ss[0].spans.iter().filter(|s| s.kind == SpanKind::Tool).collect();
    assert_eq!(tools.len(), 1);
    assert_eq!(tools[0].label, "terminal");
    assert_eq!(tools[0].t_start, secs(110.0), "starts at assistant row");
    assert_eq!(tools[0].t_end, secs(130.0));
    let m = tools[0].meta.as_ref().unwrap();
    assert_eq!(m.args.as_deref(), Some(r#"{"cmd":"ls"}"#));
    assert_eq!(m.result.as_deref(), Some("output text"));
}

#[test]
fn q7_silence_over_gap_cap_is_idle_not_inference() {
    let ss = scan_rows(
        &[sess_row("s1", None, None, Some("tui"), 100.0, 200.0)],
        &[
            msg_row(1, "user", "q", 100.0, None, None, None),
            msg_row(2, "assistant", "a", 110.0, None, None, None),
            msg_row(3, "user", "again", 470.0, None, None, None),
        ],
    );
    let s = &ss[0];
    assert_eq!(
        s.union_duration(SpanKind::Inference),
        secs(10.0) as u128,
        "110-100 inference only; 470-110 silence is idle"
    );
    assert_eq!(s.union_duration(SpanKind::Idle), secs(360.0) as u128);
}

#[test]
fn q7_parallel_tools_are_timed_individually() {
    let tc_a = r#"[{"function":{"name":"alpha","arguments":"{}"},"call_id":"a"}]"#;
    let tc_b = r#"[{"function":{"name":"beta","arguments":"{}"},"call_id":"b"}]"#;
    let ss = scan_rows(
        &[sess_row("s1", None, None, Some("tui"), 100.0, 200.0)],
        &[
            msg_row(1, "user", "q", 100.0, None, None, None),
            msg_row(2, "assistant", "go", 110.0, None, Some(tc_a), None),
            msg_row(3, "tool", "ra", 130.0, None, None, Some("a")),
            msg_row(4, "assistant", "go2", 112.0, None, Some(tc_b), None),
            msg_row(5, "tool", "rb", 160.0, None, None, Some("b")),
        ],
    );
    let mut tools: Vec<_> = ss[0].spans.iter().filter(|s| s.kind == SpanKind::Tool).collect();
    tools.sort_by_key(|s| s.t_start);
    assert_eq!(tools.len(), 2);
    assert_eq!(tools[0].label, "alpha");
    assert_eq!(tools[1].label, "beta");
    assert_eq!(ss[0].union_duration(SpanKind::Tool), secs(50.0) as u128, "union, not sum");
}

#[test]
fn q7_active0_rows_are_excluded() {
    let mut dead = msg_row(2, "assistant", "dead-history", 150.0, None, None, None);
    dead.active = Some(0);
    let ss = scan_rows(
        &[sess_row("s1", None, None, Some("tui"), 100.0, 200.0)],
        &[msg_row(1, "user", "q", 100.0, None, None, None), dead],
    );
    assert_eq!(ss.len(), 1);
    assert!(
        ss[0].spans.iter().all(|s| s.kind != SpanKind::Inference || s.label != "model"),
        "no inference span from the dead-history row"
    );
    assert!(!ss[0]
        .spans
        .iter()
        .any(|s| s.meta.as_ref().and_then(|m| m.output.as_deref()) == Some("dead-history")));
}

#[test]
fn q7_extent_from_span_extremes_not_row_order() {
    let tc = r#"[{"function":{"name":"t","arguments":"{}"},"call_id":"c"}]"#;
    let ss = scan_rows(
        &[sess_row("s1", None, None, Some("tui"), 100.0, 999.0)],
        &[
            msg_row(1, "user", "q", 100.0, None, None, None),
            msg_row(2, "assistant", "go", 120.0, None, Some(tc), None),
            msg_row(3, "tool", "r", 130.0, None, None, Some("c")),
            msg_row(4, "user", "later-display", 105.0, None, None, None),
        ],
    );
    assert_eq!(ss.len(), 1);
    assert_eq!((ss[0].t_start, ss[0].t_end), (secs(100.0), secs(130.0)), "extent from spans");
}

#[test]
fn prime_tool_call_span_from_jsonl() {
    let ss = scan_lines(
        "s1.jsonl",
        &[
            r#"{"type":"session","timestamp":"1970-01-01T00:01:40Z"}"#,
            r#"{"type":"message","timestamp":"1970-01-01T00:01:40Z","message":{"role":"user","content":"q"}}"#,
            r#"{"type":"message","timestamp":"1970-01-01T00:01:50Z","message":{"role":"assistant","content":[{"type":"toolCall","id":"x1","name":"shell","arguments":{"cmd":"ls"}}]}}"#,
            r#"{"type":"message","timestamp":"1970-01-01T00:02:10Z","message":{"role":"toolResult","toolCallId":"x1","toolName":"shell","content":[{"type":"text","text":"out"}]}}"#,
        ],
    );
    let tools: Vec<_> = ss[0].spans.iter().filter(|s| s.kind == SpanKind::Tool).collect();
    assert_eq!(tools.len(), 1);
    assert_eq!(tools[0].label, "shell");
    assert_eq!((tools[0].t_start, tools[0].t_end), (secs(110.0), secs(130.0)));
}

#[test]
fn prime_empty_and_garbage_files_are_ignored() {
    let ss = scan_prime(
        &[
            ("empty.jsonl", String::new()),
            ("trash.jsonl", ["{", "not json", ""].join("\n")),
        ],
        &mut ScanStats::default(),
    );
    assert!(ss.is_empty());
}
