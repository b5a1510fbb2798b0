//! Edge cases of the Hermes loader.
use session_timeline::loaders::hermes::{
    discover_dbs, scan_all, scan_profile, select_sessions, Fetched, Messages, MsgRow, ProfileRows,
    SessRow,
};
use session_timeline::model::{Session, SessionKind, SpanKind};
use session_timeline::profiles::Profile;
use session_timeline::text::PREVIEW_N;
use session_timeline::{scan_stats, ScanStats};

const T0: f64 = 100.0;
const T1: f64 = 300.0;

fn secs(t: f64) -> i128 {
    (t * 1e9).round() as i128
}

fn sess_row(
    id: &str,
    title: Option<&str>,
    parent: Option<&str>,
    source: Option<&str>,
    started: f64,
    ended: f64,
) -> SessRow {
    SessRow {
        id: id.to_string(),
        title: title.map(|s| s.to_string()),
        parent: parent.map(|s| s.to_string()),
        source: source.map(|s| s.to_string()),
        archived: Some(0),
        started_at: Some(secs(started)),
        ended_at: Some(secs(ended)),
        last_activity_at: Some(secs(ended)),
    }
}

fn msg_row(
    id: i64,
    role: &str,
    content: &str,
    ts: f64,
    pmid: Option<&str>,
    tool_calls: Option<&str>,
    tool_call_id: Option<&str>,
) -> MsgRow {
    MsgRow {
        id,
        display_order: Some(id),
        active: Some(1),
        role: role.to_string(),
        tool_name: None,
        tool_call_id: tool_call_id.map(|s| s.to_string()),
        tool_calls: tool_calls.map(|s| s.to_string()),
        content: Some(content.to_string()),
        ts: secs(ts),
        pmid: pmid.map(|s| s.to_string()),
    }
}

/// What a database of these sessions says of the window, the messages being
/// those of the first session.
fn reply(rows: &[SessRow], msgs: &[MsgRow], t0: f64, t1: f64) -> ProfileRows {
    let rows: Vec<SessRow> = rows.to_vec();
    let mut sessions: Vec<Fetched> = Vec::new();
    for p in select_sessions(&rows, secs(t0), secs(t1)) {
        let own = if p == 0 { msgs.to_vec() } else { Vec::new() };
        sessions.push(Fetched {
            row: rows[p].clone(),
            messages: Messages::Rows { rows: own, undecodable: 0 },
        });
    }
    ProfileRows { sessions, undecodable: 0 }
}

fn scan_hermes(rows: &[SessRow], msgs: &[MsgRow], stats: &mut ScanStats) -> Vec<Session> {
    let part = scan_profile(&Profile::top(), Ok(reply(rows, msgs, T0, T1)));
    assert!(part.warning.is_none());
    scan_stats(vec![part.loaded], stats)
}

fn scan_rows(rows: &[SessRow], msgs: &[MsgRow]) -> Vec<Session> {
    scan_hermes(rows, msgs, &mut ScanStats::default())
}

fn user_asst() -> Vec<MsgRow> {
    vec![
        msg_row(1, "user", "hello world", 100.0, None, None, None),
        msg_row(2, "assistant", "answer", 150.0, None, None, None),
    ]
}

#[test]
fn hermes_title_falls_back_to_first_user_message() {
    let ss = scan_rows(
        &[sess_row("s1", None, None, Some("tui"), 100.0, 200.0)],
        &[
            msg_row(1, "user", "first words", 100.0, None, None, None),
            msg_row(2, "assistant", "a", 150.0, None, None, None),
        ],
    );
    assert_eq!(ss[0].title.as_deref(), Some("first words"));
}

#[test]
fn hermes_empty_title_string_falls_back() {
    let ss = scan_rows(
        &[sess_row("s1", Some(""), None, Some("tui"), 100.0, 200.0)],
        &user_asst(),
    );
    assert_eq!(ss[0].title.as_deref(), Some("hello world"));
}

#[test]
fn hermes_tool_row_without_call_id_uses_tool_name_column() {
    let mut tool = msg_row(3, "tool", "output", 130.0, None, None, None);
    tool.tool_name = Some("terminal".to_string());
    let ss = scan_rows(
        &[sess_row("s1", None, None, Some("tui"), 100.0, 200.0)],
        &[
            msg_row(1, "user", "q", 100.0, None, None, None),
            msg_row(2, "assistant", "go", 110.0, None, None, None),
            tool,
        ],
    );
    let tools: Vec<_> = ss[0].spans.iter().filter(|s| s.kind == SpanKind::Tool).collect();
    assert_eq!(tools.len(), 1, "orphan tool row still spans");
    assert_eq!(tools[0].label, "terminal", "tool_name column fallback");
    assert_eq!(tools[0].meta.as_ref().unwrap().args, None, "no args known");
}

#[test]
fn hermes_long_tool_result_is_truncated_in_preview() {
    let long: String = "x".repeat(PREVIEW_N * 3);
    let tc = r#"[{"function":{"name":"t","arguments":"{}"},"call_id":"c"}]"#;
    let ss = scan_rows(
        &[sess_row("s1", None, None, Some("tui"), 100.0, 200.0)],
        &[
            msg_row(1, "user", "q", 100.0, None, None, None),
            msg_row(2, "assistant", "go", 110.0, None, Some(tc), None),
            msg_row(3, "tool", &long, 130.0, None, None, Some("c")),
        ],
    );
    let tool = ss[0].spans.iter().find(|s| s.kind == SpanKind::Tool).expect("tool span");
    let result = tool.meta.as_ref().unwrap().result.as_deref().unwrap();
    assert_eq!(result.chars().count(), PREVIEW_N, "result preview capped");
}

#[test]
fn hermes_archived_and_null_start_sessions_filtered() {
    let good = sess_row("good", None, None, Some("tui"), 100.0, 200.0);
    let mut arch = sess_row("arch", None, None, Some("tui"), 100.0, 200.0);
    arch.archived = Some(1);
    let mut nul = sess_row("nul", None, None, Some("tui"), 100.0, 200.0);
    nul.started_at = None;
    let old = sess_row("old", None, None, Some("tui"), 1.0, 2.0);
    let msgs = [
        msg_row(1, "user", "hi", 100.0, None, None, None),
        msg_row(2, "assistant", "yo", 150.0, None, None, None),
    ];
    let ss = scan_rows(&[good, arch, nul, old], &msgs);
    assert_eq!(ss.len(), 1, "only the good overlapping session");
    assert_eq!(ss[0].id, "hermes:default:good");
}

#[test]
fn hermes_session_with_no_active_messages_is_skipped() {
    let mut stats = ScanStats::default();
    let ss = scan_hermes(
        &[sess_row("s1", None, None, Some("tui"), 100.0, 200.0)],
        &[],
        &mut stats,
    );
    assert!(ss.is_empty(), "no active messages, no session");
    assert_eq!(stats.skipped_sessions(), 0, "not an error, just empty");
}

#[test]
fn hermes_scan_all_entry_point_works() {
    let part = scan_profile(
        &Profile::top(),
        Ok(reply(
            &[sess_row("s1", None, None, Some("tui"), 100.0, 200.0)],
            &user_asst(),
            T0,
            T1,
        )),
    );
    let ss = scan_all(vec![part.loaded]);
    assert_eq!(ss.len(), 1);
    assert_eq!(ss[0].kind, SessionKind::Human);
}

#[test]
fn hermes_discover_dbs_ignores_profiles_without_db() {
    assert!(discover_dbs("/h", false, &vec![]).is_empty());
    let dbs = discover_dbs("/h", true, &vec![]);
    assert_eq!(dbs.len(), 1, "dir without state.db ignored");
    assert_eq!(dbs[0].profile.name, "default");
    assert_eq!(dbs[0].path, "/h/state.db");
}

#[test]
fn hermes_tool_row_earlier_than_pair_start_is_dropped() {
    let tc = r#"[{"function":{"name":"t","arguments":"{}"},"call_id":"c"}]"#;
    let ss = scan_rows(
        &[sess_row("s1", None, None, Some("tui"), 100.0, 200.0)],
        &[
            msg_row(1, "user", "q", 100.0, None, None, None),
            msg_row(2, "assistant", "go", 120.0, None, Some(tc), None),
            msg_row(3, "tool", "r", 115.0, None, None, Some("c")),
        ],
    );
    assert!(
        ss[0].spans.iter().all(|s| s.kind != SpanKind::Tool),
        "negative-duration tool span dropped"
    );
    assert!(ss[0].t_end >= ss[0].t_start);
}
