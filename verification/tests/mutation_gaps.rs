//! Gaps that mutants slip through: counters, unions, metadata, titles.
use session_timeline::loaders::hermes::{
    scan_profile, select_sessions, Fetched, Messages, MsgRow, ProfileRows, SessRow,
};
use session_timeline::model::{Session, SpanKind};
use session_timeline::profiles::Profile;
use session_timeline::sources::Found;
use session_timeline::{load_session_by_id, scan, scan_stats, ScanStats, Sources};

const T0: f64 = 100.0;
const T1: f64 = 300.0;

fn secs(t: f64) -> i128 {
    (t * 1e9).round() as i128
}

fn sess_row(
    id: &str,
    title: Option<&str>,
    parent: Option<&str>,
    source: Option<&str>,
    started: f64,
    ended: f64,
) -> SessRow {
    SessRow {
        id: id.to_string(),
        title: title.map(|s| s.to_string()),
        parent: parent.map(|s| s.to_string()),
        source: source.map(|s| s.to_string()),
        archived: Some(0),
        started_at: Some(secs(started)),
        ended_at: Some(secs(ended)),
        last_activity_at: Some(secs(ended)),
    }
}

fn msg_row(
    id: i64,
    role: &str,
    content: &str,
    ts: f64,
    pmid: Option<&str>,
    tool_calls: Option<&str>,
    tool_call_id: Option<&str>,
) -> MsgRow {
    MsgRow {
        id,
        display_order: Some(id),
        active: Some(1),
        role: role.to_string(),
        tool_name: None,
        tool_call_id: tool_call_id.map(|s| s.to_string()),
        tool_calls: tool_calls.map(|s| s.to_string()),
        content: Some(content.to_string()),
        ts: secs(ts),
        pmid: pmid.map(|s| s.to_string()),
    }
}

/// What a database of these sessions says of the window, the messages being
/// those of the first session.
fn reply(rows: &[SessRow], msgs: &[MsgRow], t0: f64, t1: f64) -> ProfileRows {
    let rows: Vec<SessRow> = rows.to_vec();
    let mut sessions: Vec<Fetched> = Vec::new();
    for p in select_sessions(&rows, secs(t0), secs(t1)) {
        let own = if p == 0 { msgs.to_vec() } else { Vec::new() };
        sessions.push(Fetched {
            row: rows[p].clone(),
            messages: Messages::Rows { rows: own, undecodable: 0 },
        });
    }
    ProfileRows { sessions, undecodable: 0 }
}

fn scan_hermes(rows: &[SessRow], msgs: &[MsgRow], stats: &mut ScanStats) -> Vec<Session> {
    let part = scan_profile(&Profile::top(), Ok(reply(rows, msgs, T0, T1)));
    assert!(part.warning.is_none());
    scan_stats(vec![part.loaded], stats)
}

fn scan_rows(rows: &[SessRow], msgs: &[MsgRow]) -> Vec<Session> {
    scan_hermes(rows, msgs, &mut ScanStats::default())
}

#[test]
fn scan_without_stats_returns_sessions() {
    let part = scan_profile(
        &Profile::top(),
        Ok(reply(
            &[sess_row("s1", None, None, Some("tui"), 100.0, 200.0)],
            &[
                msg_row(1, "user", "q", 100.0, None, None, None),
                msg_row(2, "assistant", "a", 150.0, None, None, None),
            ],
            T0,
            T1,
        )),
    );
    let ss = scan(vec![part.loaded]);
    assert_eq!(ss.len(), 1, "scan() itself (not just scan_stats) must work");
    assert_eq!(ss[0].id, "hermes:default:s1");
}

#[test]
fn healthy_scan_reports_zero_skips() {
    let mut stats = ScanStats::default();
    let ss = scan_hermes(
        &[sess_row("s1", None, None, Some("tui"), 100.0, 200.0)],
        &[
            msg_row(1, "user", "q", 100.0, None, None, None),
            msg_row(2, "assistant", "a", 150.0, None, None, None),
        ],
        &mut stats,
    );
    assert_eq!(ss.len(), 1);
    assert_eq!(stats.skipped_sources(), 0, "no broken DBs");
    assert_eq!(stats.skipped_sessions(), 0, "no broken sessions");
    assert_eq!(stats.skipped_rows(), 0, "no bad rows");
}

#[test]
fn missing_messages_table_counts_skipped_sessions() {
    let rows = vec![
        sess_row("s1", None, None, Some("tui"), 100.0, 200.0),
        sess_row("s2", None, None, Some("tui"), 110.0, 220.0),
    ];
    let sessions: Vec<Fetched> = select_sessions(&rows, secs(T0), secs(T1))
        .into_iter()
        .map(|p| Fetched { row: rows[p].clone(), messages: Messages::Unavailable })
        .collect();
    let part = scan_profile(&Profile::top(), Ok(ProfileRows { sessions, undecodable: 0 }));
    let mut stats = ScanStats::default();
    let ss = scan_stats(vec![part.loaded], &mut stats);
    assert!(ss.is_empty());
    assert_eq!(stats.skipped_sessions(), 2, "both sessions skipped, counted");
    assert_eq!(stats.skipped_sources(), 0, "DB opened fine; sessions table fine");
}

#[test]
fn union_of_disjoint_same_kind_spans_is_sum_not_extent() {
    let tc_a = r#"[{"function":{"name":"a","arguments":"{}"},"call_id":"a"}]"#;
    let tc_b = r#"[{"function":{"name":"b","arguments":"{}"},"call_id":"b"}]"#;
    let ss = scan_rows(
        &[sess_row("s1", None, None, Some("tui"), 100.0, 900.0)],
        &[
            msg_row(1, "user", "q", 100.0, None, None, None),
            msg_row(2, "assistant", "go", 110.0, None, Some(tc_a), None),
            msg_row(3, "tool", "ra", 120.0, None, None, Some("a")),
            msg_row(4, "assistant", "go2", 200.0, None, Some(tc_b), None),
            msg_row(5, "tool", "rb", 210.0, None, None, Some("b")),
        ],
    );
    let s = &ss[0];
    assert_eq!(
        s.union_duration(SpanKind::Tool),
        secs(20.0) as u128,
        "union sums disjoint parts"
    );
    assert_eq!(s.spans.iter().filter(|x| x.kind == SpanKind::Tool).count(), 2);
}

#[test]
fn equal_timestamps_create_no_zero_length_spans() {
    let ss = scan_rows(
        &[sess_row("s1", None, None, Some("tui"), 100.0, 200.0)],
        &[
            msg_row(1, "user", "q", 100.0, None, None, None),
            msg_row(2, "assistant", "a", 100.0, None, None, None),
            msg_row(3, "user", "again", 150.0, None, None, None),
        ],
    );
    let s = &ss[0];
    assert!(
        s.spans.iter().all(|x| x.kind != SpanKind::Inference),
        "zero-gap must not produce a span"
    );
    let idle: Vec<_> = s.spans.iter().filter(|x| x.kind == SpanKind::Idle).collect();
    assert_eq!(idle.len(), 1, "only the real 100 to 150 idle");
    assert_eq!(idle[0].t_end - idle[0].t_start, secs(50.0));
}

#[test]
fn hermes_inference_preview_carries_output() {
    let ss = scan_rows(
        &[sess_row("s1", None, None, Some("tui"), 100.0, 200.0)],
        &[
            msg_row(1, "user", "q", 100.0, None, None, None),
            msg_row(2, "assistant", "the answer text", 150.0, None, None, None),
        ],
    );
    let inf = ss[0].spans.iter().find(|s| s.kind == SpanKind::Inference).expect("inference span");
    assert_eq!(inf.meta.as_ref().unwrap().output.as_deref(), Some("the answer text"));
}

#[test]
fn hermes_injected_idle_carries_note() {
    let ss = scan_rows(
        &[sess_row("s1", None, None, Some("tui"), 100.0, 200.0)],
        &[
            msg_row(1, "assistant", "a", 110.0, None, None, None),
            msg_row(2, "user", "injected", 140.0, Some("pm1"), None, None),
            msg_row(3, "assistant", "b", 150.0, None, None, None),
        ],
    );
    let idle = ss[0]
        .spans
        .iter()
        .find(|s| s.kind == SpanKind::Idle && s.t_start == secs(110.0))
        .expect("idle ended by injection");
    let m = idle.meta.as_ref().unwrap();
    assert!(m.note.is_some(), "injected-ended idle is labeled with a note");
    assert_eq!(m.next_user, None, "injected text is not next_user");
}

#[test]
fn hermes_provided_title_wins_over_fallback() {
    let ss = scan_rows(
        &[sess_row("s1", Some("custom title"), None, Some("tui"), 100.0, 200.0)],
        &[
            msg_row(1, "user", "user text as title candidate", 100.0, None, None, None),
            msg_row(2, "assistant", "a", 150.0, None, None, None),
        ],
    );
    assert_eq!(
        ss[0].title.as_deref(),
        Some("custom title"),
        "DB title beats user-message fallback"
    );
    assert_ne!(ss[0].title.as_deref(), Some("user text as title candidate"));
}

#[test]
fn hermes_real_idle_carries_next_user() {
    let ss = scan_rows(
        &[sess_row("s1", None, None, Some("tui"), 100.0, 200.0)],
        &[
            msg_row(1, "user", "first", 100.0, None, None, None),
            msg_row(2, "assistant", "a", 110.0, None, None, None),
            msg_row(3, "user", "what came next", 160.0, None, None, None),
        ],
    );
    let idle = ss[0].spans.iter().find(|s| s.kind == SpanKind::Idle).expect("idle");
    assert_eq!(idle.meta.as_ref().unwrap().next_user.as_deref(), Some("what came next"));
}

#[test]
fn by_id_profile_matches_scan_profile() {
    let rows = vec![sess_row("s1", Some("t"), None, Some("tui"), 100.0, 200.0)];
    let msgs = [
        msg_row(1, "user", "hi", 100.0, None, None, None),
        msg_row(2, "assistant", "yo", 150.0, None, None, None),
    ];
    let part = scan_profile(&Profile::top(), Ok(reply(&rows, &msgs, 0.0, 1e9_f64)));
    let scanned = scan_stats(vec![part.loaded], &mut ScanStats::default());
    assert_eq!(scanned.len(), 1);
    let sources = Sources { hermes_home: "/h".to_string(), prime_dir: None };
    let found = Found::Rows {
        rows: rows.clone(),
        messages: Messages::Rows { rows: msgs.to_vec(), undecodable: 0 },
    };
    let by_id = load_session_by_id(&sources, true, &scanned[0].id, &found)
        .expect("by-id load must succeed for a scanned id");
    assert_eq!(by_id.id, scanned[0].id, "by-id id must equal scanned id");
    assert_eq!(by_id.spans.len(), scanned[0].spans.len());
    assert_eq!((by_id.t_start, by_id.t_end), (scanned[0].t_start, scanned[0].t_end));
}
