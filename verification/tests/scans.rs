//! Scans: selection, windows, bad records, and loading by id.
use session_timeline::loaders::hermes::{
    build_session, discover_dbs, load_profile_db, load_session_by_id as load_by_sid, read_calls,
    read_event, scan_all_stats, scan_profile, select_sessions, Fetched, Messages, MsgRow, ProfileRows, SessRow,
};
use session_timeline::loaders::prime;
use session_timeline::loaders::prime::{
    first_line_timestamp, last_line_timestamp, load_file_by_stem, load_file_pub, ptext, read_line,
    scan_dir, wants_file, worth_reading, DirFile, FileLines, Line,
};
use session_timeline::model::{Session, SpanKind, DAY, SECOND};
use session_timeline::profiles::Profile;
use session_timeline::scan::Loaded;
use session_timeline::sources::Found;
use session_timeline::timeline::Role;
use session_timeline::window::meets_window;
use session_timeline::{load_session_by_id, scan_reported, scan_stats, ScanStats, Sources};

fn row(id: &str, started: i128, ended: Option<i128>) -> SessRow {
    SessRow {
        id: id.to_string(),
        title: None,
        parent: None,
        source: None,
        archived: Some(0),
        started_at: Some(started * SECOND),
        ended_at: ended.map(|t| t * SECOND),
        last_activity_at: None,
    }
}

fn msg(id: i64, role: &str, t: i128) -> MsgRow {
    MsgRow {
        id,
        display_order: None,
        active: Some(1),
        role: role.to_string(),
        tool_name: None,
        tool_call_id: None,
        tool_calls: None,
        content: Some(format!("{role} {id}")),
        ts: t * SECOND,
        pmid: None,
    }
}

fn rows(rows: Vec<MsgRow>) -> Messages {
    Messages::Rows { rows, undecodable: 0 }
}

fn lines(text: &[&str]) -> FileLines {
    FileLines { lines: text.iter().map(|l| l.to_string()).collect(), undecodable: 0 }
}

fn said(role: &str, second: u32) -> String {
    format!(
        r#"{{"type":"message","timestamp":"1970-01-01T00:00:{second:02}Z","message":{{"role":"{role}","content":"{role} {second}"}}}}"#
    )
}

fn value(text: &str) -> serde_json::Value {
    serde_json::from_str(text).unwrap()
}

#[test]
fn windows_are_half_open() {
    assert!(meets_window(0, 10, 10, 20), "ends as the window opens");
    assert!(!meets_window(0, 9, 10, 20));
    assert!(meets_window(19, 30, 10, 20));
    assert!(!meets_window(20, 30, 10, 20), "starts as the window closes");
    assert!(meets_window(0, 100, 10, 20));
    for (a, b) in [(0, 5), (0, 10), (5, 12), (12, 15), (15, 30), (20, 22), (0, 40)] {
        assert_eq!(
            meets_window(a, b, 10, 20),
            meets_window(a, b, 10, 14) || meets_window(a, b, 14, 20)
        );
    }
}

#[test]
fn selection_is_the_window_by_start() {
    let mut live = row("live", 50, None);
    live.last_activity_at = Some(150 * SECOND);
    let mut unknown = row("unknown", 100, Some(200));
    unknown.archived = None;
    let table = vec![
        row("late", 299, Some(400)),
        row("closing", 300, Some(400)),
        row("opening", 1, Some(100)),
        row("before", 1, Some(99)),
        live,
        row("point", 120, None),
        unknown,
        row("twin", 50, Some(500)),
    ];
    let picked: Vec<&str> = select_sessions(&table, 100 * SECOND, 300 * SECOND)
        .into_iter()
        .map(|p| table[p].id.as_str())
        .collect();
    assert_eq!(picked, vec!["opening", "live", "twin", "point", "late"]);
    assert_eq!(select_sessions(&table, i128::MIN, i128::MAX).len(), 7);
}

#[test]
fn rows_are_shown_by_position() {
    let mut stats = ScanStats::default();
    let mut first = msg(9, "user", 1);
    first.display_order = Some(1);
    let second = msg(2, "assistant", 5);
    let mut third = msg(1, "user", 8);
    third.display_order = Some(3);
    let s = row("s", 1, None);
    let a = build_session(
        &Profile::of_directory(true, "p"),
        &s,
        &vec![third.clone(), second.clone(), first.clone()],
        &mut stats,
    )
    .unwrap();
    let b = build_session(&Profile::of_directory(true, "p"), &s, &vec![first, third, second], &mut stats).unwrap();
    let kinds = |x: &Session| x.spans.iter().map(|p| (p.kind, p.t_start, p.t_end)).collect::<Vec<_>>();
    assert_eq!(kinds(&a), kinds(&b), "the order of the table does not matter");
    assert_eq!(
        kinds(&a),
        vec![
            (SpanKind::Inference, SECOND, 5 * SECOND),
            (SpanKind::Idle, 5 * SECOND, 8 * SECOND)
        ]
    );
    assert_eq!(a.title.as_deref(), Some("user 9"));
}

#[test]
fn dead_rows_change_nothing() {
    let s = row("s", 1, None);
    let live = vec![msg(1, "user", 1), msg(3, "assistant", 5)];
    for active in [Some(0), Some(2), None] {
        let mut dead = msg(2, "user", 3);
        dead.active = active;
        dead.tool_calls = Some("{".to_string());
        let with = vec![live[0].clone(), dead, live[1].clone()];
        let mut stats = ScanStats::default();
        let a = build_session(&Profile::of_directory(true, "p"), &s, &with, &mut stats).unwrap();
        let b = build_session(&Profile::of_directory(true, "p"), &s, &live, &mut stats).unwrap();
        assert_eq!(a.spans.len(), b.spans.len());
        assert_eq!(a.spans[0].t_end, b.spans[0].t_end);
        assert_eq!(stats.skipped_rows(), 0);
    }
}

#[test]
fn payloads_list_calls() {
    let listed = read_calls(&value(
        r#"[
            {"function":{"name":"n","arguments":"a"},"call_id":"c","id":"i"},
            {"function":{"name":7},"id":"i"},
            {"call_id":null,"id":"i"},
            3
        ]"#,
    ));
    let shown: Vec<(&str, &str, &str)> = listed
        .iter()
        .map(|c| (c.id.as_str(), c.name.as_str(), c.args.as_str()))
        .collect();
    assert_eq!(shown, vec![("c", "n", "a"), ("i", "?", ""), ("", "?", ""), ("", "?", "")]);
    assert!(read_calls(&value(r#"{"function":{}}"#)).is_empty());
}

#[test]
fn malformed_payloads_cost_their_calls() {
    let mut m = msg(1, "assistant", 7);
    m.tool_calls = Some("{{".to_string());
    let (e, malformed) = read_event(&m);
    assert!(malformed);
    assert!(e.calls.is_empty());
    assert_eq!((e.role, e.t, e.text.as_str()), (Role::Assistant, 7 * SECOND, "assistant 1"));
    m.role = "user".to_string();
    assert!(!read_event(&m).1, "only assistant rows announce calls");
    m.role = "assistant".to_string();
    m.tool_calls = Some("17".to_string());
    assert!(!read_event(&m).1, "no list, no calls, no harm");
    let (plain, _) = read_event(&msg(1, "system", 7));
    assert_eq!(plain.role, Role::Other);
    assert_eq!((plain.call_id.as_str(), plain.tool_name.as_str()), ("", "tool"));
}

#[test]
fn one_bad_record_never_loses_the_others() {
    let good = |id: &str| Fetched {
        row: row(id, 1, None),
        messages: rows(vec![msg(1, "user", 1), msg(2, "assistant", 2)]),
    };
    let mut torn = good("torn");
    torn.messages = Messages::Rows { rows: vec![msg(1, "user", 1)], undecodable: 4 };
    let lost = Fetched { row: row("lost", 1, None), messages: Messages::Unavailable };
    let empty = Fetched { row: row("empty", 1, None), messages: rows(vec![]) };
    let reply = ProfileRows {
        sessions: vec![good("a"), lost, torn, empty, good("b")],
        undecodable: 3,
    };
    let mut stats = ScanStats::default();
    let ss = load_profile_db(&Profile::of_directory(true, "p"), Ok(reply), &mut stats).unwrap();
    let ids: Vec<&str> = ss.iter().map(|s| s.id.as_str()).collect();
    assert_eq!(ids, vec!["hermes:p:a", "hermes:p:torn", "hermes:p:b"]);
    assert_eq!(
        (stats.skipped_sources(), stats.skipped_sessions(), stats.skipped_rows()),
        (0, 4, 4)
    );
    let failed = load_profile_db(&Profile::of_directory(true, "p"), Err("no such table".to_string()), &mut stats);
    assert_eq!(failed.unwrap_err(), "no such table");
    assert_eq!(
        (stats.skipped_sources(), stats.skipped_sessions(), stats.skipped_rows()),
        (1, 4, 4)
    );
}

#[test]
fn scans_gather_every_part() {
    let part = |ids: &[&str], skipped: u64| {
        let mut stats = ScanStats::default();
        stats.add_skipped_rows(skipped);
        stats.inc_skipped_sessions();
        let sessions = ids
            .iter()
            .map(|id| {
                let mut unused = ScanStats::default();
                build_session(&Profile::of_directory(true, "p"), &row(id, 1, None), &vec![msg(1, "user", 1)], &mut unused).unwrap()
            })
            .collect();
        Loaded { sessions, stats }
    };
    let ids = |ss: &[Session]| ss.iter().map(|s| s.id.clone()).collect::<Vec<_>>();
    let mut stats = ScanStats::default();
    let ss = scan_stats(vec![part(&["a", "b"], 2), part(&[], 5), part(&["c"], 0)], &mut stats);
    assert_eq!(ids(&ss), vec!["hermes:p:a", "hermes:p:b", "hermes:p:c"]);
    assert_eq!((stats.skipped_sessions(), stats.skipped_rows()), (3, 7));
    let mut more = ScanStats::default();
    more.inc_skipped_rows();
    assert_eq!(scan_all_stats(vec![part(&["a"], 1)], &mut more).len(), 1);
    assert_eq!(more.skipped_rows(), 2);
    more.merge(&stats);
    assert_eq!((more.skipped_sessions(), more.skipped_rows()), (4, 9));
    let report = scan_reported(vec![part(&["a"], 1), part(&["b"], 1)], 1, 9, 77);
    assert_eq!(ids(&report.sessions), vec!["hermes:p:a", "hermes:p:b"]);
    assert_eq!((report.hermes_profiles, report.prime_files, report.elapsed), (1, 9, 77));
    assert_eq!(report.stats.skipped_rows(), 2);
}

#[test]
fn counters_wrap_around() {
    let mut stats = ScanStats::default();
    stats.add_skipped_rows(u64::MAX);
    stats.inc_skipped_rows();
    stats.inc_skipped_rows();
    assert_eq!(stats.skipped_rows(), 1);
    stats.inc_skipped_sources();
    assert_eq!(stats.skipped_sources(), 1);
}

#[test]
fn skipped_profiles_warn() {
    let p = scan_profile(&Profile::of_directory(true, "x"), Err("broken".to_string()));
    assert_eq!(p.warning.as_deref(), Some("broken"));
    assert!(p.loaded.sessions.is_empty());
    assert_eq!(p.loaded.stats.skipped_sources(), 1);
}

#[test]
fn sessions_load_by_id() {
    let table = vec![row("other", 1, None), row("s", 1, None)];
    let messages = rows(vec![msg(1, "user", 1)]);
    let s = load_by_sid(&Profile::of_directory(true, "p"), "s", &table, &messages).unwrap();
    assert_eq!(s.id, "hermes:p:s");
    assert!(load_by_sid(&Profile::of_directory(true, "p"), "t", &table, &messages).is_none(), "unknown");
    assert!(load_by_sid(&Profile::of_directory(true, "p"), "s", &table, &Messages::Unavailable).is_none());
    assert!(load_by_sid(&Profile::of_directory(true, "p"), "s", &table, &rows(vec![])).is_none(), "no live row");
    let mut archived = row("s", 1, None);
    archived.archived = Some(1);
    assert!(load_by_sid(&Profile::of_directory(true, "p"), "s", &vec![archived], &messages).is_none());
    let mut unstarted = row("s", 1, None);
    unstarted.started_at = None;
    assert!(load_by_sid(&Profile::of_directory(true, "p"), "s", &vec![unstarted], &messages).is_some(), "whatever its time");
}

#[test]
fn found_things_must_fit_the_id() {
    let sources = Sources { hermes_home: "/h".to_string(), prime_dir: Some("/p".to_string()) };
    let file = lines(&[&said("user", 1)]);
    let s = load_session_by_id(&sources, true, "prime:abc", &Found::Lines(file.clone())).unwrap();
    assert_eq!(s.id, "prime:abc");
    assert!(load_session_by_id(&sources, true, "hermes:a:b", &Found::Lines(file.clone())).is_none());
    assert!(load_session_by_id(&sources, true, "prime:abc", &Found::Nothing).is_none());
    assert!(load_session_by_id(&sources, true, "abc", &Found::Lines(file.clone())).is_none());
    let none = Sources { hermes_home: "/h".to_string(), prime_dir: None };
    assert!(load_session_by_id(&none, true, "prime:abc", &Found::Lines(file)).is_none());
}

#[test]
fn by_id_gives_what_a_scan_gives() {
    let file = lines(&[&said("user", 1), &said("assistant", 5)]);
    let mut stats = ScanStats::default();
    let a = load_file_pub("x", &file, 0, 10 * SECOND, &mut stats).unwrap();
    let b = load_file_by_stem("x", &file).unwrap();
    assert_eq!((a.id, a.t_start, a.t_end, a.spans.len()), (b.id, b.t_start, b.t_end, b.spans.len()));
    assert_eq!(b.profile.as_deref(), Some("prime"));
    assert_eq!(b.source.as_deref(), Some("prime"));
    assert!(load_file_pub("x", &file, 6 * SECOND, 10 * SECOND, &mut stats).is_none());
    assert!(load_file_pub("x", &file, 5 * SECOND, 10 * SECOND, &mut stats).is_some());
    assert!(load_file_pub("x", &file, 0, SECOND, &mut stats).is_none());
    assert!(load_file_by_stem("x", &lines(&["{}", ""])).is_none());
}

#[test]
fn windows_never_clip() {
    let file = lines(&[&said("user", 1), &said("assistant", 5), &said("user", 50)]);
    let mut stats = ScanStats::default();
    let narrow = load_file_pub("x", &file, 4 * SECOND, 5 * SECOND, &mut stats).unwrap();
    let wide = load_file_pub("x", &file, 0, 100 * SECOND, &mut stats).unwrap();
    assert_eq!(narrow.spans.len(), 2);
    assert_eq!((narrow.t_start, narrow.t_end), (wide.t_start, wide.t_end));
}

#[test]
fn out_of_order_files_have_an_extent() {
    let file = lines(&[&said("system", 9), &said("system", 3)]);
    let s = load_file_by_stem("x", &file).unwrap();
    assert_eq!((s.t_start, s.t_end), (3 * SECOND, 9 * SECOND));
}

#[test]
fn out_of_order_files_are_loaded_by_their_extent() {
    let at = |m: u32, s: u32| {
        format!(
            r#"{{"type":"message","timestamp":"1970-01-01T00:{m:02}:{s:02}Z","message":{{"role":"user","content":"x"}}}}"#
        )
    };
    let file = lines(&[&at(0, 50), &at(2, 30), &at(1, 0)]);
    let mut stats = ScanStats::default();
    let s = load_file_pub("x", &file, 100 * SECOND, 300 * SECOND, &mut stats).unwrap();
    assert_eq!((s.t_start, s.t_end), (50 * SECOND, 150 * SECOND));
    assert!(load_file_pub("x", &file, 151 * SECOND, 300 * SECOND, &mut stats).is_none());
    assert!(load_file_pub("x", &file, 0, 50 * SECOND, &mut stats).is_none());
    let last = Some(60 * SECOND);
    assert!(worth_reading(Some(50 * SECOND), last, Some(150 * SECOND), 100 * SECOND, 300 * SECOND));
}

/// Scans a home in which every named database holds the session `s1`.
fn scan_home(has_top: bool, dirs: &[&str]) -> Vec<Session> {
    let names: Vec<String> = dirs.iter().map(|d| d.to_string()).collect();
    let parts = discover_dbs("/h", has_top, &names)
        .into_iter()
        .map(|db| {
            let fetched =
                Fetched { row: row("s1", 1, None), messages: rows(vec![msg(1, "user", 1)]) };
            scan_profile(&db.profile, Ok(ProfileRows { sessions: vec![fetched], undecodable: 0 }))
                .loaded
        })
        .collect();
    scan_stats(parts, &mut ScanStats::default())
}

#[test]
fn scanned_ids_are_unique() {
    let ids = |ss: Vec<Session>| ss.into_iter().map(|s| s.id).collect::<Vec<_>>();
    assert_eq!(
        ids(scan_home(true, &["default", "work"])),
        vec!["hermes:default:s1", "hermes:./default:s1", "hermes:work:s1"]
    );
    assert_eq!(ids(scan_home(false, &["default"])), vec!["hermes:default:s1"]);
    let mut all = ids(scan_home(true, &["default", "a:b", "a", "a;b", "b", "x::y"]));
    let count = all.len();
    all.sort();
    all.dedup();
    assert_eq!((all.len(), count), (7, 7));
}

#[test]
fn profiles_are_shown_by_their_directory() {
    let shown = |ss: Vec<Session>| ss.into_iter().map(|s| s.profile.unwrap()).collect::<Vec<_>>();
    assert_eq!(shown(scan_home(true, &["default", "work"])), vec!["default", "default", "work"]);
    assert_eq!(shown(scan_home(false, &["default", "a:b"])), vec!["a:b", "default"]);
}

#[test]
fn wider_windows_keep_every_session() {
    let table = vec![row("a", 10, Some(20)), row("b", 30, None), row("c", 5, Some(90))];
    let scan = |t0: i128, t1: i128| {
        let sessions = select_sessions(&table, t0 * SECOND, t1 * SECOND)
            .into_iter()
            .map(|p| Fetched { row: table[p].clone(), messages: rows(vec![msg(1, "user", 9)]) })
            .collect();
        let mut parts =
            vec![scan_profile(&Profile::top(), Ok(ProfileRows { sessions, undecodable: 0 })).loaded];
        let mut stats = ScanStats::default();
        let file = lines(&[&said("user", 12), &said("assistant", 40)]);
        let found = load_file_pub("f", &file, t0 * SECOND, t1 * SECOND, &mut stats);
        parts.push(Loaded { sessions: found.into_iter().collect(), stats });
        scan_stats(parts, &mut ScanStats::default())
            .into_iter()
            .map(|s| (s.id, s.t_start, s.t_end, s.title, s.spans.len()))
            .collect::<Vec<_>>()
    };
    let all = scan(0, 100);
    assert_eq!(all.len(), 4);
    for (t0, t1) in [(15, 16), (25, 31), (50, 60), (0, 6), (91, 95)] {
        let narrow = scan(t0, t1);
        assert!(narrow.iter().all(|s| scan(t0 - 5, t1 + 5).contains(s) && all.contains(s)));
    }
    assert_eq!(scan(15, 16).len(), 3);
}

#[test]
fn scanned_sessions_load_by_id() {
    let sources = Sources { hermes_home: "/h".to_string(), prime_dir: None };
    let found = Found::Rows {
        rows: vec![row("s1", 1, None)],
        messages: rows(vec![msg(1, "user", 1)]),
    };
    for has_top in [true, false] {
        for s in scan_home(has_top, &["default", "work", "a:b"]) {
            let again = load_session_by_id(&sources, has_top, &s.id, &found).unwrap();
            assert_eq!((again.id, again.profile), (s.id, s.profile));
            assert_eq!((again.t_start, again.t_end), (s.t_start, s.t_end));
        }
    }
}

#[test]
fn bad_lines_are_counted() {
    let a = said("user", 1);
    let file = FileLines {
        lines: ["", "  ", "{", a.as_str(), r#"{"type":"message"}"#, r#"{"type":"x"}"#, "[1]", "7"]
            .iter()
            .map(|l| l.to_string())
            .collect(),
        undecodable: 2,
    };
    let mut stats = ScanStats::default();
    let s = load_file_pub("x", &file, i128::MIN, i128::MAX, &mut stats).unwrap();
    assert_eq!(s.title.as_deref(), Some("user 1"));
    assert_eq!(stats.skipped_rows(), 4, "two undecodable, one no JSON, one without its message");
    assert_eq!((stats.skipped_sources(), stats.skipped_sessions()), (0, 0));
}

#[test]
fn lines_are_messages_or_not() {
    assert!(matches!(read_line(&said("user", 3)), Line::Message(e) if e.t == 3 * SECOND));
    assert!(matches!(read_line(r#"{"type":"session"}"#), Line::Other));
    assert!(matches!(read_line("[]"), Line::Other));
    assert!(matches!(read_line("nope"), Line::Malformed));
    assert!(matches!(
        read_line(r#"{"type":"message","message":{},"timestamp":"x"}"#),
        Line::Malformed
    ));
    match read_line(
        r#"{"type":"message","message":{"role":"toolResult"},"timestamp":"1970-01-01T00:00:00Z"}"#,
    ) {
        Line::Message(e) => {
            assert_eq!(e.role, Role::Tool);
            assert_eq!((e.call_id.as_str(), e.tool_name.as_str(), e.text.as_str()), ("", "tool", ""));
        }
        other => panic!("{other:?}"),
    }
}

#[test]
fn contents_become_plain_text() {
    assert_eq!(ptext(&value(r#""as it stands""#)), "as it stands");
    assert_eq!(
        ptext(&value(r#"[{"text":"a"},{"type":"image"},{"text":7},{"text":"b  c"},{"text":""}]"#)),
        "a b  c "
    );
    assert_eq!(ptext(&value("[]")), "");
    assert_eq!(ptext(&value("null")), "");
    assert_eq!(ptext(&value(r#"{"text":"a"}"#)), "");
}

#[test]
fn parts_announce_calls() {
    let calls = prime::read_calls(&value(
        r#"{"content":[
            {"type":"toolCall","id":"1","name":"n","arguments":"plain"},
            {"type":"text","text":"x"},
            {"type":"toolCall","arguments":{"b":[1,null],"a":"x"}},
            {"type":"toolCall","id":"3","name":"m"}
        ]}"#,
    ));
    let shown: Vec<(&str, &str, &str)> =
        calls.iter().map(|c| (c.id.as_str(), c.name.as_str(), c.args.as_str())).collect();
    assert_eq!(
        shown,
        vec![("1", "n", "plain"), ("", "?", r#"{"a":"x","b":[1,null]}"#), ("3", "m", "")]
    );
    assert!(prime::read_calls(&value(r#"{"content":"x"}"#)).is_empty());
    assert!(prime::read_calls(&value("{}")).is_empty());
}

#[test]
fn probes_look_at_the_ends() {
    assert_eq!(first_line_timestamp(&format!(" {}\r\n", said("user", 4))), Some(4 * SECOND));
    assert_eq!(first_line_timestamp(r#"{"timestamp":7}"#), None);
    assert_eq!(first_line_timestamp("nope"), None);
    let text = format!("{}\n{}\n", said("user", 4), said("user", 9));
    assert_eq!(last_line_timestamp(&text, false), Some(9 * SECOND));
    assert_eq!(last_line_timestamp(&text, true), Some(9 * SECOND));
    assert_eq!(last_line_timestamp(&said("user", 4), false), Some(4 * SECOND));
    assert_eq!(last_line_timestamp(&said("user", 4), true), Some(4 * SECOND));
    assert_eq!(last_line_timestamp(&format!("{}\n", said("user", 4)), true), None);
    assert_eq!(last_line_timestamp(&format!("{}\n\n", said("user", 4)), false), None);
    assert_eq!(last_line_timestamp("", false), None);
    let half = format!("rest of a line\"}}\r\n{}\r\n", said("user", 8));
    assert_eq!(last_line_timestamp(&half, true), Some(8 * SECOND));
}

#[test]
fn probes_rule_files_out() {
    assert!(worth_reading(None, None, None, 10, 20));
    assert!(worth_reading(Some(20), Some(10), Some(10), 10, 20));
    assert!(!worth_reading(Some(21), None, None, 10, 20));
    assert!(!worth_reading(None, Some(9), Some(9), 10, 20));
    assert!(worth_reading(None, Some(9), Some(10), 10, 20), "written to within the window");
    assert!(worth_reading(None, Some(9), None, 10, 20), "nobody knows when it was written");
    assert!(worth_reading(None, None, Some(9), 10, 20));
    let file = lines(&[&said("user", 30), &said("assistant", 40)]);
    let mut stats = ScanStats::default();
    for (t0, t1) in [(0, 10), (50, 60), (35, 36), (40, 41)] {
        let (t0, t1) = (t0 * SECOND, t1 * SECOND);
        if !worth_reading(Some(30 * SECOND), Some(40 * SECOND), Some(40 * SECOND), t0, t1) {
            assert!(load_file_pub("x", &file, t0, t1, &mut stats).is_none());
        }
    }
}

#[test]
fn directories_are_scanned_by_name() {
    let entry = |name: &str, mtime: Option<i128>| DirFile {
        name: name.to_string(),
        mtime,
        content: lines(&[&said("user", 1)]),
    };
    let files = vec![
        entry("b.jsonl", Some(0)),
        entry("a.jsonl", None),
        entry("notes.md", None),
        entry("stale.jsonl", Some(-DAY - 1)),
        entry("fresh.jsonl", Some(-DAY)),
    ];
    let found = scan_dir(Ok(files.clone()), 0, 2 * SECOND).unwrap();
    let ids: Vec<String> = found.into_iter().map(|s| s.id).collect();
    assert_eq!(ids, vec!["prime:a", "prime:b", "prime:fresh"]);
    assert!(scan_dir(Ok(files), 2 * SECOND, 3 * SECOND).unwrap().is_empty());
    assert!(wants_file("x.jsonl", Some(i128::MIN), i128::MIN));
    assert!(!wants_file("x.jsonl", Some(i128::MIN), 0));
    assert!(!wants_file("x.txt", None, 0));
}
