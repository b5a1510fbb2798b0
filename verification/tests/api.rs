//! What the server answers with: the index, its days, and bodies.
use session_timeline::dates::{date_text, parse_date};
use session_timeline::days::{Day, DayWalk};
use session_timeline::index::{build_index, Dated, FileState, Index};
use session_timeline::model::{Session, SessionKind, Span, SpanKind, DAY, SECOND};
use session_timeline::response::{
    accepts_gzip, encode_body, index_reach, window_start, LONGEST, SHORTEST, USUAL,
};
use session_timeline::ScanStats;
use std::io::Read;

fn session(id: &str, t_start: i128, t_end: i128) -> Session {
    Session {
        id: id.to_string(),
        kind: SessionKind::Human,
        t_start,
        t_end,
        title: Some(format!("title of {id}")),
        profile: Some("default".to_string()),
        source: None,
        spans: vec![Span {
            kind: SpanKind::Inference,
            t_start,
            t_end,
            label: "model".to_string(),
            meta: None,
        }],
    }
}

/// The day of `t` in UTC, counted from the epoch.
fn utc_day(t: i128) -> Day {
    let n = t.div_euclid(DAY);
    Day { start: n * DAY, end: (n + 1) * DAY, date: format!("day{n}") }
}

fn days_of(s: &Session) -> Vec<String> {
    let mut walk = DayWalk::start(s);
    while let Some(t) = walk.next() {
        walk.step(s, utc_day(t));
    }
    walk.into_days()
}

fn index_of(sessions: Vec<Session>, files: Vec<FileState>) -> Index {
    let dated: Vec<Dated> =
        sessions.into_iter().map(|s| Dated { days: days_of(&s), session: s }).collect();
    build_index(dated, files, &ScanStats::default())
}

fn file(path: &str, mtime: Option<i128>) -> FileState {
    FileState { path: path.to_string(), mtime }
}

#[test]
fn index_returns_sessions_with_days() {
    let now = 100 * DAY;
    let idx = index_of(
        vec![
            session("hermes:default:hs1", now - 3600 * SECOND, now - 3500 * SECOND),
            session("prime:ps1", now - 3600 * SECOND, now - 3400 * SECOND),
            session("prime:old", 5 * DAY, 5 * DAY + SECOND),
        ],
        vec![],
    );
    let t0 = window_start(now, index_reach(Some(2 * DAY)));
    let rows = idx.recent_rows(t0, now);
    let ids: Vec<&str> = rows.iter().map(|r| r.id.as_str()).collect();
    assert_eq!(ids, vec!["hermes:default:hs1", "prime:ps1"]);
    for r in &rows {
        assert_eq!(r.days, vec!["day99".to_string()]);
        assert_eq!(r.span_count, 1);
    }
    assert_eq!(idx.session_count(), 3);
    assert_eq!(idx.day_count(), 2);
    assert_eq!(idx.skipped().sources, 0);
}

#[test]
fn day_returns_full_sessions_active_that_day() {
    let idx = index_of(
        vec![
            session("a", 3 * DAY + SECOND, 5 * DAY + SECOND),
            session("b", 4 * DAY, 4 * DAY + SECOND),
            session("c", 9 * DAY, 9 * DAY),
        ],
        vec![],
    );
    assert_eq!(idx.day_ids("day3", 3 * DAY, 4 * DAY), vec!["a"]);
    assert_eq!(idx.day_ids("day4", 4 * DAY, 5 * DAY), vec!["a", "b"]);
    assert_eq!(idx.day_ids("day5", 5 * DAY, 6 * DAY), vec!["a"]);
    assert!(idx.day_ids("day6", 6 * DAY, 7 * DAY).is_empty());
    assert_eq!(idx.day_ids("day9", 9 * DAY, 10 * DAY), vec!["c"]);
    assert_eq!(idx.day_ids("other spelling", 4 * DAY, 5 * DAY), vec!["a", "b"]);
    assert_eq!(idx.day_ids("other spelling", 2 * DAY, 3 * DAY + SECOND), Vec::<String>::new());
}

#[test]
fn day_bad_date_is_400() {
    assert_eq!(parse_date("not-a-date"), None);
    assert_eq!(parse_date("2026-13-45"), Some((2026, 13, 45)));
    assert_eq!(parse_date("2026-09"), None);
    assert_eq!(parse_date("2026-09-24-1"), None);
    assert_eq!(parse_date("-2026-09-24"), None);
    assert_eq!(parse_date(""), None);
    assert_eq!(parse_date("99999999999-1-1"), None);
    assert_eq!(parse_date("2026-09-24"), Some((2026, 9, 24)));
    assert_eq!(parse_date("+2026-9-+4"), Some((2026, 9, 4)));
}

#[test]
fn index_clamps_days() {
    assert_eq!(index_reach(Some(0)), SHORTEST);
    assert_eq!(index_reach(Some(99999 * DAY)), LONGEST);
    assert_eq!(index_reach(None), USUAL);
    assert_eq!(index_reach(Some(2 * DAY)), 2 * DAY);
    assert_eq!(SHORTEST, DAY / 10);
    assert_eq!(LONGEST, 366 * DAY);
    assert_eq!(USUAL, 31 * DAY);
    assert_eq!(window_start(10, 3), 7);
    assert_eq!(window_start(i128::MIN + 1, 3), i128::MIN);
    assert_eq!(window_start(i128::MAX, -3), i128::MAX);
}

#[test]
fn dates_read_back() {
    assert_eq!(date_text(2026, 9, 4), "2026-09-04");
    assert_eq!(date_text(12026, 10, 24), "12026-10-24");
    assert_eq!(date_text(7, 0, 123), "0007-00-123");
    assert_eq!(date_text(-1, 1, 1), "-001-01-01");
    assert_eq!(date_text(i32::MIN, 1, 1), "-2147483648-01-01");
    assert_eq!(parse_date(&date_text(2026, 9, 4)), Some((2026, 9, 4)));
    assert_eq!(parse_date(&date_text(i32::MAX, 12, 31)), Some((i32::MAX, 12, 31)));
}

#[test]
fn walks_list_every_active_day_once() {
    let s = session("a", DAY / 2, 3 * DAY);
    assert_eq!(days_of(&s), vec!["day0", "day1", "day2", "day3"]);
    let instant = session("b", 2 * DAY, 2 * DAY);
    assert_eq!(days_of(&instant), vec!["day2"]);
    let last = session("c", 2 * DAY, 3 * DAY - 1);
    assert_eq!(days_of(&last), vec!["day2"]);

    // a clock whose days share one name lists it once
    let mut walk = DayWalk::start(&s);
    let mut steps = 0;
    while let Some(t) = walk.next() {
        let mut d = utc_day(t);
        d.date = "same".to_string();
        walk.step(&s, d);
        steps += 1;
    }
    assert_eq!(steps, 4);
    assert_eq!(walk.into_days(), vec!["same"]);
}

#[test]
fn walks_end_after_too_many_days() {
    let s = session("a", 0, 5000 * DAY);
    assert_eq!(days_of(&s).len(), 401);
    let mut walk = DayWalk::start(&session("b", 0, i128::MAX));
    walk.step(&session("b", 0, i128::MAX), Day {
        start: 0,
        end: i128::MAX,
        date: "all".to_string(),
    });
    assert_eq!(walk.next(), None);
}

#[test]
fn walks_ask_a_second_past_each_day() {
    let s = session("a", 10, 2 * DAY);
    let mut walk = DayWalk::start(&s);
    assert_eq!(walk.next(), Some(10));
    walk.step(&s, utc_day(10));
    assert_eq!(walk.next(), Some(DAY + SECOND));
}

#[test]
fn spans_outside_the_extent_make_a_day_active() {
    let mut s = session("a", 5 * DAY, 5 * DAY + 1);
    s.spans[0].t_start = 0;
    s.spans[0].t_end = DAY;
    let mut walk = DayWalk::start(&s);
    walk.step(&s, utc_day(0));
    assert_eq!(walk.into_days(), vec!["day0"]);
}

#[test]
fn changed_sources_are_noticed() {
    let files = vec![file("/a", Some(1)), file("/b", Some(2))];
    let idx = index_of(vec![], files.clone());
    assert!(!idx.sources_changed(&files));
    assert!(!idx.sources_changed(&vec![file("/b", Some(2)), file("/a", Some(1))]));
    assert!(idx.sources_changed(&vec![file("/a", Some(1)), file("/b", Some(3))]), "written");
    assert!(idx.sources_changed(&vec![file("/a", Some(1))]), "removed");
    assert!(idx.sources_changed(&vec![file("/a", Some(1)), file("/c", Some(2))]), "moved");
    assert!(
        idx.sources_changed(&vec![file("/a", Some(1)), file("/b", Some(2)), file("/c", Some(3))]),
        "added"
    );
    assert!(idx.sources_changed(&vec![file("/a", Some(1)), file("/b", None)]), "unreadable");
    let unreadable = vec![file("/a", None)];
    assert!(index_of(vec![], unreadable.clone()).sources_changed(&unreadable));
}

#[test]
fn one_row_is_listed_once_a_day() {
    let twice = Dated {
        session: session("a", 0, 1),
        days: vec!["d".to_string(), "e".to_string(), "d".to_string()],
    };
    let next = Dated { session: session("b", 0, 1), days: vec!["d".to_string()] };
    let idx = build_index(vec![twice, next], vec![], &ScanStats::default());
    assert_eq!(idx.day_ids("d", 9, 9), vec!["a", "b"]);
    assert_eq!(idx.day_ids("e", 9, 9), vec!["a"]);
    assert_eq!(idx.day_count(), 2);
}

#[test]
fn index_keeps_what_was_skipped() {
    let mut stats = ScanStats::default();
    stats.inc_skipped_sources();
    stats.add_skipped_sessions(2);
    stats.add_skipped_rows(3);
    let idx = build_index(vec![], vec![], &stats);
    let skipped = idx.skipped();
    assert_eq!((skipped.sources, skipped.sessions, skipped.rows), (1, 2, 3));
}

#[test]
fn bodies_are_compressed_on_request() {
    let body: Vec<u8> = b"{\"sessions\":[]}".repeat(50);
    let plain = encode_body(body.clone(), false);
    assert!(!plain.gzip);
    assert_eq!(plain.bytes, body);
    let packed = encode_body(body.clone(), true);
    assert!(packed.gzip);
    assert_ne!(packed.bytes, body);
    assert!(packed.bytes.len() < body.len());
    let mut back: Vec<u8> = Vec::new();
    flate2::read::GzDecoder::new(&packed.bytes[..]).read_to_end(&mut back).unwrap();
    assert_eq!(back, body);
    assert_eq!(encode_body(body.clone(), true).bytes, packed.bytes, "the same every time");
}

#[test]
fn gzip_is_sent_to_those_who_ask() {
    assert!(accepts_gzip("gzip"));
    assert!(accepts_gzip("gzip, deflate, br"));
    assert!(accepts_gzip("br;q=1.0, gzip;q=0.8"));
    assert!(accepts_gzip(" deflate ,\tgzip "));
    assert!(!accepts_gzip(""));
    assert!(!accepts_gzip("identity"));
    assert!(!accepts_gzip("xgzip"));
    assert!(!accepts_gzip("gzip;q=0"));
    assert!(!accepts_gzip("gzip; q=0.000, br"));
    assert!(accepts_gzip("gzip;q=0.001"));
}
