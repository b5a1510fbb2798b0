//! The command line, and what a scan reports.
use session_timeline::cli::{count_sessions, latest, parse_args, sample_title, Command, Options};
use session_timeline::index::kind_name;
use session_timeline::model::{Session, SessionKind, Span, SpanKind};
use session_timeline::Sources;

fn args(list: &[&str]) -> Vec<String> {
    list.iter().map(|a| a.to_string()).collect()
}

fn defaults() -> Sources {
    Sources::under_home("/home/u")
}

fn options(list: &[&str]) -> Options {
    match parse_args(&args(list), defaults()) {
        Command::Scan(o) => o,
        other => panic!("no scan: {other:?}"),
    }
}

fn session(id: &str, kind: SessionKind, t_start: i128, spans: usize, title: Option<&str>) -> Session {
    Session {
        id: id.to_string(),
        kind,
        t_start,
        t_end: t_start + 10,
        title: title.map(|t| t.to_string()),
        profile: None,
        source: None,
        spans: (0..spans)
            .map(|_| Span {
                kind: SpanKind::Tool,
                t_start,
                t_end: t_start + 10,
                label: "t".to_string(),
                meta: None,
            })
            .collect(),
    }
}

#[test]
fn cli_scan_help_exits_zero() {
    assert!(matches!(parse_args(&args(&["--help"]), defaults()), Command::Help));
    assert!(matches!(parse_args(&args(&["scan", "--help", "--bogus"]), defaults()), Command::Help));
}

#[test]
fn cli_scan_json_prints_counts() {
    let o = options(&[
        "scan",
        "--days",
        "1",
        "--hermes-home",
        "/tmp/definitely-not-here",
        "--prime-dir",
        "/tmp/prime",
        "--json",
    ]);
    assert!(o.json);
    assert_eq!(o.days.as_deref(), Some("1"));
    assert_eq!(o.sources.hermes_home, "/tmp/definitely-not-here");
    assert_eq!(o.sources.prime_dir.as_deref(), Some("/tmp/prime"));
}

#[test]
fn cli_scan_human_readable_output() {
    let o = options(&["scan", "--days", "7", "--hermes-home", "/h", "--prime-dir", "/p"]);
    assert!(!o.json);
    assert_eq!(o.days.as_deref(), Some("7"));
}

#[test]
fn cli_unknown_flag_exits_nonzero() {
    match parse_args(&args(&["scan", "--bogus"]), defaults()) {
        Command::Unknown(a) => assert_eq!(a, "--bogus"),
        other => panic!("known: {other:?}"),
    }
    match parse_args(&args(&["--bogus", "--help"]), defaults()) {
        Command::Unknown(a) => assert_eq!(a, "--bogus"),
        other => panic!("known: {other:?}"),
    }
}

#[test]
fn cli_prime_dir_empty_string_disables_prime() {
    let o = options(&[
        "scan",
        "--days",
        "1",
        "--hermes-home",
        "/tmp/definitely-not-here",
        "--prime-dir",
        "",
        "--json",
    ]);
    assert_eq!(o.sources.prime_dir, None);
    assert!(o.json);
}

#[test]
fn cli_days_value_parses() {
    assert_eq!(options(&["scan", "--days", "0.5", "--json"]).days.as_deref(), Some("0.5"));
}

#[test]
fn cli_days_without_value_defaults_to_7() {
    let o = options(&["scan", "--json", "--hermes-home", "/tmp/none", "--prime-dir", "", "--days"]);
    assert_eq!(o.days, None);
    assert_eq!(options(&["--days", "3", "--days"]).days, None, "the last one counts");
}

#[test]
fn cli_days_non_numeric_defaults_to_7() {
    let o = options(&["scan", "--days", "banana", "--json", "--hermes-home", "/tmp/none"]);
    assert_eq!(o.days.as_deref(), Some("banana"));
    assert!(o.json);
}

#[test]
fn cli_prime_dir_without_value_disables_prime() {
    let o = options(&["scan", "--json", "--hermes-home", "/tmp/none", "--prime-dir"]);
    assert_eq!(o.sources.prime_dir, None);
    assert_eq!(o.sources.hermes_home, "/tmp/none");
}

#[test]
fn cli_hermes_home_without_value_uses_default() {
    assert_eq!(options(&["scan", "--hermes-home"]).sources.hermes_home, "/home/u/.hermes");
    let eaten = options(&["scan", "--hermes-home", "--json"]);
    assert_eq!(eaten.sources.hermes_home, "--json", "a flag takes what follows");
    assert!(!eaten.json);
}

#[test]
fn cli_scan_with_no_args_uses_all_defaults() {
    let o = options(&["scan"]);
    assert_eq!(o.sources.hermes_home, "/home/u/.hermes");
    assert_eq!(o.sources.prime_dir.as_deref(), Some("/home/u/.prime/agent/sessions"));
    assert_eq!(o.days, None);
    assert!(!o.json);
    assert!(!options(&[]).json);
}

#[test]
fn cli_human_output_prints_samples_and_kinds() {
    let ss = vec![session("prime:sess-sample", SessionKind::Human, 60, 1, Some("sample question"))];
    let c = count_sessions(&ss);
    assert_eq!((c.human, c.sub, c.spans), (1, 0, 1));
    assert_eq!(latest(&ss, 5), vec![0]);
    assert_eq!(sample_title(&ss[0]), "sample question");
    assert_eq!(kind_name(ss[0].kind), "human");
}

#[test]
fn cli_human_output_counts_sub_sessions() {
    let ss = vec![session("prime:sub", SessionKind::Sub, 1, 3, None)];
    let c = count_sessions(&ss);
    assert_eq!((c.human, c.sub, c.spans), (0, 1, 3));
    assert_eq!(sample_title(&ss[0]), "");
    assert_eq!(kind_name(ss[0].kind), "sub");
}

#[test]
fn latest_sessions_come_first() {
    let ss: Vec<Session> = [5, 9, 1, 9, 7, 3, 8]
        .iter()
        .map(|t| session("x", SessionKind::Human, *t, 0, None))
        .collect();
    assert_eq!(latest(&ss, 5), vec![1, 3, 6, 4, 0]);
    assert_eq!(latest(&ss, 100).len(), 7);
    assert!(latest(&ss, 0).is_empty());
    let extremes = vec![
        session("a", SessionKind::Human, i128::MIN, 0, None),
        session("b", SessionKind::Human, i128::MAX - 10, 0, None),
    ];
    assert_eq!(latest(&extremes, 2), vec![1, 0]);
}

#[test]
fn sample_titles_are_cut() {
    let long = "é".repeat(60);
    let s = session("x", SessionKind::Human, 0, 0, Some(&long));
    assert_eq!(sample_title(&s), "é".repeat(48));
    let fits = "y".repeat(48);
    assert_eq!(sample_title(&session("x", SessionKind::Human, 0, 0, Some(&fits))), fits);
}
