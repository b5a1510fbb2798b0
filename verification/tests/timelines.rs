//! Spans: what each event ends, and what holds of them together.
use session_timeline::model::{Session, SessionKind, Span, SpanKind, GAP_CAP, SECOND};
use session_timeline::timeline::{assemble, derive_spans, Event, Origin, Role, ToolCall};

fn at(role: Role, t: i128) -> Event {
    Event {
        role,
        t: t * SECOND,
        injected: false,
        text: format!("said at {t}"),
        calls: vec![],
        call_id: String::new(),
        tool_name: "tool".to_string(),
    }
}

fn calling(t: i128, ids: &[&str]) -> Event {
    let mut e = at(Role::Assistant, t);
    e.calls = ids
        .iter()
        .map(|i| ToolCall {
            id: i.to_string(),
            name: format!("tool-{i}"),
            args: format!("args of {i}"),
        })
        .collect();
    e
}

fn result(t: i128, id: &str) -> Event {
    let mut e = at(Role::Tool, t);
    e.call_id = id.to_string();
    e
}

fn origin() -> Origin {
    Origin {
        id: "x".to_string(),
        title: None,
        child: false,
        profile: "p".to_string(),
        source: None,
    }
}

fn shape(spans: &[Span]) -> Vec<(SpanKind, i128, i128, &str)> {
    spans
        .iter()
        .map(|s| (s.kind, s.t_start / SECOND, s.t_end / SECOND, s.label.as_str()))
        .collect()
}

#[test]
fn the_gap_cap_is_inclusive() {
    assert_eq!(GAP_CAP, 300 * SECOND);
    let spans = derive_spans(&vec![at(Role::User, 0), at(Role::Assistant, 300)]);
    assert_eq!(shape(&spans), vec![(SpanKind::Inference, 0, 300, "model")]);
    let mut late = at(Role::Assistant, 300);
    late.t += 1;
    let spans = derive_spans(&vec![at(Role::User, 0), late]);
    assert_eq!(spans[0].kind, SpanKind::Idle);
    assert_eq!(spans[0].label, "idle (long silence)");
    assert_eq!(spans[0].meta.as_ref().unwrap().output.as_deref(), Some("said at 300"));
}

#[test]
fn silence_before_a_user_is_idle() {
    let spans = derive_spans(&vec![at(Role::Assistant, 0), at(Role::User, 7)]);
    assert_eq!(shape(&spans), vec![(SpanKind::Idle, 0, 7, "idle")]);
    let mut injected = at(Role::User, 7);
    injected.injected = true;
    let spans = derive_spans(&vec![at(Role::Assistant, 0), injected]);
    let meta = spans[0].meta.as_ref().unwrap();
    assert_eq!(meta.note.as_deref(), Some("ended by injected message"));
    assert_eq!(meta.next_user, None);
}

#[test]
fn calls_pair_by_id_in_any_order() {
    let spans = derive_spans(&vec![
        at(Role::User, 0),
        calling(10, &["a", "b"]),
        result(30, "b"),
        result(20, "a"),
    ]);
    assert_eq!(
        shape(&spans),
        vec![
            (SpanKind::Inference, 0, 10, "model"),
            (SpanKind::Tool, 10, 30, "tool-b"),
            (SpanKind::Tool, 10, 20, "tool-a"),
        ]
    );
    let meta = spans[1].meta.as_ref().unwrap();
    assert_eq!(meta.args.as_deref(), Some("args of b"));
    assert_eq!(meta.result.as_deref(), Some("said at 30"));
}

#[test]
fn a_user_event_drops_open_calls() {
    let spans = derive_spans(&vec![calling(10, &["a"]), at(Role::User, 20), result(30, "a")]);
    assert_eq!(
        shape(&spans),
        vec![(SpanKind::Idle, 10, 20, "idle"), (SpanKind::Tool, 20, 30, "tool")]
    );
    assert_eq!(spans[1].meta.as_ref().unwrap().args, None);
}

#[test]
fn the_later_of_two_calls_with_one_id_stands() {
    let spans = derive_spans(&vec![calling(10, &["a"]), calling(20, &["a"]), result(30, "a")]);
    assert_eq!(
        shape(&spans),
        vec![(SpanKind::Inference, 10, 20, "model"), (SpanKind::Tool, 20, 30, "tool-a")]
    );
}

#[test]
fn an_early_result_makes_no_span() {
    let spans = derive_spans(&vec![calling(10, &["a"]), result(5, "a")]);
    assert!(spans.is_empty());
    let spans = derive_spans(&vec![calling(10, &["a"]), result(10, "a")]);
    assert_eq!(shape(&spans), vec![(SpanKind::Tool, 10, 10, "tool-a")]);
}

#[test]
fn a_lone_result_starts_where_time_ended() {
    let spans = derive_spans(&vec![result(5, "ghost")]);
    assert_eq!(shape(&spans), vec![(SpanKind::Tool, 5, 5, "tool")]);
    let spans = derive_spans(&vec![at(Role::User, 1), result(5, "ghost")]);
    assert_eq!(shape(&spans), vec![(SpanKind::Tool, 1, 5, "tool")]);
}

#[test]
fn other_events_end_nothing() {
    let spans = derive_spans(&vec![
        at(Role::User, 0),
        at(Role::Other, 5),
        at(Role::Assistant, 8),
    ]);
    assert_eq!(shape(&spans), vec![(SpanKind::Inference, 0, 8, "model")]);
}

#[test]
fn appending_keeps_spans() {
    let all = vec![
        at(Role::User, 0),
        calling(10, &["a"]),
        result(30, "a"),
        at(Role::Assistant, 40),
        at(Role::User, 500),
        at(Role::Assistant, 900),
    ];
    let whole = derive_spans(&all);
    for n in 0..all.len() {
        let part = derive_spans(&all[..n].to_vec());
        assert_eq!(shape(&part), shape(&whole)[..part.len()].to_vec());
    }
}

#[test]
fn all_time_is_accounted_for() {
    let events = vec![
        at(Role::User, 0),
        calling(10, &["a"]),
        result(30, "a"),
        at(Role::Assistant, 40),
        at(Role::User, 500),
        at(Role::Assistant, 900),
    ];
    let spans = derive_spans(&events);
    for t in 0..900 {
        let t = t * SECOND;
        assert!(spans.iter().any(|s| s.t_start <= t && t < s.t_end), "{t}");
        let alone = spans
            .iter()
            .filter(|s| s.kind != SpanKind::Tool && s.t_start <= t && t < s.t_end)
            .count();
        assert!(alone <= 1);
    }
    for s in &spans {
        assert!(s.t_start <= s.t_end);
        assert!(events.iter().any(|e| e.t == s.t_start));
        assert!(events.iter().any(|e| e.t == s.t_end));
    }
}

#[test]
fn extents_hold_all_spans() {
    let s = assemble(origin(), &vec![at(Role::User, 50), calling(60, &["a"]), result(90, "a")])
        .unwrap();
    assert_eq!((s.t_start, s.t_end), (50 * SECOND, 90 * SECOND));
    let none = assemble(origin(), &vec![at(Role::Other, 9), at(Role::Other, 3)]).unwrap();
    assert!(none.spans.is_empty());
    assert_eq!((none.t_start, none.t_end), (3 * SECOND, 9 * SECOND));
    assert!(assemble(origin(), &vec![]).is_none());
}

#[test]
fn titles_come_from_the_source_or_the_user() {
    let events = vec![at(Role::Assistant, 0), at(Role::User, 1)];
    assert_eq!(assemble(origin(), &events).unwrap().title.as_deref(), Some("said at 1"));
    let mut o = origin();
    o.title = Some("  given   title ".to_string());
    assert_eq!(assemble(o, &events).unwrap().title.as_deref(), Some("given title"));
    let mut blank = origin();
    blank.title = Some(" ".to_string());
    assert_eq!(assemble(blank, &events).unwrap().title.as_deref(), Some(""));
    let mut silent = at(Role::User, 1);
    silent.text = " \n".to_string();
    assert_eq!(assemble(origin(), &vec![silent]).unwrap().title, None);
}

#[test]
fn kinds_follow_human_input() {
    let human = vec![at(Role::User, 0)];
    assert_eq!(assemble(origin(), &human).unwrap().kind, SessionKind::Human);
    let mut child = origin();
    child.child = true;
    assert_eq!(assemble(child, &human).unwrap().kind, SessionKind::Sub);
    let mut injected = at(Role::User, 0);
    injected.injected = true;
    let s = assemble(origin(), &vec![injected, at(Role::Assistant, 1)]).unwrap();
    assert_eq!(s.kind, SessionKind::Sub);
    assert_eq!(s.title.as_deref(), Some("said at 0"), "an injected text may still be a title");
}

fn with_spans(list: &[(SpanKind, i128, i128)]) -> Session {
    let mut s = assemble(origin(), &vec![at(Role::User, 0)]).unwrap();
    s.spans = list
        .iter()
        .map(|(kind, a, b)| Span {
            kind: *kind,
            t_start: *a,
            t_end: *b,
            label: String::new(),
            meta: None,
        })
        .collect();
    s
}

#[test]
fn durations_are_unions() {
    let (idle, tool) = (SpanKind::Idle, SpanKind::Tool);
    assert_eq!(with_spans(&[]).union_duration(tool), 0);
    assert_eq!(with_spans(&[(tool, 0, 10), (tool, 5, 20)]).union_duration(tool), 20);
    assert_eq!(with_spans(&[(tool, 30, 40), (tool, 0, 10)]).union_duration(tool), 20);
    assert_eq!(with_spans(&[(tool, 0, 10), (tool, 10, 20)]).union_duration(tool), 20);
    assert_eq!(with_spans(&[(tool, 0, 100), (tool, 10, 20)]).union_duration(tool), 100);
    assert_eq!(with_spans(&[(tool, 0, 10), (idle, 0, 90)]).union_duration(tool), 10);
    assert_eq!(with_spans(&[(tool, 5, 5)]).union_duration(tool), 0);
    assert_eq!(with_spans(&[(tool, 9, 5)]).union_duration(tool), 0, "nothing runs backwards");
    assert_eq!(
        with_spans(&[(tool, i128::MIN, i128::MAX)]).union_duration(tool),
        u128::MAX
    );
}
