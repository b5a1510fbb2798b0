//! Span derivation: from a session's events to inference, tool and idle spans.
//!
//! ```text
//! user or assistant event, then an assistant event within the gap cap = inference
//! assistant tool call, then its tool result                           = tool
//! silence ended by a user event                                       = idle
//! silence longer than the gap cap                                     = idle, never inference
//! ```
use crate::model;
use crate::model::{Meta, Session, SessionKind, Span, SpanKind, GAP_CAP};
use crate::text;
use crate::text::preview;
use vstd::hash_map::StringHashMap;
use vstd::prelude::*;

verus! {

/// Who an event came from.
#[derive(Debug, Clone, Copy, PartialEq, Eq, Structural)]
pub enum Role {
    User,
    Assistant,
    /// A tool's result.
    Tool,
    /// Anything else; it carries a timestamp and nothing more.
    Other,
}

/// A tool call that an assistant event announces.
#[derive(Debug, Clone)]
pub struct ToolCall {
    pub id: String,
    pub name: String,
    pub args: String,
}

/// One logged event of a session, whatever the log's format.
#[derive(Debug, Clone)]
pub struct Event {
    pub role: Role,
    pub t: i128,
    /// A user event that was put in by the program, not by a human.
    pub injected: bool,
    pub text: String,
    /// The tool calls that an assistant event announces.
    pub calls: Vec<ToolCall>,
    /// The call that a tool event answers.
    pub call_id: String,
    /// The tool that a tool event names itself.
    pub tool_name: String,
}

/// A [`ToolCall`] as mathematical text.
pub struct CallView {
    pub id: Seq<char>,
    pub name: Seq<char>,
    pub args: Seq<char>,
}

impl View for ToolCall {
    type V = CallView;

    open spec fn view(&self) -> CallView {
        CallView { id: self.id@, name: self.name@, args: self.args@ }
    }
}

/// A list of calls, each by its view.
pub open spec fn call_views(calls: Seq<ToolCall>) -> Seq<CallView> {
    calls.map_values(|c: ToolCall| c@)
}

/// An [`Event`] as mathematical values.
pub struct EventView {
    pub role: Role,
    pub t: i128,
    pub injected: bool,
    pub text: Seq<char>,
    pub calls: Seq<CallView>,
    pub call_id: Seq<char>,
    pub tool_name: Seq<char>,
}

impl View for Event {
    type V = EventView;

    open spec fn view(&self) -> EventView {
        EventView {
            role: self.role,
            t: self.t,
            injected: self.injected,
            text: self.text@,
            calls: call_views(self.calls@),
            call_id: self.call_id@,
            tool_name: self.tool_name@,
        }
    }
}

/// A list of events, each by its view.
pub open spec fn event_views(es: Seq<Event>) -> Seq<EventView> {
    es.map_values(|e: Event| e@)
}

/// A call that waits for its result: when it was made, and what it calls.
pub struct OpenCallView {
    pub t: i128,
    pub name: Seq<char>,
    pub args: Seq<char>,
}

struct OpenCall {
    t: i128,
    name: String,
    args: String,
}

impl View for OpenCall {
    type V = OpenCallView;

    closed spec fn view(&self) -> OpenCallView {
        OpenCallView { t: self.t, name: self.name@, args: self.args@ }
    }
}

/// The larger of two instants.
pub open spec fn later(a: i128, b: i128) -> i128 {
    if a >= b {
        a
    } else {
        b
    }
}

/// Where attributed time ends after the events `es`: at the last user or
/// assistant event, or at a later tool result.
pub open spec fn last_time(es: Seq<EventView>) -> Option<i128>
    decreases es.len(),
{
    if es.len() == 0 {
        None
    } else {
        let e = es.last();
        let before = last_time(es.drop_last());
        match e.role {
            Role::User => Some(e.t),
            Role::Assistant => Some(e.t),
            Role::Tool => match before {
                Some(l) => Some(later(l, e.t)),
                None => Some(e.t),
            },
            Role::Other => before,
        }
    }
}

/// The open calls `m` and the calls `calls`, made at `t`; the later of two calls
/// with one id stands.
pub open spec fn with_calls(
    m: Map<Seq<char>, OpenCallView>,
    calls: Seq<CallView>,
    t: i128,
) -> Map<Seq<char>, OpenCallView>
    decreases calls.len(),
{
    if calls.len() == 0 {
        m
    } else {
        let c = calls.last();
        with_calls(m, calls.drop_last(), t).insert(
            c.id,
            OpenCallView { t, name: c.name, args: c.args },
        )
    }
}

/// The calls that wait for a result after the events `es`, by id. A user event
/// drops them all; a result closes the one it answers.
pub open spec fn open_calls(es: Seq<EventView>) -> Map<Seq<char>, OpenCallView>
    decreases es.len(),
{
    if es.len() == 0 {
        Map::empty()
    } else {
        let e = es.last();
        let before = open_calls(es.drop_last());
        match e.role {
            Role::User => Map::empty(),
            Role::Assistant => with_calls(before, e.calls, e.t),
            Role::Tool => before.remove(e.call_id),
            Role::Other => before,
        }
    }
}

/// The idle span that a user event ends.
pub open spec fn idle_span(prev: i128, e: EventView) -> model::SpanView {
    model::SpanView {
        kind: SpanKind::Idle,
        t_start: prev,
        t_end: e.t,
        label: "idle"@,
        meta: Some(
            if e.injected {
                model::MetaView { note: Some("ended by injected message"@), ..model::no_meta() }
            } else {
                model::MetaView { next_user: Some(text::preview_of(e.text)), ..model::no_meta() }
            },
        ),
    }
}

/// The span that an assistant event ends: inference up to the gap cap, idle
/// beyond it.
pub open spec fn model_span(prev: i128, e: EventView) -> model::SpanView {
    let short = e.t - prev <= GAP_CAP;
    model::SpanView {
        kind: if short {
            SpanKind::Inference
        } else {
            SpanKind::Idle
        },
        t_start: prev,
        t_end: e.t,
        label: if short {
            "model"@
        } else {
            "idle (long silence)"@
        },
        meta: Some(
            model::MetaView { output: Some(text::preview_of(e.text)), ..model::no_meta() },
        ),
    }
}

/// The call that the tool event `e` answers: the open call of its id, or a
/// stand-in that starts where attributed time ended.
pub open spec fn answered(before: Seq<EventView>, e: EventView) -> OpenCallView {
    if open_calls(before).contains_key(e.call_id) {
        open_calls(before)[e.call_id]
    } else {
        OpenCallView {
            t: match last_time(before) {
                Some(l) => l,
                None => e.t,
            },
            name: e.tool_name,
            args: Seq::empty(),
        }
    }
}

/// The span of the tool call `c` with the result `e`.
pub open spec fn tool_span(c: OpenCallView, e: EventView) -> model::SpanView {
    model::SpanView {
        kind: SpanKind::Tool,
        t_start: c.t,
        t_end: e.t,
        label: c.name,
        meta: Some(
            model::MetaView {
                args: if c.args.len() == 0 {
                    None
                } else {
                    Some(text::preview_of(c.args))
                },
                result: Some(text::preview_of(e.text)),
                ..model::no_meta()
            },
        ),
    }
}

/// The span that the event `e` ends, when it comes after the events `before`.
pub open spec fn ended_span(before: Seq<EventView>, e: EventView) -> Option<model::SpanView> {
    match e.role {
        Role::User => match last_time(before) {
            Some(prev) => if e.t > prev {
                Some(idle_span(prev, e))
            } else {
                None
            },
            None => None,
        },
        Role::Assistant => match last_time(before) {
            Some(prev) => if e.t > prev {
                Some(model_span(prev, e))
            } else {
                None
            },
            None => None,
        },
        Role::Tool => {
            let c = answered(before, e);
            if e.t >= c.t {
                Some(tool_span(c, e))
            } else {
                None
            }
        },
        Role::Other => None,
    }
}

/// The spans of the events `es`: each event ends at most one.
pub open spec fn spans_of(es: Seq<EventView>) -> Seq<model::SpanView>
    decreases es.len(),
{
    if es.len() == 0 {
        Seq::empty()
    } else {
        let before = es.drop_last();
        match ended_span(before, es.last()) {
            Some(s) => spans_of(before).push(s),
            None => spans_of(before),
        }
    }
}

/// The open calls of a hash map, each by its view.
spec fn open_views(m: Map<Seq<char>, OpenCall>) -> Map<Seq<char>, OpenCallView> {
    m.map_values(|c: OpenCall| c@)
}

/// The idle span that the user event `e` ends.
fn make_idle(prev: i128, e: &Event) -> (r: Span)
    ensures
        r@ == idle_span(prev, e@),
{
    let mut meta: Meta = Meta::default();
    if e.injected {
        meta.note = Some("ended by injected message".to_owned());
    } else {
        meta.next_user = Some(preview(e.text.as_str()));
    }
    Span { kind: SpanKind::Idle, t_start: prev, t_end: e.t, label: "idle".to_owned(), meta: Some(meta) }
}

/// The span that the assistant event `e` ends.
fn make_model(prev: i128, e: &Event) -> (r: Span)
    requires
        e.t > prev,
    ensures
        r@ == model_span(prev, e@),
{
    let mut meta: Meta = Meta::default();
    meta.output = Some(preview(e.text.as_str()));
    let short: bool = prev > i128::MAX - GAP_CAP || e.t <= prev + GAP_CAP;
    if short {
        Span {
            kind: SpanKind::Inference,
            t_start: prev,
            t_end: e.t,
            label: "model".to_owned(),
            meta: Some(meta),
        }
    } else {
        Span {
            kind: SpanKind::Idle,
            t_start: prev,
            t_end: e.t,
            label: "idle (long silence)".to_owned(),
            meta: Some(meta),
        }
    }
}

/// The span of the tool call `c` with the result `e`.
fn make_tool(c: OpenCall, e: &Event) -> (r: Span)
    ensures
        r@ == tool_span(c@, e@),
{
    let mut meta: Meta = Meta::default();
    if !c.args.as_str().is_empty() {
        meta.args = Some(preview(c.args.as_str()));
    }
    meta.result = Some(preview(e.text.as_str()));
    Span { kind: SpanKind::Tool, t_start: c.t, t_end: e.t, label: c.name, meta: Some(meta) }
}

/// Adds the calls of one assistant event to the open calls.
fn add_calls(pending: &mut StringHashMap<OpenCall>, calls: &Vec<ToolCall>, t: i128)
    ensures
        open_views(final(pending)@) == with_calls(open_views(old(pending)@), call_views(calls@), t),
{
    let ghost start = open_views(pending@);
    let ghost views = call_views(calls@);
    let mut i: usize = 0;
    assert(views.take(0) =~= Seq::empty());
    while i < calls.len()
        invariant
            i <= calls@.len(),
            views == call_views(calls@),
            open_views(pending@) == with_calls(start, views.take(i as int), t),
        decreases calls.len() - i,
    {
        let ghost before = pending@;
        let call: OpenCall = OpenCall { t, name: calls[i].name.clone(), args: calls[i].args.clone() };
        let ghost added = call@;
        pending.insert(calls[i].id.clone(), call);
        proof {
            assert(views.take(i + 1).drop_last() =~= views.take(i as int));
            assert(views.take(i + 1).last() == views[i as int]);
            assert(open_views(pending@) =~= open_views(before).insert(calls@[i as int].id@, added));
        }
        i = i + 1;
    }
    assert(views.take(views.len() as int) =~= views);
}

/// Takes the call with the id `id` out of the open calls.
fn take_call(pending: &mut StringHashMap<OpenCall>, id: &str) -> (r: Option<OpenCall>)
    ensures
        open_views(final(pending)@) == open_views(old(pending)@).remove(id@),
        match r {
            Some(c) => open_views(old(pending)@).contains_key(id@) && c@ == open_views(
                old(pending)@,
            )[id@],
            None => !open_views(old(pending)@).contains_key(id@),
        },
{
    let found: Option<OpenCall> = match pending.get(id) {
        Some(c) => Some(OpenCall { t: c.t, name: c.name.clone(), args: c.args.clone() }),
        None => None,
    };
    let ghost before = pending@;
    pending.remove(id);
    assert(open_views(pending@) =~= open_views(before).remove(id@));
    found
}

/// The spans of a session's events, in the order in which the events end them.
pub fn derive_spans(events: &Vec<Event>) -> (r: Vec<Span>)
    ensures
        model::span_views(r@) == spans_of(event_views(events@)),
{
    let mut spans: Vec<Span> = Vec::new();
    let mut pending: StringHashMap<OpenCall> = StringHashMap::new();
    let mut last: Option<i128> = None;
    let ghost views = event_views(events@);
    let mut i: usize = 0;
    proof {
        assert(views.take(0) =~= Seq::empty());
        assert(open_views(pending@) =~= Map::empty());
        assert(model::span_views(spans@) =~= Seq::empty());
    }
    while i < events.len()
        invariant
            i <= events@.len(),
            views == event_views(events@),
            model::span_views(spans@) == spans_of(views.take(i as int)),
            open_views(pending@) == open_calls(views.take(i as int)),
            last == last_time(views.take(i as int)),
        decreases events.len() - i,
    {
        let e: &Event = &events[i];
        let ghost before = views.take(i as int);
        let ghost upto = views.take(i + 1);
        let ghost made = spans@;
        proof {
            assert(upto.drop_last() =~= before);
            assert(upto.last() == e@);
        }
        match e.role {
            Role::User => {
                if let Some(prev) = last {
                    if e.t > prev {
                        spans.push(make_idle(prev, e));
                    }
                }
                pending.clear();
                last = Some(e.t);
                assert(open_views(pending@) =~= Map::empty());
            },
            Role::Assistant => {
                if let Some(prev) = last {
                    if e.t > prev {
                        spans.push(make_model(prev, e));
                    }
                }
                last = Some(e.t);
                add_calls(&mut pending, &e.calls, e.t);
            },
            Role::Tool => {
                let call: OpenCall = match take_call(&mut pending, e.call_id.as_str()) {
                    Some(c) => c,
                    None => OpenCall {
                        t: match last {
                            Some(l) => l,
                            None => e.t,
                        },
                        name: e.tool_name.clone(),
                        args: String::new(),
                    },
                };
                assert(call@ == answered(before, e@));
                if e.t >= call.t {
                    spans.push(make_tool(call, e));
                }
                last = match last {
                    Some(l) => if l >= e.t {
                        Some(l)
                    } else {
                        Some(e.t)
                    },
                    None => Some(e.t),
                };
            },
            Role::Other => {},
        }
        proof {
            if spans@.len() > made.len() {
                assert(model::span_views(spans@) =~= model::span_views(made).push(spans@.last()@));
            }
        }
        i = i + 1;
    }
    assert(views.take(views.len() as int) =~= views);
    spans
}

/// The smallest of a nonempty list of instants.
pub open spec fn least(ts: Seq<i128>) -> i128
    decreases ts.len(),
{
    if ts.len() <= 1 {
        ts[0]
    } else {
        let l = least(ts.drop_last());
        if ts.last() < l {
            ts.last()
        } else {
            l
        }
    }
}

/// The largest of a nonempty list of instants.
pub open spec fn greatest(ts: Seq<i128>) -> i128
    decreases ts.len(),
{
    if ts.len() <= 1 {
        ts[0]
    } else {
        later(greatest(ts.drop_last()), ts.last())
    }
}

/// The timestamps of the events.
pub open spec fn event_times(es: Seq<EventView>) -> Seq<i128> {
    es.map_values(|e: EventView| e.t)
}

/// The instants at which the spans start.
pub open spec fn span_starts(spans: Seq<model::SpanView>) -> Seq<i128> {
    spans.map_values(|s: model::SpanView| s.t_start)
}

/// The instants at which the spans end.
pub open spec fn span_ends(spans: Seq<model::SpanView>) -> Seq<i128> {
    spans.map_values(|s: model::SpanView| s.t_end)
}

/// Where a session starts: at its earliest span, or, without spans, at its
/// earliest event.
pub open spec fn extent_start(es: Seq<EventView>) -> i128 {
    if spans_of(es).len() > 0 {
        least(span_starts(spans_of(es)))
    } else {
        least(event_times(es))
    }
}

/// Where a session ends: with its latest span, or, without spans, with its
/// latest event.
pub open spec fn extent_end(es: Seq<EventView>) -> i128 {
    if spans_of(es).len() > 0 {
        greatest(span_ends(spans_of(es)))
    } else {
        greatest(event_times(es))
    }
}

/// A user event that a human wrote.
pub open spec fn is_human(e: EventView) -> bool {
    e.role == Role::User && !e.injected
}

/// Whether a human wrote any of the events.
pub open spec fn has_human(es: Seq<EventView>) -> bool {
    exists|i: int| 0 <= i < es.len() && is_human(#[trigger] es[i])
}

/// The text of the first user event.
pub open spec fn first_user_text(es: Seq<EventView>) -> Option<Seq<char>>
    decreases es.len(),
{
    if es.len() == 0 {
        None
    } else if es[0].role == Role::User {
        Some(es[0].text)
    } else {
        first_user_text(es.drop_first())
    }
}

/// A session's title: the preview of the title that its source gives, if it
/// gives one, and else of the first user event; none where that preview is empty.
pub open spec fn title_of(given: Option<Seq<char>>, es: Seq<EventView>) -> Option<Seq<char>> {
    match given {
        Some(t) if t.len() > 0 => Some(text::preview_of(t)),
        _ => match first_user_text(es) {
            Some(u) => if text::preview_of(u).len() > 0 {
                Some(text::preview_of(u))
            } else {
                None
            },
            None => None,
        },
    }
}

/// What a session's source says of it besides its events.
pub struct OriginView {
    pub id: Seq<char>,
    pub title: Option<Seq<char>>,
    /// Whether another session started this one.
    pub child: bool,
    pub profile: Seq<char>,
    pub source: Option<Seq<char>>,
}

/// What a session's source says of it besides its events.
#[derive(Debug, Clone)]
pub struct Origin {
    pub id: String,
    pub title: Option<String>,
    /// Whether another session started this one.
    pub child: bool,
    pub profile: String,
    pub source: Option<String>,
}

impl View for Origin {
    type V = OriginView;

    open spec fn view(&self) -> OriginView {
        OriginView {
            id: self.id@,
            title: text::opt_text(self.title),
            child: self.child,
            profile: self.profile@,
            source: text::opt_text(self.source),
        }
    }
}

/// The session that the events `es` make. Without events there is none.
pub open spec fn session_of(o: OriginView, es: Seq<EventView>) -> Option<model::SessionView> {
    if es.len() == 0 {
        None
    } else {
        Some(
            model::SessionView {
                id: o.id,
                kind: if o.child || !has_human(es) {
                    SessionKind::Sub
                } else {
                    SessionKind::Human
                },
                t_start: extent_start(es),
                t_end: extent_end(es),
                title: title_of(o.title, es),
                profile: Some(o.profile),
                source: o.source,
                spans: spans_of(es),
            },
        )
    }
}

/// An optional session by its view.
pub open spec fn opt_session(s: Option<Session>) -> Option<model::SessionView> {
    match s {
        Some(x) => Some(x@),
        None => None,
    }
}

/// The smallest and the largest of the instants.
fn bounds(ts: &Vec<i128>, us: &Vec<i128>) -> (r: (i128, i128))
    requires
        ts@.len() > 0,
        us@.len() > 0,
    ensures
        r.0 == least(ts@),
        r.1 == greatest(us@),
{
    let mut lo: i128 = ts[0];
    let mut i: usize = 1;
    assert(ts@.take(1)[0] == ts@[0]);
    while i < ts.len()
        invariant
            1 <= i <= ts@.len(),
            lo == least(ts@.take(i as int)),
        decreases ts.len() - i,
    {
        assert(ts@.take(i + 1).drop_last() =~= ts@.take(i as int));
        if ts[i] < lo {
            lo = ts[i];
        }
        i = i + 1;
    }
    let mut hi: i128 = us[0];
    let mut j: usize = 1;
    assert(us@.take(1)[0] == us@[0]);
    while j < us.len()
        invariant
            1 <= j <= us@.len(),
            hi == greatest(us@.take(j as int)),
        decreases us.len() - j,
    {
        assert(us@.take(j + 1).drop_last() =~= us@.take(j as int));
        if us[j] > hi {
            hi = us[j];
        }
        j = j + 1;
    }
    assert(ts@.take(ts@.len() as int) =~= ts@);
    assert(us@.take(us@.len() as int) =~= us@);
    (lo, hi)
}

/// The extent of a session with these events and spans.
fn extent(events: &Vec<Event>, spans: &Vec<Span>) -> (r: (i128, i128))
    requires
        events@.len() > 0,
        model::span_views(spans@) == spans_of(event_views(events@)),
    ensures
        r.0 == extent_start(event_views(events@)),
        r.1 == extent_end(event_views(events@)),
{
    let ghost es = event_views(events@);
    if spans.len() > 0 {
        let mut starts: Vec<i128> = Vec::new();
        let mut ends: Vec<i128> = Vec::new();
        let mut i: usize = 0;
        while i < spans.len()
            invariant
                i <= spans@.len(),
                es == event_views(events@),
                model::span_views(spans@) == spans_of(es),
                starts@.len() == i,
                ends@.len() == i,
                forall|k: int| 0 <= k < i ==> #[trigger] starts@[k] == spans@[k].t_start,
                forall|k: int| 0 <= k < i ==> #[trigger] ends@[k] == spans@[k].t_end,
            decreases spans.len() - i,
        {
            starts.push(spans[i].t_start);
            ends.push(spans[i].t_end);
            i = i + 1;
        }
        proof {
            assert(spans_of(es).len() == spans@.len());
            assert forall|k: int| 0 <= k < spans@.len() implies #[trigger] spans_of(es)[k]
                == spans@[k]@ by {}
            assert(starts@ =~= span_starts(spans_of(es)));
            assert(ends@ =~= span_ends(spans_of(es)));
        }
        bounds(&starts, &ends)
    } else {
        let mut ts: Vec<i128> = Vec::new();
        let mut i: usize = 0;
        while i < events.len()
            invariant
                i <= events@.len(),
                ts@.len() == i,
                forall|k: int| 0 <= k < i ==> #[trigger] ts@[k] == events@[k].t,
            decreases events.len() - i,
        {
            ts.push(events[i].t);
            i = i + 1;
        }
        proof {
            assert(ts@ =~= event_times(es));
            assert(spans_of(es).len() == 0);
        }
        bounds(&ts, &ts)
    }
}

/// Whether a human wrote any of the events.
fn any_human(events: &Vec<Event>) -> (r: bool)
    ensures
        r == has_human(event_views(events@)),
{
    let ghost es = event_views(events@);
    let mut i: usize = 0;
    while i < events.len()
        invariant
            i <= events@.len(),
            es == event_views(events@),
            forall|k: int| 0 <= k < i ==> !is_human(#[trigger] es[k]),
        decreases events.len() - i,
    {
        assert(es[i as int] == events@[i as int]@);
        if events[i].role == Role::User && !events[i].injected {
            assert(is_human(es[i as int]));
            return true;
        }
        i = i + 1;
    }
    false
}

/// The title of a session.
fn choose_title(given: &Option<String>, events: &Vec<Event>) -> (r: Option<String>)
    ensures
        text::opt_text(r) == title_of(text::opt_text(*given), event_views(events@)),
{
    let ghost es = event_views(events@);
    if let Some(t) = given {
        if !t.as_str().is_empty() {
            return Some(preview(t.as_str()));
        }
    }
    let mut i: usize = 0;
    assert(es.skip(0) =~= es);
    while i < events.len()
        invariant
            i <= events@.len(),
            es == event_views(events@),
            first_user_text(es) == first_user_text(es.skip(i as int)),
            match *given {
                Some(t) => t@.len() == 0,
                None => true,
            },
        decreases events.len() - i,
    {
        proof {
            assert(es.skip(i as int)[0] == events@[i as int]@);
            assert(es.skip(i as int).drop_first() =~= es.skip(i + 1));
        }
        if events[i].role == Role::User {
            let p: String = preview(events[i].text.as_str());
            if p.as_str().is_empty() {
                return None;
            }
            return Some(p);
        }
        i = i + 1;
    }
    assert(es.skip(es.len() as int).len() == 0);
    None
}

/// Builds the session that the events make. Without events there is none.
pub fn assemble(origin: Origin, events: &Vec<Event>) -> (r: Option<Session>)
    ensures
        opt_session(r) == session_of(origin@, event_views(events@)),
{
    if events.len() == 0 {
        return None;
    }
    let spans: Vec<Span> = derive_spans(events);
    let (t_start, t_end) = extent(events, &spans);
    let kind: SessionKind = if origin.child || !any_human(events) {
        SessionKind::Sub
    } else {
        SessionKind::Human
    };
    let title: Option<String> = choose_title(&origin.title, events);
    Some(
        Session {
            id: origin.id,
            kind,
            t_start,
            t_end,
            title,
            profile: Some(origin.profile),
            source: origin.source,
            spans,
        },
    )
}

} // verus!
