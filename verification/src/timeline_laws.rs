//! What holds of every derived timeline.
use crate::model;
use crate::model::{SpanKind, GAP_CAP};
use crate::text;
use crate::timeline;
use crate::timeline::{CallView, EventView, OpenCallView, OriginView, Role};
use vstd::prelude::*;

verus! {

/// Spans of the events `es` in terms of those of all but the last event.
proof fn lemma_spans_step(before: Seq<EventView>, e: EventView)
    ensures
        timeline::spans_of(before.push(e)) == (match timeline::ended_span(before, e) {
            Some(s) => timeline::spans_of(before).push(s),
            None => timeline::spans_of(before),
        }),
        timeline::last_time(before.push(e)) == (match e.role {
            Role::User => Some(e.t),
            Role::Assistant => Some(e.t),
            Role::Tool => match timeline::last_time(before) {
                Some(l) => Some(timeline::later(l, e.t)),
                None => Some(e.t),
            },
            Role::Other => timeline::last_time(before),
        }),
{
    assert(before.push(e).drop_last() =~= before);
    assert(before.push(e).last() == e);
}

/// Every span ends no earlier than it starts; inference and idle spans have a
/// positive length.
pub proof fn law_spans_run_forward(es: Seq<EventView>)
    ensures
        forall|i: int|
            0 <= i < timeline::spans_of(es).len() ==> model::span_ok(
                #[trigger] timeline::spans_of(es)[i],
            ),
        forall|i: int|
            0 <= i < timeline::spans_of(es).len() && (#[trigger] timeline::spans_of(es)[i]).kind
                != SpanKind::Tool ==> timeline::spans_of(es)[i].t_start < timeline::spans_of(
                es,
            )[i].t_end,
    decreases es.len(),
{
    if es.len() > 0 {
        law_spans_run_forward(es.drop_last());
    }
}

/// No inference span is longer than the gap cap: longer silence is idle.
pub proof fn law_inference_within_gap_cap(es: Seq<EventView>)
    ensures
        forall|i: int|
            0 <= i < timeline::spans_of(es).len() && (#[trigger] timeline::spans_of(es)[i]).kind
                == SpanKind::Inference ==> timeline::spans_of(es)[i].t_end - timeline::spans_of(
                es,
            )[i].t_start <= GAP_CAP && timeline::spans_of(es)[i].label == "model"@,
    decreases es.len(),
{
    if es.len() > 0 {
        law_inference_within_gap_cap(es.drop_last());
    }
}

/// Silence longer than the gap cap before an assistant event is idle, and said
/// to be a long silence.
pub proof fn law_long_silence_is_idle(before: Seq<EventView>, e: EventView, prev: i128)
    requires
        e.role == Role::Assistant,
        timeline::last_time(before) == Some(prev),
        e.t - prev > GAP_CAP,
    ensures
        timeline::spans_of(before.push(e)).drop_last() == timeline::spans_of(before),
        timeline::spans_of(before.push(e)).last().kind == SpanKind::Idle,
        timeline::spans_of(before.push(e)).last().label == "idle (long silence)"@,
        timeline::spans_of(before.push(e)).last().t_start == prev,
        timeline::spans_of(before.push(e)).last().t_end == e.t,
{
    lemma_spans_step(before, e);
    assert(timeline::spans_of(before.push(e)).drop_last() =~= timeline::spans_of(before));
}

/// An assistant event within the gap cap of a user event ends an inference span.
pub proof fn law_user_then_assistant_is_inference(
    before: Seq<EventView>,
    user: EventView,
    e: EventView,
)
    requires
        user.role == Role::User,
        e.role == Role::Assistant,
        0 < e.t - user.t <= GAP_CAP,
    ensures
        timeline::spans_of(before.push(user).push(e)).len() > 0,
        timeline::spans_of(before.push(user).push(e)).last().kind == SpanKind::Inference,
        timeline::spans_of(before.push(user).push(e)).last().t_start == user.t,
        timeline::spans_of(before.push(user).push(e)).last().t_end == e.t,
{
    lemma_spans_step(before, user);
    lemma_spans_step(before.push(user), e);
}

/// Silence ended by a user event is idle, however long it was.
pub proof fn law_silence_before_user_is_idle(before: Seq<EventView>, e: EventView, prev: i128)
    requires
        e.role == Role::User,
        timeline::last_time(before) == Some(prev),
        e.t > prev,
    ensures
        timeline::spans_of(before.push(e)).drop_last() == timeline::spans_of(before),
        timeline::spans_of(before.push(e)).last().kind == SpanKind::Idle,
        timeline::spans_of(before.push(e)).last().label == "idle"@,
        timeline::spans_of(before.push(e)).last().t_start == prev,
        timeline::spans_of(before.push(e)).last().t_end == e.t,
{
    lemma_spans_step(before, e);
    assert(timeline::spans_of(before.push(e)).drop_last() =~= timeline::spans_of(before));
}

/// Appending events to a log leaves the spans that are already there unchanged.
pub proof fn law_appending_keeps_spans(es: Seq<EventView>, more: Seq<EventView>)
    ensures
        timeline::spans_of(es).len() <= timeline::spans_of(es + more).len(),
        timeline::spans_of(es + more).take(timeline::spans_of(es).len() as int)
            == timeline::spans_of(es),
    decreases more.len(),
{
    if more.len() == 0 {
        assert(es + more =~= es);
        assert(timeline::spans_of(es).take(timeline::spans_of(es).len() as int)
            =~= timeline::spans_of(es));
    } else {
        let init = more.drop_last();
        law_appending_keeps_spans(es, init);
        assert((es + init).push(more.last()) =~= es + more);
        lemma_spans_step(es + init, more.last());
        assert(timeline::spans_of(es + more).take(timeline::spans_of(es).len() as int)
            =~= timeline::spans_of(es + init).take(timeline::spans_of(es).len() as int));
    }
}

/// An event of `es` has the timestamp `t`.
pub open spec fn is_event_time(es: Seq<EventView>, t: i128) -> bool {
    exists|k: int| 0 <= k < es.len() && (#[trigger] es[k]).t == t
}

proof fn lemma_event_time_push(es: Seq<EventView>, e: EventView)
    ensures
        forall|t: i128| is_event_time(es, t) ==> is_event_time(es.push(e), t),
        is_event_time(es.push(e), e.t),
{
    assert forall|t: i128| is_event_time(es, t) implies is_event_time(es.push(e), t) by {
        let k = choose|k: int| 0 <= k < es.len() && (#[trigger] es[k]).t == t;
        assert(es.push(e)[k] == es[k]);
    }
    assert(es.push(e)[es.len() as int] == e);
}

/// Calls made at `t` open at `t`; what was open before keeps its time.
proof fn lemma_with_calls_time(
    m: Map<Seq<char>, OpenCallView>,
    calls: Seq<CallView>,
    t: i128,
    id: Seq<char>,
)
    ensures
        timeline::with_calls(m, calls, t).contains_key(id) ==> timeline::with_calls(m, calls, t)[id].t
            == t || (m.contains_key(id) && timeline::with_calls(m, calls, t)[id] == m[id]),
    decreases calls.len(),
{
    if calls.len() > 0 {
        lemma_with_calls_time(m, calls.drop_last(), t, id);
    }
}

/// Attributed time ends at an event, and open calls were made at events.
proof fn lemma_state_times(es: Seq<EventView>)
    ensures
        timeline::last_time(es) is Some ==> is_event_time(es, timeline::last_time(es)->0),
        forall|id: Seq<char>| #[trigger]
            timeline::open_calls(es).contains_key(id) ==> is_event_time(
                es,
                timeline::open_calls(es)[id].t,
            ),
    decreases es.len(),
{
    if es.len() > 0 {
        let before = es.drop_last();
        let e = es.last();
        lemma_state_times(before);
        lemma_event_time_push(before, e);
        assert(before.push(e) =~= es);
        assert forall|id: Seq<char>| #[trigger]
            timeline::open_calls(es).contains_key(id) implies is_event_time(
            es,
            timeline::open_calls(es)[id].t,
        ) by {
            if e.role == Role::Assistant {
                lemma_with_calls_time(timeline::open_calls(before), e.calls, e.t, id);
            }
            if e.role != Role::Assistant || timeline::open_calls(es)[id].t != e.t {
                assert(timeline::open_calls(before).contains_key(id));
            }
        }
    }
}

/// Every span starts and ends at the timestamp of an event.
pub proof fn law_spans_join_events(es: Seq<EventView>)
    ensures
        forall|i: int|
            0 <= i < timeline::spans_of(es).len() ==> is_event_time(
                es,
                (#[trigger] timeline::spans_of(es)[i]).t_start,
            ) && is_event_time(es, timeline::spans_of(es)[i].t_end),
    decreases es.len(),
{
    if es.len() > 0 {
        let before = es.drop_last();
        let e = es.last();
        law_spans_join_events(before);
        lemma_state_times(before);
        lemma_event_time_push(before, e);
        assert(before.push(e) =~= es);
        assert forall|i: int| 0 <= i < timeline::spans_of(es).len() implies is_event_time(
            es,
            (#[trigger] timeline::spans_of(es)[i]).t_start,
        ) && is_event_time(es, timeline::spans_of(es)[i].t_end) by {
            if i < timeline::spans_of(before).len() {
                assert(timeline::spans_of(es)[i] == timeline::spans_of(before)[i]);
            }
        }
    }
}

/// Every tool span is ended by a tool event: a call without a result makes no span.
pub proof fn law_tool_spans_have_results(es: Seq<EventView>)
    ensures
        forall|i: int|
            0 <= i < timeline::spans_of(es).len() && (#[trigger] timeline::spans_of(es)[i]).kind
                == SpanKind::Tool ==> exists|k: int|
                0 <= k < es.len() && (#[trigger] es[k]).role == Role::Tool && es[k].t
                    == timeline::spans_of(es)[i].t_end,
    decreases es.len(),
{
    if es.len() > 0 {
        let before = es.drop_last();
        law_tool_spans_have_results(before);
        assert forall|i: int|
            0 <= i < timeline::spans_of(es).len() && (#[trigger] timeline::spans_of(es)[i]).kind
                == SpanKind::Tool implies exists|k: int|
            0 <= k < es.len() && (#[trigger] es[k]).role == Role::Tool && es[k].t
                == timeline::spans_of(es)[i].t_end by {
            if i < timeline::spans_of(before).len() {
                assert(timeline::spans_of(es)[i] == timeline::spans_of(before)[i]);
                let k = choose|k: int|
                    0 <= k < before.len() && (#[trigger] before[k]).role == Role::Tool && before[k].t
                        == timeline::spans_of(before)[i].t_end;
                assert(es[k] == before[k]);
            } else {
                assert(es[es.len() - 1] == es.last());
            }
        }
    }
}

/// `calls` announces the id `id`, last of all by a call with this name and
/// these arguments.
pub open spec fn announces(calls: Seq<CallView>, c: CallView) -> bool {
    exists|k: int|
        0 <= k < calls.len() && (#[trigger] calls[k]) == c && forall|j: int|
            k < j < calls.len() ==> (#[trigger] calls[j]).id != c.id
}

/// The event leaves the open call `id` alone: no user event, no result of the
/// call, no announcement of the same id.
pub open spec fn leaves_open(e: EventView, id: Seq<char>) -> bool {
    match e.role {
        Role::User => false,
        Role::Assistant => forall|k: int|
            0 <= k < e.calls.len() ==> (#[trigger] e.calls[k]).id != id,
        Role::Tool => e.call_id != id,
        Role::Other => true,
    }
}

proof fn lemma_announced(
    m: Map<Seq<char>, OpenCallView>,
    calls: Seq<CallView>,
    t: i128,
    c: CallView,
)
    requires
        announces(calls, c),
    ensures
        timeline::with_calls(m, calls, t).contains_key(c.id),
        timeline::with_calls(m, calls, t)[c.id] == (OpenCallView { t, name: c.name, args: c.args }),
    decreases calls.len(),
{
    let k = choose|k: int|
        0 <= k < calls.len() && (#[trigger] calls[k]) == c && forall|j: int|
            k < j < calls.len() ==> (#[trigger] calls[j]).id != c.id;
    if k < calls.len() - 1 {
        let init = calls.drop_last();
        assert(init[k] == c);
        assert(announces(init, c));
        lemma_announced(m, init, t, c);
        assert(calls[calls.len() - 1].id != c.id);
    }
}

proof fn lemma_not_announced(
    m: Map<Seq<char>, OpenCallView>,
    calls: Seq<CallView>,
    t: i128,
    id: Seq<char>,
)
    requires
        forall|k: int| 0 <= k < calls.len() ==> (#[trigger] calls[k]).id != id,
    ensures
        timeline::with_calls(m, calls, t).contains_key(id) == m.contains_key(id),
        m.contains_key(id) ==> timeline::with_calls(m, calls, t)[id] == m[id],
    decreases calls.len(),
{
    if calls.len() > 0 {
        lemma_not_announced(m, calls.drop_last(), t, id);
        assert(calls[calls.len() - 1].id != id);
    }
}

proof fn lemma_stays_open(
    before: Seq<EventView>,
    between: Seq<EventView>,
    id: Seq<char>,
)
    requires
        timeline::open_calls(before).contains_key(id),
        forall|k: int| 0 <= k < between.len() ==> leaves_open(#[trigger] between[k], id),
    ensures
        timeline::open_calls(before + between).contains_key(id),
        timeline::open_calls(before + between)[id] == timeline::open_calls(before)[id],
    decreases between.len(),
{
    if between.len() == 0 {
        assert(before + between =~= before);
    } else {
        let init = between.drop_last();
        lemma_stays_open(before, init, id);
        let e = between[between.len() - 1];
        assert((before + between).drop_last() =~= before + init);
        assert(leaves_open(e, id));
        if e.role == Role::Assistant {
            lemma_not_announced(timeline::open_calls(before + init), e.calls, e.t, id);
        }
    }
}

/// A tool call is paired with its result by id: whatever happens in between,
/// short of a user event, the same id again or an earlier result, the span runs
/// from the assistant event that announced the call to the result, and carries
/// the call's name. Calls that run in parallel are timed one by one.
pub proof fn law_calls_pair_by_id(
    before: Seq<EventView>,
    call: EventView,
    c: CallView,
    between: Seq<EventView>,
    result: EventView,
)
    requires
        call.role == Role::Assistant,
        announces(call.calls, c),
        forall|k: int| 0 <= k < between.len() ==> leaves_open(#[trigger] between[k], c.id),
        result.role == Role::Tool,
        result.call_id == c.id,
        result.t >= call.t,
    ensures
        timeline::spans_of((before.push(call) + between).push(result))
            == timeline::spans_of(before.push(call) + between).push(
            timeline::tool_span(OpenCallView { t: call.t, name: c.name, args: c.args }, result),
        ),
{
    let opened = before.push(call);
    assert(opened.drop_last() =~= before);
    lemma_announced(timeline::open_calls(before), call.calls, call.t, c);
    lemma_stays_open(opened, between, c.id);
    lemma_spans_step(opened + between, result);
}

/// A result that comes before its call makes no span.
pub proof fn law_early_result_makes_no_span(
    before: Seq<EventView>,
    call: EventView,
    c: CallView,
    between: Seq<EventView>,
    result: EventView,
)
    requires
        call.role == Role::Assistant,
        announces(call.calls, c),
        forall|k: int| 0 <= k < between.len() ==> leaves_open(#[trigger] between[k], c.id),
        result.role == Role::Tool,
        result.call_id == c.id,
        result.t < call.t,
    ensures
        timeline::spans_of((before.push(call) + between).push(result))
            == timeline::spans_of(before.push(call) + between),
{
    let opened = before.push(call);
    assert(opened.drop_last() =~= before);
    lemma_announced(timeline::open_calls(before), call.calls, call.t, c);
    lemma_stays_open(opened, between, c.id);
    lemma_spans_step(opened + between, result);
}

/// The least of a nonempty list is in it, and below the rest.
pub proof fn lemma_least(ts: Seq<i128>)
    requires
        ts.len() > 0,
    ensures
        ts.contains(timeline::least(ts)),
        forall|i: int| 0 <= i < ts.len() ==> timeline::least(ts) <= #[trigger] ts[i],
    decreases ts.len(),
{
    if ts.len() > 1 {
        let init = ts.drop_last();
        lemma_least(init);
        let k = choose|k: int| 0 <= k < init.len() && init[k] == timeline::least(init);
        assert(ts[k] == init[k]);
        assert(ts[ts.len() - 1] == ts.last());
        assert forall|i: int| 0 <= i < ts.len() implies timeline::least(ts) <= #[trigger] ts[i] by {
            if i < init.len() {
                assert(ts[i] == init[i]);
            }
        }
    }
}

/// The greatest of a nonempty list is in it, and above the rest.
pub proof fn lemma_greatest(ts: Seq<i128>)
    requires
        ts.len() > 0,
    ensures
        ts.contains(timeline::greatest(ts)),
        forall|i: int| 0 <= i < ts.len() ==> timeline::greatest(ts) >= #[trigger] ts[i],
    decreases ts.len(),
{
    if ts.len() > 1 {
        let init = ts.drop_last();
        lemma_greatest(init);
        let k = choose|k: int| 0 <= k < init.len() && init[k] == timeline::greatest(init);
        assert(ts[k] == init[k]);
        assert(ts[ts.len() - 1] == ts.last());
        assert forall|i: int| 0 <= i < ts.len() implies timeline::greatest(ts) >= #[trigger] ts[i] by {
            if i < init.len() {
                assert(ts[i] == init[i]);
            }
        }
    }
}

/// A session's extent runs forward and holds every span, and it starts and ends
/// at the timestamp of an event, whatever the order of the events.
pub proof fn law_extent_holds_spans(o: OriginView, es: Seq<EventView>)
    requires
        es.len() > 0,
    ensures
        timeline::session_of(o, es) is Some,
        timeline::session_of(o, es)->0.t_start <= timeline::session_of(o, es)->0.t_end,
        forall|i: int|
            0 <= i < timeline::spans_of(es).len() ==> timeline::session_of(o, es)->0.t_start <= (
            #[trigger] timeline::spans_of(es)[i]).t_start && timeline::spans_of(es)[i].t_end
                <= timeline::session_of(o, es)->0.t_end,
        is_event_time(es, timeline::session_of(o, es)->0.t_start),
        is_event_time(es, timeline::session_of(o, es)->0.t_end),
{
    let spans = timeline::spans_of(es);
    if spans.len() > 0 {
        let starts = timeline::span_starts(spans);
        let ends = timeline::span_ends(spans);
        lemma_least(starts);
        lemma_greatest(ends);
        law_spans_run_forward(es);
        law_spans_join_events(es);
        assert(starts[0] == spans[0].t_start);
        assert(ends[0] == spans[0].t_end);
        assert(model::span_ok(spans[0]));
        assert forall|i: int| 0 <= i < spans.len() implies timeline::least(starts) <= (
        #[trigger] spans[i]).t_start && spans[i].t_end <= timeline::greatest(ends) by {
            assert(starts[i] == spans[i].t_start);
            assert(ends[i] == spans[i].t_end);
        }
        let a = choose|a: int| 0 <= a < starts.len() && starts[a] == timeline::least(starts);
        let b = choose|b: int| 0 <= b < ends.len() && ends[b] == timeline::greatest(ends);
        assert(spans[a].t_start == timeline::least(starts));
        assert(spans[b].t_end == timeline::greatest(ends));
    } else {
        let ts = timeline::event_times(es);
        lemma_least(ts);
        lemma_greatest(ts);
        assert(timeline::least(ts) <= ts[0] <= timeline::greatest(ts));
        let a = choose|a: int| 0 <= a < ts.len() && ts[a] == timeline::least(ts);
        let b = choose|b: int| 0 <= b < ts.len() && ts[b] == timeline::greatest(ts);
        assert(es[a].t == timeline::least(ts));
        assert(es[b].t == timeline::greatest(ts));
    }
}

/// The timestamps never decrease.
pub open spec fn in_order(es: Seq<EventView>) -> bool {
    forall|i: int, j: int| 0 <= i <= j < es.len() ==> (#[trigger] es[i]).t <= (#[trigger] es[j]).t
}

/// Some span of `spans` covers the instant `t`.
pub open spec fn accounted(spans: Seq<model::SpanView>, t: int) -> bool {
    exists|i: int| 0 <= i < spans.len() && (#[trigger] spans[i]).t_start <= t < spans[i].t_end
}

proof fn lemma_in_order_state(es: Seq<EventView>)
    requires
        in_order(es),
        es.len() > 0,
    ensures
        timeline::last_time(es) is Some ==> es[0].t <= timeline::last_time(es)->0 <= es.last().t,
        forall|id: Seq<char>| #[trigger]
            timeline::open_calls(es).contains_key(id) ==> timeline::last_time(es) is Some
                && timeline::open_calls(es)[id].t <= timeline::last_time(es)->0,
    decreases es.len(),
{
    let before = es.drop_last();
    let e = es.last();
    assert(es[0].t <= es[es.len() - 1].t);
    if before.len() > 0 {
        assert(in_order(before));
        lemma_in_order_state(before);
        assert(before[0] == es[0]);
        assert(before.last() == es[es.len() - 2]);
        assert(es[es.len() - 2].t <= es[es.len() - 1].t);
    }
    assert forall|id: Seq<char>| #[trigger]
        timeline::open_calls(es).contains_key(id) implies timeline::last_time(es) is Some
        && timeline::open_calls(es)[id].t <= timeline::last_time(es)->0 by {
        if e.role == Role::Assistant {
            lemma_with_calls_time(timeline::open_calls(before), e.calls, e.t, id);
        }
        if e.role != Role::Assistant || timeline::open_calls(es)[id].t != e.t {
            assert(timeline::open_calls(before).contains_key(id));
        }
    }
}

/// Where attributed time starts: at the first event that is attributed.
pub open spec fn first_time(es: Seq<EventView>) -> Option<i128>
    decreases es.len(),
{
    if es.len() == 0 {
        None
    } else if es[0].role != Role::Other {
        Some(es[0].t)
    } else {
        first_time(es.drop_first())
    }
}

proof fn lemma_first_time_push(es: Seq<EventView>, e: EventView)
    ensures
        timeline::last_time(es) is Some <==> first_time(es) is Some,
        first_time(es.push(e)) == (if first_time(es) is Some {
            first_time(es)
        } else if e.role != Role::Other {
            Some(e.t)
        } else {
            None
        }),
    decreases es.len(),
{
    lemma_times_some(es);
    if es.len() > 0 {
        assert(es.push(e).drop_first() =~= es.drop_first().push(e));
        assert(es.push(e)[0] == es[0]);
        lemma_first_time_push(es.drop_first(), e);
    } else {
        assert(es.push(e)[0] == e);
        assert(es.push(e).drop_first().len() == 0);
        assert(first_time(es.push(e).drop_first()) is None);
    }
}

proof fn lemma_times_some(es: Seq<EventView>)
    ensures
        timeline::last_time(es) is Some <==> exists|k: int|
            0 <= k < es.len() && (#[trigger] es[k]).role != Role::Other,
        first_time(es) is Some <==> exists|k: int|
            0 <= k < es.len() && (#[trigger] es[k]).role != Role::Other,
    decreases es.len(),
{
    if es.len() > 0 {
        let init = es.drop_last();
        let tail = es.drop_first();
        lemma_times_some(init);
        lemma_times_some(tail);
        if exists|k: int| 0 <= k < es.len() && (#[trigger] es[k]).role != Role::Other {
            let k = choose|k: int| 0 <= k < es.len() && (#[trigger] es[k]).role != Role::Other;
            if k < init.len() {
                assert(init[k] == es[k]);
            }
            if k > 0 {
                assert(tail[k - 1] == es[k]);
            }
        }
        if exists|k: int| 0 <= k < init.len() && (#[trigger] init[k]).role != Role::Other {
            let k = choose|k: int| 0 <= k < init.len() && (#[trigger] init[k]).role != Role::Other;
            assert(es[k] == init[k]);
        }
        if exists|k: int| 0 <= k < tail.len() && (#[trigger] tail[k]).role != Role::Other {
            let k = choose|k: int| 0 <= k < tail.len() && (#[trigger] tail[k]).role != Role::Other;
            assert(es[k + 1] == tail[k]);
        }
        assert(es[es.len() - 1] == es.last());
    }
}

/// No time is lost: for events in order, some span covers every instant between
/// the first attributed event and the last.
pub proof fn law_all_time_is_accounted_for(es: Seq<EventView>, t: int)
    requires
        in_order(es),
        first_time(es) is Some,
        timeline::last_time(es) is Some,
        first_time(es)->0 <= t < timeline::last_time(es)->0,
    ensures
        accounted(timeline::spans_of(es), t),
    decreases es.len(),
{
    let before = es.drop_last();
    let e = es.last();
    assert(before.push(e) =~= es);
    lemma_first_time_push(before, e);
    lemma_spans_step(before, e);
    assert forall|i: int, j: int| 0 <= i <= j < before.len() implies (#[trigger] before[i]).t <= (
    #[trigger] before[j]).t by {
        assert(es[i].t <= es[j].t);
    }
    if first_time(before) is Some {
        let prev = timeline::last_time(before)->0;
        if before.len() > 0 {
            lemma_in_order_state(before);
            assert(es[es.len() - 2].t <= es[es.len() - 1].t);
            assert(before.last() == es[es.len() - 2]);
        }
        if t < prev {
            law_all_time_is_accounted_for(before, t);
            let i = choose|i: int|
                0 <= i < timeline::spans_of(before).len() && (#[trigger] timeline::spans_of(
                    before,
                )[i]).t_start <= t < timeline::spans_of(before)[i].t_end;
            assert(timeline::spans_of(es)[i] == timeline::spans_of(before)[i]);
        } else {
            let n = timeline::spans_of(before).len() as int;
            assert(e.t > prev);
            assert(timeline::ended_span(before, e) is Some);
            let s = timeline::spans_of(es)[n];
            assert(s.t_start <= prev && s.t_end == e.t);
        }
    }
}

/// For events in order, inference and idle spans never overlap: each starts no
/// earlier than the one before it ends.
pub proof fn law_inference_and_idle_do_not_overlap(es: Seq<EventView>, i: int, j: int)
    requires
        in_order(es),
        0 <= i < j < timeline::spans_of(es).len(),
        timeline::spans_of(es)[i].kind != SpanKind::Tool,
        timeline::spans_of(es)[j].kind != SpanKind::Tool,
    ensures
        timeline::spans_of(es)[i].t_end <= timeline::spans_of(es)[j].t_start,
    decreases es.len(),
{
    let before = es.drop_last();
    let e = es.last();
    assert(before.push(e) =~= es);
    lemma_spans_step(before, e);
    assert forall|a: int, b: int| 0 <= a <= b < before.len() implies (#[trigger] before[a]).t <= (
    #[trigger] before[b]).t by {
        assert(es[a].t <= es[b].t);
    }
    let n = timeline::spans_of(before).len() as int;
    if j < n {
        law_inference_and_idle_do_not_overlap(before, i, j);
    } else {
        lemma_spans_end_by_last(before);
        assert(timeline::spans_of(es)[i] == timeline::spans_of(before)[i]);
    }
}

/// For events in order, every span ends by the end of attributed time.
proof fn lemma_spans_end_by_last(es: Seq<EventView>)
    requires
        in_order(es),
    ensures
        forall|i: int|
            0 <= i < timeline::spans_of(es).len() ==> timeline::last_time(es) is Some && (
            #[trigger] timeline::spans_of(es)[i]).t_end <= timeline::last_time(es)->0,
    decreases es.len(),
{
    if es.len() > 0 {
        let before = es.drop_last();
        let e = es.last();
        assert forall|a: int, b: int| 0 <= a <= b < before.len() implies (#[trigger] before[a]).t <= (
        #[trigger] before[b]).t by {
            assert(es[a].t <= es[b].t);
        }
        lemma_spans_end_by_last(before);
        if before.len() > 0 {
            lemma_in_order_state(before);
            assert(es[es.len() - 2].t <= es[es.len() - 1].t);
            assert(before.last() == es[es.len() - 2]);
        }
        assert forall|i: int| 0 <= i < timeline::spans_of(es).len() implies timeline::last_time(
            es,
        ) is Some && (#[trigger] timeline::spans_of(es)[i]).t_end <= timeline::last_time(es)->0 by {
            if i < timeline::spans_of(before).len() {
                assert(timeline::spans_of(es)[i] == timeline::spans_of(before)[i]);
            }
        }
    }
}

/// Model time follows whatever came before it, a tool result included: an
/// assistant event within five minutes of the end of attributed time adds one
/// inference span from there to the event, and nothing else.
pub proof fn law_model_time_follows_any_event(before: Seq<EventView>, e: EventView, prev: i128)
    requires
        e.role == Role::Assistant,
        timeline::last_time(before) == Some(prev),
        0 < e.t - prev <= 300_000_000_000,
    ensures
        timeline::spans_of(before.push(e)) == timeline::spans_of(before).push(
            model::SpanView {
                kind: SpanKind::Inference,
                t_start: prev,
                t_end: e.t,
                label: "model"@,
                meta: Some(
                    model::MetaView {
                        args: None,
                        result: None,
                        output: Some(text::preview_of(e.text)),
                        next_user: None,
                        note: None,
                    },
                ),
            },
        ),
{
    lemma_spans_step(before, e);
}

/// After more than five minutes the assistant event adds one idle span instead,
/// which keeps what the assistant said.
pub proof fn law_long_silence_keeps_the_output(before: Seq<EventView>, e: EventView, prev: i128)
    requires
        e.role == Role::Assistant,
        timeline::last_time(before) == Some(prev),
        e.t - prev > 300_000_000_000,
    ensures
        timeline::spans_of(before.push(e)) == timeline::spans_of(before).push(
            model::SpanView {
                kind: SpanKind::Idle,
                t_start: prev,
                t_end: e.t,
                label: "idle (long silence)"@,
                meta: Some(
                    model::MetaView {
                        args: None,
                        result: None,
                        output: Some(text::preview_of(e.text)),
                        next_user: None,
                        note: None,
                    },
                ),
            },
        ),
{
    lemma_spans_step(before, e);
}

/// A user event after the end of attributed time adds one idle span, which says
/// what the user wrote, or that the message was injected.
pub proof fn law_user_event_ends_waiting(before: Seq<EventView>, e: EventView, prev: i128)
    requires
        e.role == Role::User,
        timeline::last_time(before) == Some(prev),
        e.t > prev,
    ensures
        timeline::spans_of(before.push(e)) == timeline::spans_of(before).push(
            model::SpanView {
                kind: SpanKind::Idle,
                t_start: prev,
                t_end: e.t,
                label: "idle"@,
                meta: Some(
                    model::MetaView {
                        args: None,
                        result: None,
                        output: None,
                        next_user: if e.injected {
                            None
                        } else {
                            Some(text::preview_of(e.text))
                        },
                        note: if e.injected {
                            Some("ended by injected message"@)
                        } else {
                            None
                        },
                    },
                ),
            },
        ),
{
    lemma_spans_step(before, e);
}

/// A user or assistant event that does not come after the end of attributed time,
/// or that nothing came before, adds no span; an event that is neither, nor a tool
/// result, never does.
pub proof fn law_no_time_no_span(before: Seq<EventView>, e: EventView)
    requires
        e.role != Role::Tool,
        e.role == Role::Other || timeline::last_time(before) is None || e.t <= timeline::last_time(
            before,
        )->0,
    ensures
        timeline::spans_of(before.push(e)) == timeline::spans_of(before),
{
    lemma_spans_step(before, e);
}

/// Attributed time ends at the latest of the last user or assistant event and the
/// tool results behind it, wherever those stand in time.
pub proof fn law_attributed_time_ends_with_results(
    before: Seq<EventView>,
    e: EventView,
    tail: Seq<EventView>,
)
    requires
        e.role == Role::User || e.role == Role::Assistant,
        forall|k: int|
            0 <= k < tail.len() ==> (#[trigger] tail[k]).role == Role::Tool || tail[k].role
                == Role::Other,
    ensures
        timeline::last_time(before.push(e) + tail) is Some,
        timeline::last_time(before.push(e) + tail)->0 >= e.t,
        forall|k: int|
            0 <= k < tail.len() && (#[trigger] tail[k]).role == Role::Tool ==> tail[k].t
                <= timeline::last_time(before.push(e) + tail)->0,
        timeline::last_time(before.push(e) + tail)->0 == e.t || exists|k: int|
            0 <= k < tail.len() && (#[trigger] tail[k]).role == Role::Tool && tail[k].t
                == timeline::last_time(before.push(e) + tail)->0,
    decreases tail.len(),
{
    let es = before.push(e) + tail;
    lemma_spans_step(before, e);
    if tail.len() == 0 {
        assert(es =~= before.push(e));
    } else {
        let init = tail.drop_last();
        let x = tail.last();
        assert(x == tail[tail.len() - 1]);
        assert forall|k: int| 0 <= k < init.len() implies (#[trigger] init[k]).role == Role::Tool
            || init[k].role == Role::Other by {
            assert(init[k] == tail[k]);
        }
        law_attributed_time_ends_with_results(before, e, init);
        let shorter = before.push(e) + init;
        assert(shorter.push(x) =~= es);
        lemma_spans_step(shorter, x);
        let l = timeline::last_time(shorter)->0;
        let m = timeline::last_time(es)->0;
        assert forall|k: int| 0 <= k < tail.len() && (#[trigger] tail[k]).role
            == Role::Tool implies tail[k].t <= m by {
            if k < init.len() {
                assert(init[k] == tail[k]);
            }
        }
        if m == l && l != e.t {
            let k = choose|k: int|
                0 <= k < init.len() && (#[trigger] init[k]).role == Role::Tool && init[k].t == l;
            assert(tail[k] == init[k]);
        }
    }
}

/// Before the first user or assistant event, attributed time ends at the latest
/// tool result, and there is none without one.
pub proof fn law_attributed_time_starts_with_results(es: Seq<EventView>)
    requires
        forall|k: int|
            0 <= k < es.len() ==> (#[trigger] es[k]).role == Role::Tool || es[k].role
                == Role::Other,
    ensures
        timeline::last_time(es) is Some <==> exists|k: int|
            0 <= k < es.len() && (#[trigger] es[k]).role == Role::Tool,
        forall|k: int|
            0 <= k < es.len() && (#[trigger] es[k]).role == Role::Tool ==> es[k].t
                <= timeline::last_time(es)->0,
        timeline::last_time(es) is Some ==> exists|k: int|
            0 <= k < es.len() && (#[trigger] es[k]).role == Role::Tool && es[k].t
                == timeline::last_time(es)->0,
    decreases es.len(),
{
    if es.len() > 0 {
        let init = es.drop_last();
        let x = es.last();
        assert(x == es[es.len() - 1]);
        assert forall|k: int| 0 <= k < init.len() implies (#[trigger] init[k]).role == Role::Tool
            || init[k].role == Role::Other by {
            assert(init[k] == es[k]);
        }
        law_attributed_time_starts_with_results(init);
        if timeline::last_time(init) is Some {
            let k = choose|k: int|
                0 <= k < init.len() && (#[trigger] init[k]).role == Role::Tool && init[k].t
                    == timeline::last_time(init)->0;
            assert(es[k] == init[k]);
        }
        assert forall|k: int| 0 <= k < es.len() && (#[trigger] es[k]).role
            == Role::Tool implies timeline::last_time(es) is Some && es[k].t <= timeline::last_time(
            es,
        )->0 by {
            if k < init.len() {
                assert(init[k] == es[k]);
            }
        }
    }
}

/// In a log in order, the time from the last event that counts to an assistant
/// event within five minutes of it is inference, whoever logged that event.
pub proof fn law_time_before_assistant_is_inference(
    before: Seq<EventView>,
    p: EventView,
    others: Seq<EventView>,
    e: EventView,
)
    requires
        in_order(before.push(p)),
        p.role != Role::Other,
        forall|k: int| 0 <= k < others.len() ==> (#[trigger] others[k]).role == Role::Other,
        e.role == Role::Assistant,
        0 < e.t - p.t <= 300_000_000_000,
    ensures
        timeline::spans_of((before.push(p) + others).push(e)).len() == timeline::spans_of(
            before.push(p) + others,
        ).len() + 1,
        timeline::spans_of((before.push(p) + others).push(e)).last().kind == SpanKind::Inference,
        timeline::spans_of((before.push(p) + others).push(e)).last().label == "model"@,
        timeline::spans_of((before.push(p) + others).push(e)).last().t_start == p.t,
        timeline::spans_of((before.push(p) + others).push(e)).last().t_end == e.t,
{
    lemma_last_counted(before, p, others);
    law_model_time_follows_any_event(before.push(p) + others, e, p.t);
}

/// In a log in order, waiting for the user starts with the last event that counts,
/// whoever logged it.
pub proof fn law_time_before_user_is_waiting(
    before: Seq<EventView>,
    p: EventView,
    others: Seq<EventView>,
    e: EventView,
)
    requires
        in_order(before.push(p)),
        p.role != Role::Other,
        forall|k: int| 0 <= k < others.len() ==> (#[trigger] others[k]).role == Role::Other,
        e.role == Role::User,
        e.t > p.t,
    ensures
        timeline::spans_of((before.push(p) + others).push(e)).len() == timeline::spans_of(
            before.push(p) + others,
        ).len() + 1,
        timeline::spans_of((before.push(p) + others).push(e)).last().kind == SpanKind::Idle,
        timeline::spans_of((before.push(p) + others).push(e)).last().label == "idle"@,
        timeline::spans_of((before.push(p) + others).push(e)).last().t_start == p.t,
        timeline::spans_of((before.push(p) + others).push(e)).last().t_end == e.t,
{
    lemma_last_counted(before, p, others);
    law_user_event_ends_waiting(before.push(p) + others, e, p.t);
}

/// In a log in order, attributed time ends with the last event that counts.
proof fn lemma_last_counted(before: Seq<EventView>, p: EventView, others: Seq<EventView>)
    requires
        in_order(before.push(p)),
        p.role != Role::Other,
        forall|k: int| 0 <= k < others.len() ==> (#[trigger] others[k]).role == Role::Other,
    ensures
        timeline::last_time(before.push(p) + others) == Some(p.t),
    decreases others.len(),
{
    let es = before.push(p);
    if others.len() == 0 {
        assert(es + others =~= es);
        lemma_spans_step(before, p);
        assert(es.last() == p);
        if before.len() > 0 {
            assert forall|a: int, b: int| 0 <= a <= b < before.len() implies (#[trigger] before[a]).t
                <= (#[trigger] before[b]).t by {
                assert(es[a].t <= es[b].t);
            }
            lemma_in_order_state(before);
            assert(es[before.len() - 1].t <= es[before.len() as int].t);
        }
    } else {
        let init = others.drop_last();
        assert forall|k: int| 0 <= k < init.len() implies (#[trigger] init[k]).role
            == Role::Other by {
            assert(init[k] == others[k]);
        }
        lemma_last_counted(before, p, init);
        assert((es + init).push(others[others.len() - 1]) =~= es + others);
        lemma_spans_step(es + init, others[others.len() - 1]);
    }
}

/// Idle time has a cause: an idle span is ended by a user event, or it lasts more
/// than five minutes; and inference is ended by an assistant event.
pub proof fn law_idle_time_has_a_cause(es: Seq<EventView>)
    ensures
        forall|i: int|
            0 <= i < timeline::spans_of(es).len() && (#[trigger] timeline::spans_of(es)[i]).kind
                == SpanKind::Idle ==> timeline::spans_of(es)[i].t_end - timeline::spans_of(
                es,
            )[i].t_start > 300_000_000_000 || ended_by(
                es,
                Role::User,
                timeline::spans_of(es)[i].t_end,
            ),
        forall|i: int|
            0 <= i < timeline::spans_of(es).len() && (#[trigger] timeline::spans_of(es)[i]).kind
                == SpanKind::Inference ==> ended_by(
                es,
                Role::Assistant,
                timeline::spans_of(es)[i].t_end,
            ),
    decreases es.len(),
{
    if es.len() > 0 {
        let before = es.drop_last();
        let e = es.last();
        law_idle_time_has_a_cause(before);
        assert(es[es.len() - 1] == e);
        assert forall|i: int| 0 <= i < timeline::spans_of(es).len() implies {
            let s = #[trigger] timeline::spans_of(es)[i];
            &&& s.kind == SpanKind::Idle ==> s.t_end - s.t_start > 300_000_000_000 || ended_by(
                es,
                Role::User,
                s.t_end,
            )
            &&& s.kind == SpanKind::Inference ==> ended_by(es, Role::Assistant, s.t_end)
        } by {
            let s = timeline::spans_of(es)[i];
            if i < timeline::spans_of(before).len() {
                assert(s == timeline::spans_of(before)[i]);
                lemma_ended_by(before, e, Role::User, s.t_end);
                lemma_ended_by(before, e, Role::Assistant, s.t_end);
                assert(before.push(e) =~= es);
            }
        }
    }
}

/// An event of this role has the timestamp `t`.
pub open spec fn ended_by(es: Seq<EventView>, role: Role, t: i128) -> bool {
    exists|k: int| 0 <= k < es.len() && (#[trigger] es[k]).role == role && es[k].t == t
}

proof fn lemma_ended_by(es: Seq<EventView>, e: EventView, role: Role, t: i128)
    ensures
        ended_by(es, role, t) ==> ended_by(es.push(e), role, t),
{
    if ended_by(es, role, t) {
        let k = choose|k: int| 0 <= k < es.len() && (#[trigger] es[k]).role == role && es[k].t == t;
        assert(es.push(e)[k] == es[k]);
    }
}

/// The id is among the calls.
pub open spec fn has_call(calls: Seq<CallView>, id: Seq<char>) -> bool {
    exists|k: int| 0 <= k < calls.len() && (#[trigger] calls[k]).id == id
}

/// The assistant event `es[k]` made a call with the id `id`, and since then no
/// user spoke and no result of that id came.
pub open spec fn waits(es: Seq<EventView>, k: int, id: Seq<char>) -> bool {
    &&& 0 <= k < es.len()
    &&& es[k].role == Role::Assistant
    &&& has_call(es[k].calls, id)
    &&& forall|j: int|
        k < j < es.len() ==> (#[trigger] es[j]).role != Role::User && !(es[j].role == Role::Tool
            && es[j].call_id == id)
}

/// A call waits for its result exactly when an assistant event made it, no result
/// came and no user spoke since.
pub proof fn law_open_calls(es: Seq<EventView>, id: Seq<char>)
    ensures
        timeline::open_calls(es).contains_key(id) <==> exists|k: int| #[trigger] waits(es, k, id),
    decreases es.len(),
{
    if es.len() > 0 {
        let before = es.drop_last();
        let e = es.last();
        let n = es.len() - 1;
        assert(es[n] == e);
        law_open_calls(before, id);
        if e.role == Role::Assistant {
            lemma_has_call(timeline::open_calls(before), e.calls, e.t, id);
        }
        assert forall|k: int| #[trigger] waits(es, k, id) implies timeline::open_calls(
            es,
        ).contains_key(id) by {
            if k < n {
                assert(es[n].role != Role::User && !(es[n].role == Role::Tool && es[n].call_id
                    == id));
                assert(before[k] == es[k]);
                assert forall|j: int| k < j < before.len() implies (#[trigger] before[j]).role
                    != Role::User && !(before[j].role == Role::Tool && before[j].call_id == id) by {
                    assert(before[j] == es[j]);
                }
                assert(waits(before, k, id));
            }
        }
        if timeline::open_calls(es).contains_key(id) {
            if e.role == Role::Assistant && has_call(e.calls, id) {
                assert(waits(es, n, id));
            } else {
                assert(timeline::open_calls(before).contains_key(id));
                let k = choose|k: int| #[trigger] waits(before, k, id);
                assert(es[k] == before[k]);
                assert forall|j: int| k < j < es.len() implies (#[trigger] es[j]).role != Role::User
                    && !(es[j].role == Role::Tool && es[j].call_id == id) by {
                    if j < n {
                        assert(es[j] == before[j]);
                    }
                }
                assert(waits(es, k, id));
            }
        }
    }
}

proof fn lemma_has_call(
    m: Map<Seq<char>, OpenCallView>,
    calls: Seq<CallView>,
    t: i128,
    id: Seq<char>,
)
    ensures
        timeline::with_calls(m, calls, t).contains_key(id) <==> m.contains_key(id) || has_call(
            calls,
            id,
        ),
    decreases calls.len(),
{
    if calls.len() > 0 {
        let init = calls.drop_last();
        lemma_has_call(m, init, t, id);
        assert(calls[calls.len() - 1] == calls.last());
        if has_call(init, id) {
            let k = choose|k: int| 0 <= k < init.len() && (#[trigger] init[k]).id == id;
            assert(calls[k].id == id);
        }
        if has_call(calls, id) {
            let k = choose|k: int| 0 <= k < calls.len() && (#[trigger] calls[k]).id == id;
            if k < init.len() {
                assert(init[k].id == id);
            }
        }
    }
}

/// A tool's time runs from the assistant event that made the call to the result
/// with the same id, under the call's name, and shows its arguments and result.
pub proof fn law_tool_time(
    before: Seq<EventView>,
    call: EventView,
    c: CallView,
    between: Seq<EventView>,
    result: EventView,
)
    requires
        call.role == Role::Assistant,
        announces(call.calls, c),
        forall|k: int| 0 <= k < between.len() ==> leaves_open(#[trigger] between[k], c.id),
        result.role == Role::Tool,
        result.call_id == c.id,
        result.t >= call.t,
    ensures
        timeline::spans_of((before.push(call) + between).push(result)) == timeline::spans_of(
            before.push(call) + between,
        ).push(
            model::SpanView {
                kind: SpanKind::Tool,
                t_start: call.t,
                t_end: result.t,
                label: c.name,
                meta: Some(
                    model::MetaView {
                        args: if c.args.len() == 0 {
                            None
                        } else {
                            Some(text::preview_of(c.args))
                        },
                        result: Some(text::preview_of(result.text)),
                        output: None,
                        next_user: None,
                        note: None,
                    },
                ),
            },
        ),
{
    law_calls_pair_by_id(before, call, c, between, result);
}

/// A result of a call that does not wait still takes its time: from the end of
/// attributed time, or from its own instant where there is none, under the name
/// that it gives itself; and where it comes earlier it makes no span.
pub proof fn law_orphan_results(before: Seq<EventView>, e: EventView)
    requires
        e.role == Role::Tool,
        forall|k: int| !#[trigger] waits(before, k, e.call_id),
    ensures
        ({
            let from = match timeline::last_time(before) {
                Some(l) => l,
                None => e.t,
            };
            timeline::spans_of(before.push(e)) == if e.t < from {
                timeline::spans_of(before)
            } else {
                timeline::spans_of(before).push(
                    model::SpanView {
                        kind: SpanKind::Tool,
                        t_start: from,
                        t_end: e.t,
                        label: e.tool_name,
                        meta: Some(
                            model::MetaView {
                                args: None,
                                result: Some(text::preview_of(e.text)),
                                output: None,
                                next_user: None,
                                note: None,
                            },
                        ),
                    },
                )
            }
        }),
{
    law_open_calls(before, e.call_id);
    lemma_spans_step(before, e);
}

/// An event that is neither of a user, nor of an assistant, nor a tool result
/// changes no span, wherever it stands.
pub proof fn law_other_events_change_nothing(
    before: Seq<EventView>,
    e: EventView,
    after: Seq<EventView>,
)
    requires
        e.role == Role::Other,
    ensures
        timeline::spans_of(before.push(e) + after) == timeline::spans_of(before + after),
{
    lemma_other(before, e, after);
}

proof fn lemma_other(before: Seq<EventView>, e: EventView, after: Seq<EventView>)
    requires
        e.role == Role::Other,
    ensures
        timeline::spans_of(before.push(e) + after) == timeline::spans_of(before + after),
        timeline::last_time(before.push(e) + after) == timeline::last_time(before + after),
        timeline::open_calls(before.push(e) + after) == timeline::open_calls(before + after),
    decreases after.len(),
{
    let a = before.push(e) + after;
    let b = before + after;
    if after.len() == 0 {
        assert(a =~= before.push(e));
        assert(b =~= before);
        assert(a.drop_last() =~= before);
        lemma_spans_step(before, e);
    } else {
        let init = after.drop_last();
        lemma_other(before, e, init);
        assert(a.drop_last() =~= before.push(e) + init);
        assert(b.drop_last() =~= before + init);
        assert(a.last() == b.last());
    }
}

/// A session lasts from its earliest span's start to its latest span's end, no
/// less and no more; without spans, from its earliest event to its latest.
pub proof fn law_extent_is_tight(o: OriginView, es: Seq<EventView>)
    requires
        es.len() > 0,
    ensures
        ({
            let s = timeline::session_of(o, es)->0;
            let spans = timeline::spans_of(es);
            if spans.len() > 0 {
                &&& exists|i: int| 0 <= i < spans.len() && (#[trigger] spans[i]).t_start == s.t_start
                &&& exists|i: int| 0 <= i < spans.len() && (#[trigger] spans[i]).t_end == s.t_end
                &&& forall|i: int|
                    0 <= i < spans.len() ==> s.t_start <= (#[trigger] spans[i]).t_start
                        && spans[i].t_end <= s.t_end
            } else {
                &&& exists|k: int| 0 <= k < es.len() && (#[trigger] es[k]).t == s.t_start
                &&& exists|k: int| 0 <= k < es.len() && (#[trigger] es[k]).t == s.t_end
                &&& forall|k: int|
                    0 <= k < es.len() ==> s.t_start <= (#[trigger] es[k]).t <= s.t_end
            }
        }),
{
    let spans = timeline::spans_of(es);
    law_extent_holds_spans(o, es);
    if spans.len() > 0 {
        let starts = timeline::span_starts(spans);
        let ends = timeline::span_ends(spans);
        lemma_least(starts);
        lemma_greatest(ends);
        let a = choose|a: int| 0 <= a < starts.len() && starts[a] == timeline::least(starts);
        let b = choose|b: int| 0 <= b < ends.len() && ends[b] == timeline::greatest(ends);
        assert(spans[a].t_start == timeline::least(starts));
        assert(spans[b].t_end == timeline::greatest(ends));
    } else {
        let ts = timeline::event_times(es);
        lemma_least(ts);
        lemma_greatest(ts);
        let a = choose|a: int| 0 <= a < ts.len() && ts[a] == timeline::least(ts);
        let b = choose|b: int| 0 <= b < ts.len() && ts[b] == timeline::greatest(ts);
        assert(es[a].t == timeline::least(ts));
        assert(es[b].t == timeline::greatest(ts));
        assert forall|k: int| 0 <= k < es.len() implies timeline::least(ts) <= (#[trigger] es[k]).t
            <= timeline::greatest(ts) by {
            assert(ts[k] == es[k].t);
        }
    }
}

/// A session has what its source says of it, the spans of its events, and is human
/// exactly when no other session started it and a user wrote in it that was not
/// injected. Only without events is there no session.
pub proof fn law_session_of_events(o: OriginView, es: Seq<EventView>)
    ensures
        timeline::session_of(o, es) is None <==> es.len() == 0,
        es.len() > 0 ==> {
            let s = timeline::session_of(o, es)->0;
            &&& s.id == o.id
            &&& s.profile == Some(o.profile)
            &&& s.source == o.source
            &&& s.spans == timeline::spans_of(es)
            &&& s.kind == model::SessionKind::Human <==> !o.child && exists|k: int|
                0 <= k < es.len() && (#[trigger] es[k]).role == Role::User && !es[k].injected
        },
{
    if es.len() > 0 {
        if timeline::has_human(es) {
            let k = choose|k: int| 0 <= k < es.len() && timeline::is_human(#[trigger] es[k]);
            assert(es[k].role == Role::User && !es[k].injected);
        }
        if exists|k: int| 0 <= k < es.len() && (#[trigger] es[k]).role == Role::User
            && !es[k].injected {
            let k = choose|k: int|
                0 <= k < es.len() && (#[trigger] es[k]).role == Role::User && !es[k].injected;
            assert(timeline::is_human(es[k]));
        }
    }
}

/// A session that its source gives a title has the preview of that, whatever its
/// events say.
pub proof fn law_given_titles_stand(o: OriginView, es: Seq<EventView>, title: Seq<char>)
    requires
        es.len() > 0,
        o.title == Some(title),
        title.len() > 0,
    ensures
        timeline::session_of(o, es)->0.title == Some(text::preview_of(title)),
{
}

/// A session without a title of its own has the preview of its first user event,
/// whoever spoke before; none where that is empty.
pub proof fn law_first_user_event_is_the_title(o: OriginView, es: Seq<EventView>, k: int)
    requires
        o.title is None || o.title->0.len() == 0,
        0 <= k < es.len(),
        es[k].role == Role::User,
        forall|j: int| 0 <= j < k ==> (#[trigger] es[j]).role != Role::User,
    ensures
        timeline::session_of(o, es)->0.title == if text::preview_of(es[k].text).len() > 0 {
            Some(text::preview_of(es[k].text))
        } else {
            None
        },
{
    lemma_first_user(es, k);
}

proof fn lemma_first_user(es: Seq<EventView>, k: int)
    requires
        0 <= k < es.len(),
        es[k].role == Role::User,
        forall|j: int| 0 <= j < k ==> (#[trigger] es[j]).role != Role::User,
    ensures
        timeline::first_user_text(es) == Some(es[k].text),
    decreases es.len(),
{
    if k > 0 {
        let rest = es.drop_first();
        assert(es[0].role != Role::User);
        assert forall|j: int| 0 <= j < k - 1 implies (#[trigger] rest[j]).role != Role::User by {
            assert(rest[j] == es[j + 1]);
        }
        lemma_first_user(rest, k - 1);
    }
}

/// Without a title of its own and without a user event, a session has no title.
pub proof fn law_nobody_spoke_no_title(o: OriginView, es: Seq<EventView>)
    requires
        es.len() > 0,
        o.title is None || o.title->0.len() == 0,
        forall|j: int| 0 <= j < es.len() ==> (#[trigger] es[j]).role != Role::User,
    ensures
        timeline::session_of(o, es)->0.title is None,
{
    lemma_no_user(es);
}

proof fn lemma_no_user(es: Seq<EventView>)
    requires
        forall|j: int| 0 <= j < es.len() ==> (#[trigger] es[j]).role != Role::User,
    ensures
        timeline::first_user_text(es) is None,
    decreases es.len(),
{
    if es.len() > 0 {
        let rest = es.drop_first();
        assert forall|j: int| 0 <= j < rest.len() implies (#[trigger] rest[j]).role
            != Role::User by {
            assert(rest[j] == es[j + 1]);
        }
        assert(es[0].role != Role::User);
        lemma_no_user(rest);
    }
}

} // verus!
