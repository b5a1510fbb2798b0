//! What holds of the time that spans cover.
use crate::model;
use crate::model::SpanKind;
use crate::timeline;
use crate::timeline_laws;
use vstd::prelude::*;
use vstd::set_lib::*;

verus! {

/// The nanoseconds of one span.
pub open spec fn span_range(s: model::SpanView) -> Set<int> {
    set_int_range(s.t_start as int, s.t_end as int)
}

/// How long the spans of the kind `kind` last together, overlaps counted as often
/// as they occur.
pub open spec fn summed(spans: Seq<model::SpanView>, kind: SpanKind) -> int
    decreases spans.len(),
{
    if spans.len() == 0 {
        0
    } else {
        summed(spans.drop_last(), kind) + if spans.last().kind == kind {
            spans.last().t_end - spans.last().t_start
        } else {
            0
        }
    }
}

/// Overlaps count once: the time covered is at most the sum of the spans.
pub proof fn law_union_is_at_most_the_sum(spans: Seq<model::SpanView>, kind: SpanKind)
    requires
        model::spans_ok(spans, kind),
    ensures
        model::covered(spans, kind).finite(),
        model::covered(spans, kind).len() <= summed(spans, kind),
    decreases spans.len(),
{
    if spans.len() == 0 {
        assert(model::covered(spans, kind) =~= Set::empty());
    } else {
        let init = spans.drop_last();
        let s = spans.last();
        assert(model::spans_ok(init, kind)) by {
            assert forall|i: int|
                0 <= i < init.len() && (#[trigger] init[i]).kind == kind implies model::span_ok(
                init[i],
            ) by {
                assert(spans[i] == init[i]);
            }
        }
        law_union_is_at_most_the_sum(init, kind);
        assert(init.push(s) =~= spans);
        model::lemma_covered_push(init, s, kind);
        if s.kind == kind {
            assert(model::span_ok(spans[spans.len() - 1]));
            lemma_int_range(s.t_start as int, s.t_end as int);
            lemma_len_union(model::covered(init, kind), span_range(s));
        }
    }
}

/// Disjoint spans add up: a span of the kind that overlaps none before it adds its
/// whole length.
pub proof fn law_disjoint_spans_add_up(spans: Seq<model::SpanView>, s: model::SpanView)
    requires
        model::spans_ok(spans, s.kind),
        model::span_ok(s),
        forall|i: int|
            0 <= i < spans.len() && (#[trigger] spans[i]).kind == s.kind ==> spans[i].t_end
                <= s.t_start || s.t_end <= spans[i].t_start,
    ensures
        model::covered(spans.push(s), s.kind).len() == model::covered(spans, s.kind).len() + (
        s.t_end - s.t_start),
{
    let more = spans.push(s);
    let old_cover = model::covered(spans, s.kind);
    law_union_is_at_most_the_sum(spans, s.kind);
    model::lemma_covered_push(spans, s, s.kind);
    lemma_int_range(s.t_start as int, s.t_end as int);
    assert(old_cover.disjoint(span_range(s)));
    lemma_set_disjoint_lens(old_cover, span_range(s));
}

/// No kind of span covers more than the session lasts.
pub proof fn law_union_fits_the_session(
    o: timeline::OriginView,
    es: Seq<timeline::EventView>,
    kind: SpanKind,
)
    requires
        es.len() > 0,
    ensures
        model::covered(timeline::spans_of(es), kind).finite(),
        model::covered(timeline::spans_of(es), kind).len() <= timeline::session_of(o, es)->0.t_end
            - timeline::session_of(o, es)->0.t_start,
{
    let spans = timeline::spans_of(es);
    let s = timeline::session_of(o, es)->0;
    timeline_laws::law_extent_holds_spans(o, es);
    lemma_int_range(s.t_start as int, s.t_end as int);
    let all = set_int_range(s.t_start as int, s.t_end as int);
    let part = model::covered(spans, kind);
    assert(part.subset_of(all)) by {
        assert forall|t: int| part.contains(t) implies all.contains(t) by {
            let i = choose|i: int|
                0 <= i < spans.len() && (#[trigger] spans[i]).kind == kind && spans[i].t_start <= t
                    < spans[i].t_end;
            assert(s.t_start <= spans[i].t_start);
        }
    }
    lemma_len_subset(part, all);
}

/// A nanosecond counts for a kind exactly when a span of that kind covers it, its
/// start included, its end not; spans of other kinds change nothing.
pub proof fn law_what_is_covered(spans: Seq<model::SpanView>, kind: SpanKind, t: int)
    ensures
        model::covered(spans, kind).contains(t) <==> exists|i: int|
            0 <= i < spans.len() && (#[trigger] spans[i]).kind == kind && spans[i].t_start <= t
                < spans[i].t_end,
        forall|s: model::SpanView|
            s.kind != kind ==> model::covered(#[trigger] spans.push(s), kind) == model::covered(
                spans,
                kind,
            ),
{
    assert forall|s: model::SpanView| s.kind != kind implies model::covered(
        #[trigger] spans.push(s),
        kind,
    ) == model::covered(spans, kind) by {
        model::lemma_covered_push(spans, s, kind);
    }
}

/// The units and limits of the model.
pub proof fn law_units()
    ensures
        model::SECOND == 1_000_000_000,
        model::DAY == 24 * 60 * 60 * model::SECOND,
        model::GAP_CAP == 5 * 60 * model::SECOND,
        model::PREVIEW_N == 220,
{
}

} // verus!
