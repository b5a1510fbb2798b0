//! The unified session model: what every loader emits.
//!
//! Instants are whole nanoseconds since the Unix epoch. Everything above this
//! model is independent of the program that wrote the logs.
use crate::text;
pub use crate::text::PREVIEW_N;
use vstd::prelude::*;
use vstd::set_lib::*;

verus! {

/// One second, in nanoseconds.
pub const SECOND: i128 = 1_000_000_000;

/// One day of 24 hours, in nanoseconds.
pub const DAY: i128 = 86_400_000_000_000;

/// Silence longer than this between attributed events is idle, never
/// inference: five minutes.
pub const GAP_CAP: i128 = 300_000_000_000;

/// What a span's time went to. `Idle` is first-class: waiting for the user is
/// never folded into the other kinds.
#[derive(Debug, Clone, Copy, PartialEq, Eq, Structural)]
pub enum SpanKind {
    Inference,
    Tool,
    Idle,
}

/// Previewed strings for inspection. All fields are optional.
#[derive(Debug, Clone)]
pub struct Meta {
    pub args: Option<String>,
    pub result: Option<String>,
    pub output: Option<String>,
    pub next_user: Option<String>,
    pub note: Option<String>,
}

/// One half-open interval `[t_start, t_end)`.
#[derive(Debug, Clone)]
pub struct Span {
    pub kind: SpanKind,
    pub t_start: i128,
    pub t_end: i128,
    /// The tool's name, "model", "idle", or "idle (long silence)".
    pub label: String,
    pub meta: Option<Meta>,
}

/// Whether a human conversed in a session.
#[derive(Debug, Clone, Copy, PartialEq, Eq, Structural)]
pub enum SessionKind {
    /// A human conversed in this session.
    Human,
    /// No human input: subagent children, autonomous runs.
    Sub,
}

/// One session: its identity, extent and spans. What the source does not have
/// stays `None`.
#[derive(Debug, Clone)]
pub struct Session {
    /// Unique id, namespaced by loader: `hermes:<profile>:<sid>` or `prime:<stem>`.
    pub id: String,
    pub kind: SessionKind,
    pub t_start: i128,
    pub t_end: i128,
    pub title: Option<String>,
    /// Origin label, for display only.
    pub profile: Option<String>,
    /// Entry-point label (tui, cli, cron, ...), for display only.
    pub source: Option<String>,
    pub spans: Vec<Span>,
}

/// A [`Meta`] as mathematical text.
pub struct MetaView {
    pub args: Option<Seq<char>>,
    pub result: Option<Seq<char>>,
    pub output: Option<Seq<char>>,
    pub next_user: Option<Seq<char>>,
    pub note: Option<Seq<char>>,
}

impl View for Meta {
    type V = MetaView;

    open spec fn view(&self) -> MetaView {
        MetaView {
            args: text::opt_text(self.args),
            result: text::opt_text(self.result),
            output: text::opt_text(self.output),
            next_user: text::opt_text(self.next_user),
            note: text::opt_text(self.note),
        }
    }
}

/// The [`MetaView`] that says nothing.
pub open spec fn no_meta() -> MetaView {
    MetaView { args: None, result: None, output: None, next_user: None, note: None }
}

impl Default for Meta {
    /// Nothing to show.
    fn default() -> (r: Self)
        ensures
            r@ == no_meta(),
    {
        Meta { args: None, result: None, output: None, next_user: None, note: None }
    }
}

/// A [`Span`] with its text as mathematical text.
pub struct SpanView {
    pub kind: SpanKind,
    pub t_start: i128,
    pub t_end: i128,
    pub label: Seq<char>,
    pub meta: Option<MetaView>,
}

impl View for Span {
    type V = SpanView;

    open spec fn view(&self) -> SpanView {
        SpanView {
            kind: self.kind,
            t_start: self.t_start,
            t_end: self.t_end,
            label: self.label@,
            meta: match self.meta {
                Some(m) => Some(m@),
                None => None,
            },
        }
    }
}

/// A list of spans, each by its view.
pub open spec fn span_views(spans: Seq<Span>) -> Seq<SpanView> {
    spans.map_values(|s: Span| s@)
}

/// A [`Session`] with its text and spans as mathematical values.
pub struct SessionView {
    pub id: Seq<char>,
    pub kind: SessionKind,
    pub t_start: i128,
    pub t_end: i128,
    pub title: Option<Seq<char>>,
    pub profile: Option<Seq<char>>,
    pub source: Option<Seq<char>>,
    pub spans: Seq<SpanView>,
}

impl View for Session {
    type V = SessionView;

    open spec fn view(&self) -> SessionView {
        SessionView {
            id: self.id@,
            kind: self.kind,
            t_start: self.t_start,
            t_end: self.t_end,
            title: text::opt_text(self.title),
            profile: text::opt_text(self.profile),
            source: text::opt_text(self.source),
            spans: span_views(self.spans@),
        }
    }
}

/// A list of sessions, each by its view.
pub open spec fn session_views(ss: Seq<Session>) -> Seq<SessionView> {
    ss.map_values(|s: Session| s@)
}

/// A span that ends no earlier than it starts.
pub open spec fn span_ok(s: SpanView) -> bool {
    s.t_start <= s.t_end
}

/// Every span of the kind `kind` ends no earlier than it starts.
pub open spec fn spans_ok(spans: Seq<SpanView>, kind: SpanKind) -> bool {
    forall|i: int| 0 <= i < spans.len() && (#[trigger] spans[i]).kind == kind ==> span_ok(spans[i])
}

/// The nanoseconds that some span of the kind `kind` covers.
pub open spec fn covered(spans: Seq<SpanView>, kind: SpanKind) -> Set<int> {
    Set::new(
        |t: int|
            exists|i: int|
                0 <= i < spans.len() && (#[trigger] spans[i]).kind == kind && spans[i].t_start <= t
                    < spans[i].t_end,
    )
}

/// The nanoseconds that some interval of `iv` covers.
spec fn cover(iv: Seq<(i128, i128)>) -> Set<int> {
    Set::new(|t: int| exists|i: int| 0 <= i < iv.len() && (#[trigger] iv[i]).0 <= t < iv[i].1)
}

/// Starts never decrease, and no interval ends before it starts.
spec fn sorted(iv: Seq<(i128, i128)>) -> bool {
    &&& forall|i: int, j: int| 0 <= i <= j < iv.len() ==> (#[trigger] iv[i]).0 <= (#[trigger] iv[j]).0
    &&& forall|i: int| 0 <= i < iv.len() ==> (#[trigger] iv[i]).0 <= iv[i].1
}

/// `b - a`, for `a <= b`.
pub fn elapsed(a: i128, b: i128) -> (r: u128)
    requires
        a <= b,
    ensures
        r == b - a,
{
    if a >= 0 || b < 0 {
        (b - a) as u128
    } else {
        (b as u128) + ((-(a + 1)) as u128) + 1
    }
}

/// Inserting an interval adds exactly its own nanoseconds.
proof fn lemma_cover_insert(iv: Seq<(i128, i128)>, p: int, x: (i128, i128))
    requires
        0 <= p <= iv.len(),
    ensures
        cover(iv.insert(p, x)) == cover(iv).union(set_int_range(x.0 as int, x.1 as int)),
{
    let jv = iv.insert(p, x);
    assert forall|t: int| cover(jv).contains(t) == cover(iv).union(
        set_int_range(x.0 as int, x.1 as int),
    ).contains(t) by {
        if cover(iv).contains(t) {
            let i = choose|i: int| 0 <= i < iv.len() && (#[trigger] iv[i]).0 <= t < iv[i].1;
            if i < p {
                assert(jv[i] == iv[i]);
            } else {
                assert(jv[i + 1] == iv[i]);
            }
        }
        if x.0 <= t < x.1 {
            assert(jv[p] == x);
        }
        if cover(jv).contains(t) {
            let i = choose|i: int| 0 <= i < jv.len() && (#[trigger] jv[i]).0 <= t < jv[i].1;
            if i < p {
                assert(jv[i] == iv[i]);
            } else if i > p {
                assert(jv[i] == iv[i - 1]);
            }
        }
    }
    assert(cover(jv) =~= cover(iv).union(set_int_range(x.0 as int, x.1 as int)));
}

/// Puts `x` into the sorted list `iv`, after every interval that starts no later.
fn insert_sorted(iv: &mut Vec<(i128, i128)>, x: (i128, i128))
    requires
        sorted(old(iv)@),
        x.0 <= x.1,
    ensures
        sorted(final(iv)@),
        cover(final(iv)@) == cover(old(iv)@).union(set_int_range(x.0 as int, x.1 as int)),
{
    let mut p: usize = iv.len();
    while p > 0 && iv[p - 1].0 > x.0
        invariant
            p <= iv@.len(),
            forall|j: int| p <= j < iv@.len() ==> (#[trigger] iv@[j]).0 > x.0,
        decreases p,
    {
        p = p - 1;
    }
    let ghost before = iv@;
    iv.insert(p, x);
    proof {
        lemma_cover_insert(before, p as int, x);
        let jv = iv@;
        assert forall|i: int, j: int| 0 <= i <= j < jv.len() implies (#[trigger] jv[i]).0 <= (
        #[trigger] jv[j]).0 by {
            let oi: int = if i < p { i } else { i - 1 };
            let oj: int = if j < p { j } else { j - 1 };
            if i != p {
                assert(jv[i] == before[oi]);
            }
            if j != p {
                assert(jv[j] == before[oj]);
            }
            if i < p {
                assert(before[i].0 <= before[p - 1].0);
            }
        }
        assert forall|i: int| 0 <= i < jv.len() implies (#[trigger] jv[i]).0 <= jv[i].1 by {
            if i < p {
                assert(jv[i] == before[i]);
            } else if i > p {
                assert(jv[i] == before[i - 1]);
            }
        }
    }
}

/// A set of `total` nanoseconds below `cs` and the interval `[cs, ce)` together
/// hold `total + (ce - cs)` nanoseconds, which fits.
proof fn lemma_total(a: Set<int>, total: int, cs: i128, ce: i128)
    requires
        a.finite(),
        a.len() == total,
        cs <= ce,
        forall|t: int| #[trigger] a.contains(t) ==> i128::MIN <= t < cs,
    ensures
        a.union(set_int_range(cs as int, ce as int)).finite(),
        a.union(set_int_range(cs as int, ce as int)).len() == total + (ce - cs),
        0 <= total + (ce - cs) <= u128::MAX,
{
    lemma_int_range(cs as int, ce as int);
    let r = set_int_range(cs as int, ce as int);
    assert(a.disjoint(r));
    lemma_set_disjoint_lens(a, r);
    lemma_int_range(i128::MIN as int, i128::MAX as int);
    let all = set_int_range(i128::MIN as int, i128::MAX as int);
    assert(a.union(r).subset_of(all)) by {
        assert forall|t: int| a.union(r).contains(t) implies all.contains(t) by {
            if a.contains(t) {
            }
        }
    }
    lemma_len_subset(a.union(r), all);
}

/// The nanoseconds covered by the sorted list `iv`.
fn merged_length(iv: &Vec<(i128, i128)>) -> (r: u128)
    requires
        sorted(iv@),
    ensures
        cover(iv@).finite(),
        r == cover(iv@).len(),
{
    if iv.len() == 0 {
        assert(cover(iv@) =~= Set::<int>::empty());
        return 0;
    }
    let mut total: u128 = 0;
    let mut cs: i128 = iv[0].0;
    let mut ce: i128 = iv[0].1;
    let ghost mut done: Set<int> = Set::empty();
    let mut k: usize = 1;
    proof {
        assert(iv@[0].0 <= iv@[0].1);
        assert(cover(iv@.take(1)) =~= done.union(set_int_range(cs as int, ce as int))) by {
            assert(iv@.take(1)[0] == iv@[0]);
        }
    }
    while k < iv.len()
        invariant
            1 <= k <= iv@.len(),
            sorted(iv@),
            cs <= ce,
            cs <= iv@[k - 1].0,
            done.finite(),
            done.len() == total,
            forall|t: int| #[trigger] done.contains(t) ==> i128::MIN <= t < cs,
            cover(iv@.take(k as int)) == done.union(set_int_range(cs as int, ce as int)),
        decreases iv.len() - k,
    {
        let a: i128 = iv[k].0;
        let b: i128 = iv[k].1;
        proof {
            assert(iv@[k - 1].0 <= iv@[k as int].0);
            let pre = iv@.take(k as int);
            assert(iv@.take(k + 1) =~= pre.insert(k as int, (a, b)));
            lemma_cover_insert(pre, k as int, (a, b));
            lemma_total(done, total as int, cs, ce);
        }
        let ghost whole = cover(iv@.take(k + 1));
        if a <= ce {
            if b > ce {
                ce = b;
            }
            assert(whole =~= done.union(set_int_range(cs as int, ce as int)));
        } else {
            total = total + elapsed(cs, ce);
            proof {
                done = done.union(set_int_range(cs as int, ce as int));
            }
            cs = a;
            ce = b;
        }
        k = k + 1;
    }
    proof {
        lemma_total(done, total as int, cs, ce);
        assert(iv@.take(iv@.len() as int) =~= iv@);
    }
    total + elapsed(cs, ce)
}

impl Session {
    /// Wall time, in nanoseconds, covered by the possibly overlapping spans of
    /// one kind. Parallel tool calls overlap: time is counted once, never summed.
    pub fn union_duration(&self, kind: SpanKind) -> (r: u128)
        ensures
            covered(self@.spans, kind).finite(),
            r == covered(self@.spans, kind).len(),
    {
        let mut iv: Vec<(i128, i128)> = Vec::new();
        let mut i: usize = 0;
        let ghost views = self@.spans;
        assert(cover(iv@) =~= covered(views.take(0), kind));
        while i < self.spans.len()
            invariant
                i <= self.spans@.len(),
                views == self@.spans,
                sorted(iv@),
                cover(iv@) == covered(views.take(i as int), kind),
            decreases self.spans.len() - i,
        {
            let ghost pre = views.take(i as int);
            let ghost nxt = views.take(i + 1);
            assert(views[i as int] == self.spans@[i as int]@);
            assert(nxt =~= pre.push(views[i as int]));
            if self.spans[i].kind == kind && self.spans[i].t_start <= self.spans[i].t_end {
                let x: (i128, i128) = (self.spans[i].t_start, self.spans[i].t_end);
                insert_sorted(&mut iv, x);
                assert(covered(nxt, kind) =~= cover(iv@)) by {
                    lemma_covered_push(pre, views[i as int], kind);
                }
            } else {
                assert(covered(nxt, kind) =~= cover(iv@)) by {
                    lemma_covered_push(pre, views[i as int], kind);
                    let own = set_int_range(
                        views[i as int].t_start as int,
                        views[i as int].t_end as int,
                    );
                    if views[i as int].kind == kind {
                        assert(covered(pre, kind).union(own) =~= covered(pre, kind));
                    }
                }
            }
            i = i + 1;
        }
        assert(views.take(views.len() as int) =~= views);
        merged_length(&iv)
    }
}

/// One more span adds exactly its own nanoseconds, if it is of the kind.
pub proof fn lemma_covered_push(spans: Seq<SpanView>, s: SpanView, kind: SpanKind)
    ensures
        s.kind == kind ==> covered(spans.push(s), kind) == covered(spans, kind).union(
            set_int_range(s.t_start as int, s.t_end as int),
        ),
        s.kind != kind ==> covered(spans.push(s), kind) == covered(spans, kind),
{
    let more = spans.push(s);
    let own = if s.kind == kind {
        set_int_range(s.t_start as int, s.t_end as int)
    } else {
        Set::<int>::empty()
    };
    assert forall|t: int| covered(more, kind).contains(t) == covered(spans, kind).union(
        own,
    ).contains(t) by {
        if covered(spans, kind).contains(t) {
            let i = choose|i: int|
                0 <= i < spans.len() && (#[trigger] spans[i]).kind == kind && spans[i].t_start <= t
                    < spans[i].t_end;
            assert(more[i] == spans[i]);
        }
        if own.contains(t) {
            assert(more[spans.len() as int] == s);
        }
        if covered(more, kind).contains(t) {
            let i = choose|i: int|
                0 <= i < more.len() && (#[trigger] more[i]).kind == kind && more[i].t_start <= t
                    < more[i].t_end;
            if i < spans.len() {
                assert(more[i] == spans[i]);
            }
        }
    }
    assert(covered(more, kind) =~= covered(spans, kind).union(own));
    assert(covered(spans, kind).union(Set::<int>::empty()) =~= covered(spans, kind));
}

} // verus!
