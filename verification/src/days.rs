//! Local days: which of them a session is active on, and how a day is written.
//!
//! Where local days begin is for the clock of the machine to say. A [`DayWalk`]
//! says which instant to ask it about next, and keeps the days it answers with.
use crate::model;
use crate::model::{Session, SECOND};
use crate::paths;
use crate::text::same_text;
use vstd::prelude::*;

verus! {

/// A walk over more local days than this ends.
pub const DAY_GUARD: usize = 400;

/// A local day `[start, end)` and how it is written.
#[derive(Debug, Clone)]
pub struct Day {
    pub start: i128,
    pub end: i128,
    pub date: String,
}

/// A [`Day`] as a mathematical value.
pub struct DayView {
    pub start: i128,
    pub end: i128,
    pub date: Seq<char>,
}

impl View for Day {
    type V = DayView;

    open spec fn view(&self) -> DayView {
        DayView { start: self.start, end: self.end, date: self.date@ }
    }
}

/// Whether a session is active on a day: one of its spans, or its extent,
/// touches it.
pub open spec fn active_on(s: model::SessionView, d: DayView) -> bool {
    ||| s.t_start < d.end && s.t_end >= d.start
    ||| exists|i: int|
        0 <= i < s.spans.len() && (#[trigger] s.spans[i]).t_start < d.end && s.spans[i].t_end
            >= d.start
}

/// A walk over the local days of a session: the days it was active on so far,
/// and the instant whose day comes next, if one does.
pub struct DayWalk {
    days: Vec<String>,
    next: Option<i128>,
}

/// A [`DayWalk`] as a mathematical value.
pub struct WalkView {
    pub days: Seq<Seq<char>>,
    pub next: Option<i128>,
}

impl View for DayWalk {
    type V = WalkView;

    closed spec fn view(&self) -> WalkView {
        WalkView { days: paths::name_views(self.days@), next: self.next }
    }
}

/// The walk before its first day: it starts with the day of the session's start.
pub open spec fn walk_start(s: model::SessionView) -> WalkView {
    WalkView { days: Seq::empty(), next: Some(s.t_start) }
}

/// The days `days` with the day `d`, where the session is active on it and it is
/// not among them yet.
pub open spec fn with_day(
    days: Seq<Seq<char>>,
    s: model::SessionView,
    d: DayView,
) -> Seq<Seq<char>> {
    if active_on(s, d) && !days.contains(d.date) {
        days.push(d.date)
    } else {
        days
    }
}

/// The walk `w` after the day `d`: it goes on a second past the end of `d`,
/// unless the session ended before that, or the walk has gone too far.
pub open spec fn walk_step(w: WalkView, s: model::SessionView, d: DayView) -> WalkView {
    let days = with_day(w.days, s, d);
    WalkView {
        days,
        next: if d.end > s.t_end || days.len() > DAY_GUARD || d.end + SECOND > i128::MAX {
            None
        } else {
            Some((d.end + SECOND) as i128)
        },
    }
}

/// The walk after the days `ds`.
pub open spec fn walk_over(s: model::SessionView, ds: Seq<DayView>) -> WalkView
    decreases ds.len(),
{
    if ds.len() == 0 {
        walk_start(s)
    } else {
        walk_step(walk_over(s, ds.drop_last()), s, ds.last())
    }
}

/// Whether a session is active on a day.
fn touches(s: &Session, d: &Day) -> (r: bool)
    ensures
        r == active_on(s@, d@),
{
    if s.t_start < d.end && s.t_end >= d.start {
        return true;
    }
    let ghost spans = s@.spans;
    let mut i: usize = 0;
    while i < s.spans.len()
        invariant
            i <= s.spans@.len(),
            spans == model::span_views(s.spans@),
            forall|k: int|
                0 <= k < i ==> !((#[trigger] spans[k]).t_start < d.end && spans[k].t_end
                    >= d.start),
        decreases s.spans.len() - i,
    {
        assert(spans[i as int] == s.spans@[i as int]@);
        if s.spans[i].t_start < d.end && s.spans[i].t_end >= d.start {
            return true;
        }
        i = i + 1;
    }
    false
}

/// Whether `names` holds `name`.
fn holds(names: &Vec<String>, name: &str) -> (r: bool)
    ensures
        r == paths::name_views(names@).contains(name@),
{
    let ghost views = paths::name_views(names@);
    let mut i: usize = 0;
    while i < names.len()
        invariant
            i <= names@.len(),
            views == paths::name_views(names@),
            forall|k: int| 0 <= k < i ==> #[trigger] views[k] != name@,
        decreases names.len() - i,
    {
        assert(views[i as int] == names@[i as int]@);
        if same_text(names[i].as_str(), name) {
            return true;
        }
        i = i + 1;
    }
    false
}

impl DayWalk {
    /// The walk over the local days of `s`, before its first day.
    pub fn start(s: &Session) -> (r: DayWalk)
        ensures
            r@ == walk_start(s@),
    {
        let w = DayWalk { days: Vec::new(), next: Some(s.t_start) };
        assert(w@.days =~= Seq::empty());
        w
    }

    /// The instant whose local day comes next; none where the walk has ended.
    pub fn next(&self) -> (r: Option<i128>)
        ensures
            r == self@.next,
    {
        self.next
    }

    /// Takes the local day that comes next.
    pub fn step(&mut self, s: &Session, d: Day)
        ensures
            final(self)@ == walk_step(old(self)@, s@, d@),
    {
        let end: i128 = d.end;
        let ghost before = self.days@;
        if touches(s, &d) && !holds(&self.days, d.date.as_str()) {
            self.days.push(d.date);
            assert(paths::name_views(self.days@) =~= paths::name_views(before).push(d.date@));
        }
        if end > s.t_end || self.days.len() > DAY_GUARD {
            self.next = None;
        } else {
            self.next = end.checked_add(SECOND);
        }
    }

    /// The days that the session is active on, as far as the walk has gone.
    pub fn into_days(self) -> (r: Vec<String>)
        ensures
            paths::name_views(r@) == self@.days,
    {
        self.days
    }
}

/// A walk lists a day exactly when the session is active on it, and each day
/// once.
pub proof fn law_walk_lists_active_days(s: model::SessionView, ds: Seq<DayView>)
    ensures
        forall|i: int|
            0 <= i < ds.len() && active_on(s, #[trigger] ds[i]) ==> walk_over(s, ds).days.contains(
                ds[i].date,
            ),
        forall|k: int|
            0 <= k < walk_over(s, ds).days.len() ==> exists|i: int|
                0 <= i < ds.len() && active_on(s, #[trigger] ds[i]) && ds[i].date
                    == #[trigger] walk_over(s, ds).days[k],
        walk_over(s, ds).days.no_duplicates(),
    decreases ds.len(),
{
    if ds.len() > 0 {
        let init = ds.drop_last();
        let before = walk_over(s, init).days;
        let after = walk_over(s, ds).days;
        let d = ds.last();
        law_walk_lists_active_days(s, init);
        assert forall|i: int|
            0 <= i < ds.len() && active_on(s, #[trigger] ds[i]) implies after.contains(
            ds[i].date,
        ) by {
            if i < init.len() {
                assert(init[i] == ds[i]);
                assert(before.contains(ds[i].date));
                let k = choose|k: int| 0 <= k < before.len() && before[k] == ds[i].date;
                assert(after[k] == ds[i].date);
            } else if !before.contains(d.date) {
                assert(after[before.len() as int] == d.date);
            }
        }
        assert forall|k: int| 0 <= k < after.len() implies exists|i: int|
            0 <= i < ds.len() && active_on(s, #[trigger] ds[i]) && ds[i].date
                == #[trigger] after[k] by {
            if k < before.len() {
                assert(before[k] == after[k]);
                let i = choose|i: int|
                    0 <= i < init.len() && active_on(s, #[trigger] init[i]) && init[i].date
                        == before[k];
                assert(ds[i] == init[i]);
            } else {
                assert(ds[ds.len() - 1].date == after[k]);
            }
        }
    }
}

/// Whether the days `ds` answer a walk over `s`: each holds the instant asked
/// about, and none leaves a gap behind the day before.
pub open spec fn answers(s: model::SessionView, ds: Seq<DayView>) -> bool {
    &&& forall|k: int|
        0 <= k < ds.len() ==> walk_over(s, ds.take(k)).next is Some && (#[trigger] ds[k]).start
            <= walk_over(s, ds.take(k)).next->0 < ds[k].end
    &&& forall|k: int| 0 < k < ds.len() ==> (#[trigger] ds[k]).start <= ds[k - 1].end
}

/// A finished walk has seen every day of the session, first to last: each instant
/// of its extent lies on one of the days, and those days are listed, unless the
/// walk went too far.
pub proof fn law_walk_sees_whole_session(s: model::SessionView, ds: Seq<DayView>, t: int)
    requires
        answers(s, ds),
        walk_over(s, ds).next is None,
        walk_over(s, ds).days.len() <= DAY_GUARD,
        ds.len() > 0,
        ds.last().end + SECOND <= i128::MAX,
        s.t_start <= t <= s.t_end,
    ensures
        exists|k: int|
            0 <= k < ds.len() && (#[trigger] ds[k]).start <= t < ds[k].end && walk_over(
                s,
                ds,
            ).days.contains(ds[k].date),
{
    assert(ds.last().end > s.t_end);
    let k = lemma_day_of(s, ds, ds.len() as int, t);
    assert(active_on(s, ds[k]));
    law_walk_lists_active_days(s, ds);
}

/// The day, among the first `n`, that `t` lies on.
proof fn lemma_day_of(s: model::SessionView, ds: Seq<DayView>, n: int, t: int) -> (k: int)
    requires
        answers(s, ds),
        0 < n <= ds.len(),
        s.t_start <= t < ds[n - 1].end,
    ensures
        0 <= k < n,
        ds[k].start <= t < ds[k].end,
    decreases n,
{
    if ds[n - 1].start <= t {
        n - 1
    } else if n == 1 {
        assert(walk_over(s, ds.take(0)) == walk_start(s));
        assert(ds[0].start <= s.t_start);
        0
    } else {
        assert(ds[n - 1].start <= ds[n - 2].end);
        lemma_day_of(s, ds, n - 1, t)
    }
}

/// A session is active on a day exactly when its extent, or one of its spans, starts
/// before the day ends and ends no earlier than the day starts.
pub proof fn law_active_days(s: model::SessionView, d: DayView)
    ensures
        active_on(s, d) <==> (s.t_start < d.end && d.start <= s.t_end) || exists|i: int|
            0 <= i < s.spans.len() && (#[trigger] s.spans[i]).t_start < d.end && d.start
                <= s.spans[i].t_end,
{
}

/// A walk asks about the session's start first, then about the second past the end
/// of each day, until a day ends after the session does, or 400 days are listed.
pub proof fn law_walk_goes_on_to_the_end(s: model::SessionView, ds: Seq<DayView>, d: DayView)
    ensures
        walk_over(s, Seq::empty()).next == Some(s.t_start),
        walk_over(s, Seq::empty()).days.len() == 0,
        d.end > s.t_end ==> walk_over(s, ds.push(d)).next is None,
        walk_over(s, ds.push(d)).days.len() > 400 ==> walk_over(s, ds.push(d)).next is None,
        d.end <= s.t_end && walk_over(s, ds.push(d)).days.len() <= 400 && d.end + 1_000_000_000
            <= i128::MAX ==> walk_over(s, ds.push(d)).next == Some((d.end + 1_000_000_000) as i128),
        walk_over(s, ds.push(d)).days == if active_on(s, d) && !walk_over(s, ds).days.contains(
            d.date,
        ) {
            walk_over(s, ds).days.push(d.date)
        } else {
            walk_over(s, ds).days
        },
{
    assert(ds.push(d).drop_last() =~= ds);
}

} // verus!
