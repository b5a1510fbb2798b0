//! The in-memory index: a summary of every session, the sessions of every day,
//! and the files that it was built from.
use crate::model::{Session, SessionKind};
use crate::order;
use crate::paths;
use crate::stats;
use crate::stats::ScanStats;
use crate::text;
use crate::window;
use crate::window::meets_window;
use vstd::hash_map::StringHashMap;
use vstd::prelude::*;

verus! {

/// What the index keeps of a session.
#[derive(Debug, Clone)]
pub struct SummaryRow {
    pub id: String,
    pub title: Option<String>,
    pub profile: Option<String>,
    pub source: Option<String>,
    pub kind: SessionKind,
    pub t_start: i128,
    pub t_end: i128,
    pub span_count: usize,
    /// The local days that the session is active on.
    pub days: Vec<String>,
}

/// A [`SummaryRow`] as a mathematical value.
pub struct SummaryView {
    pub id: Seq<char>,
    pub title: Option<Seq<char>>,
    pub profile: Option<Seq<char>>,
    pub source: Option<Seq<char>>,
    pub kind: SessionKind,
    pub t_start: i128,
    pub t_end: i128,
    pub span_count: nat,
    pub days: Seq<Seq<char>>,
}

impl View for SummaryRow {
    type V = SummaryView;

    open spec fn view(&self) -> SummaryView {
        SummaryView {
            id: self.id@,
            title: text::opt_text(self.title),
            profile: text::opt_text(self.profile),
            source: text::opt_text(self.source),
            kind: self.kind,
            t_start: self.t_start,
            t_end: self.t_end,
            span_count: self.span_count as nat,
            days: paths::name_views(self.days@),
        }
    }
}

/// A list of summaries, each by its view.
pub open spec fn summary_views(rows: Seq<SummaryRow>) -> Seq<SummaryView> {
    rows.map_values(|r: SummaryRow| r@)
}

/// A session with the local days that it is active on.
#[derive(Debug, Clone)]
pub struct Dated {
    pub session: Session,
    pub days: Vec<String>,
}

/// The summary of a session.
pub open spec fn summary_of(d: Dated) -> SummaryView {
    SummaryView {
        id: d.session@.id,
        title: d.session@.title,
        profile: d.session@.profile,
        source: d.session@.source,
        kind: d.session@.kind,
        t_start: d.session@.t_start,
        t_end: d.session@.t_end,
        span_count: d.session@.spans.len(),
        days: paths::name_views(d.days@),
    }
}

/// The summaries of sessions, in order.
pub open spec fn summaries_of(ds: Seq<Dated>) -> Seq<SummaryView> {
    ds.map_values(|d: Dated| summary_of(d))
}

/// The summary of a session.
fn summarize(d: Dated) -> (r: SummaryRow)
    ensures
        r@ == summary_of(d),
{
    SummaryRow {
        id: d.session.id,
        title: d.session.title,
        profile: d.session.profile,
        source: d.session.source,
        kind: d.session.kind,
        t_start: d.session.t_start,
        t_end: d.session.t_end,
        span_count: d.session.spans.len(),
        days: d.days,
    }
}

/// What a kind of session is called.
pub open spec fn name_of_kind(kind: SessionKind) -> Seq<char> {
    match kind {
        SessionKind::Human => "human"@,
        SessionKind::Sub => "sub"@,
    }
}

/// What a kind of session is called.
pub fn kind_name(kind: SessionKind) -> (r: String)
    ensures
        r@ == name_of_kind(kind),
{
    match kind {
        SessionKind::Human => "human".to_owned(),
        SessionKind::Sub => "sub".to_owned(),
    }
}

/// The places of the rows that are active on the day `date`, in order.
pub open spec fn on_day(rows: Seq<SummaryView>, date: Seq<char>) -> Seq<int>
    decreases rows.len(),
{
    if rows.len() == 0 {
        Seq::empty()
    } else {
        let before = on_day(rows.drop_last(), date);
        if rows.last().days.contains(date) {
            before.push(rows.len() - 1)
        } else {
            before
        }
    }
}

/// The days that some row is active on.
pub open spec fn days_in(rows: Seq<SummaryView>) -> Set<Seq<char>> {
    Set::new(|date: Seq<char>| on_day(rows, date).len() > 0)
}

/// Whether `slots` and `lists` hold, for every day, the rows that are active on
/// it.
spec fn listed(
    slots: Map<Seq<char>, usize>,
    lists: Seq<Vec<usize>>,
    rows: Seq<SummaryView>,
) -> bool {
    &&& forall|date: Seq<char>|
        slots.contains_key(date) <==> #[trigger] on_day(rows, date).len() > 0
    &&& forall|date: Seq<char>| #[trigger]
        slots.contains_key(date) ==> slots[date] < lists.len() && order::places(
            lists[slots[date] as int]@,
        ) == on_day(rows, date)
    &&& forall|a: Seq<char>, b: Seq<char>|
        #![trigger slots[a], slots[b]]
        slots.contains_key(a) && slots.contains_key(b) && slots[a] == slots[b] ==> a == b
    &&& slots.dom().finite()
    &&& slots.dom().len() == lists.len()
}

/// A file that the index was built from, and when it was last written.
#[derive(Debug, Clone)]
pub struct FileStamp {
    pub path: String,
    pub mtime: i128,
}

/// A file as it is now; without a time where that cannot be read.
#[derive(Debug, Clone)]
pub struct FileState {
    pub path: String,
    pub mtime: Option<i128>,
}

/// What the scan behind an index skipped.
#[derive(Debug, Clone, Copy)]
pub struct SkippedCounts {
    pub sources: u64,
    pub sessions: u64,
    pub rows: u64,
}

/// The index.
pub struct Index {
    rows: Vec<SummaryRow>,
    slots: StringHashMap<usize>,
    lists: Vec<Vec<usize>>,
    stamps: Vec<FileStamp>,
    skipped: SkippedCounts,
}

/// Every place in an on-day list is one of a row.
pub proof fn lemma_on_day_bounds(rows: Seq<SummaryView>, date: Seq<char>)
    ensures
        forall|k: int| 0 <= k < on_day(rows, date).len() ==> 0 <= #[trigger] on_day(rows, date)[k]
            < rows.len(),
    decreases rows.len(),
{
    if rows.len() > 0 {
        let before = on_day(rows.drop_last(), date);
        lemma_on_day_bounds(rows.drop_last(), date);
        assert forall|k: int| 0 <= k < on_day(rows, date).len() implies 0 <= #[trigger] on_day(
            rows,
            date,
        )[k] < rows.len() by {
            if k < before.len() {
                assert(before[k] == on_day(rows, date)[k]);
            }
        }
    }
}

/// Enters the row at `pos` under one more of its days.
fn enter(
    slots: &mut StringHashMap<usize>,
    lists: &mut Vec<Vec<usize>>,
    date: &str,
    pos: usize,
    Ghost(rows): Ghost<Seq<SummaryView>>,
    Ghost(row): Ghost<SummaryView>,
)
    requires
        pos == rows.len(),
        listed(old(slots)@, old(lists)@, rows.push(row)),
    ensures
        listed(
            final(slots)@,
            final(lists)@,
            rows.push(SummaryView { days: row.days.push(date@), ..row }),
        ),
{
    let ghost more = SummaryView { days: row.days.push(date@), ..row };
    let ghost was = rows.push(row);
    let ghost now = rows.push(more);
    let ghost s0 = slots@;
    let ghost l0 = lists@;
    proof {
        assert(was.drop_last() =~= rows);
        assert(now.drop_last() =~= rows);
        assert(more.days.contains(date@)) by {
            assert(more.days[row.days.len() as int] == date@);
        }
        assert forall|other: Seq<char>| other != date@ implies #[trigger] on_day(now, other)
            == on_day(was, other) by {
            assert(more.days.contains(other) <==> row.days.contains(other)) by {
                if row.days.contains(other) {
                    let k = choose|k: int| 0 <= k < row.days.len() && row.days[k] == other;
                    assert(more.days[k] == other);
                }
                if more.days.contains(other) {
                    let k = choose|k: int| 0 <= k < more.days.len() && more.days[k] == other;
                    assert(row.days[k] == other);
                }
            }
        }
        lemma_on_day_bounds(rows, date@);
    }
    let slot: Option<usize> = match slots.get(date) {
        Some(k) => Some(*k),
        None => None,
    };
    match slot {
        Some(k) => {
            assert(slots@.contains_key(date@) && slots@[date@] == k);
            let n: usize = lists[k].len();
            let ghost list = lists@[k as int]@;
            assert(order::places(list) == on_day(was, date@));
            assert(on_day(was, date@).len() > 0);
            assert(list.len() == order::places(list).len());
            let fresh: bool = lists[k][n - 1] != pos;
            proof {
                assert(order::places(list)[n - 1] == list[n - 1]);
                if row.days.contains(date@) {
                    assert(!fresh);
                } else {
                    assert(on_day(was, date@) == on_day(rows, date@));
                    assert(fresh);
                }
            }
            if fresh {
                lists[k].push(pos);
                proof {
                    assert(lists@[k as int]@ =~= list.push(pos));
                    assert(order::places(lists@[k as int]@) =~= on_day(now, date@));
                    assert forall|other: Seq<char>| #[trigger]
                        slots@.contains_key(other) implies slots@[other] < lists@.len()
                        && order::places(lists@[slots@[other] as int]@) == on_day(now, other) by {
                        if other != date@ {
                            assert(slots@[other] != k);
                            assert(lists@[slots@[other] as int] == l0[slots@[other] as int]);
                        }
                    }
                }
            } else {
                assert(on_day(now, date@) == on_day(was, date@));
            }
        },
        None => {
            assert(!slots@.contains_key(date@));
            assert(on_day(was, date@).len() == 0);
            assert(!row.days.contains(date@));
            let at: usize = lists.len();
            let mut list: Vec<usize> = Vec::new();
            list.push(pos);
            assert(order::places(list@) =~= on_day(now, date@)) by {
                assert(on_day(rows, date@) =~= Seq::empty());
            }
            lists.push(list);
            slots.insert(date.to_owned(), at);
            proof {
                assert forall|other: Seq<char>| slots@.contains_key(other)
                    <==> #[trigger] on_day(now, other).len() > 0 by {
                    if other != date@ {
                        assert(slots@.contains_key(other) <==> s0.contains_key(other));
                        assert(on_day(now, other) == on_day(was, other));
                    }
                }
                assert forall|other: Seq<char>| #[trigger]
                    slots@.contains_key(other) implies slots@[other] < lists@.len()
                    && order::places(lists@[slots@[other] as int]@) == on_day(now, other) by {
                    if other != date@ {
                        assert(s0.contains_key(other));
                        assert(slots@[other] == s0[other]);
                        assert(lists@[s0[other] as int] == l0[s0[other] as int]);
                    }
                }
                assert forall|a: Seq<char>, b: Seq<char>|
                    #![trigger slots@[a], slots@[b]]
                    slots@.contains_key(a) && slots@.contains_key(b) && slots@[a]
                        == slots@[b] implies a == b by {
                    if a != date@ {
                        assert(s0.contains_key(a) && slots@[a] == s0[a]);
                    }
                    if b != date@ {
                        assert(s0.contains_key(b) && slots@[b] == s0[b]);
                    }
                }
                assert(slots@.dom() =~= s0.dom().insert(date@));
            }
        },
    }
}

/// A row without days enters nothing.
proof fn lemma_no_days(rows: Seq<SummaryView>, row: SummaryView, date: Seq<char>)
    requires
        row.days.len() == 0,
    ensures
        on_day(rows.push(row), date) == on_day(rows, date),
{
    assert(rows.push(row).drop_last() =~= rows);
}

/// The files whose time could be read.
pub open spec fn stamps_of(files: Seq<FileState>) -> Seq<(Seq<char>, i128)>
    decreases files.len(),
{
    if files.len() == 0 {
        Seq::empty()
    } else {
        let before = stamps_of(files.drop_last());
        match files.last().mtime {
            Some(m) => before.push((files.last().path@, m)),
            None => before,
        }
    }
}

/// Stamps as mathematical values.
pub open spec fn stamp_views(stamps: Seq<FileStamp>) -> Seq<(Seq<char>, i128)> {
    stamps.map_values(|s: FileStamp| (s.path@, s.mtime))
}

/// The time of `path` among the stamps; the last one stands.
pub open spec fn stamped(stamps: Seq<(Seq<char>, i128)>) -> Map<Seq<char>, i128>
    decreases stamps.len(),
{
    if stamps.len() == 0 {
        Map::empty()
    } else {
        stamped(stamps.drop_last()).insert(stamps.last().0, stamps.last().1)
    }
}

/// Whether a file is as it was.
pub open spec fn is_unchanged(stamps: Seq<(Seq<char>, i128)>, f: FileState) -> bool {
    match f.mtime {
        Some(m) => stamped(stamps).contains_key(f.path@) && stamped(stamps)[f.path@] == m,
        None => false,
    }
}

/// Whether the files are others, or others in number, than the stamps say.
pub open spec fn files_changed(stamps: Seq<(Seq<char>, i128)>, files: Seq<FileState>) -> bool {
    ||| files.len() != stamps.len()
    ||| exists|i: int| 0 <= i < files.len() && !is_unchanged(stamps, #[trigger] files[i])
}

/// Keeps the files whose time could be read.
fn stamp_files(files: Vec<FileState>) -> (r: Vec<FileStamp>)
    ensures
        stamp_views(r@) == stamps_of(files@),
{
    let ghost all = files@;
    let mut out: Vec<FileStamp> = Vec::new();
    assert(stamp_views(out@) =~= stamps_of(all.take(0)));
    for f in it: files
        invariant
            it.seq() == all,
            stamp_views(out@) == stamps_of(all.take(it.index())),
    {
        let ghost before = out@;
        proof {
            assert(all.take(it.index() + 1).drop_last() =~= all.take(it.index()));
            assert(all.take(it.index() + 1).last() == f);
        }
        if let Some(mtime) = f.mtime {
            out.push(FileStamp { path: f.path, mtime });
            assert(stamp_views(out@) =~= stamp_views(before).push((f.path@, mtime)));
        }
    }
    assert(all.take(all.len() as int) =~= all);
    out
}

/// The ids of the rows at the places `ps`.
pub open spec fn ids_at(rows: Seq<SummaryView>, ps: Seq<int>) -> Seq<Seq<char>> {
    ps.map_values(|p: int| rows[p].id)
}

/// The places of the rows whose extent meets the window `[t0, t1)`.
pub open spec fn meeting(rows: Seq<SummaryView>, t0: i128, t1: i128) -> Seq<int>
    decreases rows.len(),
{
    if rows.len() == 0 {
        Seq::empty()
    } else {
        let before = meeting(rows.drop_last(), t0, t1);
        if window::overlaps(rows.last().t_start, rows.last().t_end, t0, t1) {
            before.push(rows.len() - 1)
        } else {
            before
        }
    }
}

/// The ids of the sessions of the day `date`, which is `[t0, t1)`: the sessions
/// that the index lists for it, or, where it lists none, those whose extent meets
/// it.
pub open spec fn ids_of_day(
    rows: Seq<SummaryView>,
    date: Seq<char>,
    t0: i128,
    t1: i128,
) -> Seq<Seq<char>> {
    if on_day(rows, date).len() > 0 {
        ids_at(rows, on_day(rows, date))
    } else {
        ids_at(rows, meeting(rows, t0, t1))
    }
}

/// Whether a summary belongs to the window from `t0` to `t1`.
pub open spec fn is_recent(row: SummaryView, t0: i128, t1: i128) -> bool {
    row.t_start < t1 && row.t_end > t0
}

/// The summaries that belong to the window from `t0` to `t1`, in order.
pub open spec fn recent(rows: Seq<SummaryView>, t0: i128, t1: i128) -> Seq<SummaryView>
    decreases rows.len(),
{
    if rows.len() == 0 {
        Seq::empty()
    } else {
        let before = recent(rows.drop_last(), t0, t1);
        if is_recent(rows.last(), t0, t1) {
            before.push(rows.last())
        } else {
            before
        }
    }
}

/// Borrowed summaries, each by its view.
pub open spec fn borrowed_views(rows: Seq<&SummaryRow>) -> Seq<SummaryView> {
    rows.map_values(|r: &SummaryRow| r@)
}

/// Builds the index of the sessions `sessions`, scanned from the files `files`
/// with the skips `stats`.
pub fn build_index(sessions: Vec<Dated>, files: Vec<FileState>, stats: &ScanStats) -> (r: Index)
    ensures
        r.summaries() == summaries_of(sessions@),
        r.stamps() == stamps_of(files@),
        r.skips() == stats@,
{
    let ghost all = sessions@;
    let ghost views = summaries_of(all);
    let mut rows: Vec<SummaryRow> = Vec::new();
    let mut slots: StringHashMap<usize> = StringHashMap::new();
    let mut lists: Vec<Vec<usize>> = Vec::new();
    proof {
        assert(summary_views(rows@) =~= views.take(0));
        assert(listed(slots@, lists@, views.take(0)));
    }
    for d in it: sessions
        invariant
            it.seq() == all,
            views == summaries_of(all),
            rows@.len() == it.index(),
            summary_views(rows@) == views.take(it.index()),
            listed(slots@, lists@, views.take(it.index())),
    {
        let pos: usize = rows.len();
        let ghost before = views.take(it.index());
        let ghost row = summary_of(d);
        let ghost none = SummaryView { days: Seq::empty(), ..row };
        proof {
            assert forall|date: Seq<char>| #[trigger] on_day(before.push(none), date) == on_day(
                before,
                date,
            ) by {
                lemma_no_days(before, none, date);
            }
            assert(listed(slots@, lists@, before.push(none)));
            assert(row.days.take(0) =~= Seq::empty());
        }
        let mut j: usize = 0;
        while j < d.days.len()
            invariant
                j <= d.days@.len(),
                pos == before.len(),
                row == summary_of(d),
                listed(
                    slots@,
                    lists@,
                    before.push(SummaryView { days: row.days.take(j as int), ..row }),
                ),
            decreases d.days.len() - j,
        {
            let ghost part = SummaryView { days: row.days.take(j as int), ..row };
            enter(&mut slots, &mut lists, d.days[j].as_str(), pos, Ghost(before), Ghost(part));
            proof {
                assert(row.days[j as int] == d.days@[j as int]@);
                assert(row.days.take(j + 1) =~= row.days.take(j as int).push(d.days@[j as int]@));
            }
            j = j + 1;
        }
        let ghost held = rows@;
        proof {
            assert(row.days.take(d.days@.len() as int) =~= row.days);
            assert(views.take(it.index() + 1) =~= before.push(row));
        }
        rows.push(summarize(d));
        assert(summary_views(rows@) =~= summary_views(held).push(row));
    }
    assert(views.take(all.len() as int) =~= views);
    let skipped = SkippedCounts {
        sources: stats.skipped_sources(),
        sessions: stats.skipped_sessions(),
        rows: stats.skipped_rows(),
    };
    Index { rows, slots, lists, stamps: stamp_files(files), skipped }
}

impl Index {
    /// What every index keeps: its day lists say which rows are active on which
    /// day.
    #[verifier::type_invariant]
    spec fn wf(self) -> bool {
        listed(self.slots@, self.lists@, summary_views(self.rows@))
    }

    /// The summaries, in scan order.
    pub closed spec fn summaries(&self) -> Seq<SummaryView> {
        summary_views(self.rows@)
    }

    /// The files that the index was built from.
    pub closed spec fn stamps(&self) -> Seq<(Seq<char>, i128)> {
        stamp_views(self.stamps@)
    }

    /// What the scan behind the index skipped.
    pub closed spec fn skips(&self) -> stats::StatsView {
        stats::StatsView {
            sources: self.skipped.sources,
            sessions: self.skipped.sessions,
            rows: self.skipped.rows,
        }
    }

    /// How many sessions the index holds.
    pub fn session_count(&self) -> (r: usize)
        ensures
            r == self.summaries().len(),
    {
        self.rows.len()
    }

    /// How many days the index holds sessions of.
    pub fn day_count(&self) -> (r: usize)
        ensures
            days_in(self.summaries()).finite(),
            r == days_in(self.summaries()).len(),
    {
        proof {
            use_type_invariant(self);
            assert(days_in(self.summaries()) =~= self.slots@.dom()) by {
                assert forall|date: Seq<char>| days_in(self.summaries()).contains(date)
                    <==> self.slots@.dom().contains(date) by {
                    assert(self.slots@.contains_key(date) <==> on_day(
                        self.summaries(),
                        date,
                    ).len() > 0);
                }
            }
        }
        self.lists.len()
    }

    /// What the scan behind the index skipped.
    pub fn skipped(&self) -> (r: SkippedCounts)
        ensures
            self.skips() == (stats::StatsView {
                sources: r.sources,
                sessions: r.sessions,
                rows: r.rows,
            }),
    {
        self.skipped
    }

    /// The summaries that belong to the window from `t0` to `t1`, in scan order.
    pub fn recent_rows(&self, t0: i128, t1: i128) -> (r: Vec<&SummaryRow>)
        ensures
            borrowed_views(r@) == recent(self.summaries(), t0, t1),
    {
        let ghost views = self.summaries();
        let mut out: Vec<&SummaryRow> = Vec::new();
        let mut i: usize = 0;
        assert(borrowed_views(out@) =~= recent(views.take(0), t0, t1));
        while i < self.rows.len()
            invariant
                i <= self.rows@.len(),
                views == summary_views(self.rows@),
                borrowed_views(out@) == recent(views.take(i as int), t0, t1),
            decreases self.rows.len() - i,
        {
            let ghost before = out@;
            let row: &SummaryRow = &self.rows[i];
            proof {
                assert(views.take(i + 1).drop_last() =~= views.take(i as int));
                assert(views.take(i + 1).last() == row@);
            }
            if row.t_start < t1 && row.t_end > t0 {
                out.push(row);
                assert(borrowed_views(out@) =~= borrowed_views(before).push(row@));
            }
            i = i + 1;
        }
        assert(views.take(self.rows@.len() as int) =~= views);
        out
    }

    /// The ids of the sessions of the day `date`, which is `[t0, t1)`.
    pub fn day_ids(&self, date: &str, t0: i128, t1: i128) -> (r: Vec<String>)
        ensures
            paths::name_views(r@) == ids_of_day(self.summaries(), date@, t0, t1),
    {
        proof {
            use_type_invariant(self);
            lemma_on_day_bounds(self.summaries(), date@);
        }
        let ghost views = self.summaries();
        let mut out: Vec<String> = Vec::new();
        match self.slots.get(date) {
            Some(slot) => {
                assert(self.slots@.contains_key(date@));
                let list: &Vec<usize> = &self.lists[*slot];
                let ghost ps = on_day(views, date@);
                assert(order::places(list@) == ps);
                assert(ps.len() > 0);
                let mut i: usize = 0;
                while i < list.len()
                    invariant
                        i <= list@.len(),
                        order::places(list@) == ps,
                        views == summary_views(self.rows@),
                        forall|k: int| 0 <= k < ps.len() ==> 0 <= #[trigger] ps[k] < views.len(),
                        out@.len() == i,
                        forall|k: int| 0 <= k < i ==> (#[trigger] out@[k])@ == views[ps[k]].id,
                    decreases list.len() - i,
                {
                    assert(ps[i as int] == list@[i as int]);
                    let row: &SummaryRow = &self.rows[list[i]];
                    assert(views[ps[i as int]] == row@);
                    out.push(row.id.clone());
                    i = i + 1;
                }
                assert(paths::name_views(out@) =~= ids_at(views, ps));
            },
            None => {
                assert(!self.slots@.contains_key(date@));
                assert(on_day(views, date@).len() == 0);
                let mut i: usize = 0;
                assert(paths::name_views(out@) =~= ids_at(views, meeting(views.take(0), t0, t1)));
                while i < self.rows.len()
                    invariant
                        i <= self.rows@.len(),
                        views == summary_views(self.rows@),
                        paths::name_views(out@) == ids_at(
                            views,
                            meeting(views.take(i as int), t0, t1),
                        ),
                    decreases self.rows.len() - i,
                {
                    let ghost before = out@;
                    let ghost ps = meeting(views.take(i as int), t0, t1);
                    let row: &SummaryRow = &self.rows[i];
                    proof {
                        assert(views.take(i + 1).drop_last() =~= views.take(i as int));
                        assert(views.take(i + 1).last() == row@);
                        assert(views[i as int] == row@);
                        assert(ids_at(views, ps.push(i as int)) =~= ids_at(views, ps).push(
                            row@.id,
                        ));
                    }
                    if meets_window(row.t_start, row.t_end, t0, t1) {
                        out.push(row.id.clone());
                        assert(paths::name_views(out@) =~= paths::name_views(before).push(row@.id));
                    }
                    i = i + 1;
                }
                assert(views.take(self.rows@.len() as int) =~= views);
            },
        }
        out
    }

    /// Whether the files are not as they were when the index was built.
    pub fn sources_changed(&self, files: &Vec<FileState>) -> (r: bool)
        ensures
            r == files_changed(self.stamps(), files@),
    {
        if files.len() != self.stamps.len() {
            return true;
        }
        let ghost stamps = self.stamps();
        let mut known: StringHashMap<i128> = StringHashMap::new();
        let mut i: usize = 0;
        assert(stamps.take(0).len() == 0);
        while i < self.stamps.len()
            invariant
                i <= self.stamps@.len(),
                stamps == stamp_views(self.stamps@),
                known@ == stamped(stamps.take(i as int)),
            decreases self.stamps.len() - i,
        {
            let s: &FileStamp = &self.stamps[i];
            proof {
                assert(stamps.take(i + 1).drop_last() =~= stamps.take(i as int));
                assert(stamps.take(i + 1).last() == (s.path@, s.mtime));
            }
            known.insert(s.path.clone(), s.mtime);
            i = i + 1;
        }
        assert(stamps.take(self.stamps@.len() as int) =~= stamps);
        let mut j: usize = 0;
        while j < files.len()
            invariant
                j <= files@.len(),
                stamps == self.stamps(),
                known@ == stamped(stamps),
                forall|k: int| 0 <= k < j ==> is_unchanged(stamps, #[trigger] files@[k]),
            decreases files.len() - j,
        {
            let f: &FileState = &files[j];
            let same: bool = match (known.get(f.path.as_str()), f.mtime) {
                (Some(old_time), Some(new_time)) => *old_time == new_time,
                _ => false,
            };
            if !same {
                assert(!is_unchanged(stamps, files@[j as int]));
                return true;
            }
            j = j + 1;
        }
        false
    }
}

} // verus!
