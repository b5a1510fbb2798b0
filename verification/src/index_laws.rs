//! What holds of the index as a whole.
use crate::days;
use crate::days::DAY_GUARD;
use crate::index;
use crate::index::FileState;
use crate::model;
use crate::model::SECOND;
use vstd::prelude::*;

verus! {

/// A day's list holds the rows that are active on the day, and no others, in
/// scan order.
pub proof fn law_day_lists_active_rows(rows: Seq<index::SummaryView>, date: Seq<char>)
    ensures
        forall|p: int|
            0 <= p < rows.len() ==> (#[trigger] index::on_day(rows, date).contains(p)
                <==> rows[p].days.contains(date)),
        forall|k: int| 0 <= k < index::on_day(rows, date).len() ==> 0 <= #[trigger] index::on_day(
            rows,
            date,
        )[k] < rows.len(),
        forall|j: int, k: int|
            0 <= j < k < index::on_day(rows, date).len() ==> #[trigger] index::on_day(rows, date)[j]
                < #[trigger] index::on_day(rows, date)[k],
    decreases rows.len(),
{
    if rows.len() > 0 {
        let init = rows.drop_last();
        let before = index::on_day(init, date);
        let all = index::on_day(rows, date);
        law_day_lists_active_rows(init, date);
        assert forall|p: int| 0 <= p < rows.len() implies (#[trigger] all.contains(p)
            <==> rows[p].days.contains(date)) by {
            if p < init.len() {
                assert(init[p] == rows[p]);
                assert(before.contains(p) <==> init[p].days.contains(date));
                if before.contains(p) {
                    let k = choose|k: int| 0 <= k < before.len() && before[k] == p;
                    assert(all[k] == p);
                }
                if all.contains(p) {
                    let k = choose|k: int| 0 <= k < all.len() && all[k] == p;
                    assert(before[k] == p);
                }
            } else {
                if rows[p].days.contains(date) {
                    assert(all[before.len() as int] == p);
                } else if all.contains(p) {
                    let k = choose|k: int| 0 <= k < all.len() && all[k] == p;
                    assert(before[k] == p);
                }
            }
        }
        index::lemma_on_day_bounds(rows, date);
        assert forall|j: int, k: int| 0 <= j < k < all.len() implies #[trigger] all[j]
            < #[trigger] all[k] by {
            assert(all[j] == before[j]);
            if k < before.len() {
                assert(all[k] == before[k]);
            }
        }
    }
}

/// A session is found on every day that it is active on, not only on the first.
pub proof fn law_sessions_are_found_on_all_their_days(
    rows: Seq<index::SummaryView>,
    p: int,
    date: Seq<char>,
    t0: i128,
    t1: i128,
)
    requires
        0 <= p < rows.len(),
        rows[p].days.contains(date),
    ensures
        index::ids_of_day(rows, date, t0, t1).contains(rows[p].id),
{
    law_day_lists_active_rows(rows, date);
    let ps = index::on_day(rows, date);
    assert(ps.contains(p));
    let k = choose|k: int| 0 <= k < ps.len() && ps[k] == p;
    assert(index::ids_at(rows, ps)[k] == rows[p].id);
}

/// Sessions appear on every day that they are active on: each instant of a
/// session lies on a day whose list holds the session, where the index was built
/// from a walk that the clock answered to its end.
pub proof fn law_sessions_appear_on_every_day(
    rows: Seq<index::SummaryView>,
    p: int,
    s: model::SessionView,
    ds: Seq<days::DayView>,
    t: int,
)
    requires
        0 <= p < rows.len(),
        rows[p].id == s.id,
        rows[p].days == days::walk_over(s, ds).days,
        days::answers(s, ds),
        days::walk_over(s, ds).next is None,
        rows[p].days.len() <= DAY_GUARD,
        ds.len() > 0,
        ds.last().end + SECOND <= i128::MAX,
        s.t_start <= t <= s.t_end,
    ensures
        exists|k: int|
            0 <= k < ds.len() && (#[trigger] ds[k]).start <= t < ds[k].end && index::ids_of_day(
                rows,
                ds[k].date,
                ds[k].start,
                ds[k].end,
            ).contains(s.id),
{
    days::law_walk_sees_whole_session(s, ds, t);
    let k = choose|k: int|
        0 <= k < ds.len() && (#[trigger] ds[k]).start <= t < ds[k].end && days::walk_over(
            s,
            ds,
        ).days.contains(ds[k].date);
    law_sessions_are_found_on_all_their_days(rows, p, ds[k].date, ds[k].start, ds[k].end);
}

/// The recent rows are those that belong to the window, in scan order.
pub proof fn law_recent_rows(rows: Seq<index::SummaryView>, t0: i128, t1: i128, row: index::SummaryView)
    ensures
        index::recent(rows, t0, t1).contains(row) <==> rows.contains(row) && index::is_recent(
            row,
            t0,
            t1,
        ),
    decreases rows.len(),
{
    if rows.len() > 0 {
        let init = rows.drop_last();
        let before = index::recent(init, t0, t1);
        let all = index::recent(rows, t0, t1);
        law_recent_rows(init, t0, t1, row);
        if all.contains(row) {
            let k = choose|k: int| 0 <= k < all.len() && all[k] == row;
            if k < before.len() {
                assert(before[k] == row);
                let i = choose|i: int| 0 <= i < init.len() && init[i] == row;
                assert(rows[i] == row);
            } else {
                assert(rows[rows.len() - 1] == row);
            }
        }
        if rows.contains(row) && index::is_recent(row, t0, t1) {
            let i = choose|i: int| 0 <= i < rows.len() && rows[i] == row;
            if i < init.len() {
                assert(init[i] == row);
                let k = choose|k: int| 0 <= k < before.len() && before[k] == row;
                assert(all[k] == row);
            } else {
                assert(all[all.len() - 1] == row);
            }
        }
    }
}

/// Whether no path is listed twice.
pub open spec fn distinct_paths(files: Seq<FileState>) -> bool {
    forall|i: int, j: int|
        0 <= i < j < files.len() ==> (#[trigger] files[i]).path@ != (#[trigger] files[j]).path@
}

/// Whether no path is stamped twice.
pub open spec fn distinct_stamps(stamps: Seq<(Seq<char>, i128)>) -> bool {
    forall|i: int, j: int|
        0 <= i < j < stamps.len() ==> (#[trigger] stamps[i]).0 != (#[trigger] stamps[j]).0
}

/// Stamps of files whose times could all be read.
proof fn lemma_stamps(files: Seq<FileState>)
    requires
        forall|i: int| 0 <= i < files.len() ==> (#[trigger] files[i]).mtime is Some,
    ensures
        index::stamps_of(files).len() == files.len(),
        forall|i: int|
            0 <= i < files.len() ==> #[trigger] index::stamps_of(files)[i] == (
                files[i].path@,
                files[i].mtime->0,
            ),
    decreases files.len(),
{
    if files.len() > 0 {
        let init = files.drop_last();
        assert forall|i: int| 0 <= i < init.len() implies (#[trigger] init[i]).mtime is Some by {
            assert(init[i] == files[i]);
        }
        lemma_stamps(init);
        assert(files[files.len() - 1].mtime is Some);
        assert forall|i: int| 0 <= i < files.len() implies #[trigger] index::stamps_of(files)[i]
            == (files[i].path@, files[i].mtime->0) by {
            if i < init.len() {
                assert(index::stamps_of(files)[i] == index::stamps_of(init)[i]);
                assert(init[i] == files[i]);
            }
        }
    }
}

/// Stamps of distinct paths: each stands, and there are as many as stamps.
proof fn lemma_stamped(stamps: Seq<(Seq<char>, i128)>)
    requires
        distinct_stamps(stamps),
    ensures
        forall|i: int|
            0 <= i < stamps.len() ==> index::stamped(stamps).contains_key((#[trigger] stamps[i]).0)
                && index::stamped(stamps)[stamps[i].0] == stamps[i].1,
        forall|p: Seq<char>| #[trigger]
            index::stamped(stamps).contains_key(p) ==> exists|i: int|
                0 <= i < stamps.len() && (#[trigger] stamps[i]).0 == p,
        index::stamped(stamps).dom().finite(),
        index::stamped(stamps).dom().len() == stamps.len(),
    decreases stamps.len(),
{
    if stamps.len() > 0 {
        let init = stamps.drop_last();
        let last = stamps.last();
        let before = index::stamped(init);
        let all = index::stamped(stamps);
        assert(distinct_stamps(init)) by {
            assert forall|i: int, j: int| 0 <= i < j < init.len() implies (#[trigger] init[i]).0
                != (#[trigger] init[j]).0 by {
                assert(stamps[i].0 != stamps[j].0);
            }
        }
        lemma_stamped(init);
        assert(!before.contains_key(last.0)) by {
            if before.contains_key(last.0) {
                let i = choose|i: int| 0 <= i < init.len() && (#[trigger] init[i]).0 == last.0;
                assert(stamps[i].0 != stamps[stamps.len() - 1].0);
            }
        }
        assert(all.dom() =~= before.dom().insert(last.0));
        assert forall|i: int| 0 <= i < stamps.len() implies all.contains_key(
            (#[trigger] stamps[i]).0,
        ) && all[stamps[i].0] == stamps[i].1 by {
            if i < init.len() {
                assert(init[i] == stamps[i]);
                assert(before.contains_key(init[i].0));
            }
        }
        assert forall|p: Seq<char>| #[trigger] all.contains_key(p) implies exists|i: int|
            0 <= i < stamps.len() && (#[trigger] stamps[i]).0 == p by {
            if p == last.0 {
                assert(stamps[stamps.len() - 1].0 == p);
            } else {
                assert(before.contains_key(p));
                let i = choose|i: int| 0 <= i < init.len() && (#[trigger] init[i]).0 == p;
                assert(stamps[i].0 == p);
            }
        }
    } else {
        assert(index::stamped(stamps).dom() =~= Set::empty());
    }
}

/// An index that was just built is up to date, where the time of every file could
/// be read.
pub proof fn law_fresh_index_is_up_to_date(files: Seq<FileState>)
    requires
        distinct_paths(files),
        forall|i: int| 0 <= i < files.len() ==> (#[trigger] files[i]).mtime is Some,
    ensures
        !index::files_changed(index::stamps_of(files), files),
{
    let stamps = index::stamps_of(files);
    lemma_stamps(files);
    assert(distinct_stamps(stamps)) by {
        assert forall|i: int, j: int| 0 <= i < j < stamps.len() implies (#[trigger] stamps[i]).0
            != (#[trigger] stamps[j]).0 by {
            assert(files[i].path@ != files[j].path@);
        }
    }
    lemma_stamped(stamps);
    assert forall|i: int| 0 <= i < files.len() implies index::is_unchanged(
        stamps,
        #[trigger] files[i],
    ) by {
        assert(stamps[i] == (files[i].path@, files[i].mtime->0));
    }
}

/// The paths of the first `n` files.
spec fn paths_of(files: Seq<FileState>) -> Set<Seq<char>>
    decreases files.len(),
{
    if files.len() == 0 {
        Set::empty()
    } else {
        paths_of(files.drop_last()).insert(files.last().path@)
    }
}

proof fn lemma_paths(files: Seq<FileState>)
    requires
        distinct_paths(files),
    ensures
        paths_of(files).finite(),
        paths_of(files).len() == files.len(),
        forall|p: Seq<char>| #[trigger]
            paths_of(files).contains(p) <==> exists|i: int|
                0 <= i < files.len() && (#[trigger] files[i]).path@ == p,
    decreases files.len(),
{
    if files.len() > 0 {
        let init = files.drop_last();
        let last = files.last().path@;
        assert(distinct_paths(init)) by {
            assert forall|i: int, j: int| 0 <= i < j < init.len() implies (#[trigger] init[i]).path@
                != (#[trigger] init[j]).path@ by {
                assert(files[i].path@ != files[j].path@);
            }
        }
        lemma_paths(init);
        assert(!paths_of(init).contains(last)) by {
            if paths_of(init).contains(last) {
                let i = choose|i: int| 0 <= i < init.len() && (#[trigger] init[i]).path@ == last;
                assert(files[i].path@ != files[files.len() - 1].path@);
            }
        }
        assert forall|p: Seq<char>| #[trigger] paths_of(files).contains(p) <==> exists|i: int|
            0 <= i < files.len() && (#[trigger] files[i]).path@ == p by {
            if paths_of(files).contains(p) {
                if p == last {
                    assert(files[files.len() - 1].path@ == p);
                } else {
                    assert(paths_of(init).contains(p));
                    let i = choose|i: int| 0 <= i < init.len() && (#[trigger] init[i]).path@ == p;
                    assert(files[i].path@ == p);
                }
            }
            if exists|i: int| 0 <= i < files.len() && (#[trigger] files[i]).path@ == p {
                let i = choose|i: int| 0 <= i < files.len() && (#[trigger] files[i]).path@ == p;
                if i < init.len() {
                    assert(init[i].path@ == p);
                    assert(paths_of(init).contains(p));
                }
            }
        }
    }
}

/// Every change is noticed: an index that counts as up to date was built from the
/// very files that are there now, none more, none fewer, none written since.
pub proof fn law_every_change_is_noticed(
    stamps: Seq<(Seq<char>, i128)>,
    files: Seq<FileState>,
    path: Seq<char>,
)
    requires
        distinct_stamps(stamps),
        distinct_paths(files),
        !index::files_changed(stamps, files),
    ensures
        index::stamped(stamps).contains_key(path) <==> exists|i: int|
            0 <= i < files.len() && (#[trigger] files[i]).path@ == path,
        forall|i: int|
            0 <= i < files.len() ==> (#[trigger] files[i]).mtime == Some(
                index::stamped(stamps)[files[i].path@],
            ),
{
    lemma_stamped(stamps);
    lemma_paths(files);
    let known = index::stamped(stamps).dom();
    let now = paths_of(files);
    assert forall|i: int| 0 <= i < files.len() implies index::is_unchanged(
        stamps,
        #[trigger] files[i],
    ) by {}
    assert(now.subset_of(known)) by {
        assert forall|p: Seq<char>| now.contains(p) implies known.contains(p) by {
            let i = choose|i: int| 0 <= i < files.len() && (#[trigger] files[i]).path@ == p;
            assert(index::is_unchanged(stamps, files[i]));
        }
    }
    vstd::set_lib::lemma_subset_equality(now, known);
    assert(now.contains(path) <==> known.contains(path));
}

/// A row is among the recent ones exactly when it is a row of the index that starts
/// before the window ends and ends after the window opens, however long before the
/// window it started.
pub proof fn law_what_is_recent(
    rows: Seq<index::SummaryView>,
    t0: i128,
    t1: i128,
    row: index::SummaryView,
)
    ensures
        index::recent(rows, t0, t1).contains(row) <==> rows.contains(row) && row.t_start < t1
            && row.t_end > t0,
        rows.contains(row) && row.t_start <= t0 < row.t_end && t0 < t1 ==> index::recent(
            rows,
            t0,
            t1,
        ).contains(row),
{
    law_recent_rows(rows, t0, t1, row);
}

/// A wider window never loses a row.
pub proof fn law_wider_windows_keep_rows(
    rows: Seq<index::SummaryView>,
    t0: i128,
    t1: i128,
    u0: i128,
    u1: i128,
    row: index::SummaryView,
)
    requires
        u0 <= t0,
        t1 <= u1,
        index::recent(rows, t0, t1).contains(row),
    ensures
        index::recent(rows, u0, u1).contains(row),
{
    law_what_is_recent(rows, t0, t1, row);
    law_what_is_recent(rows, u0, u1, row);
}

/// One more row comes behind the others, once, where the window holds it, and
/// takes none of them away.
pub proof fn law_one_more_row(
    rows: Seq<index::SummaryView>,
    row: index::SummaryView,
    t0: i128,
    t1: i128,
)
    ensures
        index::recent(rows.push(row), t0, t1) == if row.t_start < t1 && t0 < row.t_end {
            index::recent(rows, t0, t1).push(row)
        } else {
            index::recent(rows, t0, t1)
        },
        index::recent(Seq::empty(), t0, t1).len() == 0,
{
    assert(rows.push(row).drop_last() =~= rows);
}

/// A day that the index lists no session for has the sessions whose extent meets
/// it: those that start before it ends, and end no earlier than it starts.
pub proof fn law_unlisted_days(
    rows: Seq<index::SummaryView>,
    date: Seq<char>,
    t0: i128,
    t1: i128,
    id: Seq<char>,
)
    requires
        forall|p: int| 0 <= p < rows.len() ==> !(#[trigger] rows[p]).days.contains(date),
    ensures
        index::ids_of_day(rows, date, t0, t1).contains(id) <==> exists|p: int|
            0 <= p < rows.len() && (#[trigger] rows[p]).id == id && rows[p].t_start < t1 && t0
                <= rows[p].t_end,
{
    law_day_lists_active_rows(rows, date);
    let ps = index::on_day(rows, date);
    if ps.len() > 0 {
        assert(ps.contains(ps[0]));
        assert(0 <= ps[0] < rows.len());
        assert(rows[ps[0]].days.contains(date));
    }
    let ms = index::meeting(rows, t0, t1);
    let ids = index::ids_at(rows, ms);
    lemma_meeting(rows, t0, t1);
    if ids.contains(id) {
        let k = choose|k: int| 0 <= k < ids.len() && ids[k] == id;
        assert(0 <= ms[k] < rows.len());
        assert(rows[ms[k]].id == id);
    }
    if exists|p: int|
        0 <= p < rows.len() && (#[trigger] rows[p]).id == id && rows[p].t_start < t1 && t0
            <= rows[p].t_end {
        let p = choose|p: int|
            0 <= p < rows.len() && (#[trigger] rows[p]).id == id && rows[p].t_start < t1 && t0
                <= rows[p].t_end;
        assert(ms.contains(p));
        let k = choose|k: int| 0 <= k < ms.len() && ms[k] == p;
        assert(ids[k] == id);
    }
}

proof fn lemma_meeting(rows: Seq<index::SummaryView>, t0: i128, t1: i128)
    ensures
        forall|k: int|
            0 <= k < index::meeting(rows, t0, t1).len() ==> 0 <= #[trigger] index::meeting(
                rows,
                t0,
                t1,
            )[k] < rows.len() && rows[index::meeting(rows, t0, t1)[k]].t_start < t1 && t0
                <= rows[index::meeting(rows, t0, t1)[k]].t_end,
        forall|p: int|
            0 <= p < rows.len() && (#[trigger] rows[p]).t_start < t1 && t0 <= rows[p].t_end
                ==> index::meeting(rows, t0, t1).contains(p),
    decreases rows.len(),
{
    if rows.len() > 0 {
        let init = rows.drop_last();
        let before = index::meeting(init, t0, t1);
        let all = index::meeting(rows, t0, t1);
        lemma_meeting(init, t0, t1);
        assert forall|k: int| 0 <= k < all.len() implies 0 <= #[trigger] all[k] < rows.len()
            && rows[all[k]].t_start < t1 && t0 <= rows[all[k]].t_end by {
            if k < before.len() {
                assert(all[k] == before[k]);
                assert(init[before[k]] == rows[before[k]]);
            }
        }
        assert forall|p: int|
            0 <= p < rows.len() && (#[trigger] rows[p]).t_start < t1 && t0
                <= rows[p].t_end implies all.contains(p) by {
            if p < init.len() {
                assert(init[p] == rows[p]);
                assert(before.contains(p));
                let k = choose|k: int| 0 <= k < before.len() && before[k] == p;
                assert(all[k] == p);
            } else {
                assert(all[all.len() - 1] == p);
            }
        }
    }
}

/// A day that the index lists sessions for has these, and no other, whatever the
/// window.
pub proof fn law_listed_days(
    rows: Seq<index::SummaryView>,
    date: Seq<char>,
    t0: i128,
    t1: i128,
    q: int,
    id: Seq<char>,
)
    requires
        0 <= q < rows.len(),
        rows[q].days.contains(date),
    ensures
        index::ids_of_day(rows, date, t0, t1).contains(id) <==> exists|p: int|
            0 <= p < rows.len() && (#[trigger] rows[p]).id == id && rows[p].days.contains(date),
{
    law_day_lists_active_rows(rows, date);
    let ps = index::on_day(rows, date);
    let ids = index::ids_at(rows, ps);
    assert(ps.contains(q));
    if ids.contains(id) {
        let k = choose|k: int| 0 <= k < ids.len() && ids[k] == id;
        assert(0 <= ps[k] < rows.len());
        assert(ps.contains(ps[k]));
        assert(rows[ps[k]].id == id);
    }
    if exists|p: int|
        0 <= p < rows.len() && (#[trigger] rows[p]).id == id && rows[p].days.contains(date) {
        let p = choose|p: int|
            0 <= p < rows.len() && (#[trigger] rows[p]).id == id && rows[p].days.contains(date);
        assert(ps.contains(p));
        let k = choose|k: int| 0 <= k < ps.len() && ps[k] == p;
        assert(ids[k] == id);
    }
}

/// The days of the index are the days of its rows.
pub proof fn law_days_of_the_index(rows: Seq<index::SummaryView>, date: Seq<char>)
    ensures
        index::days_in(rows).contains(date) <==> exists|p: int|
            0 <= p < rows.len() && (#[trigger] rows[p]).days.contains(date),
{
    law_day_lists_active_rows(rows, date);
    let ps = index::on_day(rows, date);
    if ps.len() > 0 {
        assert(ps.contains(ps[0]));
        assert(0 <= ps[0] < rows.len());
    }
    if exists|p: int| 0 <= p < rows.len() && (#[trigger] rows[p]).days.contains(date) {
        let p = choose|p: int| 0 <= p < rows.len() && (#[trigger] rows[p]).days.contains(date);
        assert(ps.contains(p));
    }
}

/// The index keeps a row for each session, in scan order, which says what the
/// session says.
pub proof fn law_rows_say_what_sessions_say(ds: Seq<index::Dated>, i: int)
    requires
        0 <= i < ds.len(),
    ensures
        index::summaries_of(ds).len() == ds.len(),
        ({
            let row = index::summaries_of(ds)[i];
            let s = ds[i].session@;
            &&& row.id == s.id
            &&& row.title == s.title
            &&& row.profile == s.profile
            &&& row.source == s.source
            &&& row.kind == s.kind
            &&& row.t_start == s.t_start
            &&& row.t_end == s.t_end
            &&& row.span_count == s.spans.len()
            &&& row.days.len() == ds[i].days@.len()
            &&& forall|k: int| 0 <= k < row.days.len() ==> #[trigger] row.days[k] == ds[i].days@[k]@
        }),
{
}

/// A kind of session has a name of its own.
pub proof fn law_kinds_have_names()
    ensures
        index::name_of_kind(model::SessionKind::Human) == "human"@,
        index::name_of_kind(model::SessionKind::Sub) == "sub"@,
{
}

/// One more file is stamped behind the others with its own time, where that could be
/// read.
pub proof fn law_one_more_file(files: Seq<FileState>, f: FileState)
    ensures
        index::stamps_of(files.push(f)) == match f.mtime {
            Some(m) => index::stamps_of(files).push((f.path@, m)),
            None => index::stamps_of(files),
        },
        index::stamps_of(Seq::empty()).len() == 0,
{
    assert(files.push(f).drop_last() =~= files);
}

/// Files have changed where one of them cannot be read, or was not there, or was
/// written since, or where there are more or fewer.
pub proof fn law_what_is_a_change(stamps: Seq<(Seq<char>, i128)>, files: Seq<FileState>, i: int)
    requires
        distinct_stamps(stamps),
        0 <= i < files.len(),
        files[i].mtime is None || forall|k: int|
            0 <= k < stamps.len() ==> #[trigger] stamps[k] != (files[i].path@, files[i].mtime->0),
    ensures
        index::files_changed(stamps, files),
{
    lemma_stamped(stamps);
    let f = files[i];
    if let Some(m) = f.mtime {
        if index::stamped(stamps).contains_key(f.path@) && index::stamped(stamps)[f.path@] == m {
            let k = choose|k: int| 0 <= k < stamps.len() && (#[trigger] stamps[k]).0 == f.path@;
            assert(stamps[k] == (f.path@, m));
        }
    }
    assert(!index::is_unchanged(stamps, files[i]));
}

/// Another number of files is a change.
pub proof fn law_other_numbers_are_changes(
    stamps: Seq<(Seq<char>, i128)>,
    files: Seq<FileState>,
)
    requires
        files.len() != stamps.len(),
    ensures
        index::files_changed(stamps, files),
{
}

/// The ids of a day come in scan order: one more row that is active on the day comes
/// last, and one that is not changes nothing, where the day is listed already.
pub proof fn law_ids_of_a_day_in_scan_order(
    rows: Seq<index::SummaryView>,
    row: index::SummaryView,
    date: Seq<char>,
    t0: i128,
    t1: i128,
)
    ensures
        (exists|p: int| 0 <= p < rows.len() && (#[trigger] rows[p]).days.contains(date))
            ==> index::ids_of_day(rows.push(row), date, t0, t1) == if row.days.contains(date) {
            index::ids_of_day(rows, date, t0, t1).push(row.id)
        } else {
            index::ids_of_day(rows, date, t0, t1)
        },
        (forall|p: int| 0 <= p < rows.len() ==> !(#[trigger] rows[p]).days.contains(date))
            ==> index::ids_of_day(rows.push(row), date, t0, t1) == if row.days.contains(date) {
            seq![row.id]
        } else if row.t_start < t1 && t0 <= row.t_end {
            index::ids_of_day(rows, date, t0, t1).push(row.id)
        } else {
            index::ids_of_day(rows, date, t0, t1)
        },
        index::ids_of_day(Seq::empty(), date, t0, t1).len() == 0,
{
    let more = rows.push(row);
    let ps = index::on_day(rows, date);
    let ms = index::meeting(rows, t0, t1);
    assert(more.drop_last() =~= rows);
    law_day_lists_active_rows(rows, date);
    lemma_meeting(rows, t0, t1);
    if exists|p: int| 0 <= p < rows.len() && (#[trigger] rows[p]).days.contains(date) {
        let p = choose|p: int| 0 <= p < rows.len() && (#[trigger] rows[p]).days.contains(date);
        assert(ps.contains(p));
    } else if ps.len() > 0 {
        assert(ps.contains(ps[0]));
        assert(rows[ps[0]].days.contains(date));
    }
    assert(index::ids_at(more, ps) =~= index::ids_at(rows, ps));
    assert(index::ids_at(more, ms) =~= index::ids_at(rows, ms));
    assert(index::ids_at(more, ps.push(rows.len() as int)) =~= index::ids_at(rows, ps).push(row.id));
    assert(index::ids_at(more, ms.push(rows.len() as int)) =~= index::ids_at(rows, ms).push(row.id));
    if ps.len() == 0 {
        assert(index::ids_at(rows, ps).push(row.id) =~= seq![row.id]);
    }
    assert(index::on_day(Seq::empty(), date).len() == 0);
    assert(index::meeting(Seq::empty(), t0, t1).len() == 0);
}

/// Of two stamps of one file the later stands, and a stamp says nothing of other
/// files.
pub proof fn law_latest_stamp_stands(
    stamps: Seq<(Seq<char>, i128)>,
    path: Seq<char>,
    mtime: i128,
    f: FileState,
)
    ensures
        f.path@ == path ==> (index::is_unchanged(stamps.push((path, mtime)), f) <==> f.mtime
            == Some(mtime)),
        f.path@ != path ==> (index::is_unchanged(stamps.push((path, mtime)), f)
            <==> index::is_unchanged(stamps, f)),
        !index::is_unchanged(Seq::empty(), f),
{
    assert(stamps.push((path, mtime)).drop_last() =~= stamps);
}

} // verus!
