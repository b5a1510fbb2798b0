//! What holds of the loaders as a whole.
use crate::loaders::hermes;
use crate::loaders::prime;
use crate::model::SessionKind;
use crate::order;
use crate::stats;
use crate::timeline;
use crate::timeline::Role;
use crate::timeline_laws;
use crate::window;
use crate::profiles;
use vstd::prelude::*;

verus! {

proof fn lemma_live_concat(a: Seq<hermes::MsgView>, b: Seq<hermes::MsgView>)
    ensures
        hermes::live_rows(a + b) == hermes::live_rows(a) + hermes::live_rows(b),
    decreases b.len(),
{
    if b.len() == 0 {
        assert(a + b =~= a);
        assert(hermes::live_rows(a) + hermes::live_rows(b) =~= hermes::live_rows(a));
    } else {
        lemma_live_concat(a, b.drop_last());
        assert((a + b).drop_last() =~= a + b.drop_last());
        assert((a + b).last() == b.last());
        assert(hermes::live_rows(a + b) =~= hermes::live_rows(a) + hermes::live_rows(b));
    }
}

/// Dead history is excluded: a row that is not live changes nothing, wherever it
/// stands in the table.
pub proof fn law_dead_history_is_excluded(
    profile: profiles::ProfileView,
    row: hermes::SessView,
    before: Seq<hermes::MsgView>,
    dead: hermes::MsgView,
    after: Seq<hermes::MsgView>,
)
    requires
        !hermes::is_live(dead),
    ensures
        hermes::shown_rows(before + seq![dead] + after) == hermes::shown_rows(before + after),
        hermes::built(profile, row, before + seq![dead] + after) == hermes::built(
            profile,
            row,
            before + after,
        ),
{
    let one = seq![dead];
    lemma_live_concat(before + one, after);
    lemma_live_concat(before, one);
    lemma_live_concat(before, after);
    assert(hermes::live_rows(one.drop_last()) =~= Seq::empty());
    assert(hermes::live_rows(one) =~= Seq::empty());
    assert(hermes::live_rows(before) + hermes::live_rows(one) =~= hermes::live_rows(before));
}

/// Whether no two rows stand at one position.
pub open spec fn distinct_positions(rows: Seq<hermes::MsgView>) -> bool {
    forall|i: int, j: int|
        0 <= i < j < rows.len() ==> hermes::position(#[trigger] rows[i]) != hermes::position(
            #[trigger] rows[j],
        )
}

/// Whether positions only increase.
spec fn increasing(rows: Seq<hermes::MsgView>) -> bool {
    forall|i: int, j: int|
        0 <= i < j < rows.len() ==> hermes::position(#[trigger] rows[i]) < hermes::position(
            #[trigger] rows[j],
        )
}

/// Increasing rows with the same members are the same rows.
proof fn lemma_increasing_is_unique(a: Seq<hermes::MsgView>, b: Seq<hermes::MsgView>)
    requires
        increasing(a),
        increasing(b),
        forall|m: hermes::MsgView| a.contains(m) <==> b.contains(m),
    ensures
        a == b,
    decreases a.len(),
{
    if a.len() == 0 {
        if b.len() > 0 {
            assert(b.contains(b[0]));
            assert(a.contains(b[0]));
        }
        assert(a =~= b);
    } else {
        assert(a.contains(a.last()));
        assert(b.contains(a.last()));
        assert(b.len() > 0);
        assert(b.contains(b.last()));
        assert(a.contains(b.last()));
        let i = choose|i: int| 0 <= i < b.len() && b[i] == a.last();
        let j = choose|j: int| 0 <= j < a.len() && a[j] == b.last();
        if i < b.len() - 1 {
            assert(hermes::position(b[i]) < hermes::position(b[b.len() - 1]));
            if j < a.len() - 1 {
                assert(hermes::position(a[j]) < hermes::position(a[a.len() - 1]));
            }
        }
        assert(a.last() == b.last());
        let x = a.drop_last();
        let y = b.drop_last();
        assert forall|m: hermes::MsgView| x.contains(m) <==> y.contains(m) by {
            if x.contains(m) {
                let k = choose|k: int| 0 <= k < x.len() && x[k] == m;
                assert(a[k] == m);
                assert(a.contains(m));
                let l = choose|l: int| 0 <= l < b.len() && b[l] == m;
                if l == b.len() - 1 {
                    assert(hermes::position(a[k]) < hermes::position(a[a.len() - 1]));
                }
                assert(y[l] == m);
            }
            if y.contains(m) {
                let k = choose|k: int| 0 <= k < y.len() && y[k] == m;
                assert(b[k] == m);
                assert(b.contains(m));
                let l = choose|l: int| 0 <= l < a.len() && a[l] == m;
                if l == a.len() - 1 {
                    assert(hermes::position(b[k]) < hermes::position(b[b.len() - 1]));
                }
                assert(x[l] == m);
            }
        }
        lemma_increasing_is_unique(x, y);
        assert(a =~= x.push(a.last()));
        assert(b =~= y.push(b.last()));
    }
}

/// The rows are shown by position, each live row once.
pub proof fn law_rows_are_shown_by_position(rows: Seq<hermes::MsgView>)
    ensures
        hermes::shown_rows(rows).len() == hermes::live_rows(rows).len(),
        forall|i: int, j: int|
            0 <= i < j < hermes::shown_rows(rows).len() ==> hermes::position(
                #[trigger] hermes::shown_rows(rows)[i],
            ) <= hermes::position(#[trigger] hermes::shown_rows(rows)[j]),
        forall|m: hermes::MsgView|
            hermes::shown_rows(rows).contains(m) <==> hermes::live_rows(rows).contains(m),
{
    let live = hermes::live_rows(rows);
    let keys = live.map_values(|m: hermes::MsgView| hermes::position(m));
    let o = order::key_order(keys);
    let shown = hermes::shown_rows(rows);
    order::law_keys_order(keys);
    order::law_order_sorts(keys.len(), order::by_key(keys));
    assert forall|i: int, j: int| 0 <= i < j < shown.len() implies hermes::position(
        #[trigger] shown[i],
    ) <= hermes::position(#[trigger] shown[j]) by {
        assert(order::comes_before(order::by_key(keys), o[i], o[j]));
        assert(shown[i] == live[o[i]] && shown[j] == live[o[j]]);
    }
    assert forall|m: hermes::MsgView| shown.contains(m) <==> live.contains(m) by {
        if shown.contains(m) {
            let k = choose|k: int| 0 <= k < shown.len() && shown[k] == m;
            assert(live[o[k]] == m);
        }
        if live.contains(m) {
            let p = choose|p: int| 0 <= p < live.len() && live[p] == m;
            assert(o.contains(p));
            let k = choose|k: int| 0 <= k < o.len() && o[k] == p;
            assert(shown[k] == m);
        }
    }
}

/// The order of the table does not matter: two tables with the same live rows, at
/// positions of their own, make the same session.
pub proof fn law_table_order_does_not_matter(
    profile: profiles::ProfileView,
    row: hermes::SessView,
    a: Seq<hermes::MsgView>,
    b: Seq<hermes::MsgView>,
)
    requires
        distinct_positions(hermes::live_rows(a)),
        distinct_positions(hermes::live_rows(b)),
        forall|m: hermes::MsgView|
            hermes::live_rows(a).contains(m) <==> hermes::live_rows(b).contains(m),
    ensures
        hermes::shown_rows(a) == hermes::shown_rows(b),
        hermes::built(profile, row, a) == hermes::built(profile, row, b),
{
    law_rows_are_shown_by_position(a);
    law_rows_are_shown_by_position(b);
    lemma_shown_increasing(a);
    lemma_shown_increasing(b);
    lemma_increasing_is_unique(hermes::shown_rows(a), hermes::shown_rows(b));
}

/// Rows at positions of their own are shown in increasing order.
proof fn lemma_shown_increasing(rows: Seq<hermes::MsgView>)
    requires
        distinct_positions(hermes::live_rows(rows)),
    ensures
        increasing(hermes::shown_rows(rows)),
{
    let live = hermes::live_rows(rows);
    let keys = live.map_values(|m: hermes::MsgView| hermes::position(m));
    let o = order::key_order(keys);
    let shown = hermes::shown_rows(rows);
    order::law_keys_order(keys);
    order::law_order_sorts(keys.len(), order::by_key(keys));
    assert forall|i: int, j: int| 0 <= i < j < shown.len() implies hermes::position(
        #[trigger] shown[i],
    ) < hermes::position(#[trigger] shown[j]) by {
        assert(order::comes_before(order::by_key(keys), o[i], o[j]));
        assert(shown[i] == live[o[i]] && shown[j] == live[o[j]]);
        assert(o[i] != o[j]);
        if o[i] < o[j] {
            assert(hermes::position(live[o[i]]) != hermes::position(live[o[j]]));
        } else {
            assert(hermes::position(live[o[j]]) != hermes::position(live[o[i]]));
        }
    }
}

/// Injected user rows are never human input: a session whose user rows are all
/// injected is nobody's.
pub proof fn law_injected_rows_are_not_human(
    profile: profiles::ProfileView,
    row: hermes::SessView,
    msgs: Seq<hermes::MsgView>,
)
    requires
        forall|i: int|
            0 <= i < msgs.len() && hermes::role_of((#[trigger] msgs[i]).role) == Role::User
                ==> msgs[i].pmid is Some,
        hermes::built(profile, row, msgs) is Some,
    ensures
        hermes::built(profile, row, msgs)->0.kind == SessionKind::Sub,
{
    let es = hermes::events_of(msgs);
    let shown = hermes::shown_rows(msgs);
    law_rows_are_shown_by_position(msgs);
    assert(!timeline::has_human(es)) by {
        if timeline::has_human(es) {
            let i = choose|i: int| 0 <= i < es.len() && timeline::is_human(#[trigger] es[i]);
            assert(es[i] == hermes::event_of(shown[i]));
            assert(shown.contains(shown[i]));
            lemma_live_is_in_table(msgs, shown[i]);
            let k = choose|k: int| 0 <= k < msgs.len() && msgs[k] == shown[i];
            assert(hermes::role_of(msgs[k].role) == Role::User);
        }
    }
}

/// A live row is one of the table.
proof fn lemma_live_is_in_table(rows: Seq<hermes::MsgView>, m: hermes::MsgView)
    requires
        hermes::live_rows(rows).contains(m),
    ensures
        rows.contains(m),
        hermes::is_live(m),
    decreases rows.len(),
{
    let live = hermes::live_rows(rows);
    let before = hermes::live_rows(rows.drop_last());
    let k = choose|k: int| 0 <= k < live.len() && live[k] == m;
    if k < before.len() {
        assert(before[k] == m);
        assert(before.contains(m));
        lemma_live_is_in_table(rows.drop_last(), m);
        let i = choose|i: int| 0 <= i < rows.drop_last().len() && rows.drop_last()[i] == m;
        assert(rows[i] == m);
    } else {
        assert(rows[rows.len() - 1] == m);
    }
}

/// A session that another one started is never human, and a session of its own is
/// human exactly when a user row that counts was not injected.
pub proof fn law_kind_of_session(
    profile: profiles::ProfileView,
    row: hermes::SessView,
    msgs: Seq<hermes::MsgView>,
)
    requires
        hermes::built(profile, row, msgs) is Some,
    ensures
        hermes::built(profile, row, msgs)->0.kind == SessionKind::Human <==> row.parent is None
            && exists|i: int|
            0 <= i < hermes::shown_rows(msgs).len() && hermes::role_of(
                (#[trigger] hermes::shown_rows(msgs)[i]).role,
            ) == Role::User && hermes::shown_rows(msgs)[i].pmid is None,
{
    let es = hermes::events_of(msgs);
    let shown = hermes::shown_rows(msgs);
    assert forall|i: int| 0 <= i < es.len() implies #[trigger] es[i] == hermes::event_of(
        shown[i],
    ) by {}
    if timeline::has_human(es) {
        let i = choose|i: int| 0 <= i < es.len() && timeline::is_human(#[trigger] es[i]);
        assert(hermes::role_of(shown[i].role) == Role::User && shown[i].pmid is None);
    }
    if exists|i: int|
        0 <= i < shown.len() && hermes::role_of((#[trigger] shown[i]).role) == Role::User
            && shown[i].pmid is None {
        let i = choose|i: int|
            0 <= i < shown.len() && hermes::role_of((#[trigger] shown[i]).role) == Role::User
                && shown[i].pmid is None;
        assert(timeline::is_human(es[i]));
    }
}

/// A malformed payload costs its own calls and nothing else: the row logs what it
/// would log without the payload.
pub proof fn law_malformed_payload_costs_its_calls(m: hermes::MsgView)
    requires
        hermes::is_malformed(m),
    ensures
        hermes::event_of(m) == hermes::event_of(hermes::MsgView { tool_calls: None, ..m }),
        hermes::event_of(m).role == Role::Assistant,
        hermes::event_of(m).t == m.ts,
{
}

/// One bad record never loses a profile's other sessions: whatever the other
/// sessions hold, each session that can be built is loaded.
pub proof fn law_profile_keeps_every_session(profile: profiles::ProfileView, fs: Seq<hermes::Fetched>, i: int)
    requires
        0 <= i < fs.len(),
        hermes::loaded(profile, fs[i]) is Some,
    ensures
        hermes::all_loaded(profile, fs).contains(hermes::loaded(profile, fs[i])->0),
    decreases fs.len(),
{
    let before = hermes::all_loaded(profile, fs.drop_last());
    let all = hermes::all_loaded(profile, fs);
    if i == fs.len() - 1 {
        assert(all[all.len() - 1] == hermes::loaded(profile, fs[i])->0);
    } else {
        law_profile_keeps_every_session(profile, fs.drop_last(), i);
        let s = hermes::loaded(profile, fs[i])->0;
        let k = choose|k: int| 0 <= k < before.len() && before[k] == s;
        assert(all[k] == s);
    }
}

/// Whether every session of `fs` was read without a loss.
pub open spec fn all_healthy(fs: Seq<hermes::Fetched>) -> bool {
    forall|i: int| 0 <= i < fs.len() ==> is_healthy(#[trigger] fs[i])
}

/// Whether the messages of a session were read, and every row is good.
pub open spec fn is_healthy(f: hermes::Fetched) -> bool {
    match f.messages {
        hermes::Messages::Unavailable => false,
        hermes::Messages::Rows { rows, undecodable } => undecodable == 0 && forall|i: int|
            0 <= i < hermes::shown_rows(hermes::msg_views(rows@)).len() ==> !hermes::is_malformed(
                #[trigger] hermes::shown_rows(hermes::msg_views(rows@))[i],
            ),
    }
}

proof fn lemma_none_malformed(rows: Seq<hermes::MsgView>)
    requires
        forall|i: int| 0 <= i < rows.len() ==> !hermes::is_malformed(#[trigger] rows[i]),
    ensures
        hermes::malformed_rows(rows) == 0,
    decreases rows.len(),
{
    if rows.len() > 0 {
        let init = rows.drop_last();
        assert forall|i: int| 0 <= i < init.len() implies !hermes::is_malformed(
            #[trigger] init[i],
        ) by {
            assert(init[i] == rows[i]);
        }
        lemma_none_malformed(init);
        assert(!hermes::is_malformed(rows[rows.len() - 1]));
    }
}

proof fn lemma_healthy(fs: Seq<hermes::Fetched>)
    requires
        all_healthy(fs),
    ensures
        hermes::lost_sessions(fs) == 0,
        hermes::lost_rows(fs) == 0,
    decreases fs.len(),
{
    if fs.len() > 0 {
        let init = fs.drop_last();
        assert(all_healthy(init)) by {
            assert forall|i: int| 0 <= i < init.len() implies is_healthy(#[trigger] init[i]) by {
                assert(init[i] == fs[i]);
            }
        }
        lemma_healthy(init);
        assert(is_healthy(fs[fs.len() - 1]));
        match fs.last().messages {
            hermes::Messages::Unavailable => {},
            hermes::Messages::Rows { rows, .. } => {
                lemma_none_malformed(hermes::shown_rows(hermes::msg_views(rows@)));
            },
        }
    }
}

/// A healthy profile skips nothing.
pub proof fn law_healthy_profiles_skip_nothing(s: stats::StatsView, p: hermes::ProfileRows)
    requires
        p.undecodable == 0,
        all_healthy(p.sessions@),
    ensures
        hermes::counted_profile(s, p) == s,
{
    lemma_healthy(p.sessions@);
    stats::lemma_counted_on(s.sessions, 0, 0);
    stats::lemma_counted_on(s.rows, 0, 0);
}

/// A session file all of whose lines are messages, other entries or blank skips
/// nothing.
pub proof fn law_healthy_files_skip_nothing(lines: Seq<Seq<char>>)
    requires
        forall|i: int|
            0 <= i < lines.len() ==> !(prime::line_of(#[trigger] lines[i]) is Malformed)
                || prime::is_blank(lines[i]),
    ensures
        prime::malformed_lines(lines) == 0,
    decreases lines.len(),
{
    if lines.len() > 0 {
        let init = lines.drop_last();
        assert forall|i: int| 0 <= i < init.len() implies !(prime::line_of(
            #[trigger] init[i],
        ) is Malformed) || prime::is_blank(init[i]) by {
            assert(init[i] == lines[i]);
        }
        law_healthy_files_skip_nothing(init);
        assert(lines[lines.len() - 1] == lines.last());
    }
}

/// The selected sessions are those that meet the window, each once, by start.
pub proof fn law_selection_is_the_window(rows: Seq<hermes::SessView>, t0: i128, t1: i128)
    ensures
        forall|k: int|
            0 <= k < hermes::selection(rows, t0, t1).len() ==> 0 <= #[trigger] hermes::selection(
                rows,
                t0,
                t1,
            )[k] < rows.len() && hermes::is_selected(
                rows[hermes::selection(rows, t0, t1)[k]],
                t0,
                t1,
            ),
        forall|p: int|
            0 <= p < rows.len() && hermes::is_selected(rows[p], t0, t1)
                ==> #[trigger] hermes::selection(rows, t0, t1).contains(p),
        forall|j: int, k: int|
            0 <= j < k < hermes::selection(rows, t0, t1).len() ==> rows[#[trigger] hermes::selection(
                rows,
                t0,
                t1,
            )[j]].started_at->0 <= rows[#[trigger] hermes::selection(rows, t0, t1)[k]].started_at->0
                && hermes::selection(rows, t0, t1)[j] != hermes::selection(rows, t0, t1)[k],
{
    let ps = hermes::selected_places(rows, t0, t1);
    let keys = hermes::starts_at(rows, ps);
    let o = order::key_order(keys);
    let sel = hermes::selection(rows, t0, t1);
    lemma_selected_places(rows, t0, t1);
    order::law_keys_order(keys);
    order::law_order_sorts(keys.len(), order::by_key(keys));
    assert forall|k: int| 0 <= k < sel.len() implies 0 <= #[trigger] sel[k] < rows.len()
        && hermes::is_selected(rows[sel[k]], t0, t1) by {
        assert(sel[k] == ps[o[k]]);
    }
    assert forall|p: int|
        0 <= p < rows.len() && hermes::is_selected(rows[p], t0, t1) implies #[trigger] sel.contains(
        p,
    ) by {
        assert(ps.contains(p));
        let q = choose|q: int| 0 <= q < ps.len() && ps[q] == p;
        assert(o.contains(q));
        let k = choose|k: int| 0 <= k < o.len() && o[k] == q;
        assert(sel[k] == p);
    }
    assert forall|j: int, k: int| 0 <= j < k < sel.len() implies rows[#[trigger] sel[j]].started_at->0
        <= rows[#[trigger] sel[k]].started_at->0 && sel[j] != sel[k] by {
        assert(order::comes_before(order::by_key(keys), o[j], o[k]));
        assert(sel[j] == ps[o[j]] && sel[k] == ps[o[k]]);
        assert(hermes::is_selected(rows[ps[o[j]]], t0, t1));
        assert(hermes::is_selected(rows[ps[o[k]]], t0, t1));
        assert(keys[o[j]] == rows[ps[o[j]]].started_at.unwrap());
        assert(keys[o[k]] == rows[ps[o[k]]].started_at.unwrap());
        assert(o[j] != o[k]);
        if o[j] < o[k] {
            assert(ps[o[j]] < ps[o[k]]);
        } else {
            assert(ps[o[k]] < ps[o[j]]);
        }
    }
}

/// The selected places are those of the selected rows, in table order.
pub proof fn lemma_selected_places(rows: Seq<hermes::SessView>, t0: i128, t1: i128)
    ensures
        forall|k: int|
            0 <= k < hermes::selected_places(rows, t0, t1).len() ==> 0
                <= #[trigger] hermes::selected_places(rows, t0, t1)[k] < rows.len()
                && hermes::is_selected(rows[hermes::selected_places(rows, t0, t1)[k]], t0, t1),
        forall|j: int, k: int|
            0 <= j < k < hermes::selected_places(rows, t0, t1).len()
                ==> #[trigger] hermes::selected_places(rows, t0, t1)[j]
                < #[trigger] hermes::selected_places(rows, t0, t1)[k],
        forall|p: int|
            0 <= p < rows.len() && hermes::is_selected(rows[p], t0, t1)
                ==> #[trigger] hermes::selected_places(rows, t0, t1).contains(p),
    decreases rows.len(),
{
    if rows.len() > 0 {
        let init = rows.drop_last();
        let before = hermes::selected_places(init, t0, t1);
        let all = hermes::selected_places(rows, t0, t1);
        lemma_selected_places(init, t0, t1);
        assert forall|k: int| 0 <= k < all.len() implies 0 <= #[trigger] all[k] < rows.len()
            && hermes::is_selected(rows[all[k]], t0, t1) by {
            if k < before.len() {
                assert(all[k] == before[k]);
                assert(init[before[k]] == rows[before[k]]);
            }
        }
        assert forall|j: int, k: int| 0 <= j < k < all.len() implies #[trigger] all[j]
            < #[trigger] all[k] by {
            assert(all[j] == before[j]);
            if k < before.len() {
                assert(all[k] == before[k]);
            }
        }
        assert forall|p: int|
            0 <= p < rows.len() && hermes::is_selected(rows[p], t0, t1) implies #[trigger] all.contains(
            p,
        ) by {
            if p < init.len() {
                assert(init[p] == rows[p]);
                assert(before.contains(p));
                let k = choose|k: int| 0 <= k < before.len() && before[k] == p;
                assert(all[k] == p);
            } else {
                assert(all[all.len() - 1] == p);
            }
        }
    }
}

/// No session that overlaps the window is missed: where its row's extent holds
/// the session's, a session that meets the window is selected.
pub proof fn law_selection_misses_nothing(
    profile: profiles::ProfileView,
    row: hermes::SessView,
    msgs: Seq<hermes::MsgView>,
    t0: i128,
    t1: i128,
)
    requires
        row.archived == Some(0i64),
        row.started_at is Some,
        hermes::built(profile, row, msgs) is Some,
        row.started_at->0 <= hermes::built(profile, row, msgs)->0.t_start,
        hermes::built(profile, row, msgs)->0.t_end <= hermes::row_end(row, row.started_at->0),
        window::overlaps(
            hermes::built(profile, row, msgs)->0.t_start,
            hermes::built(profile, row, msgs)->0.t_end,
            t0,
            t1,
        ),
    ensures
        hermes::is_selected(row, t0, t1),
{
}

proof fn lemma_events_concat(a: Seq<Seq<char>>, b: Seq<Seq<char>>)
    ensures
        prime::events_of(a + b) == prime::events_of(a) + prime::events_of(b),
    decreases b.len(),
{
    if b.len() == 0 {
        assert(a + b =~= a);
        assert(prime::events_of(a) + prime::events_of(b) =~= prime::events_of(a));
    } else {
        lemma_events_concat(a, b.drop_last());
        assert((a + b).drop_last() =~= a + b.drop_last());
        assert((a + b).last() == b.last());
        assert(prime::events_of(a + b) =~= prime::events_of(a) + prime::events_of(b));
    }
}

/// One malformed line never loses a file: a line that logs no message changes
/// nothing, wherever it stands.
pub proof fn law_malformed_line_costs_only_itself(
    stem: Seq<char>,
    before: Seq<Seq<char>>,
    line: Seq<char>,
    after: Seq<Seq<char>>,
)
    requires
        !(prime::line_of(line) is Message),
    ensures
        prime::events_of(before + seq![line] + after) == prime::events_of(before + after),
        prime::session_in(stem, before + seq![line] + after) == prime::session_in(
            stem,
            before + after,
        ),
{
    let one = seq![line];
    lemma_events_concat(before + one, after);
    lemma_events_concat(before, one);
    lemma_events_concat(before, after);
    assert(prime::events_of(one.drop_last()) =~= Seq::empty());
    assert(prime::events_of(one) =~= Seq::empty());
    assert(prime::events_of(before) + prime::events_of(one) =~= prime::events_of(before));
}

/// Appending to a file keeps the spans that it had.
pub proof fn law_appending_lines_keeps_spans(lines: Seq<Seq<char>>, more: Seq<Seq<char>>)
    ensures
        timeline::spans_of(prime::events_of(lines)).is_prefix_of(
            timeline::spans_of(prime::events_of(lines + more)),
        ),
{
    lemma_events_concat(lines, more);
    timeline_laws::law_appending_keeps_spans(prime::events_of(lines), prime::events_of(more));
}

/// A file is loaded exactly when its session meets the window, whatever the order
/// of its lines.
pub proof fn law_overlapping_files_are_loaded(
    stem: Seq<char>,
    lines: Seq<Seq<char>>,
    t0: i128,
    t1: i128,
)
    requires
        prime::session_in(stem, lines) is Some,
    ensures
        prime::in_window(lines, t0, t1) <==> window::overlaps(
            prime::session_in(stem, lines)->0.t_start,
            prime::session_in(stem, lines)->0.t_end,
            t0,
            t1,
        ),
{
}

/// A window never clips a session: whatever window it is loaded for, it is the
/// same session, spans outside the window included.
pub proof fn law_windows_never_clip(f: prime::DirFile, t0: i128, t1: i128, u0: i128, u1: i128)
    requires
        prime::file_session(f, t0, t1) is Some,
        prime::file_session(f, u0, u1) is Some,
    ensures
        prime::file_session(f, t0, t1) == prime::file_session(f, u0, u1),
{
}

} // verus!
