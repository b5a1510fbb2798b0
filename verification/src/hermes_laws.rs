//! What the rows of a Hermes database say, column by column.
use crate::json;
use crate::json::JsonView;
use crate::loader_laws;
use crate::loaders::hermes;
use crate::loaders::hermes::{Fetched, Messages, MsgView, SessView};
use crate::model::SessionKind;
use crate::order;
use crate::paths;
use crate::profiles;
use crate::stats;
use crate::text;
use crate::timeline;
use crate::timeline::{CallView, EventView, Role};
use crate::timeline_laws;
use vstd::prelude::*;

verus! {

/// The role of a row is that of its event.
pub proof fn law_roles_of_rows(m: MsgView)
    ensures
        hermes::event_of(m).role == Role::User <==> m.role == "user"@,
        hermes::event_of(m).role == Role::Assistant <==> m.role == "assistant"@,
        hermes::event_of(m).role == Role::Tool <==> m.role == "tool"@,
{
    reveal_strlit("user");
    reveal_strlit("assistant");
    reveal_strlit("tool");
    assert("user"@.len() == 4);
    assert("assistant"@[0] == 'a' && "assistant"@.len() == 9);
    assert("tool"@[0] == 't' && "user"@[0] == 'u');
}

/// The text of a row's event is the row's content, whatever its other columns
/// hold, and empty where it has none.
pub proof fn law_content_is_the_text(m: MsgView)
    ensures
        match m.content {
            Some(c) => hermes::event_of(m).text == c,
            None => hermes::event_of(m).text.len() == 0,
        },
{
    reveal_strlit("");
}

/// Every column has its own place in the event, and changes nothing else: the
/// content the text, the payload the calls, the timestamp the instant, and so on.
pub proof fn law_columns_stand_alone(m: MsgView, n: MsgView)
    ensures
        hermes::event_of(MsgView { tool_calls: n.tool_calls, ..m }) == (EventView {
            calls: hermes::event_of(MsgView { tool_calls: n.tool_calls, ..m }).calls,
            ..hermes::event_of(m)
        }),
        hermes::event_of(MsgView { content: n.content, ..m }) == (EventView {
            text: hermes::event_of(n).text,
            ..hermes::event_of(m)
        }),
        hermes::event_of(MsgView { ts: n.ts, ..m }) == (EventView { t: n.ts, ..hermes::event_of(m) }),
        hermes::event_of(MsgView { pmid: n.pmid, ..m }) == (EventView {
            injected: n.pmid is Some,
            ..hermes::event_of(m)
        }),
        hermes::event_of(MsgView { tool_call_id: n.tool_call_id, ..m }) == (EventView {
            call_id: hermes::event_of(n).call_id,
            ..hermes::event_of(m)
        }),
        hermes::event_of(MsgView { tool_name: n.tool_name, ..m }) == (EventView {
            tool_name: hermes::event_of(n).tool_name,
            ..hermes::event_of(m)
        }),
        hermes::event_of(
            MsgView { id: n.id, display_order: n.display_order, active: n.active, ..m },
        ) == hermes::event_of(m),
        hermes::event_of(MsgView { role: n.role, ..m }) == (EventView {
            role: hermes::event_of(n).role,
            calls: hermes::event_of(MsgView { role: n.role, ..m }).calls,
            ..hermes::event_of(m)
        }),
{
}

/// What a row says of its instant, of who wrote it, and of the call it answers.
pub proof fn law_what_a_row_says(m: MsgView)
    ensures
        hermes::event_of(m).t == m.ts,
        hermes::event_of(m).injected <==> m.pmid is Some,
        m.tool_call_id is Some ==> hermes::event_of(m).call_id == m.tool_call_id->0,
        m.tool_call_id is None ==> hermes::event_of(m).call_id.len() == 0,
        m.tool_name is Some ==> hermes::event_of(m).tool_name == m.tool_name->0,
        m.tool_name is None ==> hermes::event_of(m).tool_name == "tool"@,
{
    reveal_strlit("");
}

/// Only the payload of an assistant row makes calls, one for each item that it
/// lists, in order.
pub proof fn law_payloads_make_calls(m: MsgView)
    ensures
        m.role != "assistant"@ ==> hermes::event_of(m).calls.len() == 0,
        m.tool_calls is None ==> hermes::event_of(m).calls.len() == 0,
        m.tool_calls is Some && !(json::json_text(m.tool_calls->0) is Some && json::json_text(
            m.tool_calls->0,
        )->0 is Array) ==> hermes::event_of(m).calls.len() == 0,
        m.role == "assistant"@ && m.tool_calls is Some ==> match json::json_text(m.tool_calls->0) {
            Some(JsonView::Array(items)) => hermes::event_of(m).calls.len() == items.len()
                && forall|i: int|
                0 <= i < items.len() ==> is_listed_call(
                    items[i],
                    #[trigger] hermes::event_of(m).calls[i],
                ),
            _ => true,
        },
{
    law_roles_of_rows(m);
    reveal_strlit("");
    if m.role == "assistant"@ && m.tool_calls is Some {
        if let Some(JsonView::Array(items)) = json::json_text(m.tool_calls->0) {
            let calls = hermes::event_of(m).calls;
            assert(calls =~= items.map_values(|i: JsonView| hermes::call_of(i)));
            assert forall|i: int| 0 <= i < items.len() implies is_listed_call(
                items[i],
                #[trigger] calls[i],
            ) by {
                assert(calls[i] == hermes::call_of(items[i]));
            }
        }
    }
}

/// Whether `c` is the call that the item `item` of a payload lists: its id is the
/// text of `call_id`, or of `id` where there is no `call_id`; its name and its
/// arguments are those of `function`.
pub open spec fn is_listed_call(item: JsonView, c: CallView) -> bool {
    &&& match json::field(item, "call_id"@) {
        Some(JsonView::Text(s)) => c.id == s,
        Some(_) => c.id.len() == 0,
        None => match json::field(item, "id"@) {
            Some(JsonView::Text(s)) => c.id == s,
            _ => c.id.len() == 0,
        },
    }
    &&& match json::field(item, "function"@) {
        Some(f) => {
            &&& match json::field(f, "name"@) {
                Some(JsonView::Text(s)) => c.name == s,
                _ => c.name == "?"@,
            }
            &&& match json::field(f, "arguments"@) {
                Some(JsonView::Text(s)) => c.args == s,
                _ => c.args.len() == 0,
            }
        },
        None => c.name == "?"@ && c.args.len() == 0,
    }
}

/// A row counts as malformed exactly when it is an assistant row with a payload
/// that is no JSON text.
pub proof fn law_malformed_rows(m: MsgView)
    ensures
        hermes::is_malformed(m) <==> m.role == "assistant"@ && m.tool_calls is Some
            && json::json_text(m.tool_calls->0) is None,
{
    law_roles_of_rows(m);
}

/// Where a row stands: at its display order, or else at its id.
pub open spec fn stands_at(m: MsgView) -> int {
    match m.display_order {
        Some(o) => o as int,
        None => m.id as int,
    }
}

/// The rows that count are those of the table with `active` set to one, each as
/// often as the table has it, by display order, or by id where a row has none.
pub proof fn law_rows_that_count(rows: Seq<MsgView>)
    ensures
        forall|m: MsgView| #[trigger]
            hermes::shown_rows(rows).contains(m) <==> rows.contains(m) && m.active == Some(1i64),
        hermes::shown_rows(rows).len() == live_count(rows),
        forall|i: int, j: int|
            0 <= i < j < hermes::shown_rows(rows).len() ==> stands_at(
                #[trigger] hermes::shown_rows(rows)[i],
            ) <= stands_at(#[trigger] hermes::shown_rows(rows)[j]),
        hermes::events_of(rows).len() == hermes::shown_rows(rows).len(),
        forall|i: int|
            0 <= i < hermes::shown_rows(rows).len() ==> #[trigger] hermes::events_of(rows)[i]
                == hermes::event_of(hermes::shown_rows(rows)[i]),
{
    loader_laws::law_rows_are_shown_by_position(rows);
    lemma_live_count(rows);
    assert forall|m: MsgView| #[trigger]
        hermes::shown_rows(rows).contains(m) <==> rows.contains(m) && m.active == Some(1i64) by {
        lemma_live_rows(rows, m);
    }
    let shown = hermes::shown_rows(rows);
    assert forall|i: int, j: int| 0 <= i < j < shown.len() implies stands_at(#[trigger] shown[i])
        <= stands_at(#[trigger] shown[j]) by {
        assert(hermes::position(shown[i]) <= hermes::position(shown[j]));
    }
}

/// How many rows have `active` set to one.
pub open spec fn live_count(rows: Seq<MsgView>) -> nat
    decreases rows.len(),
{
    if rows.len() == 0 {
        0
    } else if rows.last().active == Some(1i64) {
        live_count(rows.drop_last()) + 1
    } else {
        live_count(rows.drop_last())
    }
}

proof fn lemma_live_count(rows: Seq<MsgView>)
    ensures
        hermes::live_rows(rows).len() == live_count(rows),
    decreases rows.len(),
{
    if rows.len() > 0 {
        lemma_live_count(rows.drop_last());
    }
}

proof fn lemma_live_rows(rows: Seq<MsgView>, m: MsgView)
    ensures
        hermes::live_rows(rows).contains(m) <==> rows.contains(m) && m.active == Some(1i64),
    decreases rows.len(),
{
    if rows.len() > 0 {
        let init = rows.drop_last();
        let before = hermes::live_rows(init);
        let live = hermes::live_rows(rows);
        lemma_live_rows(init, m);
        if live.contains(m) {
            let k = choose|k: int| 0 <= k < live.len() && live[k] == m;
            if k < before.len() {
                assert(before[k] == m);
                let i = choose|i: int| 0 <= i < init.len() && init[i] == m;
                assert(rows[i] == m);
            } else {
                assert(rows[rows.len() - 1] == m);
            }
        }
        if rows.contains(m) && m.active == Some(1i64) {
            let i = choose|i: int| 0 <= i < rows.len() && rows[i] == m;
            if i < init.len() {
                assert(init[i] == m);
                let k = choose|k: int| 0 <= k < before.len() && before[k] == m;
                assert(live[k] == m);
            } else {
                assert(live[live.len() - 1] == m);
            }
        }
    }
}

/// What a session row says stands in the session: its id under the profile's key,
/// the profile's name, its source unless that is empty. There is a session exactly
/// when a row counts.
pub proof fn law_what_a_session_row_says(
    profile: profiles::ProfileView,
    row: SessView,
    msgs: Seq<MsgView>,
)
    ensures
        hermes::built(profile, row, msgs) is Some <==> exists|i: int|
            0 <= i < msgs.len() && (#[trigger] msgs[i]).active == Some(1i64),
        hermes::built(profile, row, msgs) is Some ==> {
            let s = hermes::built(profile, row, msgs)->0;
            &&& s.id == "hermes:"@ + profile.key + ":"@ + row.id
            &&& s.profile == Some(profile.name)
            &&& row.source is None ==> s.source is None
            &&& row.source is Some && row.source->0.len() == 0 ==> s.source is None
            &&& row.source is Some && row.source->0.len() > 0 ==> s.source == row.source
            &&& row.title is Some && row.title->0.len() > 0 ==> s.title == Some(
                text::preview_of(row.title->0),
            )
            &&& row.parent is Some ==> s.kind == SessionKind::Sub
            &&& s.spans == timeline::spans_of(hermes::events_of(msgs))
        },
{
    let es = hermes::events_of(msgs);
    let shown = hermes::shown_rows(msgs);
    law_rows_that_count(msgs);
    timeline_laws::law_session_of_events(hermes::origin_of(profile, row), es);
    if es.len() > 0 {
        assert(shown.contains(shown[0]));
        let i = choose|i: int| 0 <= i < msgs.len() && msgs[i] == shown[0];
        assert(msgs[i].active == Some(1i64));
    }
    if exists|i: int| 0 <= i < msgs.len() && (#[trigger] msgs[i]).active == Some(1i64) {
        let i = choose|i: int| 0 <= i < msgs.len() && (#[trigger] msgs[i]).active == Some(1i64);
        assert(msgs.contains(msgs[i]));
        assert(shown.contains(msgs[i]));
    }
}

/// A session is selected for the window `[t0, t1)` exactly when it is not archived,
/// started before the window ends, and was last active, by its end, its last
/// activity or its start, no earlier than the window opens.
pub proof fn law_selected_rows(rows: Seq<SessView>, t0: i128, t1: i128, p: int)
    requires
        0 <= p < rows.len(),
    ensures
        hermes::selection(rows, t0, t1).contains(p) <==> {
            let r = rows[p];
            &&& r.archived == Some(0i64)
            &&& r.started_at is Some
            &&& r.started_at->0 < t1
            &&& t0 <= if r.ended_at is Some {
                r.ended_at->0
            } else if r.last_activity_at is Some {
                r.last_activity_at->0
            } else {
                r.started_at->0
            }
        },
{
    let sel = hermes::selection(rows, t0, t1);
    loader_laws::law_selection_is_the_window(rows, t0, t1);
    if sel.contains(p) {
        let k = choose|k: int| 0 <= k < sel.len() && sel[k] == p;
        assert(hermes::is_selected(rows[sel[k]], t0, t1));
    }
}

/// A session is found by its id in the first row of that id that is not archived,
/// whatever its time and whatever the other rows say, and nowhere else.
pub proof fn law_found_by_id(
    profile: profiles::ProfileView,
    sid: Seq<char>,
    rows: Seq<SessView>,
    messages: Messages,
    k: int,
)
    requires
        0 <= k < rows.len(),
        rows[k].id == sid,
        rows[k].archived == Some(0i64),
        forall|j: int|
            0 <= j < k ==> (#[trigger] rows[j]).id != sid || rows[j].archived != Some(0i64),
    ensures
        hermes::session_by_id(profile, sid, rows, messages) == match messages {
            Messages::Rows { rows: msgs, .. } => hermes::built(
                profile,
                rows[k],
                hermes::msg_views(msgs@),
            ),
            Messages::Unavailable => None,
        },
{
    lemma_first_open(rows, sid, k);
}

proof fn lemma_first_open(rows: Seq<SessView>, sid: Seq<char>, k: int)
    requires
        0 <= k < rows.len(),
        rows[k].id == sid,
        rows[k].archived == Some(0i64),
        forall|j: int|
            0 <= j < k ==> (#[trigger] rows[j]).id != sid || rows[j].archived != Some(0i64),
    ensures
        hermes::first_open(rows, sid) == Some(rows[k]),
    decreases rows.len(),
{
    if k > 0 {
        let rest = rows.drop_first();
        assert(rows[0].id != sid || rows[0].archived != Some(0i64));
        assert forall|j: int| 0 <= j < k - 1 implies (#[trigger] rest[j]).id != sid
            || rest[j].archived != Some(0i64) by {
            assert(rest[j] == rows[j + 1]);
        }
        lemma_first_open(rest, sid, k - 1);
    }
}

/// An id that no open row has finds nothing.
pub proof fn law_unknown_ids_find_nothing(
    profile: profiles::ProfileView,
    sid: Seq<char>,
    rows: Seq<SessView>,
    messages: Messages,
)
    requires
        forall|j: int|
            0 <= j < rows.len() ==> (#[trigger] rows[j]).id != sid || rows[j].archived != Some(
                0i64,
            ),
    ensures
        hermes::session_by_id(profile, sid, rows, messages) is None,
    decreases rows.len(),
{
    if rows.len() > 0 {
        let rest = rows.drop_first();
        assert(rows[0].id != sid || rows[0].archived != Some(0i64));
        assert forall|j: int| 0 <= j < rest.len() implies (#[trigger] rest[j]).id != sid
            || rest[j].archived != Some(0i64) by {
            assert(rest[j] == rows[j + 1]);
        }
        law_unknown_ids_find_nothing(profile, sid, rest, messages);
    }
}

/// One more session of a profile is loaded behind the others where it can be built,
/// and counts as one lost session where its messages could not be read; its lost
/// rows are those that could not be decoded and those with a malformed payload.
pub proof fn law_one_more_session(profile: profiles::ProfileView, fs: Seq<Fetched>, f: Fetched)
    ensures
        match f.messages {
            Messages::Unavailable => {
                &&& hermes::all_loaded(profile, fs.push(f)) == hermes::all_loaded(profile, fs)
                &&& hermes::lost_sessions(fs.push(f)) == hermes::lost_sessions(fs) + 1
                &&& hermes::lost_rows(fs.push(f)) == hermes::lost_rows(fs)
            },
            Messages::Rows { rows, undecodable } => {
                let s = hermes::built(profile, f.row@, hermes::msg_views(rows@));
                &&& s is Some ==> hermes::all_loaded(profile, fs.push(f)) == hermes::all_loaded(
                    profile,
                    fs,
                ).push(s->0)
                &&& s is None ==> hermes::all_loaded(profile, fs.push(f)) == hermes::all_loaded(
                    profile,
                    fs,
                )
                &&& hermes::lost_sessions(fs.push(f)) == hermes::lost_sessions(fs)
                &&& hermes::lost_rows(fs.push(f)) == hermes::lost_rows(fs) + undecodable
                    + malformed_count(hermes::shown_rows(hermes::msg_views(rows@)))
            },
        },
        hermes::all_loaded(profile, Seq::empty()).len() == 0,
        hermes::lost_sessions(Seq::empty()) == 0,
        hermes::lost_rows(Seq::empty()) == 0,
{
    assert(fs.push(f).drop_last() =~= fs);
    if let Messages::Rows { rows, .. } = f.messages {
        lemma_malformed_count(hermes::shown_rows(hermes::msg_views(rows@)));
    }
}

/// How many rows are assistant rows with a payload that is no JSON text.
pub open spec fn malformed_count(rows: Seq<MsgView>) -> nat
    decreases rows.len(),
{
    if rows.len() == 0 {
        0
    } else if rows.last().role == "assistant"@ && rows.last().tool_calls is Some && json::json_text(
        rows.last().tool_calls->0,
    ) is None {
        malformed_count(rows.drop_last()) + 1
    } else {
        malformed_count(rows.drop_last())
    }
}

proof fn lemma_malformed_count(rows: Seq<MsgView>)
    ensures
        hermes::malformed_rows(rows) == malformed_count(rows),
    decreases rows.len(),
{
    if rows.len() > 0 {
        lemma_malformed_count(rows.drop_last());
        law_malformed_rows(rows.last());
    }
}

/// A profile counts its lost sessions, the session rows that could not be decoded,
/// and its lost rows; as long as no count wraps around, none is forgotten.
pub proof fn law_profiles_count_their_losses(s: stats::StatsView, p: hermes::ProfileRows)
    requires
        s.sessions + hermes::lost_sessions(p.sessions@) + p.undecodable <= u64::MAX,
        s.rows + hermes::lost_rows(p.sessions@) <= u64::MAX,
    ensures
        hermes::counted_profile(s, p).sources == s.sources,
        hermes::counted_profile(s, p).sessions == s.sessions + hermes::lost_sessions(p.sessions@)
            + p.undecodable,
        hermes::counted_profile(s, p).rows == s.rows + hermes::lost_rows(p.sessions@),
{
}

/// The databases of a home: its own comes first, under the name `default`, then one
/// for each directory, each where that directory is, under the directory's name.
pub proof fn law_where_databases_are(home: Seq<char>, has_top: bool, names: Seq<Seq<char>>)
    requires
        home.len() > 0,
        home.last() != '/',
        forall|i: int| 0 <= i < names.len() ==> profiles::is_entry(#[trigger] names[i]),
    ensures
        hermes::dbs_of(home, has_top, names).len() == names.len() + if has_top {
            1int
        } else {
            0
        },
        has_top ==> hermes::dbs_of(home, has_top, names)[0].profile.name == "default"@
            && hermes::dbs_of(home, has_top, names)[0].path == home + "/state.db"@,
        forall|k: int|
            (if has_top {
                1int
            } else {
                0
            }) <= k < hermes::dbs_of(home, has_top, names).len() ==> names.contains(
                (#[trigger] hermes::dbs_of(home, has_top, names)[k]).profile.name,
            ) && hermes::dbs_of(home, has_top, names)[k].path == home + "/profiles/"@
                + hermes::dbs_of(home, has_top, names)[k].profile.name + (if hermes::dbs_of(
                home,
                has_top,
                names,
            )[k].profile.name.len() > 0 {
                "/state.db"@
            } else {
                "state.db"@
            }),
        forall|i: int|
            0 <= i < names.len() ==> exists|k: int|
                0 <= k < hermes::dbs_of(home, has_top, names).len() && (#[trigger] hermes::dbs_of(
                    home,
                    has_top,
                    names,
                )[k]).profile.name == #[trigger] names[i],
        forall|i: int, j: int|
            (if has_top {
                1int
            } else {
                0
            }) <= i < j < hermes::dbs_of(home, has_top, names).len() ==> paths::no_later(
                (#[trigger] hermes::dbs_of(home, has_top, names)[i]).profile.name,
                (#[trigger] hermes::dbs_of(home, has_top, names)[j]).profile.name,
            ),
{
    let first: int = if has_top {
        1
    } else {
        0
    };
    let sorted = paths::sorted_names(names);
    let dbs = hermes::dbs_of(home, has_top, names);
    paths::law_names_are_sorted(names);
    reveal_strlit("state.db");
    reveal_strlit("/state.db");
    reveal_strlit("profiles");
    reveal_strlit("/profiles/");
    reveal_strlit("/");
    assert(profiles::top_path(home) =~= home + "/state.db"@);
    assert forall|k: int| first <= k < dbs.len() implies names.contains(
        (#[trigger] dbs[k]).profile.name,
    ) && dbs[k].path == home + "/profiles/"@ + dbs[k].profile.name + (if dbs[k].profile.name.len()
        > 0 {
        "/state.db"@
    } else {
        "state.db"@
    }) by {
        let name = sorted[k - first];
        assert(dbs[k] == hermes::named_db(home, has_top, name));
        assert(sorted.contains(name));
        let i = choose|i: int| 0 <= i < names.len() && names[i] == name;
        assert(!names[i].contains('/'));
        lemma_named_path(home, name);
    }
    assert forall|i: int| 0 <= i < names.len() implies exists|k: int|
        0 <= k < dbs.len() && (#[trigger] dbs[k]).profile.name == #[trigger] names[i] by {
        assert(names.contains(names[i]));
        assert(sorted.contains(names[i]));
        let k = choose|k: int| 0 <= k < sorted.len() && sorted[k] == names[i];
        assert(dbs[k + first] == hermes::named_db(home, has_top, names[i]));
    }
    assert forall|i: int, j: int| first <= i < j < dbs.len() implies paths::no_later(
        (#[trigger] dbs[i]).profile.name,
        (#[trigger] dbs[j]).profile.name,
    ) by {
        assert(dbs[i].profile.name == sorted[i - first]);
        assert(dbs[j].profile.name == sorted[j - first]);
    }
}

proof fn lemma_named_path(home: Seq<char>, name: Seq<char>)
    requires
        home.len() > 0,
        home.last() != '/',
        !name.contains('/'),
    ensures
        profiles::named_path(home, name) == home + "/profiles/"@ + name + (if name.len() > 0 {
            "/state.db"@
        } else {
            "state.db"@
        }),
{
    reveal_strlit("state.db");
    reveal_strlit("/state.db");
    reveal_strlit("profiles");
    reveal_strlit("/profiles/");
    reveal_strlit("/");
    let dir = paths::joined_path(home, "profiles"@);
    assert(dir =~= home + "/profiles"@) by {
        reveal_strlit("/profiles");
    }
    assert(dir.last() == 's') by {
        reveal_strlit("/profiles");
    }
    if name.len() > 0 {
        assert(name[0] != '/') by {
            assert(name.contains(name[0]));
        }
        assert(name.last() != '/') by {
            assert(name.contains(name.last()));
        }
    }
    let own = paths::joined_path(dir, name);
    assert(own =~= home + "/profiles/"@ + name) by {
        reveal_strlit("/profiles");
    }
    if name.len() > 0 {
        assert(own.last() == name.last());
    } else {
        assert(own.last() == '/');
    }
    assert(profiles::named_path(home, name) =~= home + "/profiles/"@ + name + (if name.len() > 0 {
        "/state.db"@
    } else {
        "state.db"@
    }));
}

/// A row that counts and stands no earlier than the others comes last, so rows at
/// one place keep the order of the table.
pub proof fn law_later_rows_come_last(rows: Seq<MsgView>, m: MsgView)
    requires
        m.active == Some(1i64),
        forall|i: int|
            0 <= i < rows.len() && (#[trigger] rows[i]).active == Some(1i64) ==> stands_at(rows[i])
                <= stands_at(m),
    ensures
        hermes::shown_rows(rows.push(m)) == hermes::shown_rows(rows).push(m),
        hermes::events_of(rows.push(m)) == hermes::events_of(rows).push(hermes::event_of(m)),
{
    let live = hermes::live_rows(rows);
    let keys = live.map_values(|x: MsgView| hermes::position(x));
    let more = hermes::live_rows(rows.push(m));
    let key = hermes::position(m);
    assert(rows.push(m).drop_last() =~= rows);
    assert(more =~= live.push(m));
    assert(more.map_values(|x: MsgView| hermes::position(x)) =~= keys.push(key));
    assert forall|i: int| 0 <= i < keys.len() implies #[trigger] keys[i] <= key by {
        assert(live.contains(live[i]));
        lemma_live_rows(rows, live[i]);
        let j = choose|j: int| 0 <= j < rows.len() && rows[j] == live[i];
        assert(stands_at(rows[j]) <= stands_at(m));
    }
    order::law_largest_key_comes_last(keys, key);
    order::law_keys_order(keys);
    order::law_order_sorts(keys.len(), order::by_key(keys));
    let o = order::key_order(keys);
    assert forall|k: int| 0 <= k < o.len() implies more[#[trigger] o[k]] == live[o[k]] by {}
    assert(hermes::shown_rows(rows.push(m)) =~= hermes::shown_rows(rows).push(m));
    assert(hermes::events_of(rows.push(m)) =~= hermes::events_of(rows).push(hermes::event_of(m)));
}

/// Of selected sessions that started together, the earlier in the table comes first.
pub proof fn law_selection_ties(rows: Seq<SessView>, t0: i128, t1: i128, j: int, k: int)
    requires
        0 <= j < k < hermes::selection(rows, t0, t1).len(),
        rows[hermes::selection(rows, t0, t1)[j]].started_at == rows[hermes::selection(
            rows,
            t0,
            t1,
        )[k]].started_at,
    ensures
        hermes::selection(rows, t0, t1)[j] < hermes::selection(rows, t0, t1)[k],
{
    let ps = hermes::selected_places(rows, t0, t1);
    let keys = hermes::starts_at(rows, ps);
    let o = order::key_order(keys);
    loader_laws::lemma_selected_places(rows, t0, t1);
    order::law_keys_order(keys);
    order::law_order_sorts(keys.len(), order::by_key(keys));
    assert(order::comes_before(order::by_key(keys), o[j], o[k]));
    let sel = hermes::selection(rows, t0, t1);
    assert(sel[j] == ps[o[j]] && sel[k] == ps[o[k]]);
    assert(hermes::is_selected(rows[ps[o[j]]], t0, t1));
    assert(hermes::is_selected(rows[ps[o[k]]], t0, t1));
    assert(keys[o[j]] == rows[ps[o[j]]].started_at.unwrap());
    assert(keys[o[k]] == rows[ps[o[k]]].started_at.unwrap());
    assert(o[j] < o[k]);
}

} // verus!
