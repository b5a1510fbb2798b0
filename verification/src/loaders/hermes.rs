//! The Hermes loader: rows of a profile's database to unified sessions.
//!
//! 1. Only rows with `active` set count; compacted history stays out.
//! 2. Injected user rows never count as human input.
//! 3. A malformed tool-call payload skips its calls, never the profile.
//! 4. A session's extent comes from timestamps, never from row order.
//! 5. Silence above the gap cap is idle, never inference.
//! 6. A broken database is skipped and counted.
use crate::ids;
use crate::ids::make_hermes_id;
use crate::json;
use crate::json::{get, parse_json, text_field_or};
use crate::model;
use crate::model::Session;
use crate::order;
use crate::order::stable_order;
use crate::paths;
use crate::paths::sort_names;
use crate::profiles;
use crate::profiles::{named_db_path, top_db_path, Profile};
use crate::scan;
use crate::scan::{scan_stats, Loaded};
use crate::stats;
use crate::stats::ScanStats;
use crate::text;
use crate::text::same_text;
use crate::timeline;
use crate::timeline::{assemble, Event, Origin, Role, ToolCall};
use crate::window;
use crate::window::meets_window;
use vstd::prelude::*;
use vstd::string::*;

verus! {

/// One row of the `messages` table.
#[derive(Debug, Clone)]
pub struct MsgRow {
    pub id: i64,
    pub display_order: Option<i64>,
    pub active: Option<i64>,
    pub role: String,
    pub tool_name: Option<String>,
    pub tool_call_id: Option<String>,
    pub tool_calls: Option<String>,
    pub content: Option<String>,
    pub ts: i128,
    /// `platform_message_id`: set on the user rows that the platform injected.
    pub pmid: Option<String>,
}

/// A [`MsgRow`] with its text as mathematical text.
pub struct MsgView {
    pub id: i64,
    pub display_order: Option<i64>,
    pub active: Option<i64>,
    pub role: Seq<char>,
    pub tool_name: Option<Seq<char>>,
    pub tool_call_id: Option<Seq<char>>,
    pub tool_calls: Option<Seq<char>>,
    pub content: Option<Seq<char>>,
    pub ts: i128,
    pub pmid: Option<Seq<char>>,
}

impl View for MsgRow {
    type V = MsgView;

    open spec fn view(&self) -> MsgView {
        MsgView {
            id: self.id,
            display_order: self.display_order,
            active: self.active,
            role: self.role@,
            tool_name: text::opt_text(self.tool_name),
            tool_call_id: text::opt_text(self.tool_call_id),
            tool_calls: text::opt_text(self.tool_calls),
            content: text::opt_text(self.content),
            ts: self.ts,
            pmid: text::opt_text(self.pmid),
        }
    }
}

/// A list of message rows, each by its view.
pub open spec fn msg_views(rows: Seq<MsgRow>) -> Seq<MsgView> {
    rows.map_values(|m: MsgRow| m@)
}

/// Who wrote a row with the role `role`.
pub open spec fn role_of(role: Seq<char>) -> Role {
    if role == "user"@ {
        Role::User
    } else if role == "assistant"@ {
        Role::Assistant
    } else if role == "tool"@ {
        Role::Tool
    } else {
        Role::Other
    }
}

/// The text of `o`, or `default`.
pub open spec fn or_text(o: Option<Seq<char>>, default: Seq<char>) -> Seq<char> {
    match o {
        Some(s) => s,
        None => default,
    }
}

/// The id of a listed call: its `call_id` where it has that member, else its
/// `id`; empty where that is no text.
pub open spec fn call_id_of(item: json::JsonView) -> Seq<char> {
    let member = match json::field(item, "call_id"@) {
        Some(m) => Some(m),
        None => json::field(item, "id"@),
    };
    or_text(json::as_text(member), ""@)
}

/// The text of the member `key` of a listed call's `function`, or `default`.
pub open spec fn function_text(
    item: json::JsonView,
    key: Seq<char>,
    default: Seq<char>,
) -> Seq<char> {
    match json::field(item, "function"@) {
        Some(f) => json::text_or(f, key, default),
        None => default,
    }
}

/// One listed tool call.
pub open spec fn call_of(item: json::JsonView) -> timeline::CallView {
    timeline::CallView {
        id: call_id_of(item),
        name: function_text(item, "name"@, "?"@),
        args: function_text(item, "arguments"@, ""@),
    }
}

/// The tool calls that a payload lists; none where it is no array.
pub open spec fn calls_of(j: json::JsonView) -> Seq<timeline::CallView> {
    match j {
        json::JsonView::Array(items) => items.map_values(|i: json::JsonView| call_of(i)),
        _ => Seq::empty(),
    }
}

/// The tool-call payload of an assistant row.
pub open spec fn payload(m: MsgView) -> Option<Seq<char>> {
    if role_of(m.role) == Role::Assistant {
        m.tool_calls
    } else {
        None
    }
}

/// Whether a row carries a payload that is no JSON text.
pub open spec fn is_malformed(m: MsgView) -> bool {
    match payload(m) {
        Some(p) => json::json_text(p) is None,
        None => false,
    }
}

/// The event that a row logs.
pub open spec fn event_of(m: MsgView) -> timeline::EventView {
    timeline::EventView {
        role: role_of(m.role),
        t: m.ts,
        injected: m.pmid is Some,
        text: or_text(m.content, ""@),
        calls: match payload(m) {
            Some(p) => match json::json_text(p) {
                Some(j) => calls_of(j),
                None => Seq::empty(),
            },
            None => Seq::empty(),
        },
        call_id: or_text(m.tool_call_id, ""@),
        tool_name: or_text(m.tool_name, "tool"@),
    }
}

/// Who wrote a row with the role `role`.
fn read_role(role: &str) -> (r: Role)
    ensures
        r == role_of(role@),
{
    if same_text(role, "user") {
        Role::User
    } else if same_text(role, "assistant") {
        Role::Assistant
    } else if same_text(role, "tool") {
        Role::Tool
    } else {
        Role::Other
    }
}

/// The text of `o`, or `default`.
fn text_or_else(o: &Option<String>, default: &str) -> (r: String)
    ensures
        r@ == or_text(text::opt_text(*o), default@),
{
    match o {
        Some(s) => s.clone(),
        None => default.to_owned(),
    }
}

/// One listed tool call.
fn read_call(item: &serde_json::Value) -> (r: ToolCall)
    ensures
        r@ == call_of(json::json_of(*item)),
{
    let member: Option<&serde_json::Value> = match get(item, "call_id") {
        Some(m) => Some(m),
        None => get(item, "id"),
    };
    let id: String = match member {
        Some(m) => match m.as_str() {
            Some(s) => s.to_owned(),
            None => "".to_owned(),
        },
        None => "".to_owned(),
    };
    match get(item, "function") {
        Some(f) => ToolCall {
            id,
            name: text_field_or(f, "name", "?"),
            args: text_field_or(f, "arguments", ""),
        },
        None => ToolCall { id, name: "?".to_owned(), args: "".to_owned() },
    }
}

/// The tool calls that a payload lists; none where it is no array.
pub fn read_calls(list: &serde_json::Value) -> (r: Vec<ToolCall>)
    ensures
        timeline::call_views(r@) == calls_of(json::json_of(*list)),
{
    let mut out: Vec<ToolCall> = Vec::new();
    match list.as_array() {
        Some(items) => {
            let mut i: usize = 0;
            while i < items.len()
                invariant
                    i <= items@.len(),
                    out@.len() == i,
                    forall|k: int|
                        0 <= k < i ==> (#[trigger] out@[k])@ == call_of(json::json_of(items@[k])),
                decreases items.len() - i,
            {
                out.push(read_call(&items[i]));
                i = i + 1;
            }
            assert(timeline::call_views(out@) =~= calls_of(json::json_of(*list)));
        },
        None => {
            assert(timeline::call_views(out@) =~= calls_of(json::json_of(*list)));
        },
    }
    out
}

/// The event that a row logs, and whether its tool-call payload was malformed.
pub fn read_event(m: &MsgRow) -> (r: (Event, bool))
    ensures
        r.0@ == event_of(m@),
        r.1 == is_malformed(m@),
{
    let role: Role = read_role(m.role.as_str());
    let mut calls: Vec<ToolCall> = Vec::new();
    let mut malformed: bool = false;
    assert(timeline::call_views(calls@) =~= Seq::empty());
    if role == Role::Assistant {
        if let Some(p) = &m.tool_calls {
            match parse_json(p.as_str()) {
                Ok(list) => {
                    calls = read_calls(&list);
                },
                Err(_) => {
                    malformed = true;
                },
            }
        }
    }
    let event = Event {
        role,
        t: m.ts,
        injected: m.pmid.is_some(),
        text: text_or_else(&m.content, ""),
        calls,
        call_id: text_or_else(&m.tool_call_id, ""),
        tool_name: text_or_else(&m.tool_name, "tool"),
    };
    (event, malformed)
}

/// Whether a row is live: compacted history is not.
pub open spec fn is_live(m: MsgView) -> bool {
    m.active == Some(1i64)
}

/// Where a row stands in its session: at its display order, or else at its id.
pub open spec fn position(m: MsgView) -> i128 {
    match m.display_order {
        Some(o) => o as i128,
        None => m.id as i128,
    }
}

/// The live rows, in table order.
pub open spec fn live_rows(rows: Seq<MsgView>) -> Seq<MsgView>
    decreases rows.len(),
{
    if rows.len() == 0 {
        Seq::empty()
    } else if is_live(rows.last()) {
        live_rows(rows.drop_last()).push(rows.last())
    } else {
        live_rows(rows.drop_last())
    }
}

/// The live rows by their position.
pub open spec fn shown_rows(rows: Seq<MsgView>) -> Seq<MsgView> {
    let live = live_rows(rows);
    order::arranged(live, order::key_order(live.map_values(|m: MsgView| position(m))))
}

/// The events that the live rows log, by position.
pub open spec fn events_of(rows: Seq<MsgView>) -> Seq<timeline::EventView> {
    shown_rows(rows).map_values(|m: MsgView| event_of(m))
}

/// How many rows carry a malformed payload.
pub open spec fn malformed_rows(rows: Seq<MsgView>) -> nat
    decreases rows.len(),
{
    if rows.len() == 0 {
        0
    } else {
        malformed_rows(rows.drop_last()) + if is_malformed(rows.last()) {
            1nat
        } else {
            0nat
        }
    }
}

/// Borrowed rows, each by its view.
spec fn ref_views(rows: Seq<&MsgRow>) -> Seq<MsgView> {
    rows.map_values(|m: &MsgRow| m@)
}

/// The live rows, in table order.
fn pick_live(rows: &Vec<MsgRow>) -> (r: Vec<&MsgRow>)
    ensures
        ref_views(r@) == live_rows(msg_views(rows@)),
{
    let mut out: Vec<&MsgRow> = Vec::new();
    let ghost views = msg_views(rows@);
    let mut i: usize = 0;
    assert(ref_views(out@) =~= live_rows(views.take(0)));
    while i < rows.len()
        invariant
            i <= rows@.len(),
            views == msg_views(rows@),
            ref_views(out@) == live_rows(views.take(i as int)),
        decreases rows.len() - i,
    {
        let ghost before = out@;
        assert(views.take(i + 1).drop_last() =~= views.take(i as int));
        assert(views.take(i + 1).last() == rows@[i as int]@);
        if let Some(a) = rows[i].active {
            if a == 1 {
                out.push(&rows[i]);
                assert(ref_views(out@) =~= ref_views(before).push(rows@[i as int]@));
            }
        }
        i = i + 1;
    }
    assert(views.take(rows@.len() as int) =~= views);
    out
}

/// The events that the live rows log, by position. Malformed payloads are
/// counted.
pub fn read_events(rows: &Vec<MsgRow>, stats: &mut ScanStats) -> (r: Vec<Event>)
    ensures
        timeline::event_views(r@) == events_of(msg_views(rows@)),
        final(stats)@ == (stats::StatsView {
            rows: stats::counted_on(
                old(stats)@.rows,
                malformed_rows(shown_rows(msg_views(rows@))),
            ),
            ..old(stats)@
        }),
{
    let live: Vec<&MsgRow> = pick_live(rows);
    let ghost views = ref_views(live@);
    let mut keys: Vec<i128> = Vec::new();
    let mut i: usize = 0;
    while i < live.len()
        invariant
            i <= live@.len(),
            views == ref_views(live@),
            keys@.len() == i,
            forall|k: int| 0 <= k < i ==> #[trigger] keys@[k] == position(views[k]),
        decreases live.len() - i,
    {
        assert(views[i as int] == live@[i as int]@);
        let key: i128 = match live[i].display_order {
            Some(o) => o as i128,
            None => live[i].id as i128,
        };
        keys.push(key);
        i = i + 1;
    }
    assert(keys@ =~= views.map_values(|m: MsgView| position(m)));
    let places: Vec<usize> = stable_order(&keys);
    let ghost shown = shown_rows(msg_views(rows@));
    proof {
        assert(shown.len() == places@.len());
        assert forall|k: int| 0 <= k < places@.len() implies #[trigger] shown[k]
            == live@[places@[k] as int]@ by {
            assert(order::places(places@)[k] == places@[k]);
            assert(views[places@[k] as int] == live@[places@[k] as int]@);
        }
        assert(shown.take(0).len() == 0);
        stats::lemma_counted_on(stats@.rows, 0, 0);
    }
    let mut out: Vec<Event> = Vec::new();
    let mut j: usize = 0;
    let ghost start = stats@;
    while j < places.len()
        invariant
            j <= places@.len(),
            places@.len() == shown.len(),
            forall|k: int| 0 <= k < places@.len() ==> #[trigger] places@[k] < live@.len(),
            forall|k: int|
                0 <= k < places@.len() ==> #[trigger] shown[k] == live@[places@[k] as int]@,
            out@.len() == j,
            forall|k: int| 0 <= k < j ==> (#[trigger] out@[k])@ == event_of(shown[k]),
            stats@ == (stats::StatsView {
                rows: stats::counted_on(start.rows, malformed_rows(shown.take(j as int))),
                ..start
            }),
        decreases places.len() - j,
    {
        let (event, malformed) = read_event(live[places[j]]);
        proof {
            assert(shown[j as int] == live@[places@[j as int] as int]@);
            assert(shown.take(j + 1).drop_last() =~= shown.take(j as int));
            assert(shown.take(j + 1).last() == shown[j as int]);
            stats::lemma_counted_on(start.rows, malformed_rows(shown.take(j as int)), 1);
        }
        if malformed {
            stats.inc_skipped_rows();
        }
        out.push(event);
        j = j + 1;
    }
    assert(shown.take(shown.len() as int) =~= shown);
    assert(timeline::event_views(out@) =~= events_of(msg_views(rows@)));
    out
}

/// One row of the `sessions` table.
#[derive(Debug, Clone)]
pub struct SessRow {
    pub id: String,
    pub title: Option<String>,
    pub parent: Option<String>,
    pub source: Option<String>,
    pub archived: Option<i64>,
    pub started_at: Option<i128>,
    pub ended_at: Option<i128>,
    pub last_activity_at: Option<i128>,
}

/// A [`SessRow`] with its text as mathematical text.
pub struct SessView {
    pub id: Seq<char>,
    pub title: Option<Seq<char>>,
    pub parent: Option<Seq<char>>,
    pub source: Option<Seq<char>>,
    pub archived: Option<i64>,
    pub started_at: Option<i128>,
    pub ended_at: Option<i128>,
    pub last_activity_at: Option<i128>,
}

impl View for SessRow {
    type V = SessView;

    open spec fn view(&self) -> SessView {
        SessView {
            id: self.id@,
            title: text::opt_text(self.title),
            parent: text::opt_text(self.parent),
            source: text::opt_text(self.source),
            archived: self.archived,
            started_at: self.started_at,
            ended_at: self.ended_at,
            last_activity_at: self.last_activity_at,
        }
    }
}

/// What a session's row says of it.
pub open spec fn origin_of(profile: profiles::ProfileView, row: SessView) -> timeline::OriginView {
    timeline::OriginView {
        id: ids::hermes_id(profile.key, row.id),
        title: row.title,
        child: row.parent is Some,
        profile: profile.name,
        source: match row.source {
            Some(s) if s.len() > 0 => Some(s),
            _ => None,
        },
    }
}

/// The session that a session row and its message rows make.
pub open spec fn built(profile: profiles::ProfileView, row: SessView, msgs: Seq<MsgView>) -> Option<
    model::SessionView,
> {
    timeline::session_of(origin_of(profile, row), events_of(msgs))
}

/// The session that a session row and its message rows make: none without a
/// live row. Malformed payloads are counted.
pub fn build_session(
    profile: &Profile,
    row: &SessRow,
    msgs: &Vec<MsgRow>,
    stats: &mut ScanStats,
) -> (r: Option<Session>)
    ensures
        timeline::opt_session(r) == built(profile@, row@, msg_views(msgs@)),
        final(stats)@ == (stats::StatsView {
            rows: stats::counted_on(
                old(stats)@.rows,
                malformed_rows(shown_rows(msg_views(msgs@))),
            ),
            ..old(stats)@
        }),
{
    let events: Vec<Event> = read_events(msgs, stats);
    let source: Option<String> = match &row.source {
        Some(s) => if s.as_str().is_empty() {
            None
        } else {
            Some(s.clone())
        },
        None => None,
    };
    let title: Option<String> = match &row.title {
        Some(t) => Some(t.clone()),
        None => None,
    };
    let origin = Origin {
        id: make_hermes_id(profile.key.as_str(), row.id.as_str()),
        title,
        child: row.parent.is_some(),
        profile: profile.name.clone(),
        source,
    };
    assemble(origin, &events)
}

/// A list of session rows, each by its view.
pub open spec fn sess_views(rows: Seq<SessRow>) -> Seq<SessView> {
    rows.map_values(|r: SessRow| r@)
}

/// When a session was last active, as far as its row says.
pub open spec fn row_end(row: SessView, started: i128) -> i128 {
    match row.ended_at {
        Some(t) => t,
        None => match row.last_activity_at {
            Some(t) => t,
            None => started,
        },
    }
}

/// Whether a session is to be loaded for the window `[t0, t1)`: it is not
/// archived, it has started, and its row's extent meets the window.
pub open spec fn is_selected(row: SessView, t0: i128, t1: i128) -> bool {
    &&& row.archived == Some(0i64)
    &&& match row.started_at {
        Some(s) => window::overlaps(s, row_end(row, s), t0, t1),
        None => false,
    }
}

/// The places of the rows to be loaded, in table order.
pub open spec fn selected_places(rows: Seq<SessView>, t0: i128, t1: i128) -> Seq<int>
    decreases rows.len(),
{
    if rows.len() == 0 {
        Seq::empty()
    } else {
        let before = selected_places(rows.drop_last(), t0, t1);
        if is_selected(rows.last(), t0, t1) {
            before.push(rows.len() - 1)
        } else {
            before
        }
    }
}

/// When the sessions at the places `ps` started.
pub open spec fn starts_at(rows: Seq<SessView>, ps: Seq<int>) -> Seq<i128> {
    ps.map_values(|p: int| rows[p].started_at.unwrap())
}

/// The places of the rows to be loaded, by start.
pub open spec fn selection(rows: Seq<SessView>, t0: i128, t1: i128) -> Seq<int> {
    let ps = selected_places(rows, t0, t1);
    order::arranged(ps, order::key_order(starts_at(rows, ps)))
}

/// Whether a session is to be loaded for the window `[t0, t1)`.
fn row_selected(row: &SessRow, t0: i128, t1: i128) -> (r: Option<i128>)
    ensures
        r is Some <==> is_selected(row@, t0, t1),
        r is Some ==> r == row@.started_at,
{
    let open: bool = match row.archived {
        Some(a) => a == 0,
        None => false,
    };
    if !open {
        return None;
    }
    match row.started_at {
        Some(s) => {
            let end: i128 = match row.ended_at {
                Some(t) => t,
                None => match row.last_activity_at {
                    Some(t) => t,
                    None => s,
                },
            };
            if meets_window(s, end, t0, t1) {
                Some(s)
            } else {
                None
            }
        },
        None => None,
    }
}

/// The places of the session rows to be loaded for the window `[t0, t1)`, by
/// start.
pub fn select_sessions(rows: &Vec<SessRow>, t0: i128, t1: i128) -> (r: Vec<usize>)
    ensures
        order::places(r@) == selection(sess_views(rows@), t0, t1),
        forall|k: int| 0 <= k < r@.len() ==> #[trigger] r@[k] < rows@.len(),
{
    let ghost views = sess_views(rows@);
    let mut picked: Vec<usize> = Vec::new();
    let mut starts: Vec<i128> = Vec::new();
    let mut i: usize = 0;
    assert(order::places(picked@) =~= selected_places(views.take(0), t0, t1));
    while i < rows.len()
        invariant
            i <= rows@.len(),
            views == sess_views(rows@),
            order::places(picked@) == selected_places(views.take(i as int), t0, t1),
            forall|k: int| 0 <= k < picked@.len() ==> #[trigger] picked@[k] < i,
            starts@.len() == picked@.len(),
            forall|k: int|
                0 <= k < picked@.len() ==> #[trigger] starts@[k]
                    == views[picked@[k] as int].started_at.unwrap(),
        decreases rows.len() - i,
    {
        let ghost before = picked@;
        proof {
            assert(views.take(i + 1).drop_last() =~= views.take(i as int));
            assert(views.take(i + 1).last() == rows@[i as int]@);
        }
        if let Some(s) = row_selected(&rows[i], t0, t1) {
            picked.push(i);
            starts.push(s);
            assert(order::places(picked@) =~= order::places(before).push(i as int));
        }
        i = i + 1;
    }
    proof {
        assert(views.take(rows@.len() as int) =~= views);
        assert(starts@ =~= starts_at(views, order::places(picked@)));
    }
    let ranks: Vec<usize> = stable_order(&starts);
    let mut out: Vec<usize> = Vec::new();
    let mut j: usize = 0;
    while j < ranks.len()
        invariant
            j <= ranks@.len(),
            ranks@.len() == picked@.len(),
            forall|k: int| 0 <= k < ranks@.len() ==> #[trigger] ranks@[k] < picked@.len(),
            forall|k: int| 0 <= k < picked@.len() ==> #[trigger] picked@[k] < rows@.len(),
            out@.len() == j,
            forall|k: int| 0 <= k < j ==> #[trigger] out@[k] == picked@[ranks@[k] as int],
        decreases ranks.len() - j,
    {
        out.push(picked[ranks[j]]);
        j = j + 1;
    }
    proof {
        let order = order::places(ranks@);
        assert forall|k: int| 0 <= k < out@.len() implies #[trigger] order::places(out@)[k]
            == order::arranged(order::places(picked@), order)[k] by {
            assert(out@[k] == picked@[ranks@[k] as int]);
        }
        assert(order::places(out@) =~= selection(views, t0, t1));
    }
    out
}

/// The message rows of a session, or the fact that they could not be read.
#[derive(Debug, Clone)]
pub enum Messages {
    Unavailable,
    /// The rows that could be decoded, and how many could not.
    Rows { rows: Vec<MsgRow>, undecodable: u64 },
}

/// A session row with its message rows.
#[derive(Debug, Clone)]
pub struct Fetched {
    pub row: SessRow,
    pub messages: Messages,
}

/// What a profile's database says of the selected sessions, and how many
/// session rows could not be decoded.
#[derive(Debug, Clone)]
pub struct ProfileRows {
    pub sessions: Vec<Fetched>,
    pub undecodable: u64,
}

/// The session that `f` makes.
pub open spec fn loaded(profile: profiles::ProfileView, f: Fetched) -> Option<model::SessionView> {
    match f.messages {
        Messages::Unavailable => None,
        Messages::Rows { rows, .. } => built(profile, f.row@, msg_views(rows@)),
    }
}

/// The sessions that `fs` make, in order.
pub open spec fn all_loaded(profile: profiles::ProfileView, fs: Seq<Fetched>) -> Seq<model::SessionView>
    decreases fs.len(),
{
    if fs.len() == 0 {
        Seq::empty()
    } else {
        let before = all_loaded(profile, fs.drop_last());
        match loaded(profile, fs.last()) {
            Some(s) => before.push(s),
            None => before,
        }
    }
}

/// How many sessions of `fs` have no readable messages.
pub open spec fn lost_sessions(fs: Seq<Fetched>) -> nat
    decreases fs.len(),
{
    if fs.len() == 0 {
        0
    } else {
        lost_sessions(fs.drop_last()) + if fs.last().messages is Unavailable {
            1nat
        } else {
            0nat
        }
    }
}

/// How many message rows of `f` could not be decoded or carry a malformed payload.
pub open spec fn lost_rows_of(f: Fetched) -> nat {
    match f.messages {
        Messages::Unavailable => 0,
        Messages::Rows { rows, undecodable } => undecodable as nat + malformed_rows(
            shown_rows(msg_views(rows@)),
        ),
    }
}

/// How many message rows of `fs` could not be decoded or carry a malformed
/// payload.
pub open spec fn lost_rows(fs: Seq<Fetched>) -> nat
    decreases fs.len(),
{
    if fs.len() == 0 {
        0
    } else {
        lost_rows(fs.drop_last()) + lost_rows_of(fs.last())
    }
}

/// The counts `s` after the profile `p`.
pub open spec fn counted_profile(s: stats::StatsView, p: ProfileRows) -> stats::StatsView {
    stats::StatsView {
        sources: s.sources,
        sessions: stats::counted_on(s.sessions, lost_sessions(p.sessions@) + p.undecodable as nat),
        rows: stats::counted_on(s.rows, lost_rows(p.sessions@)),
    }
}

/// Loads the sessions of one profile from what its database said. Where the
/// database could not be read, that is a skipped source; a session whose
/// messages could not be read, or a row that is no good, is skipped and counted
/// and takes nothing else with it.
pub fn load_profile_db(
    profile: &Profile,
    reply: Result<ProfileRows, String>,
    stats: &mut ScanStats,
) -> (r: Result<Vec<Session>, String>)
    ensures
        match (reply, r) {
            (Ok(p), Ok(out)) => {
                &&& model::session_views(out@) == all_loaded(profile@, p.sessions@)
                &&& final(stats)@ == counted_profile(old(stats)@, p)
            },
            (Err(e), Err(f)) => {
                &&& f == e
                &&& final(stats)@ == (stats::StatsView {
                    sources: stats::counted_on(old(stats)@.sources, 1),
                    ..old(stats)@
                })
            },
            _ => false,
        },
{
    let p: ProfileRows = match reply {
        Ok(p) => p,
        Err(e) => {
            stats.inc_skipped_sources();
            return Err(e);
        },
    };
    let ghost start = stats@;
    let ghost fs = p.sessions@;
    let mut out: Vec<Session> = Vec::new();
    let mut i: usize = 0;
    proof {
        assert(model::session_views(out@) =~= all_loaded(profile@, fs.take(0)));
        stats::lemma_counted_on(start.sessions, 0, 0);
        stats::lemma_counted_on(start.rows, 0, 0);
    }
    while i < p.sessions.len()
        invariant
            i <= fs.len(),
            fs == p.sessions@,
            model::session_views(out@) == all_loaded(profile@, fs.take(i as int)),
            stats@ == (stats::StatsView {
                sources: start.sources,
                sessions: stats::counted_on(start.sessions, lost_sessions(fs.take(i as int))),
                rows: stats::counted_on(start.rows, lost_rows(fs.take(i as int))),
            }),
        decreases fs.len() - i,
    {
        let f: &Fetched = &p.sessions[i];
        let ghost so_far = fs.take(i as int);
        let ghost before = out@;
        proof {
            assert(fs.take(i + 1).drop_last() =~= so_far);
            assert(fs.take(i + 1).last() == *f);
            stats::lemma_counted_on(start.sessions, lost_sessions(so_far), 1);
        }
        match &f.messages {
            Messages::Unavailable => {
                stats.inc_skipped_sessions();
            },
            Messages::Rows { rows, undecodable } => {
                proof {
                    let bad = *undecodable as nat;
                    let worse = malformed_rows(shown_rows(msg_views(rows@)));
                    stats::lemma_counted_on(start.rows, lost_rows(so_far), bad);
                    stats::lemma_counted_on(start.rows, lost_rows(so_far) + bad, worse);
                }
                stats.add_skipped_rows(*undecodable);
                if let Some(s) = build_session(profile, &f.row, rows, stats) {
                    out.push(s);
                    assert(model::session_views(out@) =~= model::session_views(before).push(s@));
                }
            },
        }
        i = i + 1;
    }
    proof {
        assert(fs.take(fs.len() as int) =~= fs);
        stats::lemma_counted_on(start.sessions, lost_sessions(fs), p.undecodable as nat);
    }
    stats.add_skipped_sessions(p.undecodable);
    Ok(out)
}

/// The first row of the session `sid` that is not archived.
pub open spec fn first_open(rows: Seq<SessView>, sid: Seq<char>) -> Option<SessView>
    decreases rows.len(),
{
    if rows.len() == 0 {
        None
    } else if rows[0].id == sid && rows[0].archived == Some(0i64) {
        Some(rows[0])
    } else {
        first_open(rows.drop_first(), sid)
    }
}

/// The session `sid`, whatever its time, from the session rows and its message
/// rows.
pub open spec fn session_by_id(
    profile: profiles::ProfileView,
    sid: Seq<char>,
    rows: Seq<SessView>,
    messages: Messages,
) -> Option<model::SessionView> {
    match first_open(rows, sid) {
        Some(row) => match messages {
            Messages::Unavailable => None,
            Messages::Rows { rows, .. } => built(profile, row, msg_views(rows@)),
        },
        None => None,
    }
}

/// Loads one session by its id within a profile, ignoring any time window. None
/// where the id is unknown or archived, or the session has no live row.
pub fn load_session_by_id(
    profile: &Profile,
    sid: &str,
    rows: &Vec<SessRow>,
    messages: &Messages,
) -> (r: Option<Session>)
    ensures
        timeline::opt_session(r) == session_by_id(profile@, sid@, sess_views(rows@), *messages),
{
    let ghost views = sess_views(rows@);
    let mut i: usize = 0;
    assert(views.skip(0) =~= views);
    while i < rows.len()
        invariant
            i <= rows@.len(),
            views == sess_views(rows@),
            first_open(views, sid@) == first_open(views.skip(i as int), sid@),
        decreases rows.len() - i,
    {
        let row: &SessRow = &rows[i];
        proof {
            assert(views.skip(i as int)[0] == row@);
            assert(views.skip(i as int).drop_first() =~= views.skip(i + 1));
        }
        let open: bool = match row.archived {
            Some(a) => a == 0,
            None => false,
        };
        if open && same_text(row.id.as_str(), sid) {
            match messages {
                Messages::Unavailable => {
                    return None;
                },
                Messages::Rows { rows, .. } => {
                    let mut unused: ScanStats = ScanStats::default();
                    return build_session(profile, row, rows, &mut unused);
                },
            }
        }
        i = i + 1;
    }
    assert(views.skip(rows@.len() as int).len() == 0);
    None
}

/// A profile and where its database is.
#[derive(Debug, Clone)]
pub struct ProfileDb {
    pub profile: Profile,
    pub path: String,
}

/// A profile and where its database is, as mathematical text.
pub struct DbView {
    pub profile: profiles::ProfileView,
    pub path: Seq<char>,
}

impl View for ProfileDb {
    type V = DbView;

    open spec fn view(&self) -> DbView {
        DbView { profile: self.profile@, path: self.path@ }
    }
}

/// A list of profiles, each by its view.
pub open spec fn db_views(dbs: Seq<ProfileDb>) -> Seq<DbView> {
    dbs.map_values(|d: ProfileDb| d@)
}

/// The profile of the home directory itself.
pub open spec fn top_db(home: Seq<char>) -> DbView {
    DbView { profile: profiles::top_profile(), path: profiles::top_path(home) }
}

/// The profile of a directory under `profiles`.
pub open spec fn named_db(home: Seq<char>, has_top: bool, name: Seq<char>) -> DbView {
    DbView {
        profile: profiles::named_profile(has_top, name),
        path: profiles::named_path(home, name),
    }
}

/// The profiles of a Hermes home: `default` where the home has a database
/// itself, then those of the directories under `profiles` that have one, by
/// directory.
pub open spec fn dbs_of(home: Seq<char>, has_top: bool, names: Seq<Seq<char>>) -> Seq<DbView> {
    let named = paths::sorted_names(names).map_values(|n: Seq<char>| named_db(home, has_top, n));
    if has_top {
        seq![top_db(home)] + named
    } else {
        named
    }
}

/// The profiles of a Hermes home. `has_top` says whether the home has a database
/// itself, `names` which directories under `profiles` have one.
pub fn discover_dbs(home: &str, has_top: bool, names: &Vec<String>) -> (r: Vec<ProfileDb>)
    ensures
        db_views(r@) == dbs_of(home@, has_top, paths::name_views(names@)),
{
    let sorted: Vec<String> = sort_names(names);
    let mut out: Vec<ProfileDb> = Vec::new();
    if has_top {
        out.push(
            ProfileDb { profile: Profile::top(), path: top_db_path(home) },
        );
    }
    let ghost first = db_views(out@);
    let ghost named = paths::name_views(sorted@).map_values(
        |n: Seq<char>| named_db(home@, has_top, n),
    );
    let mut i: usize = 0;
    assert(first + named.take(0) =~= first);
    while i < sorted.len()
        invariant
            i <= sorted@.len(),
            named == paths::name_views(sorted@).map_values(|n: Seq<char>| named_db(home@, has_top, n)),
            db_views(out@) == first + named.take(i as int),
        decreases sorted.len() - i,
    {
        let ghost before = out@;
        let db = ProfileDb {
            profile: Profile::of_directory(has_top, sorted[i].as_str()),
            path: named_db_path(home, sorted[i].as_str()),
        };
        out.push(db);
        proof {
            assert(db_views(out@) =~= db_views(before).push(db@));
            assert(named[i as int] == db@);
            assert(first + named.take(i + 1) =~= (first + named.take(i as int)).push(db@));
        }
        i = i + 1;
    }
    proof {
        assert(named.take(named.len() as int) =~= named);
        if has_top {
            assert(first =~= seq![top_db(home@)]);
        } else {
            assert(first + named =~= named);
        }
    }
    out
}

/// A profile's part of a scan, and the warning where it was skipped.
#[derive(Debug)]
pub struct ProfileScan {
    pub loaded: Loaded,
    pub warning: Option<String>,
}

/// A profile's part of a scan: a database that could not be read yields no
/// session, one skipped source, and a warning with the reason.
pub fn scan_profile(profile: &Profile, reply: Result<ProfileRows, String>) -> (r: ProfileScan)
    ensures
        match reply {
            Ok(p) => {
                &&& model::session_views(r.loaded.sessions@) == all_loaded(profile@, p.sessions@)
                &&& r.loaded.stats@ == counted_profile(stats::nothing_skipped(), p)
                &&& r.warning is None
            },
            Err(e) => {
                &&& r.loaded.sessions@.len() == 0
                &&& r.loaded.stats@ == (stats::StatsView { sources: 1, sessions: 0, rows: 0 })
                &&& r.warning == Some(e)
            },
        },
{
    let mut stats: ScanStats = ScanStats::default();
    match load_profile_db(profile, reply, &mut stats) {
        Ok(sessions) => ProfileScan { loaded: Loaded { sessions, stats }, warning: None },
        Err(e) => ProfileScan {
            loaded: Loaded { sessions: Vec::new(), stats },
            warning: Some(e),
        },
    }
}

/// The sessions of all profiles, in the order of the profiles; what they skipped
/// is counted.
pub fn scan_all_stats(profiles: Vec<Loaded>, stats: &mut ScanStats) -> (r: Vec<Session>)
    ensures
        model::session_views(r@) == scan::gathered(profiles@),
        final(stats)@ == scan::total(old(stats)@, profiles@),
{
    scan_stats(profiles, stats)
}

/// The sessions of all profiles, in the order of the profiles.
pub fn scan_all(profiles: Vec<Loaded>) -> (r: Vec<Session>)
    ensures
        model::session_views(r@) == scan::gathered(profiles@),
{
    let mut unused: ScanStats = ScanStats::default();
    scan_all_stats(profiles, &mut unused)
}

} // verus!
