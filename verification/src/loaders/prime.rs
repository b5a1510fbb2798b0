//! The Prime loader: one append-only file of JSON lines per session.
//!
//! A line that logs a message has the form
//! `{"type": "message", "message": {"role": .., "content": ..}, "timestamp": ..}`.
//! Tool calls are content parts of the type `toolCall` in an assistant message;
//! results are messages with the role `toolResult`, keyed by `toolCallId`.
use crate::ids;
use crate::ids::make_prime_id;
use crate::instant;
use crate::instant::ts;
use crate::json;
use crate::json::{get, parse_json, render, text_field, text_field_or};
use crate::model;
use crate::model::{Session, DAY};
use crate::order;
use crate::order::stable_name_order;
use crate::paths;
use crate::stats;
use crate::stats::ScanStats;
use crate::text;
use crate::text::same_text;
use crate::timeline;
use crate::timeline::{assemble, Event, Origin, Role, ToolCall};
use crate::window;
use crate::window::meets_window;
use vstd::prelude::*;
use vstd::string::*;

verus! {

/// The texts of content parts that have one, with one space between neighbours.
pub open spec fn part_texts(parts: Seq<json::JsonView>) -> Seq<Seq<char>>
    decreases parts.len(),
{
    if parts.len() == 0 {
        Seq::empty()
    } else {
        let before = part_texts(parts.drop_last());
        match json::as_text(json::field(parts.last(), "text"@)) {
            Some(t) => before.push(t),
            None => before,
        }
    }
}

/// The plain text of a message's content: a string as it stands, an array by the
/// texts of its parts, with one space between neighbours; else nothing.
pub open spec fn content_text(content: json::JsonView) -> Seq<char> {
    match content {
        json::JsonView::Text(s) => s,
        json::JsonView::Array(parts) => text::joined(part_texts(parts)),
        _ => Seq::empty(),
    }
}

/// The plain text of a message.
pub open spec fn message_text(m: json::JsonView) -> Seq<char> {
    match json::field(m, "content"@) {
        Some(c) => content_text(c),
        None => Seq::empty(),
    }
}

/// The arguments of a tool call as text: a string as it stands, any other value
/// by its JSON text.
pub open spec fn args_of(p: json::JsonView) -> Seq<char> {
    match json::field(p, "arguments"@) {
        Some(json::JsonView::Text(s)) => s,
        Some(v) => json::json_render(v),
        None => Seq::empty(),
    }
}

/// Whether a content part is a tool call.
pub open spec fn is_call(p: json::JsonView) -> bool {
    json::as_text(json::field(p, "type"@)) == Some("toolCall"@)
}

/// The tool call of a content part.
pub open spec fn part_call(p: json::JsonView) -> timeline::CallView {
    timeline::CallView {
        id: json::text_or(p, "id"@, ""@),
        name: json::text_or(p, "name"@, "?"@),
        args: args_of(p),
    }
}

/// The tool calls among content parts.
pub open spec fn part_calls(parts: Seq<json::JsonView>) -> Seq<timeline::CallView>
    decreases parts.len(),
{
    if parts.len() == 0 {
        Seq::empty()
    } else {
        let before = part_calls(parts.drop_last());
        if is_call(parts.last()) {
            before.push(part_call(parts.last()))
        } else {
            before
        }
    }
}

/// The tool calls of a message.
pub open spec fn message_calls(m: json::JsonView) -> Seq<timeline::CallView> {
    match json::field(m, "content"@) {
        Some(json::JsonView::Array(parts)) => part_calls(parts),
        _ => Seq::empty(),
    }
}

/// Who wrote a message with the role `role`.
pub open spec fn role_of(role: Seq<char>) -> Role {
    if role == "user"@ {
        Role::User
    } else if role == "assistant"@ {
        Role::Assistant
    } else if role == "toolResult"@ {
        Role::Tool
    } else {
        Role::Other
    }
}

/// The event that the message `m` at the instant `t` logs.
pub open spec fn message_event(m: json::JsonView, t: i128) -> timeline::EventView {
    let role = role_of(json::text_or(m, "role"@, ""@));
    timeline::EventView {
        role,
        t,
        injected: false,
        text: message_text(m),
        calls: if role == Role::Assistant {
            message_calls(m)
        } else {
            Seq::empty()
        },
        call_id: json::text_or(m, "toolCallId"@, ""@),
        tool_name: json::text_or(m, "toolName"@, "tool"@),
    }
}

/// What a line of a session file is.
pub enum LineView {
    /// A message.
    Message(timeline::EventView),
    /// An entry of another type.
    Other,
    /// No JSON text, or a message without its message or its instant.
    Malformed,
}

/// The instant that the member `timestamp` gives.
pub open spec fn stamp_of(j: json::JsonView) -> Option<int> {
    match json::as_text(json::field(j, "timestamp"@)) {
        Some(s) => instant::instant_of(s),
        None => None,
    }
}

/// What the entry `j` of a session file is.
pub open spec fn entry_of(j: json::JsonView) -> LineView {
    if json::as_text(json::field(j, "type"@)) != Some("message"@) {
        LineView::Other
    } else {
        match (json::field(j, "message"@), stamp_of(j)) {
            (Some(m), Some(t)) => LineView::Message(message_event(m, t as i128)),
            _ => LineView::Malformed,
        }
    }
}

/// What a line of a session file is.
pub open spec fn line_of(line: Seq<char>) -> LineView {
    match json::json_text(line) {
        Some(j) => entry_of(j),
        None => LineView::Malformed,
    }
}

/// What a line of a session file is.
#[derive(Debug, Clone)]
pub enum Line {
    /// A message.
    Message(Event),
    /// An entry of another type.
    Other,
    /// No JSON text, or a message without its message or its instant.
    Malformed,
}

impl View for Line {
    type V = LineView;

    open spec fn view(&self) -> LineView {
        match *self {
            Line::Message(e) => LineView::Message(e@),
            Line::Other => LineView::Other,
            Line::Malformed => LineView::Malformed,
        }
    }
}

/// The plain text of a message's content.
pub fn ptext(content: &serde_json::Value) -> (r: String)
    ensures
        r@ == content_text(json::json_of(*content)),
{
    if let Some(s) = content.as_str() {
        return s.to_owned();
    }
    let mut out: String = String::new();
    if let Some(parts) = content.as_array() {
        let ghost views = json::item_views(parts@);
        let mut first: bool = true;
        let mut i: usize = 0;
        assert(out@ =~= text::joined(part_texts(views.take(0))));
        while i < parts.len()
            invariant
                i <= parts@.len(),
                views == json::item_views(parts@),
                out@ == text::joined(part_texts(views.take(i as int))),
                first == (part_texts(views.take(i as int)).len() == 0),
            decreases parts.len() - i,
        {
            let ghost before = part_texts(views.take(i as int));
            proof {
                assert(views.take(i + 1).drop_last() =~= views.take(i as int));
                assert(views.take(i + 1).last() == json::json_of(parts@[i as int]));
            }
            if let Some(t) = text_field(&parts[i], "text") {
                proof {
                    reveal_strlit(" ");
                    assert(before.push(t@).drop_last() =~= before);
                    assert(" "@ =~= seq![' ']);
                }
                if !first {
                    out.append(" ");
                }
                out.append(t);
                proof {
                    if first {
                        assert(out@ =~= t@);
                    } else {
                        assert(out@ =~= text::joined(before) + seq![' '] + t@);
                    }
                }
                first = false;
            }
            i = i + 1;
        }
        assert(views.take(parts@.len() as int) =~= views);
    }
    out
}

/// The plain text of a message.
fn read_text(m: &serde_json::Value) -> (r: String)
    ensures
        r@ == message_text(json::json_of(*m)),
{
    match get(m, "content") {
        Some(c) => ptext(c),
        None => String::new(),
    }
}

/// The arguments of a tool call as text.
fn read_args(p: &serde_json::Value) -> (r: String)
    ensures
        r@ == args_of(json::json_of(*p)),
{
    match get(p, "arguments") {
        Some(v) => match v.as_str() {
            Some(s) => s.to_owned(),
            None => render(v),
        },
        None => String::new(),
    }
}

/// The tool calls of a message.
pub fn read_calls(m: &serde_json::Value) -> (r: Vec<ToolCall>)
    ensures
        timeline::call_views(r@) == message_calls(json::json_of(*m)),
{
    let mut out: Vec<ToolCall> = Vec::new();
    assert(timeline::call_views(out@) =~= Seq::empty());
    if let Some(content) = get(m, "content") {
        if let Some(parts) = content.as_array() {
            let ghost views = json::item_views(parts@);
            let mut i: usize = 0;
            assert(views.take(0).len() == 0);
            while i < parts.len()
                invariant
                    i <= parts@.len(),
                    views == json::item_views(parts@),
                    timeline::call_views(out@) == part_calls(views.take(i as int)),
                decreases parts.len() - i,
            {
                let p: &serde_json::Value = &parts[i];
                let ghost before = out@;
                proof {
                    assert(views.take(i + 1).drop_last() =~= views.take(i as int));
                    assert(views.take(i + 1).last() == json::json_of(*p));
                }
                let call: bool = match text_field(p, "type") {
                    Some(t) => same_text(t, "toolCall"),
                    None => false,
                };
                if call {
                    let c = ToolCall {
                        id: text_field_or(p, "id", ""),
                        name: text_field_or(p, "name", "?"),
                        args: read_args(p),
                    };
                    out.push(c);
                    assert(timeline::call_views(out@) =~= timeline::call_views(before).push(c@));
                }
                i = i + 1;
            }
            assert(views.take(parts@.len() as int) =~= views);
        }
    }
    out
}

/// Who wrote a message with the role `role`.
fn read_role(role: &str) -> (r: Role)
    ensures
        r == role_of(role@),
{
    if same_text(role, "user") {
        Role::User
    } else if same_text(role, "assistant") {
        Role::Assistant
    } else if same_text(role, "toolResult") {
        Role::Tool
    } else {
        Role::Other
    }
}

/// The event that the message `m` at the instant `t` logs.
pub fn read_message(m: &serde_json::Value, t: i128) -> (r: Event)
    ensures
        r@ == message_event(json::json_of(*m), t),
{
    let role: Role = read_role(text_field_or(m, "role", "").as_str());
    let calls: Vec<ToolCall> = if role == Role::Assistant {
        read_calls(m)
    } else {
        let none: Vec<ToolCall> = Vec::new();
        assert(timeline::call_views(none@) =~= Seq::empty());
        none
    };
    Event {
        role,
        t,
        injected: false,
        text: read_text(m),
        calls,
        call_id: text_field_or(m, "toolCallId", ""),
        tool_name: text_field_or(m, "toolName", "tool"),
    }
}

/// The instant that the member `timestamp` gives.
pub fn read_stamp(v: &serde_json::Value) -> (r: Option<i128>)
    ensures
        match r {
            Some(t) => stamp_of(json::json_of(*v)) == Some(t as int),
            None => stamp_of(json::json_of(*v)) is None,
        },
{
    match text_field(v, "timestamp") {
        Some(s) => ts(s),
        None => None,
    }
}

/// What the entry `v` of a session file is.
pub fn read_entry(v: &serde_json::Value) -> (r: Line)
    ensures
        r@ == entry_of(json::json_of(*v)),
{
    let message: bool = match text_field(v, "type") {
        Some(t) => same_text(t, "message"),
        None => false,
    };
    if !message {
        return Line::Other;
    }
    match (get(v, "message"), read_stamp(v)) {
        (Some(m), Some(t)) => Line::Message(read_message(m, t)),
        _ => Line::Malformed,
    }
}

/// What a line of a session file is.
pub fn read_line(line: &str) -> (r: Line)
    ensures
        r@ == line_of(line@),
{
    match parse_json(line) {
        Ok(v) => read_entry(&v),
        Err(_) => Line::Malformed,
    }
}

/// The events that the lines of a session file log.
pub open spec fn events_of(lines: Seq<Seq<char>>) -> Seq<timeline::EventView>
    decreases lines.len(),
{
    if lines.len() == 0 {
        Seq::empty()
    } else {
        let before = events_of(lines.drop_last());
        match line_of(lines.last()) {
            LineView::Message(e) => before.push(e),
            _ => before,
        }
    }
}

/// Whether a line has nothing on it but whitespace.
pub open spec fn is_blank(line: Seq<char>) -> bool {
    forall|i: int| 0 <= i < line.len() ==> text::is_space(#[trigger] line[i])
}

/// How many lines of a session file log nothing though they should: blank lines
/// are not among them.
pub open spec fn malformed_lines(lines: Seq<Seq<char>>) -> nat
    decreases lines.len(),
{
    if lines.len() == 0 {
        0
    } else {
        malformed_lines(lines.drop_last()) + if line_of(lines.last()) is Malformed && !is_blank(
            lines.last(),
        ) {
            1nat
        } else {
            0nat
        }
    }
}

/// What a session file says of its session besides the events.
pub open spec fn origin_of(stem: Seq<char>) -> timeline::OriginView {
    timeline::OriginView {
        id: ids::prime_id(stem),
        title: None,
        child: false,
        profile: "prime"@,
        source: Some("prime"@),
    }
}

/// The session of the file with this stem and these lines.
pub open spec fn session_in(stem: Seq<char>, lines: Seq<Seq<char>>) -> Option<model::SessionView> {
    timeline::session_of(origin_of(stem), events_of(lines))
}

/// Whether the session of a file, from its start through its end, meets the window
/// `[t0, t1)`.
pub open spec fn in_window(lines: Seq<Seq<char>>, t0: i128, t1: i128) -> bool {
    let es = events_of(lines);
    es.len() > 0 && window::overlaps(timeline::extent_start(es), timeline::extent_end(es), t0, t1)
}

/// What a session file holds: the lines that could be decoded, and how many
/// could not.
#[derive(Debug, Clone)]
pub struct FileLines {
    pub lines: Vec<String>,
    pub undecodable: u64,
}

/// How many lines of a session file are skipped.
pub open spec fn lost_lines(f: FileLines) -> nat {
    f.undecodable as nat + malformed_lines(paths::name_views(f.lines@))
}

/// Whether a line has nothing on it but whitespace.
fn blank(line: &str) -> (r: bool)
    ensures
        r == is_blank(line@),
{
    let cs: Vec<char> = text::chars_of(line);
    let mut i: usize = 0;
    while i < cs.len()
        invariant
            i <= cs@.len(),
            cs@ == line@,
            forall|k: int| 0 <= k < i ==> text::is_space(#[trigger] cs@[k]),
        decreases cs.len() - i,
    {
        if !text::space_char(cs[i]) {
            assert(!text::is_space(line@[i as int]));
            return false;
        }
        i = i + 1;
    }
    true
}

/// The events that the lines of a session file log. One malformed line never
/// takes the file with it; it is counted.
pub fn read_events(f: &FileLines, stats: &mut ScanStats) -> (r: Vec<Event>)
    ensures
        timeline::event_views(r@) == events_of(paths::name_views(f.lines@)),
        final(stats)@ == (stats::StatsView {
            rows: stats::counted_on(old(stats)@.rows, lost_lines(*f)),
            ..old(stats)@
        }),
{
    let ghost start = stats@;
    let ghost views = paths::name_views(f.lines@);
    let ghost base = f.undecodable as nat;
    stats.add_skipped_rows(f.undecodable);
    let mut out: Vec<Event> = Vec::new();
    let mut i: usize = 0;
    proof {
        assert(views.take(0).len() == 0);
        assert(timeline::event_views(out@) =~= Seq::empty());
    }
    while i < f.lines.len()
        invariant
            i <= f.lines@.len(),
            views == paths::name_views(f.lines@),
            base == f.undecodable as nat,
            timeline::event_views(out@) == events_of(views.take(i as int)),
            stats@ == (stats::StatsView {
                rows: stats::counted_on(start.rows, base + malformed_lines(views.take(i as int))),
                ..start
            }),
        decreases f.lines.len() - i,
    {
        let ghost before = out@;
        proof {
            assert(views.take(i + 1).drop_last() =~= views.take(i as int));
            assert(views.take(i + 1).last() == f.lines@[i as int]@);
            stats::lemma_counted_on(
                start.rows,
                base + malformed_lines(views.take(i as int)),
                1,
            );
        }
        match read_line(f.lines[i].as_str()) {
            Line::Message(e) => {
                out.push(e);
                assert(timeline::event_views(out@) =~= timeline::event_views(before).push(e@));
            },
            Line::Other => {},
            Line::Malformed => {
                if !blank(f.lines[i].as_str()) {
                    stats.inc_skipped_rows();
                }
            },
        }
        i = i + 1;
    }
    assert(views.take(f.lines@.len() as int) =~= views);
    out
}

/// The session of the file with this stem and these events.
fn make_session(stem: &str, events: &Vec<Event>) -> (r: Option<Session>)
    ensures
        timeline::opt_session(r) == timeline::session_of(
            origin_of(stem@),
            timeline::event_views(events@),
        ),
{
    let origin = Origin {
        id: make_prime_id(stem),
        title: None,
        child: false,
        profile: "prime".to_owned(),
        source: Some("prime".to_owned()),
    };
    assemble(origin, events)
}

/// Loads the session of one file, if it meets the window `[t0, t1)`.
/// Lines that cannot be read are counted.
pub fn load_file_pub(
    stem: &str,
    f: &FileLines,
    t0: i128,
    t1: i128,
    stats: &mut ScanStats,
) -> (r: Option<Session>)
    ensures
        timeline::opt_session(r) == if in_window(paths::name_views(f.lines@), t0, t1) {
            session_in(stem@, paths::name_views(f.lines@))
        } else {
            None
        },
        final(stats)@ == (stats::StatsView {
            rows: stats::counted_on(old(stats)@.rows, lost_lines(*f)),
            ..old(stats)@
        }),
{
    let events: Vec<Event> = read_events(f, stats);
    match make_session(stem, &events) {
        Some(s) => if meets_window(s.t_start, s.t_end, t0, t1) {
            Some(s)
        } else {
            None
        },
        None => None,
    }
}

/// Loads the session of one file, whatever its time. None where the file logs no
/// message.
pub fn load_file_by_stem(stem: &str, f: &FileLines) -> (r: Option<Session>)
    ensures
        timeline::opt_session(r) == session_in(stem@, paths::name_views(f.lines@)),
{
    let mut unused: ScanStats = ScanStats::default();
    let events: Vec<Event> = read_events(f, &mut unused);
    make_session(stem, &events)
}

/// The instant that a line gives as its timestamp.
pub open spec fn line_stamp(line: Seq<char>) -> Option<int> {
    match json::json_text(text::trimmed(line)) {
        Some(j) => stamp_of(j),
        None => None,
    }
}

/// The instant that the first line of a file gives.
pub fn first_line_timestamp(first: &str) -> (r: Option<i128>)
    ensures
        match r {
            Some(t) => line_stamp(first@) == Some(t as int),
            None => line_stamp(first@) is None,
        },
{
    let cs: Vec<char> = text::trim_chars(first);
    let line: String = text::string_of(&cs, 0, cs.len());
    assert(line@ =~= text::trimmed(first@));
    match parse_json(line.as_str()) {
        Ok(v) => read_stamp(&v),
        Err(_) => None,
    }
}

/// `s` without a line break at its end.
pub open spec fn without_last_break(s: Seq<char>) -> Seq<char> {
    if s.len() > 0 && s.last() == '\n' {
        s.drop_last()
    } else {
        s
    }
}

/// The last line of the end of a file; where the end starts within a line, that
/// line does not count, unless it is the only one.
pub open spec fn last_line_of(tail: Seq<char>, cut: bool) -> Option<Seq<char>> {
    let nl = text::first_index(tail, '\n');
    let whole = if cut && nl < tail.len() {
        tail.skip(nl + 1)
    } else {
        tail
    };
    if whole.len() == 0 {
        None
    } else {
        Some(text::pieces(without_last_break(whole), '\n').last())
    }
}

/// The instant that the last line of a file gives, from the end of the file.
/// `cut` says whether more stands in front of it.
pub fn last_line_timestamp(tail: &str, cut: bool) -> (r: Option<i128>)
    ensures
        match last_line_of(tail@, cut) {
            Some(line) => match r {
                Some(t) => line_stamp(line) == Some(t as int),
                None => line_stamp(line) is None,
            },
            None => r is None,
        },
{
    let cs: Vec<char> = text::chars_of(tail);
    let nl: usize = text::find_char(&cs, '\n');
    let from: usize = if cut && nl < cs.len() {
        nl + 1
    } else {
        0
    };
    let whole: Vec<char> = text::cut(&cs, from, cs.len());
    proof {
        if cut && nl < cs@.len() {
            assert(whole@ =~= tail@.skip(nl + 1));
        } else {
            assert(whole@ =~= tail@);
        }
    }
    if whole.len() == 0 {
        return None;
    }
    let to: usize = if whole[whole.len() - 1] == '\n' {
        whole.len() - 1
    } else {
        whole.len()
    };
    let body: Vec<char> = text::cut(&whole, 0, to);
    assert(body@ =~= without_last_break(whole@));
    let lines: Vec<Vec<char>> = text::split_chars(&body, '\n');
    let last: &Vec<char> = &lines[lines.len() - 1];
    let ghost all = text::piece_views(lines@);
    assert(all.last() == last@);
    let line: String = text::string_of(last, 0, last.len());
    assert(line@ =~= last@);
    first_line_timestamp(line.as_str())
}

/// Whether a file with these first and last timestamps, last written at `mtime`,
/// may hold a session that meets the window `[t0, t1)`. What is missing rules
/// nothing out. The first line is taken to be the earliest, as the header of a
/// session file is. The lines behind it may be out of order, so that an early last
/// line alone rules nothing out; but none is stamped later than it was written.
pub open spec fn may_meet(
    first: Option<i128>,
    last: Option<i128>,
    mtime: Option<i128>,
    t0: i128,
    t1: i128,
) -> bool {
    &&& match first {
        Some(a) => a <= t1,
        None => true,
    }
    &&& match (last, mtime) {
        (Some(b), Some(m)) => t0 <= b || t0 <= m,
        _ => true,
    }
}

/// Whether a file with these first and last timestamps, last written at `mtime`, is
/// to be read for the window `[t0, t1)`.
pub fn worth_reading(
    first: Option<i128>,
    last: Option<i128>,
    mtime: Option<i128>,
    t0: i128,
    t1: i128,
) -> (r: bool)
    ensures
        r == may_meet(first, last, mtime, t0, t1),
{
    if let Some(a) = first {
        if a > t1 {
            return false;
        }
    }
    match (last, mtime) {
        (Some(b), Some(m)) => t0 <= b || t0 <= m,
        _ => true,
    }
}

/// A file that is not read would not have been loaded, where its session starts no
/// earlier than its first line says, and ends no later than it was last written.
pub proof fn law_unread_files_lose_nothing(
    lines: Seq<Seq<char>>,
    first: Option<i128>,
    last: Option<i128>,
    mtime: Option<i128>,
    t0: i128,
    t1: i128,
)
    requires
        !may_meet(first, last, mtime, t0, t1),
        first is Some ==> first->0 <= timeline::extent_start(events_of(lines)),
        mtime is Some ==> timeline::extent_end(events_of(lines)) <= mtime->0,
    ensures
        !in_window(lines, t0, t1),
{
}

/// The stem of a session file's name, which ends in `.jsonl`.
pub open spec fn stem_of(name: Seq<char>) -> Option<Seq<char>> {
    let n = name.len() - 6;
    if n > 0 && name.skip(n) == ".jsonl"@ {
        Some(name.take(n))
    } else {
        None
    }
}

/// The stem of a session file's name.
pub fn session_stem(name: &str) -> (r: Option<String>)
    ensures
        text::opt_text(r) == stem_of(name@),
{
    let cs: Vec<char> = text::chars_of(name);
    proof {
        reveal_strlit(".jsonl");
    }
    if cs.len() <= 6 {
        return None;
    }
    let n: usize = cs.len() - 6;
    let end: String = text::string_of(&cs, n, cs.len());
    assert(end@ =~= name@.skip(n as int));
    if same_text(end.as_str(), ".jsonl") {
        assert(cs@.subrange(0, n as int) =~= name@.take(n as int));
        Some(text::string_of(&cs, 0, n))
    } else {
        None
    }
}

/// The name of the session file with this stem.
pub open spec fn name_of(stem: Seq<char>) -> Seq<char> {
    stem + ".jsonl"@
}

/// The name of the session file with this stem.
pub fn session_file_name(stem: &str) -> (r: String)
    ensures
        r@ == name_of(stem@),
{
    let mut name: String = stem.to_owned();
    name.append(".jsonl");
    name
}

/// The stem of the file that [`name_of`] names: what follows the last slash, or
/// the whole file name where nothing does.
pub open spec fn file_stem_of(stem: Seq<char>) -> Seq<char> {
    let base = text::pieces(stem, '/').last();
    if base.len() > 0 {
        base
    } else {
        ".jsonl"@
    }
}

/// The stem of the file that [`session_file_name`] names.
pub fn file_stem(stem: &str) -> (r: String)
    ensures
        r@ == file_stem_of(stem@),
{
    let cs: Vec<char> = text::chars_of(stem);
    let parts: Vec<Vec<char>> = text::split_chars(&cs, '/');
    let base: &Vec<char> = &parts[parts.len() - 1];
    assert(text::piece_views(parts@).last() == base@);
    if base.len() > 0 {
        assert(base@.subrange(0, base@.len() as int) =~= base@);
        text::string_of(base, 0, base.len())
    } else {
        ".jsonl".to_owned()
    }
}

/// A session file is found again by its stem.
pub proof fn law_stems_read_back(stem: Seq<char>)
    requires
        stem.len() > 0,
    ensures
        stem_of(name_of(stem)) == Some(stem),
        forall|name: Seq<char>| #[trigger]
            stem_of(name) == Some(stem) ==> name == name_of(stem),
{
    reveal_strlit(".jsonl");
    let name = name_of(stem);
    assert(name.skip(name.len() - 6) =~= ".jsonl"@);
    assert(name.take(name.len() - 6) =~= stem);
    assert forall|other: Seq<char>| #[trigger] stem_of(other) == Some(stem) implies other
        == name_of(stem) by {
        let n = other.len() - 6;
        assert(other =~= other.take(n) + other.skip(n));
    }
}

/// Whether a file was last written more than a day before `t0`.
pub open spec fn is_stale(mtime: Option<i128>, t0: i128) -> bool {
    match mtime {
        Some(m) => m < t0 - DAY,
        None => false,
    }
}

/// Whether a directory entry is a session file that may hold something from `t0`
/// on.
pub fn wants_file(name: &str, mtime: Option<i128>, t0: i128) -> (r: bool)
    ensures
        r == (stem_of(name@) is Some && !is_stale(mtime, t0)),
{
    let stale: bool = match mtime {
        Some(m) => match t0.checked_sub(DAY) {
            Some(limit) => m < limit,
            None => false,
        },
        None => false,
    };
    session_stem(name).is_some() && !stale
}

/// The session files among the names of a directory, in dictionary order.
pub open spec fn session_names(names: Seq<Seq<char>>) -> Seq<Seq<char>>
    decreases names.len(),
{
    if names.len() == 0 {
        Seq::empty()
    } else {
        let before = session_names(names.drop_last());
        if stem_of(names.last()) is Some {
            before.push(names.last())
        } else {
            before
        }
    }
}

/// The session files among the names of a directory, in dictionary order.
pub fn session_files(names: &Vec<String>) -> (r: Vec<String>)
    ensures
        paths::name_views(r@) == paths::sorted_names(session_names(paths::name_views(names@))),
{
    let ghost views = paths::name_views(names@);
    let mut out: Vec<String> = Vec::new();
    let mut i: usize = 0;
    assert(paths::name_views(out@) =~= session_names(views.take(0)));
    while i < names.len()
        invariant
            i <= names@.len(),
            views == paths::name_views(names@),
            paths::name_views(out@) == session_names(views.take(i as int)),
        decreases names.len() - i,
    {
        let ghost before = out@;
        proof {
            assert(views.take(i + 1).drop_last() =~= views.take(i as int));
            assert(views.take(i + 1).last() == names@[i as int]@);
        }
        if session_stem(names[i].as_str()).is_some() {
            out.push(names[i].clone());
            assert(paths::name_views(out@) =~= paths::name_views(before).push(names@[i as int]@));
        }
        i = i + 1;
    }
    assert(views.take(names@.len() as int) =~= views);
    paths::sort_names(&out)
}

/// A directory entry with what it holds.
#[derive(Debug, Clone)]
pub struct DirFile {
    pub name: String,
    pub mtime: Option<i128>,
    pub content: FileLines,
}

/// The session that a directory entry yields for the window `[t0, t1)`.
pub open spec fn file_session(f: DirFile, t0: i128, t1: i128) -> Option<model::SessionView> {
    match stem_of(f.name@) {
        Some(stem) => if !is_stale(f.mtime, t0) && in_window(
            paths::name_views(f.content.lines@),
            t0,
            t1,
        ) {
            session_in(stem, paths::name_views(f.content.lines@))
        } else {
            None
        },
        None => None,
    }
}

/// The sessions that the entries `files` yield, in order.
pub open spec fn file_sessions(files: Seq<DirFile>, t0: i128, t1: i128) -> Seq<model::SessionView>
    decreases files.len(),
{
    if files.len() == 0 {
        Seq::empty()
    } else {
        let before = file_sessions(files.drop_last(), t0, t1);
        match file_session(files.last(), t0, t1) {
            Some(s) => before.push(s),
            None => before,
        }
    }
}

/// The names of directory entries.
pub open spec fn entry_names(files: Seq<DirFile>) -> Seq<Seq<char>> {
    files.map_values(|f: DirFile| f.name@)
}

/// The directory entries in dictionary order.
pub open spec fn by_name(files: Seq<DirFile>) -> Seq<DirFile> {
    order::arranged(files, order::name_order(entry_names(files)))
}

/// Loads the sessions that meet the window `[t0, t1)` from the entries of a
/// directory, by name. Entries that are no session files, and files last written
/// more than a day before `t0`, yield nothing. A directory that could not be listed
/// is an error, the one that listing it gave.
pub fn scan_dir(listing: Result<Vec<DirFile>, String>, t0: i128, t1: i128) -> (r: Result<
    Vec<Session>,
    String,
>)
    ensures
        match (listing, r) {
            (Ok(files), Ok(out)) => model::session_views(out@) == file_sessions(
                by_name(files@),
                t0,
                t1,
            ),
            (Err(e), Err(f)) => f == e,
            _ => false,
        },
{
    match listing {
        Ok(files) => Ok(scan_files(&files, t0, t1)),
        Err(e) => Err(e),
    }
}

/// Loads the sessions that meet the window `[t0, t1)` from directory entries, by
/// name.
fn scan_files(files: &Vec<DirFile>, t0: i128, t1: i128) -> (r: Vec<Session>)
    ensures
        model::session_views(r@) == file_sessions(by_name(files@), t0, t1),
{
    let mut names: Vec<&str> = Vec::new();
    let mut i: usize = 0;
    while i < files.len()
        invariant
            i <= files@.len(),
            names@.len() == i,
            forall|k: int| 0 <= k < i ==> (#[trigger] names@[k])@ == files@[k].name@,
        decreases files.len() - i,
    {
        names.push(files[i].name.as_str());
        i = i + 1;
    }
    assert(order::str_views(names@) =~= entry_names(files@));
    let places: Vec<usize> = stable_name_order(&names);
    let ghost sorted = by_name(files@);
    assert forall|k: int| 0 <= k < places@.len() implies #[trigger] sorted[k]
        == files@[places@[k] as int] by {
        assert(order::places(places@)[k] == places@[k]);
    }
    let mut out: Vec<Session> = Vec::new();
    let mut unused: ScanStats = ScanStats::default();
    let mut j: usize = 0;
    assert(model::session_views(out@) =~= file_sessions(sorted.take(0), t0, t1));
    while j < places.len()
        invariant
            j <= places@.len(),
            sorted.len() == places@.len(),
            forall|k: int| 0 <= k < places@.len() ==> #[trigger] places@[k] < files@.len(),
            forall|k: int|
                0 <= k < places@.len() ==> #[trigger] sorted[k] == files@[places@[k] as int],
            model::session_views(out@) == file_sessions(sorted.take(j as int), t0, t1),
        decreases places.len() - j,
    {
        let f: &DirFile = &files[places[j]];
        let ghost before = out@;
        proof {
            assert(sorted[j as int] == files@[places@[j as int] as int]);
            assert(sorted.take(j + 1).drop_last() =~= sorted.take(j as int));
            assert(sorted.take(j + 1).last() == *f);
        }
        if wants_file(f.name.as_str(), f.mtime, t0) {
            if let Some(stem) = session_stem(f.name.as_str()) {
                if let Some(s) = load_file_pub(stem.as_str(), &f.content, t0, t1, &mut unused) {
                    out.push(s);
                    assert(model::session_views(out@) =~= model::session_views(before).push(s@));
                }
            }
        }
        j = j + 1;
    }
    assert(sorted.take(sorted.len() as int) =~= sorted);
    out
}

} // verus!
