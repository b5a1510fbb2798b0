//! What the lines of a Prime session file say, member by member.
use crate::instant;
use crate::json;
use crate::json::JsonView;
use crate::loaders::prime;
use crate::loaders::prime::{DirFile, LineView};
use crate::model::SessionKind;
use crate::order;
use crate::paths;
use crate::text;
use crate::text_laws;
use crate::timeline;
use crate::timeline::{CallView, EventView, Role};
use crate::timeline_laws;
use vstd::prelude::*;

verus! {

/// The members of a message.
pub type Members = Map<Seq<char>, JsonView>;

/// The message `o` with the content `c`.
pub open spec fn saying(o: Members, c: JsonView) -> JsonView {
    JsonView::Object(o.insert("content"@, c))
}

/// The text of a content part, if it has one.
pub open spec fn has_text(p: JsonView) -> bool {
    json::field(p, "text"@) is Some && json::field(p, "text"@)->0 is Text
}

/// A message with a string as its content logs that string, whoever wrote it.
pub proof fn law_plain_contents_are_the_text(o: Members, s: Seq<char>, t: i128)
    ensures
        prime::message_event(saying(o, JsonView::Text(s)), t).text == s,
        prime::message_event(saying(o, JsonView::Text(s)), t).calls.len() == 0,
{
}

/// A message with parts as its content logs their texts, one space between each and
/// the next, whoever wrote it; a part without a text adds nothing.
pub proof fn law_part_texts_are_joined(o: Members, parts: Seq<JsonView>, p: JsonView, t: i128)
    ensures
        prime::message_event(saying(o, JsonView::Array(Seq::empty())), t).text.len() == 0,
        !has_text(p) ==> prime::message_event(saying(o, JsonView::Array(parts.push(p))), t).text
            == prime::message_event(saying(o, JsonView::Array(parts)), t).text,
        has_text(p) && (forall|i: int| 0 <= i < parts.len() ==> !has_text(#[trigger] parts[i]))
            ==> prime::message_event(saying(o, JsonView::Array(parts.push(p))), t).text
            == json::field(p, "text"@)->0->Text_0,
        has_text(p) && (exists|i: int| 0 <= i < parts.len() && has_text(#[trigger] parts[i]))
            ==> prime::message_event(saying(o, JsonView::Array(parts.push(p))), t).text
            == prime::message_event(saying(o, JsonView::Array(parts)), t).text + seq![' ']
            + json::field(p, "text"@)->0->Text_0,
{
    let before = prime::part_texts(parts);
    let all = prime::part_texts(parts.push(p));
    assert(parts.push(p).drop_last() =~= parts);
    lemma_part_texts(parts);
    if has_text(p) {
        assert(all.drop_last() =~= before);
    }
    assert(prime::part_texts(Seq::empty()).len() == 0);
}

proof fn lemma_part_texts(parts: Seq<JsonView>)
    ensures
        prime::part_texts(parts).len() > 0 <==> exists|i: int|
            0 <= i < parts.len() && has_text(#[trigger] parts[i]),
    decreases parts.len(),
{
    if parts.len() > 0 {
        let init = parts.drop_last();
        lemma_part_texts(init);
        assert(parts[parts.len() - 1] == parts.last());
        if exists|i: int| 0 <= i < init.len() && has_text(#[trigger] init[i]) {
            let i = choose|i: int| 0 <= i < init.len() && has_text(#[trigger] init[i]);
            assert(parts[i] == init[i]);
        }
        if exists|i: int| 0 <= i < parts.len() && has_text(#[trigger] parts[i]) {
            let i = choose|i: int| 0 <= i < parts.len() && has_text(#[trigger] parts[i]);
            if i < init.len() {
                assert(init[i] == parts[i]);
            }
        }
    }
}

/// A message with any other content, or with none, logs no text.
pub proof fn law_other_contents_have_no_text(m: JsonView, t: i128)
    requires
        match json::field(m, "content"@) {
            Some(c) => !(c is Text) && !(c is Array),
            None => true,
        },
    ensures
        prime::message_event(m, t).text.len() == 0,
        prime::message_event(m, t).calls.len() == 0,
{
}

/// One part with a text is as good as the text: the message logs the same event.
pub proof fn law_one_part_is_its_text(o: Members, p: JsonView, s: Seq<char>, t: i128)
    requires
        json::field(p, "text"@) == Some(JsonView::Text(s)),
        json::field(p, "type"@) != Some(JsonView::Text("toolCall"@)),
    ensures
        prime::message_event(saying(o, JsonView::Array(seq![p])), t) == prime::message_event(
            saying(o, JsonView::Text(s)),
            t,
        ),
{
    let none = Seq::<JsonView>::empty();
    law_part_texts_are_joined(o, none, p, t);
    law_calls_are_parts(o, none, p, t);
    assert(none.push(p) =~= seq![p]);
    law_members_stand_alone(o, JsonView::Array(seq![p]), JsonView::Text(s), t);
    let a = prime::message_event(saying(o, JsonView::Array(seq![p])), t);
    let b = prime::message_event(saying(o, JsonView::Text(s)), t);
    assert(a.calls =~= b.calls);
    assert(a.text == b.text);
}

/// The content decides the text and the calls of a message, and nothing else.
pub proof fn law_members_stand_alone(o: Members, c: JsonView, d: JsonView, t: i128)
    ensures
        prime::message_event(saying(o, c), t) == (EventView {
            text: prime::message_event(saying(o, c), t).text,
            calls: prime::message_event(saying(o, c), t).calls,
            ..prime::message_event(saying(o, d), t)
        }),
{
    reveal_strlit("content");
    reveal_strlit("role");
    reveal_strlit("toolCallId");
    reveal_strlit("toolName");
    assert("content"@.len() == 7);
    assert("role"@.len() == 4 && "toolCallId"@.len() == 10 && "toolName"@.len() == 8);
}

/// Two messages that differ in who wrote them alone log the same text.
pub proof fn law_every_role_has_its_text(o: Members, r: JsonView, t: i128)
    ensures
        prime::message_event(JsonView::Object(o.insert("role"@, r)), t).text
            == prime::message_event(JsonView::Object(o), t).text,
{
    reveal_strlit("content");
    reveal_strlit("role");
    assert("content"@.len() == 7 && "role"@.len() == 4);
}

/// What a message says of who wrote it, when, and which call it answers.
pub proof fn law_what_a_message_says(m: JsonView, t: i128)
    ensures
        prime::message_event(m, t).t == t,
        !prime::message_event(m, t).injected,
        prime::message_event(m, t).role == Role::User <==> json::field(m, "role"@) == Some(
            JsonView::Text("user"@),
        ),
        prime::message_event(m, t).role == Role::Assistant <==> json::field(m, "role"@) == Some(
            JsonView::Text("assistant"@),
        ),
        prime::message_event(m, t).role == Role::Tool <==> json::field(m, "role"@) == Some(
            JsonView::Text("toolResult"@),
        ),
        match json::field(m, "toolCallId"@) {
            Some(JsonView::Text(s)) => prime::message_event(m, t).call_id == s,
            _ => prime::message_event(m, t).call_id.len() == 0,
        },
        match json::field(m, "toolName"@) {
            Some(JsonView::Text(s)) => prime::message_event(m, t).tool_name == s,
            _ => prime::message_event(m, t).tool_name == "tool"@,
        },
        !(prime::message_event(m, t).role == Role::Assistant) ==> prime::message_event(
            m,
            t,
        ).calls.len() == 0,
{
    reveal_strlit("");
    reveal_strlit("user");
    reveal_strlit("assistant");
    reveal_strlit("toolResult");
    assert("user"@.len() == 4 && "assistant"@.len() == 9 && "toolResult"@.len() == 10);
}

/// Whether `c` is the call of the part `p`: its id, its name, and its arguments, as
/// they stand where they are a string, and else by their JSON text.
pub open spec fn is_part_call(p: JsonView, c: CallView) -> bool {
    &&& match json::field(p, "id"@) {
        Some(JsonView::Text(s)) => c.id == s,
        _ => c.id.len() == 0,
    }
    &&& match json::field(p, "name"@) {
        Some(JsonView::Text(s)) => c.name == s,
        _ => c.name == "?"@,
    }
    &&& match json::field(p, "arguments"@) {
        Some(JsonView::Text(s)) => c.args == s,
        Some(v) => c.args == json::json_render(v),
        None => c.args.len() == 0,
    }
}

/// Each part of the type `toolCall` of an assistant's message makes a call, in
/// order; no other part does, nor any part of another's message.
pub proof fn law_calls_are_parts(o: Members, parts: Seq<JsonView>, p: JsonView, t: i128)
    ensures
        prime::message_event(saying(o, JsonView::Array(Seq::empty())), t).calls.len() == 0,
        json::field(p, "type"@) != Some(JsonView::Text("toolCall"@)) ==> prime::message_event(
            saying(o, JsonView::Array(parts.push(p))),
            t,
        ).calls == prime::message_event(saying(o, JsonView::Array(parts)), t).calls,
        json::field(p, "type"@) == Some(JsonView::Text("toolCall"@)) && prime::message_event(
            saying(o, JsonView::Array(parts)),
            t,
        ).role == Role::Assistant ==> {
            let before = prime::message_event(saying(o, JsonView::Array(parts)), t).calls;
            let after = prime::message_event(saying(o, JsonView::Array(parts.push(p))), t).calls;
            &&& after.len() == before.len() + 1
            &&& after.drop_last() == before
            &&& is_part_call(p, after.last())
        },
        prime::message_event(saying(o, JsonView::Array(parts)), t).role != Role::Assistant
            ==> prime::message_event(saying(o, JsonView::Array(parts)), t).calls.len() == 0,
{
    reveal_strlit("");
    law_members_stand_alone(o, JsonView::Array(parts.push(p)), JsonView::Array(parts), t);
    assert(parts.push(p).drop_last() =~= parts);
    assert(prime::part_calls(Seq::empty()).len() == 0);
    let before = prime::part_calls(parts);
    if prime::is_call(p) {
        assert(before.push(prime::part_call(p)).drop_last() =~= before);
    }
}

/// A line logs a message exactly when it is a JSON text of the type `message` with
/// a message and a timestamp that can be read; it then logs that message, at that
/// instant.
pub proof fn law_lines_that_log(line: Seq<char>)
    ensures
        match json::json_text(line) {
            None => prime::line_of(line) == LineView::Malformed,
            Some(j) => if json::field(j, "type"@) != Some(JsonView::Text("message"@)) {
                prime::line_of(line) == LineView::Other
            } else {
                match (json::field(j, "message"@), json::field(j, "timestamp"@)) {
                    (Some(m), Some(JsonView::Text(s))) => match instant::instant_of(s) {
                        Some(t) => prime::line_of(line) == LineView::Message(
                            prime::message_event(m, t as i128),
                        ),
                        None => prime::line_of(line) == LineView::Malformed,
                    },
                    _ => prime::line_of(line) == LineView::Malformed,
                }
            },
        },
{
}

/// One more line adds its message behind the others, if it logs one; it counts as
/// lost exactly when it is no good and not blank.
pub proof fn law_one_more_line(lines: Seq<Seq<char>>, line: Seq<char>)
    ensures
        match prime::line_of(line) {
            LineView::Message(e) => prime::events_of(lines.push(line)) == prime::events_of(
                lines,
            ).push(e),
            _ => prime::events_of(lines.push(line)) == prime::events_of(lines),
        },
        prime::malformed_lines(lines.push(line)) == prime::malformed_lines(lines) + (if
        prime::line_of(line) is Malformed && exists|i: int|
            0 <= i < line.len() && !text::is_space(#[trigger] line[i]) {
            1nat
        } else {
            0nat
        }),
        prime::events_of(Seq::empty()).len() == 0,
        prime::malformed_lines(Seq::empty()) == 0,
{
    assert(lines.push(line).drop_last() =~= lines);
}

/// The session of a file: its id is the file's stem, its profile and source are
/// `prime`, its title is the preview of what the first user message says, and it is
/// human exactly when there is one. There is a session exactly when a line logs a
/// message.
pub proof fn law_what_a_file_says(stem: Seq<char>, lines: Seq<Seq<char>>)
    ensures
        prime::session_in(stem, lines) is Some <==> exists|i: int|
            0 <= i < lines.len() && prime::line_of(#[trigger] lines[i]) is Message,
        prime::session_in(stem, lines) is Some ==> {
            let s = prime::session_in(stem, lines)->0;
            let es = prime::events_of(lines);
            &&& s.id == "prime:"@ + stem
            &&& s.profile == Some("prime"@)
            &&& s.source == Some("prime"@)
            &&& s.spans == timeline::spans_of(es)
            &&& s.kind == SessionKind::Human <==> exists|k: int|
                0 <= k < es.len() && (#[trigger] es[k]).role == Role::User
            &&& forall|k: int|
                0 <= k < es.len() && (#[trigger] es[k]).role == Role::User && text::preview_of(
                    es[k].text,
                ).len() > 0 && (forall|j: int| 0 <= j < k ==> (#[trigger] es[j]).role != Role::User)
                    ==> s.title == Some(text::preview_of(es[k].text))
        },
{
    let es = prime::events_of(lines);
    let o = prime::origin_of(stem);
    lemma_events(lines);
    timeline_laws::law_session_of_events(o, es);
    assert forall|k: int| 0 <= k < es.len() implies !(#[trigger] es[k]).injected by {}
    if exists|k: int| 0 <= k < es.len() && (#[trigger] es[k]).role == Role::User {
        let k = choose|k: int| 0 <= k < es.len() && (#[trigger] es[k]).role == Role::User;
        assert(!es[k].injected);
    }
    assert forall|k: int|
        0 <= k < es.len() && (#[trigger] es[k]).role == Role::User && text::preview_of(
            es[k].text,
        ).len() > 0 && (forall|j: int| 0 <= j < k ==> (#[trigger] es[j]).role
            != Role::User) implies timeline::session_of(o, es)->0.title == Some(
        text::preview_of(es[k].text),
    ) by {
        timeline_laws::law_first_user_event_is_the_title(o, es, k);
    }
}

proof fn lemma_events(lines: Seq<Seq<char>>)
    ensures
        prime::events_of(lines).len() > 0 <==> exists|i: int|
            0 <= i < lines.len() && prime::line_of(#[trigger] lines[i]) is Message,
        forall|k: int|
            0 <= k < prime::events_of(lines).len() ==> !(#[trigger] prime::events_of(
                lines,
            )[k]).injected,
    decreases lines.len(),
{
    if lines.len() > 0 {
        let init = lines.drop_last();
        let line = lines.last();
        let before = prime::events_of(init);
        let all = prime::events_of(lines);
        lemma_events(init);
        lemma_not_injected(line);
        assert(init.push(line) =~= lines);
        law_one_more_line(init, line);
        assert(lines[lines.len() - 1] == line);
        if before.len() > 0 {
            let i = choose|i: int|
                0 <= i < init.len() && prime::line_of(#[trigger] init[i]) is Message;
            assert(lines[i] == init[i]);
        }
        if exists|i: int| 0 <= i < lines.len() && prime::line_of(#[trigger] lines[i]) is Message {
            let i = choose|i: int|
                0 <= i < lines.len() && prime::line_of(#[trigger] lines[i]) is Message;
            if i < init.len() {
                assert(init[i] == lines[i]);
            }
        }
        assert forall|k: int| 0 <= k < all.len() implies !(#[trigger] all[k]).injected by {
            if k < before.len() {
                assert(all[k] == before[k]);
            }
        }
    }
}

/// No line logs an injected message.
proof fn lemma_not_injected(line: Seq<char>)
    ensures
        match prime::line_of(line) {
            LineView::Message(e) => !e.injected,
            _ => true,
        },
{
}

/// A file is loaded for the window `[t0, t1)` exactly when its session starts before
/// the window ends and ends no earlier than the window opens.
pub proof fn law_files_in_a_window(stem: Seq<char>, lines: Seq<Seq<char>>, t0: i128, t1: i128)
    ensures
        prime::in_window(lines, t0, t1) <==> prime::session_in(stem, lines) is Some
            && prime::session_in(stem, lines)->0.t_start < t1 && t0 <= prime::session_in(
            stem,
            lines,
        )->0.t_end,
{
}

/// A file is left unread exactly when its first line is stamped after the window
/// ends, or its last line before the window opens and nothing was written since.
pub proof fn law_which_files_are_read(
    first: Option<i128>,
    last: Option<i128>,
    mtime: Option<i128>,
    t0: i128,
    t1: i128,
)
    ensures
        !prime::may_meet(first, last, mtime, t0, t1) <==> (first is Some && first->0 > t1) || (last
            is Some && mtime is Some && last->0 < t0 && mtime->0 < t0),
{
}

/// A directory entry yields its session exactly when it is named as a session file,
/// was written no more than a day before the window opens, or at a time that nobody
/// knows, and its session meets the window.
pub proof fn law_which_entries_yield(f: DirFile, t0: i128, t1: i128)
    ensures
        ({
            let lines = paths::name_views(f.content.lines@);
            prime::file_session(f, t0, t1) == if prime::stem_of(f.name@) is Some && (f.mtime is None
                || f.mtime->0 >= t0 - 86_400_000_000_000) && prime::in_window(lines, t0, t1) {
                prime::session_in(prime::stem_of(f.name@)->0, lines)
            } else {
                None
            }
        }),
{
}

/// One more entry adds its session behind the others, if it yields one.
pub proof fn law_one_more_entry(files: Seq<DirFile>, f: DirFile, t0: i128, t1: i128)
    ensures
        prime::file_sessions(files.push(f), t0, t1) == match prime::file_session(f, t0, t1) {
            Some(s) => prime::file_sessions(files, t0, t1).push(s),
            None => prime::file_sessions(files, t0, t1),
        },
        prime::file_sessions(Seq::empty(), t0, t1).len() == 0,
{
    assert(files.push(f).drop_last() =~= files);
}

/// The entries of a directory are taken by name, none left out, none twice.
pub proof fn law_entries_by_name(files: Seq<DirFile>)
    ensures
        prime::by_name(files).len() == files.len(),
        forall|f: DirFile| #[trigger] prime::by_name(files).contains(f) <==> files.contains(f),
        forall|i: int, j: int|
            0 <= i < j < files.len() ==> paths::no_later(
                (#[trigger] prime::by_name(files)[i]).name@,
                (#[trigger] prime::by_name(files)[j]).name@,
            ),
{
    let names = prime::entry_names(files);
    let o = order::name_order(names);
    let sorted = prime::by_name(files);
    order::law_names_order(names);
    order::law_order_sorts(names.len(), order::by_name(names));
    assert forall|f: DirFile| #[trigger] sorted.contains(f) <==> files.contains(f) by {
        if sorted.contains(f) {
            let k = choose|k: int| 0 <= k < sorted.len() && sorted[k] == f;
            assert(files[o[k]] == f);
        }
        if files.contains(f) {
            let p = choose|p: int| 0 <= p < files.len() && files[p] == f;
            assert(o.contains(p));
            let k = choose|k: int| 0 <= k < o.len() && o[k] == p;
            assert(sorted[k] == f);
        }
    }
    assert forall|i: int, j: int| 0 <= i < j < files.len() implies paths::no_later(
        (#[trigger] sorted[i]).name@,
        (#[trigger] sorted[j]).name@,
    ) by {
        assert(order::comes_before(order::by_name(names), o[i], o[j]));
        assert(names[o[i]] == sorted[i].name@ && names[o[j]] == sorted[j].name@);
    }
}

/// A name is that of a session file exactly when something and `.jsonl` make it up,
/// and that something is its stem.
pub proof fn law_session_file_names(name: Seq<char>, stem: Seq<char>)
    ensures
        prime::stem_of(name) == Some(stem) <==> stem.len() > 0 && name == stem + ".jsonl"@,
        prime::name_of(stem) == stem + ".jsonl"@,
{
    reveal_strlit(".jsonl");
    if prime::stem_of(name) == Some(stem) {
        let n = name.len() - 6;
        assert(name =~= name.take(n) + name.skip(n));
    }
    if stem.len() > 0 && name == stem + ".jsonl"@ {
        assert(name.skip(name.len() - 6) =~= ".jsonl"@);
        assert(name.take(name.len() - 6) =~= stem);
    }
}

/// The session files of a directory are its entries with such a name, each once.
pub proof fn law_which_entries_are_session_files(names: Seq<Seq<char>>, name: Seq<char>)
    ensures
        prime::session_names(names.push(name)) == if prime::stem_of(name) is Some {
            prime::session_names(names).push(name)
        } else {
            prime::session_names(names)
        },
        prime::session_names(Seq::empty()).len() == 0,
{
    assert(names.push(name).drop_last() =~= names);
}

/// The last line of the end of a file is what follows its last line break, but for
/// one at the very end; where the end starts within a line, what comes before the
/// first line break does not count.
pub proof fn law_last_lines(a: Seq<char>, b: Seq<char>, line: Seq<char>)
    requires
        !a.contains('\n'),
        !line.contains('\n'),
        line.len() > 0,
    ensures
        prime::last_line_of(line, false) == Some(line),
        prime::last_line_of(line, true) == Some(line),
        prime::last_line_of(line.push('\n'), false) == Some(line),
        prime::last_line_of(b + seq!['\n'] + line, false) == Some(line),
        prime::last_line_of((b + seq!['\n'] + line).push('\n'), false) == Some(line),
        prime::last_line_of(a + seq!['\n'] + line, true) == Some(line),
        prime::last_line_of((a + seq!['\n'] + line).push('\n'), true) == Some(line),
        prime::last_line_of(a.push('\n'), true) is None,
        prime::last_line_of(Seq::empty(), false) is None,
{
    let brk = '\n';
    assert(line.last() != brk) by {
        assert(line.contains(line.last()));
    }
    text_laws::lemma_no_index(line, brk);
    text_laws::lemma_one_piece(line, brk);
    assert(line.push(brk).drop_last() =~= line);
    let c = b + seq![brk] + line;
    text_laws::lemma_more_pieces(b, brk, line);
    assert(c.last() == line.last());
    assert(c.push(brk).drop_last() =~= c);
    let d = a + seq![brk] + line;
    text_laws::lemma_first_index(a, brk, line);
    assert(d.skip(a.len() as int + 1) =~= line);
    text_laws::lemma_first_index(a, brk, line.push(brk));
    assert(d.push(brk) =~= a + seq![brk] + line.push(brk));
    assert(d.push(brk).skip(a.len() as int + 1) =~= line.push(brk));
    let none = Seq::<char>::empty();
    text_laws::lemma_first_index(a, brk, none);
    assert(a.push(brk) =~= a + seq![brk] + none);
    assert(a.push(brk).skip(a.len() as int + 1) =~= none);
}

/// The timestamp of a line is that of its JSON text, whatever whitespace stands
/// around it.
pub proof fn law_line_stamps(front: Seq<char>, line: Seq<char>, end: Seq<char>)
    requires
        forall|i: int| 0 <= i < front.len() ==> text::is_space(#[trigger] front[i]),
        forall|i: int| 0 <= i < end.len() ==> text::is_space(#[trigger] end[i]),
        line.len() > 0,
        !text::is_space(line[0]),
        !text::is_space(line.last()),
    ensures
        prime::line_stamp(front + line + end) == match json::json_text(line) {
            Some(j) => match json::field(j, "timestamp"@) {
                Some(JsonView::Text(s)) => instant::instant_of(s),
                _ => None,
            },
            None => None,
        },
{
    text_laws::law_trimming_takes_whitespace_away(front, line, end);
}

/// A file loses the lines that could not be decoded, and those that are no good.
pub proof fn law_lost_lines(f: prime::FileLines)
    ensures
        prime::lost_lines(f) == f.undecodable + prime::malformed_lines(
            paths::name_views(f.lines@),
        ),
{
}

/// An id with a slash names the file behind the last one.
pub proof fn law_stems_behind_slashes(dir: Seq<char>, stem: Seq<char>)
    requires
        !stem.contains('/'),
        stem.len() > 0,
    ensures
        prime::file_stem_of(stem) == stem,
        prime::file_stem_of(dir + seq!['/'] + stem) == stem,
{
    text_laws::lemma_one_piece(stem, '/');
    text_laws::lemma_more_pieces(dir, '/', stem);
}

} // verus!
