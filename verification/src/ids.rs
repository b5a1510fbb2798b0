//! Session ids: `hermes:<profile>:<sid>` and `prime:<stem>`.
use crate::text;
use crate::text::{chars_of, find_char, string_of};
use crate::text_laws;
use vstd::prelude::*;
use vstd::string::*;

verus! {

/// The id of the session `sid` of a Hermes profile.
pub open spec fn hermes_id(profile: Seq<char>, sid: Seq<char>) -> Seq<char> {
    "hermes:"@ + profile + ":"@ + sid
}

/// The id of the session in the Prime file with this stem.
pub open spec fn prime_id(stem: Seq<char>) -> Seq<char> {
    "prime:"@ + stem
}

/// The id of the session `sid` of a Hermes profile.
pub fn make_hermes_id(profile: &str, sid: &str) -> (r: String)
    ensures
        r@ == hermes_id(profile@, sid@),
{
    let mut id: String = "hermes:".to_owned();
    id.append(profile);
    id.append(":");
    id.append(sid);
    id
}

/// The id of the session in the Prime file with this stem.
pub fn make_prime_id(stem: &str) -> (r: String)
    ensures
        r@ == prime_id(stem@),
{
    let mut id: String = "prime:".to_owned();
    id.append(stem);
    id
}

/// What a session id names.
#[derive(Debug, Clone)]
pub enum SessionId {
    Hermes { profile: String, sid: String },
    Prime { stem: String },
}

/// What a session id names, as mathematical text.
pub enum SessionIdView {
    Hermes { profile: Seq<char>, sid: Seq<char> },
    Prime { stem: Seq<char> },
}

impl View for SessionId {
    type V = SessionIdView;

    open spec fn view(&self) -> SessionIdView {
        match *self {
            SessionId::Hermes { profile, sid } => SessionIdView::Hermes {
                profile: profile@,
                sid: sid@,
            },
            SessionId::Prime { stem } => SessionIdView::Prime { stem: stem@ },
        }
    }
}

/// An optional [`SessionId`] by its view.
pub open spec fn opt_id(o: Option<SessionId>) -> Option<SessionIdView> {
    match o {
        Some(i) => Some(i@),
        None => None,
    }
}

/// Whether `s` starts with `prefix`.
pub open spec fn starts_with(s: Seq<char>, prefix: Seq<char>) -> bool {
    s.len() >= prefix.len() && s.take(prefix.len() as int) == prefix
}

/// What the id `id` names: behind `hermes:` the profile up to the next colon,
/// and the session behind it; behind `prime:` the stem. Nothing else is an id.
pub open spec fn id_of(id: Seq<char>) -> Option<SessionIdView> {
    if starts_with(id, "hermes:"@) {
        let rest = id.skip(7);
        let colon = text::first_index(rest, ':');
        if colon < rest.len() {
            Some(SessionIdView::Hermes { profile: rest.take(colon), sid: rest.skip(colon + 1) })
        } else {
            None
        }
    } else if starts_with(id, "prime:"@) {
        Some(SessionIdView::Prime { stem: id.skip(6) })
    } else {
        None
    }
}

/// Whether `s` starts with `prefix`.
fn has_prefix(s: &Vec<char>, prefix: &str) -> (r: bool)
    ensures
        r == starts_with(s@, prefix@),
{
    let p: Vec<char> = chars_of(prefix);
    if s.len() < p.len() {
        return false;
    }
    let mut i: usize = 0;
    while i < p.len()
        invariant
            i <= p@.len() <= s@.len(),
            p@ == prefix@,
            forall|k: int| 0 <= k < i ==> #[trigger] s@[k] == p@[k],
        decreases p.len() - i,
    {
        if s[i] != p[i] {
            assert(s@.take(p@.len() as int)[i as int] != p@[i as int]);
            return false;
        }
        i = i + 1;
    }
    assert(s@.take(p@.len() as int) =~= p@);
    true
}

/// What the id `id` names.
pub fn parse_id(id: &str) -> (r: Option<SessionId>)
    ensures
        opt_id(r) == id_of(id@),
{
    let cs: Vec<char> = chars_of(id);
    proof {
        reveal_strlit("hermes:");
        reveal_strlit("prime:");
    }
    if has_prefix(&cs, "hermes:") {
        let rest: Vec<char> = text::cut(&cs, 7, cs.len());
        assert(rest@ =~= id@.skip(7));
        let colon: usize = find_char(&rest, ':');
        if colon == rest.len() {
            return None;
        }
        proof {
            assert(rest@.subrange(0, colon as int) =~= rest@.take(colon as int));
            assert(rest@.subrange(colon + 1, rest@.len() as int) =~= rest@.skip(colon + 1));
        }
        Some(
            SessionId::Hermes {
                profile: string_of(&rest, 0, colon),
                sid: string_of(&rest, colon + 1, rest.len()),
            },
        )
    } else if has_prefix(&cs, "prime:") {
        assert(id@.subrange(6, id@.len() as int) =~= id@.skip(6));
        Some(SessionId::Prime { stem: string_of(&cs, 6, cs.len()) })
    } else {
        None
    }
}

/// An id reads back as what it was made of, for every session of a profile
/// whose name has no colon.
pub proof fn law_hermes_ids_read_back(profile: Seq<char>, sid: Seq<char>)
    requires
        !profile.contains(':'),
    ensures
        id_of(hermes_id(profile, sid)) == Some(SessionIdView::Hermes { profile, sid }),
{
    reveal_strlit("hermes:");
    reveal_strlit(":");
    let id = hermes_id(profile, sid);
    let rest = profile + seq![':'] + sid;
    assert(id.take(7) =~= "hermes:"@);
    assert(":"@ =~= seq![':']);
    assert(id.skip(7) =~= rest);
    text_laws::lemma_first_index(profile, ':', sid);
    assert(rest.take(profile.len() as int) =~= profile);
    assert(rest.skip(profile.len() as int + 1) =~= sid);
}

/// An id reads back as what it was made of, for every Prime file.
pub proof fn law_prime_ids_read_back(stem: Seq<char>)
    ensures
        id_of(prime_id(stem)) == Some(SessionIdView::Prime { stem }),
{
    reveal_strlit("hermes:");
    reveal_strlit("prime:");
    let id = prime_id(stem);
    assert(id.take(6) =~= "prime:"@);
    assert(id.skip(6) =~= stem);
    assert(id[0] == 'p');
    assert(!starts_with(id, "hermes:"@)) by {
        if starts_with(id, "hermes:"@) {
            assert(id.take(7)[0] == id[0]);
        }
    }
}

/// An id gives away what it was made of: two ids are equal only where profile and
/// session, or stem, are, and the two kinds of id never meet.
pub proof fn law_ids_are_unique(p1: Seq<char>, s1: Seq<char>, p2: Seq<char>, s2: Seq<char>)
    requires
        !p1.contains(':'),
        !p2.contains(':'),
    ensures
        hermes_id(p1, s1) == hermes_id(p2, s2) <==> p1 == p2 && s1 == s2,
        prime_id(s1) == prime_id(s2) <==> s1 == s2,
        hermes_id(p1, s1) != prime_id(s2),
{
    law_hermes_ids_read_back(p1, s1);
    law_hermes_ids_read_back(p2, s2);
    law_prime_ids_read_back(s1);
    law_prime_ids_read_back(s2);
}

/// How ids are written.
pub proof fn law_ids_are_written(profile: Seq<char>, sid: Seq<char>, stem: Seq<char>)
    ensures
        hermes_id(profile, sid) == "hermes:"@ + profile + seq![':'] + sid,
        prime_id(stem) == "prime:"@ + stem,
{
    reveal_strlit(":");
    assert(":"@ =~= seq![':']);
}

/// What is no id: without one of the two names in front, or, behind `hermes:`,
/// without a second colon.
pub proof fn law_what_is_no_id(id: Seq<char>, rest: Seq<char>)
    ensures
        !rest.contains(':') ==> id_of("hermes:"@ + rest) is None,
        !"hermes:"@.is_prefix_of(id) && !"prime:"@.is_prefix_of(id) ==> id_of(id) is None,
{
    reveal_strlit("hermes:");
    reveal_strlit("prime:");
    if !rest.contains(':') {
        let whole = "hermes:"@ + rest;
        assert(whole.take(7) =~= "hermes:"@);
        assert(whole.skip(7) =~= rest);
        text_laws::lemma_no_index(rest, ':');
    }
    if id.len() >= 7 {
        assert(id.take(7) =~= id.subrange(0, 7));
    }
    if id.len() >= 6 {
        assert(id.take(6) =~= id.subrange(0, 6));
    }
}

} // verus!
