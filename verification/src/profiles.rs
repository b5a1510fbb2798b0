//! What the profiles of a Hermes home are called, and where their databases are.
//!
//! The home directory's own database is the profile `default`; a directory under
//! `profiles` gives its profile its own name. In the ids of sessions a profile goes
//! by a key, which is that name but in two cases, so that keys are apart from each
//! other and free of colons: a directory `default` beside a database in the home
//! itself goes by `./default`, and a colon is written as the null character, which
//! no directory's name holds.
use crate::paths;
use crate::paths::join_path;
use crate::text::{chars_of, same_text};
use vstd::prelude::*;

verus! {

/// A profile: its name, for display, and the key that it goes by in ids.
#[derive(Debug, Clone)]
pub struct Profile {
    pub name: String,
    pub key: String,
}

/// A [`Profile`] as mathematical text.
pub struct ProfileView {
    pub name: Seq<char>,
    pub key: Seq<char>,
}

impl View for Profile {
    type V = ProfileView;

    open spec fn view(&self) -> ProfileView {
        ProfileView { name: self.name@, key: self.key@ }
    }
}

/// `c`, or the null character for a colon.
pub open spec fn escaped_char(c: char) -> char {
    if c == ':' {
        '\0'
    } else {
        c
    }
}

/// `c`, or a colon for the null character.
pub open spec fn unescaped_char(c: char) -> char {
    if c == '\0' {
        ':'
    } else {
        c
    }
}

/// `s` with the null character for every colon.
pub open spec fn escaped(s: Seq<char>) -> Seq<char> {
    s.map_values(|c: char| escaped_char(c))
}

/// `s` with a colon for every null character.
pub open spec fn unescaped(s: Seq<char>) -> Seq<char> {
    s.map_values(|c: char| unescaped_char(c))
}

/// Whether `name` is one that a directory's entry can have.
pub open spec fn is_entry(name: Seq<char>) -> bool {
    !name.contains('/') && !name.contains('\0')
}

/// The key of the profile of the directory `name` under `profiles`.
pub open spec fn key_of(has_top: bool, name: Seq<char>) -> Seq<char> {
    if has_top && name == "default"@ {
        "./default"@
    } else {
        escaped(name)
    }
}

/// The name of the profile that goes by `key`.
pub open spec fn name_of(has_top: bool, key: Seq<char>) -> Seq<char> {
    if has_top && key == "./default"@ {
        "default"@
    } else {
        unescaped(key)
    }
}

/// The profile of the home directory itself.
pub open spec fn top_profile() -> ProfileView {
    ProfileView { name: "default"@, key: "default"@ }
}

/// The profile of the directory `name` under `profiles`.
pub open spec fn named_profile(has_top: bool, name: Seq<char>) -> ProfileView {
    ProfileView { name, key: key_of(has_top, name) }
}

/// The profile that goes by `key`.
pub open spec fn keyed_profile(has_top: bool, key: Seq<char>) -> ProfileView {
    ProfileView { name: name_of(has_top, key), key }
}

/// Where the database of the home directory itself is.
pub open spec fn top_path(home: Seq<char>) -> Seq<char> {
    paths::joined_path(home, "state.db"@)
}

/// Where the database of the directory `name` under `profiles` is.
pub open spec fn named_path(home: Seq<char>, name: Seq<char>) -> Seq<char> {
    paths::joined_path(paths::joined_path(paths::joined_path(home, "profiles"@), name), "state.db"@)
}

/// Where the database of the profile that goes by `key` is; `has_top` says whether
/// the home directory has one itself.
pub open spec fn db_path_of(home: Seq<char>, has_top: bool, key: Seq<char>) -> Seq<char> {
    if has_top && key == "default"@ {
        top_path(home)
    } else {
        named_path(home, name_of(has_top, key))
    }
}

/// `s` with the null character for every colon.
fn escape(s: &str) -> (r: String)
    ensures
        r@ == escaped(s@),
{
    let cs: Vec<char> = chars_of(s);
    let mut out: String = String::new();
    let mut i: usize = 0;
    assert(out@ =~= escaped(cs@.take(0)));
    while i < cs.len()
        invariant
            i <= cs@.len(),
            out@ == escaped(cs@.take(i as int)),
        decreases cs.len() - i,
    {
        let c: char = if cs[i] == ':' {
            '\0'
        } else {
            cs[i]
        };
        out.push(c);
        assert(out@ =~= escaped(cs@.take(i + 1)));
        i = i + 1;
    }
    assert(cs@.take(cs@.len() as int) =~= cs@);
    out
}

/// `s` with a colon for every null character.
fn unescape(s: &str) -> (r: String)
    ensures
        r@ == unescaped(s@),
{
    let cs: Vec<char> = chars_of(s);
    let mut out: String = String::new();
    let mut i: usize = 0;
    assert(out@ =~= unescaped(cs@.take(0)));
    while i < cs.len()
        invariant
            i <= cs@.len(),
            out@ == unescaped(cs@.take(i as int)),
        decreases cs.len() - i,
    {
        let c: char = if cs[i] == '\0' {
            ':'
        } else {
            cs[i]
        };
        out.push(c);
        assert(out@ =~= unescaped(cs@.take(i + 1)));
        i = i + 1;
    }
    assert(cs@.take(cs@.len() as int) =~= cs@);
    out
}

impl Profile {
    /// The profile of the home directory itself.
    pub fn top() -> (r: Profile)
        ensures
            r@ == top_profile(),
    {
        Profile { name: "default".to_owned(), key: "default".to_owned() }
    }

    /// The profile of the directory `name` under `profiles`; `has_top` says whether
    /// the home directory has a database itself.
    pub fn of_directory(has_top: bool, name: &str) -> (r: Profile)
        ensures
            r@ == named_profile(has_top, name@),
    {
        let key: String = if has_top && same_text(name, "default") {
            "./default".to_owned()
        } else {
            escape(name)
        };
        Profile { name: name.to_owned(), key }
    }

    /// The profile that goes by `key`; `has_top` says whether the home directory has
    /// a database itself.
    pub fn of_key(has_top: bool, key: &str) -> (r: Profile)
        ensures
            r@ == keyed_profile(has_top, key@),
    {
        let name: String = if has_top && same_text(key, "./default") {
            "default".to_owned()
        } else {
            unescape(key)
        };
        Profile { name, key: key.to_owned() }
    }
}

/// Where the database of the home directory itself is.
pub fn top_db_path(home: &str) -> (r: String)
    ensures
        r@ == top_path(home@),
{
    join_path(home, "state.db")
}

/// Where the database of the directory `name` under `profiles` is.
pub fn named_db_path(home: &str, name: &str) -> (r: String)
    ensures
        r@ == named_path(home@, name@),
{
    let profiles: String = join_path(home, "profiles");
    let dir: String = join_path(profiles.as_str(), name);
    join_path(dir.as_str(), "state.db")
}

/// Where the database of the profile that goes by `key` is; `has_top` says whether
/// the home directory has one itself.
pub fn db_path(home: &str, has_top: bool, key: &str) -> (r: String)
    ensures
        r@ == db_path_of(home@, has_top, key@),
{
    if has_top && same_text(key, "default") {
        top_db_path(home)
    } else {
        let profile: Profile = Profile::of_key(has_top, key);
        named_db_path(home, profile.name.as_str())
    }
}

/// Escaping can be undone, takes every colon away, and adds no slash.
proof fn lemma_escaped(s: Seq<char>)
    requires
        is_entry(s),
    ensures
        unescaped(escaped(s)) == s,
        !escaped(s).contains(':'),
        !escaped(s).contains('/'),
{
    let e = escaped(s);
    assert forall|i: int| 0 <= i < s.len() implies unescaped_char(escaped_char(s[i])) == s[i]
        && #[trigger] e[i] != '/' by {
        assert(s.contains(s[i]));
    }
    assert(unescaped(e) =~= s);
    if e.contains('/') {
        let k = choose|k: int| 0 <= k < e.len() && e[k] == '/';
        assert(e[k] != '/');
    }
    if e.contains(':') {
        let k = choose|k: int| 0 <= k < e.len() && e[k] == ':';
        assert(e[k] == escaped_char(s[k]));
    }
}

/// A profile goes by its name, unless that holds a colon or is `default` beside a
/// database in the home itself.
pub proof fn law_plain_names_are_keys(has_top: bool, name: Seq<char>)
    requires
        !name.contains(':'),
        !has_top || name != "default"@,
    ensures
        key_of(has_top, name) == name,
{
    let e = escaped(name);
    assert forall|i: int| 0 <= i < name.len() implies #[trigger] e[i] == name[i] by {
        assert(name.contains(name[i]));
    }
    assert(e =~= name);
}

/// No key has a colon, every key leads back to its profile and to its database, and
/// no directory's profile goes by the key of the home directory's own.
pub proof fn law_profiles_lead_back(home: Seq<char>, has_top: bool, name: Seq<char>)
    requires
        is_entry(name),
    ensures
        !key_of(has_top, name).contains(':'),
        keyed_profile(has_top, key_of(has_top, name)) == named_profile(has_top, name),
        has_top ==> key_of(has_top, name) != "default"@,
        db_path_of(home, has_top, key_of(has_top, name)) == named_path(home, name),
{
    reveal_strlit("default");
    reveal_strlit("./default");
    let beside = "./default"@;
    let own = "default"@;
    lemma_escaped(name);
    assert(beside.len() != own.len());
    assert(!beside.contains(':'));
    assert(beside[1] == '/');
    assert(escaped(name) != beside);
    if has_top && name != own && escaped(name) == own {
        assert(unescaped(own) =~= own);
    }
}

/// The home directory's own profile goes by a key that leads back to it.
pub proof fn law_top_leads_back(home: Seq<char>)
    ensures
        !top_profile().key.contains(':'),
        keyed_profile(true, top_profile().key) == top_profile(),
        db_path_of(home, true, top_profile().key) == top_path(home),
{
    reveal_strlit("default");
    reveal_strlit("./default");
    assert("./default"@.len() != "default"@.len());
    assert(unescaped("default"@) =~= "default"@);
}

/// Two directories never share a key.
pub proof fn law_profiles_are_apart(has_top: bool, a: Seq<char>, b: Seq<char>)
    requires
        is_entry(a),
        is_entry(b),
        a != b,
    ensures
        key_of(has_top, a) != key_of(has_top, b),
{
    law_profiles_lead_back(Seq::empty(), has_top, a);
    law_profiles_lead_back(Seq::empty(), has_top, b);
}

/// How keys are written: as the name, with the null character for each colon, but
/// for the directory `default` beside a database in the home itself. Names stand as
/// they are.
pub proof fn law_keys_are_written(has_top: bool, name: Seq<char>)
    ensures
        named_profile(has_top, name).name == name,
        has_top && name == "default"@ ==> named_profile(has_top, name).key == "./default"@,
        !(has_top && name == "default"@) ==> {
            let key = named_profile(has_top, name).key;
            &&& key.len() == name.len()
            &&& forall|i: int|
                0 <= i < name.len() ==> #[trigger] key[i] == if name[i] == ':' {
                    '\0'
                } else {
                    name[i]
                }
        },
        top_profile().name == "default"@,
        top_profile().key == "default"@,
{
}

} // verus!
