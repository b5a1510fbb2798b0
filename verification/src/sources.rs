//! Where sessions are read from, and how one is found by its id.
use crate::ids;
use crate::ids::{parse_id, SessionId};
use crate::loaders::hermes;
use crate::loaders::hermes::{Messages, SessRow};
use crate::loaders::prime;
use crate::loaders::prime::{file_stem, load_file_by_stem, session_file_name, FileLines};
use crate::model;
use crate::model::Session;
use crate::order;
use crate::paths;
use crate::paths::join_path;
use crate::profiles;
use crate::profiles::{db_path, Profile};
use crate::text;
use crate::text_laws;
use crate::timeline;
use vstd::prelude::*;
use vstd::string::*;

verus! {

/// Where to read from.
#[derive(Debug, Clone)]
pub struct Sources {
    pub hermes_home: String,
    pub prime_dir: Option<String>,
}

impl Sources {
    /// The usual places under a user's home directory.
    pub fn under_home(home: &str) -> (r: Sources)
        ensures
            r.hermes_home@ == home@ + "/.hermes"@,
            text::opt_text(r.prime_dir) == Some(home@ + "/.prime/agent/sessions"@),
    {
        let mut hermes_home: String = home.to_owned();
        hermes_home.append("/.hermes");
        let mut prime_dir: String = home.to_owned();
        prime_dir.append("/.prime/agent/sessions");
        Sources { hermes_home, prime_dir: Some(prime_dir) }
    }
}

/// Where a session is stored.
#[derive(Debug, Clone)]
pub enum Place {
    /// In the database at `path`.
    Db { path: String, profile: Profile, sid: String },
    /// In the session file at `path`.
    File { path: String, stem: String },
}

/// A [`Place`] as mathematical text.
pub enum PlaceView {
    Db { path: Seq<char>, profile: profiles::ProfileView, sid: Seq<char> },
    File { path: Seq<char>, stem: Seq<char> },
}

impl View for Place {
    type V = PlaceView;

    open spec fn view(&self) -> PlaceView {
        match *self {
            Place::Db { path, profile, sid } => PlaceView::Db {
                path: path@,
                profile: profile@,
                sid: sid@,
            },
            Place::File { path, stem } => PlaceView::File { path: path@, stem: stem@ },
        }
    }
}

/// An optional [`Place`] by its view.
pub open spec fn opt_place(o: Option<Place>) -> Option<PlaceView> {
    match o {
        Some(p) => Some(p@),
        None => None,
    }
}

/// Where the session with the id `id` is stored, if it is stored at all; `has_top`
/// says whether the Hermes home has a database itself.
pub open spec fn place_of(sources: Sources, has_top: bool, id: Seq<char>) -> Option<PlaceView> {
    match ids::id_of(id) {
        Some(ids::SessionIdView::Hermes { profile, sid }) => Some(
            PlaceView::Db {
                path: profiles::db_path_of(sources.hermes_home@, has_top, profile),
                profile: profiles::keyed_profile(has_top, profile),
                sid,
            },
        ),
        Some(ids::SessionIdView::Prime { stem }) => match sources.prime_dir {
            Some(dir) => Some(
                PlaceView::File {
                    path: paths::joined_path(dir@, prime::name_of(stem)),
                    stem: prime::file_stem_of(stem),
                },
            ),
            None => None,
        },
        None => None,
    }
}

/// Whether every name is one that a directory's entry can have.
pub open spec fn are_entries(names: Seq<Seq<char>>) -> bool {
    forall|i: int| 0 <= i < names.len() ==> profiles::is_entry(#[trigger] names[i])
}

/// Where the session with the id `id` is stored, if it is stored at all; `has_top`
/// says whether the Hermes home has a database itself. The id of a session of any
/// discovered profile leads to that profile's database.
pub fn locate(sources: &Sources, has_top: bool, id: &str) -> (r: Option<Place>)
    ensures
        opt_place(r) == place_of(*sources, has_top, id@),
        forall|names: Seq<Seq<char>>, k: int, sid: Seq<char>|
            are_entries(names) && 0 <= k < hermes::dbs_of(
                sources.hermes_home@,
                has_top,
                names,
            ).len() && id@ == #[trigger] ids::hermes_id(
                hermes::dbs_of(sources.hermes_home@, has_top, names)[k].profile.key,
                sid,
            ) ==> opt_place(r) == Some(
                PlaceView::Db {
                    path: hermes::dbs_of(sources.hermes_home@, has_top, names)[k].path,
                    profile: hermes::dbs_of(sources.hermes_home@, has_top, names)[k].profile,
                    sid,
                },
            ),
{
    proof {
        let home = sources.hermes_home@;
        assert forall|names: Seq<Seq<char>>, k: int, sid: Seq<char>|
            are_entries(names) && 0 <= k < hermes::dbs_of(home, has_top, names).len() && id@
                == #[trigger] ids::hermes_id(
                hermes::dbs_of(home, has_top, names)[k].profile.key,
                sid,
            ) implies place_of(*sources, has_top, id@) == Some(
            PlaceView::Db {
                path: hermes::dbs_of(home, has_top, names)[k].path,
                profile: hermes::dbs_of(home, has_top, names)[k].profile,
                sid,
            },
        ) by {
            law_hermes_ids_lead_back(*sources, has_top, names, k, sid);
        }
    }
    match parse_id(id) {
        Some(SessionId::Hermes { profile, sid }) => {
            let path: String = db_path(sources.hermes_home.as_str(), has_top, profile.as_str());
            Some(Place::Db { path, profile: Profile::of_key(has_top, profile.as_str()), sid })
        },
        Some(SessionId::Prime { stem }) => match &sources.prime_dir {
            Some(dir) => {
                let name: String = session_file_name(stem.as_str());
                let path: String = join_path(dir.as_str(), name.as_str());
                Some(Place::File { path, stem: file_stem(stem.as_str()) })
            },
            None => None,
        },
        None => None,
    }
}

/// What was found at a [`Place`].
#[derive(Debug, Clone)]
pub enum Found {
    /// Nothing that could be read.
    Nothing,
    /// The session rows with the id, and the session's message rows.
    Rows { rows: Vec<SessRow>, messages: Messages },
    /// The lines of the session file.
    Lines(FileLines),
}

/// The session that was found at a place.
pub open spec fn session_at(place: Option<PlaceView>, found: Found) -> Option<model::SessionView> {
    match (place, found) {
        (
            Some(PlaceView::Db { profile, sid, .. }),
            Found::Rows { rows, messages },
        ) => hermes::session_by_id(profile, sid, hermes::sess_views(rows@), messages),
        (Some(PlaceView::File { stem, .. }), Found::Lines(f)) => prime::session_in(
            stem,
            paths::name_views(f.lines@),
        ),
        _ => None,
    }
}

/// Loads one session by its id, from what was found where [`locate`] says it is.
pub fn load_session_by_id(
    sources: &Sources,
    has_top: bool,
    id: &str,
    found: &Found,
) -> (r: Option<Session>)
    ensures
        timeline::opt_session(r) == session_at(place_of(*sources, has_top, id@), *found),
{
    match locate(sources, has_top, id) {
        Some(Place::Db { profile, sid, .. }) => match found {
            Found::Rows { rows, messages } => hermes::load_session_by_id(
                &profile,
                sid.as_str(),
                rows,
                messages,
            ),
            _ => None,
        },
        Some(Place::File { stem, .. }) => match found {
            Found::Lines(f) => load_file_by_stem(stem.as_str(), f),
            _ => None,
        },
        None => None,
    }
}

/// The profiles of a home: each is the home's own, or that of a directory with one
/// of the names.
pub proof fn lemma_dbs(home: Seq<char>, has_top: bool, names: Seq<Seq<char>>, k: int) -> (name: Seq<
    char,
>)
    requires
        0 <= k < hermes::dbs_of(home, has_top, names).len(),
    ensures
        has_top && k == 0 ==> hermes::dbs_of(home, has_top, names)[k] == hermes::top_db(home),
        !(has_top && k == 0) ==> names.contains(name) && hermes::dbs_of(home, has_top, names)[k]
            == hermes::named_db(home, has_top, name) && name == paths::sorted_names(names)[if has_top {
            k - 1
        } else {
            k
        }],
{
    let o = order::name_order(names);
    let first: int = if has_top {
        1
    } else {
        0
    };
    order::law_names_order(names);
    order::law_order_sorts(names.len(), order::by_name(names));
    if k >= first {
        assert(0 <= o[k - first] < names.len());
        assert(paths::sorted_names(names)[k - first] == names[o[k - first]]);
        names[o[k - first]]
    } else {
        Seq::empty()
    }
}

/// The id of a session of any profile leads back to the profile's database.
pub proof fn law_hermes_ids_lead_back(
    sources: Sources,
    has_top: bool,
    names: Seq<Seq<char>>,
    k: int,
    sid: Seq<char>,
)
    requires
        are_entries(names),
        0 <= k < hermes::dbs_of(sources.hermes_home@, has_top, names).len(),
    ensures
        !hermes::dbs_of(sources.hermes_home@, has_top, names)[k].profile.key.contains(':'),
        place_of(
            sources,
            has_top,
            ids::hermes_id(
                hermes::dbs_of(sources.hermes_home@, has_top, names)[k].profile.key,
                sid,
            ),
        ) == Some(
            PlaceView::Db {
                path: hermes::dbs_of(sources.hermes_home@, has_top, names)[k].path,
                profile: hermes::dbs_of(sources.hermes_home@, has_top, names)[k].profile,
                sid,
            },
        ),
{
    let home = sources.hermes_home@;
    let db = hermes::dbs_of(home, has_top, names)[k];
    let name = lemma_dbs(home, has_top, names, k);
    if has_top && k == 0 {
        profiles::law_top_leads_back(home);
    } else {
        let i = choose|i: int| 0 <= i < names.len() && names[i] == name;
        assert(profiles::is_entry(names[i]));
        profiles::law_profiles_lead_back(home, has_top, name);
    }
    ids::law_hermes_ids_read_back(db.profile.key, sid);
}

/// The id of the session of a file leads back to the file.
pub proof fn law_prime_ids_lead_back(
    sources: Sources,
    has_top: bool,
    dir: String,
    name: Seq<char>,
)
    requires
        sources.prime_dir == Some(dir),
        !name.contains('/'),
        prime::stem_of(name) is Some,
    ensures
        place_of(sources, has_top, ids::prime_id(prime::stem_of(name)->0)) == Some(
            PlaceView::File {
                path: paths::joined_path(dir@, name),
                stem: prime::stem_of(name)->0,
            },
        ),
{
    let stem = prime::stem_of(name)->0;
    ids::law_prime_ids_read_back(stem);
    prime::law_stems_read_back(stem);
    assert(!stem.contains('/')) by {
        if stem.contains('/') {
            let k = choose|k: int| 0 <= k < stem.len() && stem[k] == '/';
            assert(name[k] == '/');
        }
    }
    text_laws::lemma_one_piece(stem, '/');
}

/// Where an id leads: behind `prime:` to the file of that name in the Prime
/// directory, where there is one; behind `hermes:` to the database of the profile
/// that goes by that key, nested or not. What is no id leads nowhere.
pub proof fn law_where_ids_lead(
    sources: Sources,
    has_top: bool,
    key: Seq<char>,
    sid: Seq<char>,
    stem: Seq<char>,
    id: Seq<char>,
)
    requires
        !key.contains(':'),
    ensures
        place_of(sources, has_top, "prime:"@ + stem) == match sources.prime_dir {
            Some(dir) => Some(
                PlaceView::File {
                    path: paths::joined_path(dir@, stem + ".jsonl"@),
                    stem: prime::file_stem_of(stem),
                },
            ),
            None => None,
        },
        ({
            let place = place_of(sources, has_top, "hermes:"@ + key + seq![':'] + sid);
            &&& place is Some
            &&& place->0 is Db
            &&& place->0->Db_sid == sid
            &&& place->0->Db_profile.key == key
            &&& has_top && key == "default"@ ==> place->0->Db_path == paths::joined_path(
                sources.hermes_home@,
                "state.db"@,
            )
            &&& !(has_top && key == "default"@) ==> place->0->Db_path == paths::joined_path(
                paths::joined_path(
                    paths::joined_path(sources.hermes_home@, "profiles"@),
                    place->0->Db_profile.name,
                ),
                "state.db"@,
            )
        }),
        ids::id_of(id) is None ==> place_of(sources, has_top, id) is None,
{
    ids::law_prime_ids_read_back(stem);
    ids::law_hermes_ids_read_back(key, sid);
    ids::law_ids_are_written(key, sid, stem);
}

/// What was found must be what the place holds: rows for a database, lines for a
/// file; anything else is no session.
pub proof fn law_found_things_must_fit(place: Option<PlaceView>, found: Found)
    ensures
        place is None ==> session_at(place, found) is None,
        found is Nothing ==> session_at(place, found) is None,
        place is Some && place->0 is Db && !(found is Rows) ==> session_at(place, found) is None,
        place is Some && place->0 is File && !(found is Lines) ==> session_at(place, found) is None,
        match (place, found) {
            (
                Some(PlaceView::Db { profile, sid, .. }),
                Found::Rows { rows, messages },
            ) => session_at(place, found) == hermes::session_by_id(
                profile,
                sid,
                hermes::sess_views(rows@),
                messages,
            ),
            (Some(PlaceView::File { stem, .. }), Found::Lines(f)) => session_at(place, found)
                == prime::session_in(stem, paths::name_views(f.lines@)),
            _ => true,
        },
{
}

} // verus!
