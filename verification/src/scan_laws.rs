//! What holds of a scan of everything that the sources hold.
use crate::ids;
use crate::loader_laws;
use crate::loaders::hermes;
use crate::loaders::hermes::{Fetched, Messages, SessRow};
use crate::loaders::prime;
use crate::loaders::prime::FileLines;
use crate::model;
use crate::order;
use crate::paths;
use crate::profiles;
use crate::scan;
use crate::scan::Loaded;
use crate::sources;
use crate::sources::{Found, Sources};
use vstd::prelude::*;

verus! {

/// The tables of a Hermes database: its session rows, and the messages by session.
pub struct Table {
    pub rows: Seq<SessRow>,
    pub messages: Map<Seq<char>, Messages>,
}

/// What the sources hold.
pub struct Disk {
    /// Whether the Hermes home has a database itself.
    pub has_top: bool,
    /// The directories under `profiles` that have a database.
    pub names: Seq<Seq<char>>,
    /// The databases that can be read, by path.
    pub tables: Map<Seq<char>, Table>,
    /// The session files of the Prime directory.
    pub files: Seq<Seq<char>>,
    /// What the session files hold, by name.
    pub contents: Map<Seq<char>, FileLines>,
}

/// Whether no name occurs twice, and each is one that a directory's entry can have.
pub open spec fn is_directory(names: Seq<Seq<char>>) -> bool {
    sources::are_entries(names) && names.no_duplicates()
}

/// Whether every session of a table has an id of its own.
pub open spec fn ids_are_own(t: Table) -> bool {
    forall|i: int, j: int|
        0 <= i < j < t.rows.len() ==> (#[trigger] t.rows[i]).id@ != (#[trigger] t.rows[j]).id@
}

/// Whether `d` is what a machine can hold: names are names of directory entries,
/// session files are named as such, and a table's ids are its key.
pub open spec fn is_disk(d: Disk) -> bool {
    &&& is_directory(d.names)
    &&& is_directory(d.files)
    &&& forall|j: int| 0 <= j < d.files.len() ==> prime::stem_of(#[trigger] d.files[j]) is Some
    &&& forall|path: Seq<char>| #[trigger]
        d.tables.contains_key(path) ==> ids_are_own(d.tables[path])
}

/// The session row at `p` with its messages.
pub open spec fn fetched_row(t: Table, p: int) -> Fetched {
    Fetched { row: t.rows[p], messages: t.messages[t.rows[p].id@] }
}

/// What a table says of the sessions that are selected for the window `[t0, t1)`.
pub open spec fn fetched(t: Table, t0: i128, t1: i128) -> Seq<Fetched> {
    hermes::selection(hermes::sess_views(t.rows), t0, t1).map_values(|p: int| fetched_row(t, p))
}

/// The profiles of the Hermes home.
pub open spec fn dbs(d: Disk, s: Sources) -> Seq<hermes::DbView> {
    hermes::dbs_of(s.hermes_home@, d.has_top, d.names)
}

/// The sessions of one profile for the window `[t0, t1)`; none where its database
/// cannot be read.
pub open spec fn profile_sessions(d: Disk, db: hermes::DbView, t0: i128, t1: i128) -> Seq<
    model::SessionView,
> {
    if d.tables.contains_key(db.path) {
        hermes::all_loaded(db.profile, fetched(d.tables[db.path], t0, t1))
    } else {
        Seq::empty()
    }
}

/// The lines of a session file.
pub open spec fn lines_of(d: Disk, name: Seq<char>) -> Seq<Seq<char>> {
    paths::name_views(d.contents[name].lines@)
}

/// The session of one file for the window `[t0, t1)`, if it has one that meets it.
pub open spec fn file_sessions(d: Disk, name: Seq<char>, t0: i128, t1: i128) -> Seq<
    model::SessionView,
> {
    if prime::stem_of(name) is Some && prime::in_window(lines_of(d, name), t0, t1) {
        seq![prime::session_in(prime::stem_of(name)->0, lines_of(d, name))->0]
    } else {
        Seq::empty()
    }
}

/// How many session files are read.
pub open spec fn file_count(d: Disk, s: Sources) -> nat {
    match s.prime_dir {
        Some(_) => d.files.len(),
        None => 0,
    }
}

/// Whether `parts` is a scan for the window `[t0, t1)`: a part for each profile,
/// then one for each session file.
pub open spec fn is_scan(parts: Seq<Loaded>, d: Disk, s: Sources, t0: i128, t1: i128) -> bool {
    &&& parts.len() == dbs(d, s).len() + file_count(d, s)
    &&& forall|k: int|
        0 <= k < dbs(d, s).len() ==> model::session_views((#[trigger] parts[k]).sessions@)
            == profile_sessions(d, dbs(d, s)[k], t0, t1)
    &&& forall|k: int|
        dbs(d, s).len() <= k < parts.len() ==> model::session_views(
            (#[trigger] parts[k]).sessions@,
        ) == file_sessions(d, d.files[k - dbs(d, s).len()], t0, t1)
}

/// Whether `found` is what stands at a place.
pub open spec fn stands_at(
    d: Disk,
    s: Sources,
    place: Option<sources::PlaceView>,
    found: Found,
) -> bool {
    match place {
        Some(sources::PlaceView::Db { path, sid, .. }) => match found {
            Found::Rows { rows, messages } => {
                &&& d.tables.contains_key(path)
                &&& messages == d.tables[path].messages[sid]
                &&& forall|row: hermes::SessView|
                    hermes::sess_views(rows@).contains(row) <==> hermes::sess_views(
                        d.tables[path].rows,
                    ).contains(row) && row.id == sid
            },
            _ => false,
        },
        Some(sources::PlaceView::File { path, .. }) => forall|j: int|
            0 <= j < d.files.len() && s.prime_dir is Some && path == paths::joined_path(
                s.prime_dir->0@,
                #[trigger] d.files[j],
            ) ==> found == Found::Lines(d.contents[d.files[j]]),
        None => found == Found::Nothing,
    }
}

/// A loaded session is that of one of the fetched ones.
proof fn lemma_loaded_from(profile: profiles::ProfileView, fs: Seq<Fetched>, i: int) -> (k: int)
    requires
        0 <= i < hermes::all_loaded(profile, fs).len(),
    ensures
        0 <= k < fs.len(),
        hermes::loaded(profile, fs[k]) == Some(hermes::all_loaded(profile, fs)[i]),
        hermes::all_loaded(profile, fs)[i].id == ids::hermes_id(profile.key, fs[k].row@.id),
    decreases fs.len(),
{
    let init = fs.drop_last();
    let before = hermes::all_loaded(profile, init);
    if i < before.len() {
        let k = lemma_loaded_from(profile, init, i);
        assert(init[k] == fs[k]);
        k
    } else {
        fs.len() - 1
    }
}

/// Sessions of one profile have ids of their own, where their rows do.
proof fn lemma_loaded_apart(profile: profiles::ProfileView, fs: Seq<Fetched>)
    requires
        !profile.key.contains(':'),
        forall|i: int, j: int|
            0 <= i < j < fs.len() ==> (#[trigger] fs[i]).row@.id != (#[trigger] fs[j]).row@.id,
    ensures
        forall|i: int, j: int|
            0 <= i < j < hermes::all_loaded(profile, fs).len() ==> (#[trigger] hermes::all_loaded(
                profile,
                fs,
            )[i]).id != (#[trigger] hermes::all_loaded(profile, fs)[j]).id,
    decreases fs.len(),
{
    if fs.len() > 0 {
        let init = fs.drop_last();
        let before = hermes::all_loaded(profile, init);
        let all = hermes::all_loaded(profile, fs);
        assert forall|i: int, j: int| 0 <= i < j < init.len() implies (#[trigger] init[i]).row@.id
            != (#[trigger] init[j]).row@.id by {
            assert(init[i] == fs[i] && init[j] == fs[j]);
        }
        lemma_loaded_apart(profile, init);
        assert forall|i: int, j: int| 0 <= i < j < all.len() implies (#[trigger] all[i]).id != (
        #[trigger] all[j]).id by {
            assert(all[i] == before[i]);
            if j < before.len() {
                assert(all[j] == before[j]);
            } else {
                let k = lemma_loaded_from(profile, init, i);
                assert(init[k] == fs[k]);
                let last = fs[fs.len() - 1].row@.id;
                assert(fs[k].row@.id != last);
                ids::law_ids_are_unique(profile.key, fs[k].row@.id, profile.key, last);
            }
        }
    }
}

/// The fetched sessions of a table are open rows of it, each once.
proof fn lemma_fetched(t: Table, t0: i128, t1: i128)
    requires
        ids_are_own(t),
    ensures
        forall|k: int|
            0 <= k < fetched(t, t0, t1).len() ==> exists|p: int|
                0 <= p < t.rows.len() && #[trigger] fetched_row(t, p) == #[trigger] fetched(
                    t,
                    t0,
                    t1,
                )[k] && t.rows[p].archived == Some(0i64),
        forall|j: int, k: int|
            0 <= j < k < fetched(t, t0, t1).len() ==> (#[trigger] fetched(t, t0, t1)[j]).row@.id
                != (#[trigger] fetched(t, t0, t1)[k]).row@.id,
{
    let views = hermes::sess_views(t.rows);
    let sel = hermes::selection(views, t0, t1);
    let fs = fetched(t, t0, t1);
    loader_laws::law_selection_is_the_window(views, t0, t1);
    assert forall|k: int| 0 <= k < fs.len() implies exists|p: int|
        0 <= p < t.rows.len() && #[trigger] fetched_row(t, p) == #[trigger] fs[k]
            && t.rows[p].archived == Some(0i64) by {
        assert(0 <= sel[k] < views.len() && hermes::is_selected(views[sel[k]], t0, t1));
        assert(fetched_row(t, sel[k]) == fs[k]);
        assert(views[sel[k]] == t.rows[sel[k]]@);
    }
    assert forall|j: int, k: int| 0 <= j < k < fs.len() implies (#[trigger] fs[j]).row@.id != (
    #[trigger] fs[k]).row@.id by {
        assert(sel[j] != sel[k]);
        assert(0 <= sel[j] < views.len() && 0 <= sel[k] < views.len());
        assert(fs[j].row == t.rows[sel[j]] && fs[k].row == t.rows[sel[k]]);
        if sel[j] < sel[k] {
            assert(t.rows[sel[j]].id@ != t.rows[sel[k]].id@);
        } else {
            assert(t.rows[sel[k]].id@ != t.rows[sel[j]].id@);
        }
    }
}

/// Two profiles of a home never share a key.
proof fn lemma_dbs_apart(home: Seq<char>, has_top: bool, names: Seq<Seq<char>>, k: int, l: int)
    requires
        is_directory(names),
        0 <= k < l < hermes::dbs_of(home, has_top, names).len(),
    ensures
        hermes::dbs_of(home, has_top, names)[k].profile.key != hermes::dbs_of(
            home,
            has_top,
            names,
        )[l].profile.key,
{
    let a = sources::lemma_dbs(home, has_top, names, k);
    let b = sources::lemma_dbs(home, has_top, names, l);
    let o = order::name_order(names);
    let first: int = if has_top {
        1
    } else {
        0
    };
    order::law_names_order(names);
    order::law_order_sorts(names.len(), order::by_name(names));
    let j = choose|j: int| 0 <= j < names.len() && names[j] == b;
    assert(profiles::is_entry(names[j]));
    if k < first {
        profiles::law_profiles_lead_back(home, has_top, b);
    } else {
        let i = choose|i: int| 0 <= i < names.len() && names[i] == a;
        assert(profiles::is_entry(names[i]));
        assert(order::comes_before(order::by_name(names), o[k - first], o[l - first]));
        assert(0 <= o[k - first] < names.len() && 0 <= o[l - first] < names.len());
        assert(a == names[o[k - first]] && b == names[o[l - first]]);
        assert(a != b);
        profiles::law_profiles_are_apart(has_top, a, b);
    }
}

/// Whether `id` is one that a session of the part `k` of a scan can have.
spec fn belongs(d: Disk, src: Sources, k: int, id: Seq<char>) -> bool {
    let n = dbs(d, src).len();
    if k < n {
        exists|sid: Seq<char>| id == #[trigger] ids::hermes_id(dbs(d, src)[k].profile.key, sid)
    } else {
        prime::stem_of(d.files[k - n]) is Some && id == ids::prime_id(
            prime::stem_of(d.files[k - n])->0,
        )
    }
}

/// Every session of a part has an id of that part.
proof fn lemma_belongs(
    parts: Seq<Loaded>,
    d: Disk,
    src: Sources,
    t0: i128,
    t1: i128,
    k: int,
    i: int,
)
    requires
        is_scan(parts, d, src, t0, t1),
        0 <= k < parts.len(),
        0 <= i < parts[k].sessions@.len(),
    ensures
        belongs(d, src, k, parts[k].sessions@[i]@.id),
{
    let n = dbs(d, src).len();
    let s = parts[k].sessions@[i]@;
    let views = model::session_views(parts[k].sessions@);
    assert(views[i] == s);
    if k < n {
        let db = dbs(d, src)[k];
        assert(views == profile_sessions(d, db, t0, t1));
        let fs = fetched(d.tables[db.path], t0, t1);
        let p = lemma_loaded_from(db.profile, fs, i);
        assert(s.id == ids::hermes_id(db.profile.key, fs[p].row@.id));
    } else {
        assert(views == file_sessions(d, d.files[k - n], t0, t1));
    }
}

/// Ids of different parts differ.
proof fn lemma_parts_apart(d: Disk, src: Sources, k: int, l: int, a: Seq<char>, b: Seq<char>)
    requires
        is_disk(d),
        0 <= k < l < dbs(d, src).len() + file_count(d, src),
        belongs(d, src, k, a),
        belongs(d, src, l, b),
    ensures
        a != b,
{
    let n = dbs(d, src).len();
    let home = src.hermes_home@;
    if l < n {
        let x = choose|sid: Seq<char>| a == #[trigger] ids::hermes_id(dbs(d, src)[k].profile.key, sid);
        let y = choose|sid: Seq<char>| b == #[trigger] ids::hermes_id(dbs(d, src)[l].profile.key, sid);
        lemma_dbs_apart(home, d.has_top, d.names, k, l);
        sources::law_hermes_ids_lead_back(src, d.has_top, d.names, k, x);
        sources::law_hermes_ids_lead_back(src, d.has_top, d.names, l, y);
        ids::law_ids_are_unique(dbs(d, src)[k].profile.key, x, dbs(d, src)[l].profile.key, y);
    } else {
        let stem = prime::stem_of(d.files[l - n])->0;
        if k < n {
            let x = choose|sid: Seq<char>|
                a == #[trigger] ids::hermes_id(dbs(d, src)[k].profile.key, sid);
            sources::law_hermes_ids_lead_back(src, d.has_top, d.names, k, x);
            ids::law_prime_ids_read_back(stem);
            ids::law_hermes_ids_read_back(dbs(d, src)[k].profile.key, x);
        } else {
            let other = prime::stem_of(d.files[k - n])->0;
            ids::law_prime_ids_read_back(stem);
            ids::law_prime_ids_read_back(other);
            if stem == other {
                prime::law_stems_read_back(stem);
                assert(d.files[k - n] == d.files[l - n]);
            }
        }
    }
}

/// Ids within one part differ.
proof fn lemma_part_apart(
    parts: Seq<Loaded>,
    d: Disk,
    src: Sources,
    t0: i128,
    t1: i128,
    k: int,
    i: int,
    j: int,
)
    requires
        is_disk(d),
        is_scan(parts, d, src, t0, t1),
        0 <= k < parts.len(),
        0 <= i < j < parts[k].sessions@.len(),
    ensures
        parts[k].sessions@[i]@.id != parts[k].sessions@[j]@.id,
{
    let n = dbs(d, src).len();
    let views = model::session_views(parts[k].sessions@);
    assert(views[i] == parts[k].sessions@[i]@ && views[j] == parts[k].sessions@[j]@);
    if k < n {
        let db = dbs(d, src)[k];
        assert(views == profile_sessions(d, db, t0, t1));
        let t = d.tables[db.path];
        assert(d.tables.contains_key(db.path));
        lemma_fetched(t, t0, t1);
        sources::law_hermes_ids_lead_back(src, d.has_top, d.names, k, Seq::empty());
        lemma_loaded_apart(db.profile, fetched(t, t0, t1));
    } else {
        assert(views == file_sessions(d, d.files[k - n], t0, t1));
    }
}

/// The ids of the first `m` parts of a scan differ.
proof fn lemma_gathered_apart(
    parts: Seq<Loaded>,
    d: Disk,
    src: Sources,
    t0: i128,
    t1: i128,
    m: int,
)
    requires
        is_disk(d),
        is_scan(parts, d, src, t0, t1),
        0 <= m <= parts.len(),
    ensures
        forall|i: int, j: int|
            0 <= i < j < scan::gathered(parts.take(m)).len() ==> (#[trigger] scan::gathered(
                parts.take(m),
            )[i]).id != (#[trigger] scan::gathered(parts.take(m))[j]).id,
    decreases m,
{
    if m > 0 {
        let init = parts.take(m - 1);
        let all = parts.take(m);
        assert(all.drop_last() =~= init);
        assert(all.last() == parts[m - 1]);
        lemma_gathered_apart(parts, d, src, t0, t1, m - 1);
        let before = scan::gathered(init);
        let last = model::session_views(parts[m - 1].sessions@);
        let g = scan::gathered(all);
        assert forall|i: int, j: int| 0 <= i < j < g.len() implies (#[trigger] g[i]).id != (
        #[trigger] g[j]).id by {
            if j < before.len() {
                assert(g[i] == before[i] && g[j] == before[j]);
            } else {
                let y = j - before.len();
                assert(g[j] == parts[m - 1].sessions@[y]@);
                if i < before.len() {
                    scan::law_scan_invents_nothing(init, i);
                    let (p, x) = choose|p: int, x: int|
                        0 <= p < init.len() && 0 <= x < init[p].sessions@.len() && before[i]
                            == #[trigger] init[p].sessions@[x]@;
                    assert(init[p] == parts[p]);
                    lemma_belongs(parts, d, src, t0, t1, p, x);
                    lemma_belongs(parts, d, src, t0, t1, m - 1, y);
                    lemma_parts_apart(d, src, p, m - 1, g[i].id, g[j].id);
                } else {
                    let x = i - before.len();
                    assert(g[i] == parts[m - 1].sessions@[x]@);
                    lemma_part_apart(parts, d, src, t0, t1, m - 1, x, y);
                }
            }
        }
    } else {
        assert(scan::gathered(parts.take(0)).len() == 0);
    }
}

/// No two sessions of a scan share an id, and every id is that of a session of a
/// profile or of a session file.
pub proof fn law_scanned_ids_are_unique(
    parts: Seq<Loaded>,
    d: Disk,
    src: Sources,
    t0: i128,
    t1: i128,
)
    requires
        is_disk(d),
        is_scan(parts, d, src, t0, t1),
    ensures
        forall|i: int, j: int|
            0 <= i < j < scan::gathered(parts).len() ==> (#[trigger] scan::gathered(parts)[i]).id != (
            #[trigger] scan::gathered(parts)[j]).id,
        forall|i: int|
            0 <= i < scan::gathered(parts).len() ==> (exists|k: int, sid: Seq<char>|
                0 <= k < dbs(d, src).len() && (#[trigger] scan::gathered(parts)[i]).id
                    == #[trigger] ids::hermes_id(dbs(d, src)[k].profile.key, sid)) || (exists|j: int|
                0 <= j < d.files.len() && scan::gathered(parts)[i].id == ids::prime_id(
                    prime::stem_of(#[trigger] d.files[j])->0,
                )),
{
    let g = scan::gathered(parts);
    assert(parts.take(parts.len() as int) =~= parts);
    lemma_gathered_apart(parts, d, src, t0, t1, parts.len() as int);
    assert forall|i: int| 0 <= i < g.len() implies (exists|k: int, sid: Seq<char>|
        0 <= k < dbs(d, src).len() && (#[trigger] g[i]).id == #[trigger] ids::hermes_id(
            dbs(d, src)[k].profile.key,
            sid,
        )) || (exists|j: int|
        0 <= j < d.files.len() && g[i].id == ids::prime_id(
            prime::stem_of(#[trigger] d.files[j])->0,
        )) by {
        scan::law_scan_invents_nothing(parts, i);
        let (p, x) = choose|p: int, x: int|
            0 <= p < parts.len() && 0 <= x < parts[p].sessions@.len() && g[i]
                == #[trigger] parts[p].sessions@[x]@;
        lemma_belongs(parts, d, src, t0, t1, p, x);
        let n = dbs(d, src).len();
        if p < n {
            let sid = choose|sid: Seq<char>|
                g[i].id == #[trigger] ids::hermes_id(dbs(d, src)[p].profile.key, sid);
            assert(g[i].id == ids::hermes_id(dbs(d, src)[p].profile.key, sid));
        } else {
            assert(g[i].id == ids::prime_id(prime::stem_of(d.files[p - n])->0));
        }
    }
}

/// The open row of a session is found wherever it stands, if the session has no
/// other row.
proof fn lemma_first_open(rows: Seq<hermes::SessView>, row: hermes::SessView)
    requires
        rows.contains(row),
        row.archived == Some(0i64),
        forall|i: int| 0 <= i < rows.len() && (#[trigger] rows[i]).id == row.id ==> rows[i] == row,
    ensures
        hermes::first_open(rows, row.id) == Some(row),
    decreases rows.len(),
{
    if rows[0] != row {
        let rest = rows.drop_first();
        let k = choose|k: int| 0 <= k < rows.len() && rows[k] == row;
        assert(rest[k - 1] == row);
        assert forall|i: int| 0 <= i < rest.len() && (#[trigger] rest[i]).id == row.id implies rest[i]
            == row by {
            assert(rest[i] == rows[i + 1]);
        }
        lemma_first_open(rest, row);
    }
}

/// A session of a profile is loaded again by its id.
proof fn lemma_profile_loads(
    d: Disk,
    src: Sources,
    t0: i128,
    t1: i128,
    p: int,
    x: int,
    found: Found,
)
    requires
        is_disk(d),
        0 <= p < dbs(d, src).len(),
        0 <= x < profile_sessions(d, dbs(d, src)[p], t0, t1).len(),
        stands_at(
            d,
            src,
            sources::place_of(
                src,
                d.has_top,
                profile_sessions(d, dbs(d, src)[p], t0, t1)[x].id,
            ),
            found,
        ),
    ensures
        sources::session_at(
            sources::place_of(
                src,
                d.has_top,
                profile_sessions(d, dbs(d, src)[p], t0, t1)[x].id,
            ),
            found,
        ) == Some(profile_sessions(d, dbs(d, src)[p], t0, t1)[x]),
{
    let db = dbs(d, src)[p];
    let t = d.tables[db.path];
    assert(d.tables.contains_key(db.path));
    let fs = fetched(t, t0, t1);
    let k = lemma_loaded_from(db.profile, fs, x);
    lemma_fetched(t, t0, t1);
    let q = choose|q: int|
        0 <= q < t.rows.len() && #[trigger] fetched_row(t, q) == fs[k] && t.rows[q].archived
            == Some(0i64);
    let row = t.rows[q]@;
    sources::law_hermes_ids_lead_back(src, d.has_top, d.names, p, row.id);
    let all = hermes::sess_views(t.rows);
    assert(all[q] == row);
    assert(all.contains(row));
    match found {
        Found::Rows { rows, messages } => {
            let own = hermes::sess_views(rows@);
            assert(own.contains(row));
            assert forall|j: int|
                0 <= j < own.len() && (#[trigger] own[j]).id == row.id implies own[j] == row by {
                assert(own.contains(own[j]));
                let l = choose|l: int| 0 <= l < all.len() && all[l] == own[j];
                assert(all[l] == t.rows[l]@);
                if l < q {
                    assert(t.rows[l].id@ != t.rows[q].id@);
                } else if q < l {
                    assert(t.rows[q].id@ != t.rows[l].id@);
                }
            }
            lemma_first_open(own, row);
        },
        _ => {},
    }
}

/// The session of a file is loaded again by its id.
proof fn lemma_file_loads(d: Disk, src: Sources, t0: i128, t1: i128, j: int, found: Found)
    requires
        is_disk(d),
        0 <= j < file_count(d, src),
        file_sessions(d, d.files[j], t0, t1).len() > 0,
        stands_at(
            d,
            src,
            sources::place_of(src, d.has_top, file_sessions(d, d.files[j], t0, t1)[0].id),
            found,
        ),
    ensures
        sources::session_at(
            sources::place_of(src, d.has_top, file_sessions(d, d.files[j], t0, t1)[0].id),
            found,
        ) == Some(file_sessions(d, d.files[j], t0, t1)[0]),
{
    let name = d.files[j];
    assert(profiles::is_entry(name));
    sources::law_prime_ids_lead_back(src, d.has_top, src.prime_dir->0, name);
    assert(found == Found::Lines(d.contents[d.files[j]]));
}

/// A scanned session is loaded again by its id, the same in every field, whatever
/// window it was scanned for.
pub proof fn law_scanned_sessions_load_by_id(
    parts: Seq<Loaded>,
    d: Disk,
    src: Sources,
    t0: i128,
    t1: i128,
    i: int,
    found: Found,
)
    requires
        is_disk(d),
        is_scan(parts, d, src, t0, t1),
        0 <= i < scan::gathered(parts).len(),
        stands_at(
            d,
            src,
            sources::place_of(src, d.has_top, scan::gathered(parts)[i].id),
            found,
        ),
    ensures
        sources::session_at(
            sources::place_of(src, d.has_top, scan::gathered(parts)[i].id),
            found,
        ) == Some(scan::gathered(parts)[i]),
{
    let s = scan::gathered(parts)[i];
    let n = dbs(d, src).len();
    scan::law_scan_invents_nothing(parts, i);
    let (p, x) = choose|p: int, x: int|
        0 <= p < parts.len() && 0 <= x < parts[p].sessions@.len() && s
            == #[trigger] parts[p].sessions@[x]@;
    let views = model::session_views(parts[p].sessions@);
    assert(views[x] == s);
    if p < n {
        assert(views == profile_sessions(d, dbs(d, src)[p], t0, t1));
        lemma_profile_loads(d, src, t0, t1, p, x, found);
    } else {
        let name = d.files[p - n];
        assert(views == file_sessions(d, name, t0, t1));
        lemma_file_loads(d, src, t0, t1, p - n, found);
    }
}

/// The sessions of a profile for a window are among those for a wider one.
proof fn lemma_profile_widens(
    d: Disk,
    db: hermes::DbView,
    t0: i128,
    t1: i128,
    u0: i128,
    u1: i128,
    x: int,
)
    requires
        u0 <= t0,
        t1 <= u1,
        0 <= x < profile_sessions(d, db, t0, t1).len(),
    ensures
        profile_sessions(d, db, u0, u1).contains(profile_sessions(d, db, t0, t1)[x]),
{
    let t = d.tables[db.path];
    let views = hermes::sess_views(t.rows);
    let narrow = hermes::selection(views, t0, t1);
    let wide = hermes::selection(views, u0, u1);
    let k = lemma_loaded_from(db.profile, fetched(t, t0, t1), x);
    loader_laws::law_selection_is_the_window(views, t0, t1);
    loader_laws::law_selection_is_the_window(views, u0, u1);
    let p = narrow[k];
    assert(0 <= p < views.len() && hermes::is_selected(views[p], t0, t1));
    assert(hermes::is_selected(views[p], u0, u1));
    assert(wide.contains(p));
    let l = choose|l: int| 0 <= l < wide.len() && wide[l] == p;
    assert(fetched(t, u0, u1)[l] == fetched(t, t0, t1)[k]);
    loader_laws::law_profile_keeps_every_session(db.profile, fetched(t, u0, u1), l);
}

/// A wider window over the same disk keeps every session, the same in every field.
pub proof fn law_wider_windows_keep_every_session(
    parts: Seq<Loaded>,
    wider: Seq<Loaded>,
    d: Disk,
    src: Sources,
    t0: i128,
    t1: i128,
    u0: i128,
    u1: i128,
)
    requires
        is_scan(parts, d, src, t0, t1),
        is_scan(wider, d, src, u0, u1),
        u0 <= t0,
        t1 <= u1,
    ensures
        forall|i: int|
            0 <= i < scan::gathered(parts).len() ==> scan::gathered(wider).contains(
                #[trigger] scan::gathered(parts)[i],
            ),
{
    let n = dbs(d, src).len();
    assert forall|i: int| 0 <= i < scan::gathered(parts).len() implies scan::gathered(
        wider,
    ).contains(#[trigger] scan::gathered(parts)[i]) by {
        let s = scan::gathered(parts)[i];
        scan::law_scan_invents_nothing(parts, i);
        let (p, x) = choose|p: int, x: int|
            0 <= p < parts.len() && 0 <= x < parts[p].sessions@.len() && s
                == #[trigger] parts[p].sessions@[x]@;
        let views = model::session_views(parts[p].sessions@);
        let more = model::session_views(wider[p].sessions@);
        assert(views[x] == s);
        if p < n {
            let db = dbs(d, src)[p];
            assert(views == profile_sessions(d, db, t0, t1));
            assert(more == profile_sessions(d, db, u0, u1));
            lemma_profile_widens(d, db, t0, t1, u0, u1, x);
        } else {
            assert(views == file_sessions(d, d.files[p - n], t0, t1));
            assert(more == file_sessions(d, d.files[p - n], u0, u1));
            assert(prime::in_window(lines_of(d, d.files[p - n]), u0, u1));
            assert(views.len() == 1 && x == 0);
            assert(more[0] == s);
        }
        assert(more.contains(s));
        let y = choose|y: int| 0 <= y < more.len() && more[y] == s;
        assert(wider[p].sessions@[y]@ == s);
        scan::law_scan_keeps_every_session(wider, p, y);
    }
}

} // verus!
