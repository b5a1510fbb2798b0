//! Texts: previews, splitting, ids, paths, orders.
use session_timeline::ids::{make_hermes_id, make_prime_id, parse_id, SessionId};
use session_timeline::loaders::hermes::discover_dbs;
use session_timeline::loaders::prime::{session_file_name, session_files, session_stem};
use session_timeline::order::{stable_name_order, stable_order};
use session_timeline::paths::{join_path, names_in_order, sort_names};
use session_timeline::profiles::{db_path, named_db_path, top_db_path, Profile};
use session_timeline::sources::{locate, Place};
use session_timeline::text::{
    cut, find_char, preview, same_text, split_chars, string_of, trim_chars, truncated, PREVIEW_N,
};
use session_timeline::Sources;

fn chars(s: &str) -> Vec<char> {
    s.chars().collect()
}

fn names(list: &[&str]) -> Vec<String> {
    list.iter().map(|n| n.to_string()).collect()
}

#[test]
fn previews_are_short_and_tidy() {
    assert_eq!(preview("  a\n b \t\u{a0} c  "), "a b c");
    assert_eq!(preview("\u{3000}\u{2028}"), "");
    assert_eq!(preview(""), "");
    assert_eq!(preview("zero\u{200b}width"), "zero\u{200b}width", "no whitespace");
    assert_eq!(preview(&"é ".repeat(500)).chars().count(), PREVIEW_N);
    let exact = "x".repeat(PREVIEW_N);
    assert_eq!(preview(&exact), exact);
    assert_eq!(preview(&format!("{exact}y")), exact);
    assert_eq!(truncated(&format!(" {exact}")).chars().count(), PREVIEW_N);
}

#[test]
fn collapsing_twice_is_collapsing_once() {
    for s in ["a  b", " \n ", "one two\tthree", "x"] {
        assert_eq!(preview(&preview(s)), preview(s));
    }
    // a cut may leave a space at the end, which a second preview takes away
    let s = format!("{} z", "x".repeat(PREVIEW_N - 1));
    assert!(preview(&s).ends_with(' '));
    assert!(!preview(&preview(&s)).ends_with(' '));
}

#[test]
fn texts_are_searched_and_split() {
    assert_eq!(find_char(&chars("a:b:c"), ':'), 1);
    assert_eq!(find_char(&chars("abc"), ':'), 3);
    assert_eq!(trim_chars(" \ta b\n"), chars("a b"));
    assert_eq!(trim_chars("  "), chars(""));
    assert_eq!(cut(&chars("hello"), 1, 3), chars("el"));
    assert_eq!(string_of(&chars("hello"), 2, 5), "llo");
    assert_eq!(split_chars(&chars("a,,b"), ','), vec![chars("a"), chars(""), chars("b")]);
    assert_eq!(split_chars(&chars(""), ','), vec![chars("")]);
    assert!(same_text("né", "né"));
    assert!(!same_text("n", "N"));
}

#[test]
fn ids_read_back() {
    for (p, s) in [("default", "s1"), ("work", "a:b:c"), ("", "")] {
        match parse_id(&make_hermes_id(p, s)) {
            Some(SessionId::Hermes { profile, sid }) => {
                assert_eq!((profile.as_str(), sid.as_str()), (p, s));
            }
            other => panic!("{other:?}"),
        }
    }
    match parse_id(&make_prime_id("hermes:x")) {
        Some(SessionId::Prime { stem }) => assert_eq!(stem, "hermes:x"),
        other => panic!("{other:?}"),
    }
    // a colon in a profile's name moves into the session's
    match parse_id(&make_hermes_id("a:b", "c")) {
        Some(SessionId::Hermes { profile, sid }) => {
            assert_eq!((profile.as_str(), sid.as_str()), ("a", "b:c"));
        }
        other => panic!("{other:?}"),
    }
    for bad in ["", "hermes", "hermes:", "hermes:nosid", "prime", "other:x", "Hermes:a:b"] {
        assert!(parse_id(bad).is_none(), "{bad}");
    }
}

#[test]
fn ids_are_unique() {
    let ids = [
        make_hermes_id("a", "b"),
        make_hermes_id("a", "c"),
        make_hermes_id("b", "b"),
        make_prime_id("a:b"),
        make_prime_id("b"),
    ];
    for (i, a) in ids.iter().enumerate() {
        for b in &ids[i + 1..] {
            assert_ne!(a, b);
        }
    }
}

#[test]
fn paths_are_joined() {
    assert_eq!(join_path("/h", "state.db"), "/h/state.db");
    assert_eq!(join_path("/h/", "state.db"), "/h/state.db");
    assert_eq!(join_path("", "state.db"), "state.db");
    assert_eq!(join_path("/h", "/etc"), "/etc");
    assert_eq!(join_path("/h", ""), "/h/");
    assert_eq!(top_db_path("/h"), "/h/state.db");
    assert_eq!(named_db_path("/h", "work"), "/h/profiles/work/state.db");
}

#[test]
fn names_are_sorted() {
    assert!(names_in_order("a", "a"));
    assert!(names_in_order("", "a"));
    assert!(names_in_order("Z", "a"));
    assert!(names_in_order("a", "ab"));
    assert!(!names_in_order("b", "ab"));
    assert_eq!(sort_names(&names(&["b", "a", "é", "B", "ab", "a"])), names(&["B", "a", "a", "ab", "b", "é"]));
    assert_eq!(stable_name_order(&vec!["b", "a", "b", "a"]), vec![1, 3, 0, 2]);
    let mut expected = names(&["x10", "x9", "y", "x1", ""]);
    assert_eq!(sort_names(&expected.clone()), {
        expected.sort();
        expected
    });
}

#[test]
fn keys_order_their_places() {
    assert_eq!(stable_order(&vec![3, 1, 2, 1, 3]), vec![1, 3, 2, 0, 4]);
    assert_eq!(stable_order(&vec![]), Vec::<usize>::new());
    assert_eq!(stable_order(&vec![i128::MAX, i128::MIN, 0]), vec![1, 2, 0]);
}

#[test]
fn session_files_are_found_by_name() {
    assert_eq!(session_stem("a.jsonl").as_deref(), Some("a"));
    assert_eq!(session_stem("a.b.jsonl").as_deref(), Some("a.b"));
    assert_eq!(session_stem(".jsonl"), None);
    assert_eq!(session_stem("a.json"), None);
    assert_eq!(session_stem("jsonl"), None);
    assert_eq!(session_stem("a.JSONL"), None);
    assert_eq!(session_file_name("a.b"), "a.b.jsonl");
    assert_eq!(session_stem(&session_file_name("x")).as_deref(), Some("x"));
    let found = session_files(&names(&["b.jsonl", "readme.txt", "a.jsonl", "c.jsonl.bak"]));
    assert_eq!(found, names(&["a.jsonl", "b.jsonl"]));
}

#[test]
fn profiles_are_found_by_name() {
    let dbs = discover_dbs("/h", true, &names(&["work", "alpha"]));
    let list: Vec<(&str, &str)> =
        dbs.iter().map(|d| (d.profile.name.as_str(), d.path.as_str())).collect();
    assert_eq!(
        list,
        vec![
            ("default", "/h/state.db"),
            ("alpha", "/h/profiles/alpha/state.db"),
            ("work", "/h/profiles/work/state.db"),
        ]
    );
    assert_eq!(discover_dbs("/h", false, &names(&["x"])).len(), 1);
}

#[test]
fn profiles_lead_back_to_their_databases() {
    let key = |has_top: bool, name: &str| Profile::of_directory(has_top, name).key;
    assert_eq!(Profile::top().name, "default");
    assert_eq!(Profile::top().key, "default");
    assert_eq!(key(true, "work"), "work");
    assert_eq!(key(false, "default"), "default");
    assert_eq!(key(true, "default"), "./default");
    assert_eq!(key(true, "a:b"), "a\0b");
    assert_eq!(db_path("/h", true, "default"), "/h/state.db");
    assert_eq!(db_path("/h", false, "default"), "/h/profiles/default/state.db");
    assert_eq!(db_path("/h", true, "./default"), "/h/profiles/default/state.db");
    assert_eq!(db_path("/h", false, "./default"), "/h/profiles/./default/state.db");
    assert_eq!(db_path("/h", true, "work"), "/h/profiles/work/state.db");
    assert_eq!(db_path("/h", true, "a\0b"), "/h/profiles/a:b/state.db");
    assert_eq!(db_path("/h", true, "sub/a"), "/h/profiles/sub/a/state.db");
    for has_top in [true, false] {
        for name in ["default", "a", ":", "a:b:", ";", ".default"] {
            let profile = Profile::of_directory(has_top, name);
            assert_eq!(profile.name, name);
            assert_eq!(Profile::of_key(has_top, &profile.key).name, name);
            assert_eq!(db_path("/h", has_top, &profile.key), named_db_path("/h", name));
        }
    }
}

#[test]
fn ids_lead_back_to_their_sources() {
    let sources = Sources { hermes_home: "/h".to_string(), prime_dir: Some("/p".to_string()) };
    for has_top in [true, false] {
        for db in discover_dbs("/h", has_top, &names(&["work", "default", "a:b"])) {
            match locate(&sources, has_top, &make_hermes_id(&db.profile.key, "s:1")) {
                Some(Place::Db { path, profile, sid }) => {
                    assert_eq!((path, sid.as_str()), (db.path, "s:1"));
                    assert_eq!(profile.name, db.profile.name);
                    assert_eq!(profile.key, db.profile.key);
                }
                other => panic!("{other:?}"),
            }
        }
    }
    match locate(&sources, true, "prime:abc") {
        Some(Place::File { path, stem }) => {
            assert_eq!((path.as_str(), stem.as_str()), ("/p/abc.jsonl", "abc"));
        }
        other => panic!("{other:?}"),
    }
    match locate(&sources, true, "prime:sub/abc") {
        Some(Place::File { path, stem }) => {
            assert_eq!((path.as_str(), stem.as_str()), ("/p/sub/abc.jsonl", "abc"));
        }
        other => panic!("{other:?}"),
    }
    match locate(&sources, true, "prime:") {
        Some(Place::File { path, stem }) => {
            assert_eq!((path.as_str(), stem.as_str()), ("/p/.jsonl", ".jsonl"));
        }
        other => panic!("{other:?}"),
    }
    assert!(locate(&sources, true, "nonsense").is_none());
    let none = Sources { hermes_home: "/h".to_string(), prime_dir: None };
    assert!(locate(&none, true, "prime:abc").is_none());
}
