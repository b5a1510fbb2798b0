//! What holds of every command line, and of the report of a scan.
use crate::cli;
use crate::cli::{CommandView, OptionsView};
use crate::model;
use crate::model::SessionKind;
use crate::order;
use vstd::prelude::*;

verus! {

/// Whether an argument takes the one behind it as its value.
pub open spec fn takes_value(arg: Seq<char>) -> bool {
    arg == "--days"@ || arg == "--hermes-home"@ || arg == "--prime-dir"@
}

/// The arguments behind the first one and its value.
pub open spec fn behind_first(args: Seq<Seq<char>>) -> Seq<Seq<char>> {
    if takes_value(args[0]) && args.len() > 1 {
        args.skip(2)
    } else {
        args.skip(1)
    }
}

/// Whether `flag` is given: as an argument of its own, not as the value of another.
pub open spec fn is_given(args: Seq<Seq<char>>, flag: Seq<char>) -> bool
    decreases args.len(),
{
    args.len() > 0 && (args[0] == flag || is_given(behind_first(args), flag))
}

/// The arguments behind one and its value, and the options that it sets.
proof fn lemma_step(o: OptionsView, args: Seq<Seq<char>>) -> (next: OptionsView)
    requires
        args.len() > 0,
        cli::command_of(o, args) is Scan,
    ensures
        cli::command_of(o, args) == cli::command_of(next, behind_first(args)),
        args[0] != "--days"@ ==> next.days == o.days,
        args[0] != "--hermes-home"@ ==> next.hermes_home == o.hermes_home,
        args[0] != "--prime-dir"@ ==> next.prime_dir == o.prime_dir,
        args[0] != "--json"@ ==> next.json == o.json,
        args[0] == "--json"@ ==> next.json,
        args[0] == "--days"@ && args.len() > 1 ==> next.days == Some(args[1]),
        args[0] == "--hermes-home"@ && args.len() > 1 ==> next.hermes_home == args[1],
        args[0] == "--prime-dir"@ && args.len() > 1 && args[1].len() > 0 ==> next.prime_dir == Some(
            args[1],
        ),
        args[0] == "--prime-dir"@ && (args.len() == 1 || args[1].len() == 0) ==> next.prime_dir
            is None,
        args[0] == "--days"@ && args.len() == 1 ==> next.days is None,
{
    lemma_names_differ();
    let a = args[0];
    let rest = args.drop_first();
    assert(rest =~= args.skip(1));
    if args.len() > 1 {
        assert(rest.drop_first() =~= args.skip(2));
        assert(rest[0] == args[1]);
    }
    if a == "scan"@ {
        o
    } else if a == "--days"@ {
        OptionsView { days: cli::value_of(rest), ..o }
    } else if a == "--hermes-home"@ {
        OptionsView {
            hermes_home: match cli::value_of(rest) {
                Some(v) => v,
                None => o.hermes_home,
            },
            ..o
        }
    } else if a == "--prime-dir"@ {
        OptionsView {
            prime_dir: match cli::value_of(rest) {
                Some(v) if v.len() > 0 => Some(v),
                _ => None,
            },
            ..o
        }
    } else {
        OptionsView { json: true, ..o }
    }
}

proof fn lemma_names_differ()
    ensures
        "scan"@ != "--days"@,
        "scan"@ != "--hermes-home"@,
        "scan"@ != "--prime-dir"@,
        "scan"@ != "--json"@,
        "scan"@ != "--help"@,
        "--days"@ != "--hermes-home"@,
        "--days"@ != "--prime-dir"@,
        "--days"@ != "--json"@,
        "--days"@ != "--help"@,
        "--hermes-home"@ != "--prime-dir"@,
        "--hermes-home"@ != "--json"@,
        "--hermes-home"@ != "--help"@,
        "--prime-dir"@ != "--json"@,
        "--prime-dir"@ != "--help"@,
        "--json"@ != "--help"@,
{
    reveal_strlit("scan");
    reveal_strlit("--days");
    reveal_strlit("--hermes-home");
    reveal_strlit("--prime-dir");
    reveal_strlit("--json");
    reveal_strlit("--help");
    assert("--days"@[2] == 'd');
    assert("--json"@[2] == 'j');
    assert("--help"@[2] == 'h');
    assert("scan"@.len() == 4 && "--hermes-home"@.len() == 13 && "--prime-dir"@.len() == 11);
}

/// Each flag sets its own option and no other: an option whose flag is not given
/// keeps the value that it had.
pub proof fn law_flags_set_their_own_option(o: OptionsView, args: Seq<Seq<char>>)
    requires
        cli::command_of(o, args) is Scan,
    ensures
        !is_given(args, "--days"@) ==> cli::command_of(o, args)->Scan_0.days == o.days,
        !is_given(args, "--hermes-home"@) ==> cli::command_of(o, args)->Scan_0.hermes_home
            == o.hermes_home,
        !is_given(args, "--prime-dir"@) ==> cli::command_of(o, args)->Scan_0.prime_dir
            == o.prime_dir,
        !is_given(args, "--json"@) ==> cli::command_of(o, args)->Scan_0.json == o.json,
        is_given(args, "--json"@) ==> cli::command_of(o, args)->Scan_0.json,
        o.json ==> cli::command_of(o, args)->Scan_0.json,
    decreases args.len(),
{
    if args.len() > 0 {
        let next = lemma_step(o, args);
        law_flags_set_their_own_option(next, behind_first(args));
    }
}

/// A flag that is not given again has the value that stands behind it, whatever
/// the options were and whatever follows.
pub proof fn law_last_flag_stands(o: OptionsView, value: Seq<char>, rest: Seq<Seq<char>>)
    ensures
        ({
            let r = cli::command_of(o, seq!["--days"@, value] + rest);
            r is Scan && !is_given(rest, "--days"@) ==> r->Scan_0.days == Some(value)
        }),
        ({
            let r = cli::command_of(o, seq!["--hermes-home"@, value] + rest);
            r is Scan && !is_given(rest, "--hermes-home"@) ==> r->Scan_0.hermes_home == value
        }),
        ({
            let r = cli::command_of(o, seq!["--prime-dir"@, value] + rest);
            r is Scan && !is_given(rest, "--prime-dir"@) ==> r->Scan_0.prime_dir == if value.len()
                == 0 {
                None
            } else {
                Some(value)
            }
        }),
{
    let days = seq!["--days"@, value] + rest;
    let home = seq!["--hermes-home"@, value] + rest;
    let dir = seq!["--prime-dir"@, value] + rest;
    assert(days.skip(2) =~= rest && home.skip(2) =~= rest && dir.skip(2) =~= rest);
    if cli::command_of(o, days) is Scan {
        let next = lemma_step(o, days);
        law_flags_set_their_own_option(next, rest);
    }
    if cli::command_of(o, home) is Scan {
        let next = lemma_step(o, home);
        law_flags_set_their_own_option(next, rest);
    }
    if cli::command_of(o, dir) is Scan {
        let next = lemma_step(o, dir);
        law_flags_set_their_own_option(next, rest);
    }
}

/// What asks for a scan does not depend on the options: the same arguments ask for
/// a scan, for help, or are unknown, whatever the options were.
pub proof fn law_options_do_not_choose_the_command(
    o: OptionsView,
    p: OptionsView,
    args: Seq<Seq<char>>,
)
    ensures
        cli::command_of(o, args) is Scan <==> cli::command_of(p, args) is Scan,
        cli::command_of(o, args) is Help <==> cli::command_of(p, args) is Help,
        !(cli::command_of(o, args) is Scan) ==> cli::command_of(o, args) == cli::command_of(p, args),
    decreases args.len(),
{
    if args.len() > 0 {
        let a = args[0];
        let rest = args.drop_first();
        let v = cli::value_of(rest);
        if a == "scan"@ {
            law_options_do_not_choose_the_command(o, p, rest);
        } else if a == "--days"@ {
            law_options_do_not_choose_the_command(
                OptionsView { days: v, ..o },
                OptionsView { days: v, ..p },
                cli::behind_value(rest),
            );
        } else if a == "--hermes-home"@ {
            law_options_do_not_choose_the_command(
                OptionsView {
                    hermes_home: match v {
                        Some(x) => x,
                        None => o.hermes_home,
                    },
                    ..o
                },
                OptionsView {
                    hermes_home: match v {
                        Some(x) => x,
                        None => p.hermes_home,
                    },
                    ..p
                },
                cli::behind_value(rest),
            );
        } else if a == "--prime-dir"@ {
            let dir = match v {
                Some(x) if x.len() > 0 => Some(x),
                _ => None,
            };
            law_options_do_not_choose_the_command(
                OptionsView { prime_dir: dir, ..o },
                OptionsView { prime_dir: dir, ..p },
                cli::behind_value(rest),
            );
        } else if a == "--json"@ {
            law_options_do_not_choose_the_command(
                OptionsView { json: true, ..o },
                OptionsView { json: true, ..p },
                rest,
            );
        }
    }
}

/// Whether an argument is known.
pub open spec fn is_known(arg: Seq<char>) -> bool {
    takes_value(arg) || arg == "scan"@ || arg == "--json"@ || arg == "--help"@
}

/// The first argument that asks for help or is not known decides, and only
/// arguments that are flags, not values of flags, do.
pub proof fn law_first_odd_argument_decides(o: OptionsView, args: Seq<Seq<char>>)
    ensures
        args.len() == 0 ==> cli::command_of(o, args) == CommandView::Scan(o),
        args.len() > 0 && args[0] == "--help"@ ==> cli::command_of(o, args) == CommandView::Help,
        args.len() > 0 && !is_known(args[0]) ==> cli::command_of(o, args) == CommandView::Unknown(
            args[0],
        ),
        args.len() > 0 && is_known(args[0]) && args[0] != "--help"@ ==> (cli::command_of(o, args)
            is Scan <==> cli::command_of(o, behind_first(args)) is Scan) && (cli::command_of(o, args)
            is Help <==> cli::command_of(o, behind_first(args)) is Help) && (!(cli::command_of(
            o,
            args,
        ) is Scan) ==> cli::command_of(o, args) == cli::command_of(o, behind_first(args))),
{
    lemma_names_differ();
    if args.len() > 0 && is_known(args[0]) && args[0] != "--help"@ {
        let a = args[0];
        let rest = args.drop_first();
        let v = cli::value_of(rest);
        assert(rest =~= args.skip(1));
        if args.len() > 1 {
            assert(rest.drop_first() =~= args.skip(2));
        }
        let next = if a == "--days"@ {
            OptionsView { days: v, ..o }
        } else if a == "--hermes-home"@ {
            OptionsView {
                hermes_home: match v {
                    Some(x) => x,
                    None => o.hermes_home,
                },
                ..o
            }
        } else if a == "--prime-dir"@ {
            OptionsView {
                prime_dir: match v {
                    Some(x) if x.len() > 0 => Some(x),
                    _ => None,
                },
                ..o
            }
        } else if a == "--json"@ {
            OptionsView { json: true, ..o }
        } else {
            o
        };
        law_options_do_not_choose_the_command(next, o, behind_first(args));
    }
}

/// A flag at the end of the arguments has no value: `--days` and `--prime-dir`
/// then unset their option, `--hermes-home` leaves its own as it is.
pub proof fn law_flags_without_value(o: OptionsView)
    ensures
        cli::command_of(o, seq!["--days"@]) == CommandView::Scan(OptionsView { days: None, ..o }),
        cli::command_of(o, seq!["--prime-dir"@]) == CommandView::Scan(
            OptionsView { prime_dir: None, ..o },
        ),
        cli::command_of(o, seq!["--hermes-home"@]) == CommandView::Scan(o),
{
    lemma_names_differ();
    let d = seq!["--days"@];
    let p = seq!["--prime-dir"@];
    let h = seq!["--hermes-home"@];
    assert(d.drop_first().len() == 0 && p.drop_first().len() == 0 && h.drop_first().len() == 0);
    assert(cli::command_of(OptionsView { days: None, ..o }, d.drop_first()) == CommandView::Scan(
        OptionsView { days: None, ..o },
    ));
    assert(cli::command_of(OptionsView { prime_dir: None, ..o }, p.drop_first())
        == CommandView::Scan(OptionsView { prime_dir: None, ..o }));
    assert(cli::command_of(o, h.drop_first()) == CommandView::Scan(o));
}

/// One more session counts once, under its own kind, and brings its own spans.
pub proof fn law_every_session_counts_once(ss: Seq<model::SessionView>, s: model::SessionView)
    ensures
        cli::count_of(ss.push(s), s.kind) == cli::count_of(ss, s.kind) + 1,
        s.kind == SessionKind::Human ==> cli::count_of(ss.push(s), SessionKind::Sub)
            == cli::count_of(ss, SessionKind::Sub),
        s.kind == SessionKind::Sub ==> cli::count_of(ss.push(s), SessionKind::Human)
            == cli::count_of(ss, SessionKind::Human),
        cli::span_total(ss.push(s)) == cli::span_total(ss) + s.spans.len(),
        cli::count_of(Seq::empty(), s.kind) == 0,
        cli::span_total(Seq::empty()) == 0,
{
    assert(ss.push(s).drop_last() =~= ss);
}

/// No session that the report leaves out started later than one that it shows, and
/// of sessions that started together the earlier in the scan comes first.
pub proof fn law_none_later_is_left_out(ss: Seq<model::SessionView>, n: nat, p: int, k: int)
    requires
        0 <= p < ss.len(),
        0 <= k < cli::latest_of(ss, n).len(),
    ensures
        !cli::latest_of(ss, n).contains(p) ==> ss[p].t_start <= ss[cli::latest_of(ss, n)[k]].t_start,
        forall|j: int|
            0 <= j < k && ss[#[trigger] cli::latest_of(ss, n)[j]].t_start == ss[cli::latest_of(
                ss,
                n,
            )[k]].t_start ==> cli::latest_of(ss, n)[j] < cli::latest_of(ss, n)[k],
{
    let keys = cli::lateness(ss);
    let all = order::key_order(keys);
    let shown = cli::latest_of(ss, n);
    order::law_keys_order(keys);
    order::law_order_sorts(keys.len(), order::by_key(keys));
    assert(all.contains(p));
    let q = choose|q: int| 0 <= q < all.len() && all[q] == p;
    if !shown.contains(p) {
        if q < shown.len() {
            assert(shown[q] == p);
        }
        assert(order::comes_before(order::by_key(keys), all[k], all[q]));
        assert(keys[all[k]] <= keys[all[q]]);
    }
    assert forall|j: int|
        0 <= j < k && ss[#[trigger] shown[j]].t_start == ss[shown[k]].t_start implies shown[j]
        < shown[k] by {
        assert(order::comes_before(order::by_key(keys), all[j], all[k]));
        assert(keys[all[j]] == keys[all[k]]);
    }
}

/// A shown title is the start of the title, whole where it has up to 48
/// characters, and 48 characters where it has more.
pub proof fn law_shown_titles(t: Seq<char>)
    ensures
        cli::shown_title(Some(t)).is_prefix_of(t),
        t.len() <= 48 ==> cli::shown_title(Some(t)) == t,
        t.len() > 48 ==> cli::shown_title(Some(t)).len() == 48,
        cli::shown_title(None).len() == 0,
{
}

} // verus!
