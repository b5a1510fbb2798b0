//! The command line: `scan [--days N] [--hermes-home DIR] [--prime-dir DIR] [--json]`.
use crate::model;
use crate::model::{Session, SessionKind};
use crate::order;
use crate::order::stable_order;
use crate::paths;
use crate::sources::Sources;
use crate::text;
use crate::text::{chars_of, same_text, string_of};
use vstd::prelude::*;

verus! {

/// What to scan and how to report it.
#[derive(Debug, Clone)]
pub struct Options {
    /// How many days back to scan, as it was given.
    pub days: Option<String>,
    pub sources: Sources,
    pub json: bool,
}

/// [`Options`] as mathematical values.
pub struct OptionsView {
    pub days: Option<Seq<char>>,
    pub hermes_home: Seq<char>,
    pub prime_dir: Option<Seq<char>>,
    pub json: bool,
}

impl View for Options {
    type V = OptionsView;

    open spec fn view(&self) -> OptionsView {
        OptionsView {
            days: text::opt_text(self.days),
            hermes_home: self.sources.hermes_home@,
            prime_dir: text::opt_text(self.sources.prime_dir),
            json: self.json,
        }
    }
}

/// What a command line asks for.
#[derive(Debug, Clone)]
pub enum Command {
    Scan(Options),
    Help,
    /// An argument that is not known.
    Unknown(String),
}

/// A [`Command`] as a mathematical value.
pub enum CommandView {
    Scan(OptionsView),
    Help,
    Unknown(Seq<char>),
}

impl View for Command {
    type V = CommandView;

    open spec fn view(&self) -> CommandView {
        match *self {
            Command::Scan(o) => CommandView::Scan(o@),
            Command::Help => CommandView::Help,
            Command::Unknown(a) => CommandView::Unknown(a@),
        }
    }
}

/// The arguments behind the value of a flag.
pub open spec fn behind_value(rest: Seq<Seq<char>>) -> Seq<Seq<char>> {
    if rest.len() > 0 {
        rest.drop_first()
    } else {
        rest
    }
}

/// The value of a flag, if one follows.
pub open spec fn value_of(rest: Seq<Seq<char>>) -> Option<Seq<char>> {
    if rest.len() > 0 {
        Some(rest[0])
    } else {
        None
    }
}

/// What the arguments `args` ask for, with the options `o` so far. A flag takes
/// the argument behind it as its value, whatever that is; the first argument that
/// is not known, or that asks for help, decides.
pub open spec fn command_of(o: OptionsView, args: Seq<Seq<char>>) -> CommandView
    decreases args.len(),
{
    if args.len() == 0 {
        CommandView::Scan(o)
    } else {
        let a = args[0];
        let rest = args.drop_first();
        if a == "scan"@ {
            command_of(o, rest)
        } else if a == "--days"@ {
            command_of(OptionsView { days: value_of(rest), ..o }, behind_value(rest))
        } else if a == "--hermes-home"@ {
            let home = match value_of(rest) {
                Some(v) => v,
                None => o.hermes_home,
            };
            command_of(OptionsView { hermes_home: home, ..o }, behind_value(rest))
        } else if a == "--prime-dir"@ {
            let dir = match value_of(rest) {
                Some(v) if v.len() > 0 => Some(v),
                _ => None,
            };
            command_of(OptionsView { prime_dir: dir, ..o }, behind_value(rest))
        } else if a == "--json"@ {
            command_of(OptionsView { json: true, ..o }, rest)
        } else if a == "--help"@ {
            CommandView::Help
        } else {
            CommandView::Unknown(a)
        }
    }
}

/// The value of the flag at `i`, if one follows.
fn flag_value(args: &Vec<String>, i: usize) -> (r: Option<String>)
    requires
        i < args@.len(),
    ensures
        text::opt_text(r) == value_of(paths::name_views(args@).skip(i + 1)),
{
    let ghost rest = paths::name_views(args@).skip(i + 1);
    if args.len() - i > 1 {
        assert(rest[0] == args@[i + 1]@);
        Some(args[i + 1].clone())
    } else {
        None
    }
}

/// What the arguments ask for; `sources` says where to read from unless they say
/// otherwise.
pub fn parse_args(args: &Vec<String>, sources: Sources) -> (r: Command)
    ensures
        r@ == command_of(
            (OptionsView {
                days: None,
                hermes_home: sources.hermes_home@,
                prime_dir: text::opt_text(sources.prime_dir),
                json: false,
            }),
            paths::name_views(args@),
        ),
{
    let ghost views = paths::name_views(args@);
    let mut o = Options { days: None, sources, json: false };
    let ghost start = o@;
    let mut i: usize = 0;
    assert(views.skip(0) =~= views);
    while i < args.len()
        invariant
            i <= args@.len(),
            views == paths::name_views(args@),
            start == (OptionsView {
                days: None,
                hermes_home: sources.hermes_home@,
                prime_dir: text::opt_text(sources.prime_dir),
                json: false,
            }),
            command_of(start, views) == command_of(o@, views.skip(i as int)),
        decreases args.len() - i,
    {
        let a: &str = args[i].as_str();
        let ghost here = views.skip(i as int);
        let ghost rest = views.skip(i + 1);
        proof {
            assert(here[0] == a@);
            assert(here.drop_first() =~= rest);
            if i + 1 < args@.len() {
                assert(behind_value(rest) =~= views.skip(i + 2));
            } else {
                assert(behind_value(rest) =~= views.skip(i + 1));
            }
        }
        let mut used: usize = 1;
        if same_text(a, "scan") {
        } else if same_text(a, "--days") {
            o.days = flag_value(args, i);
            used = 2;
        } else if same_text(a, "--hermes-home") {
            if let Some(v) = flag_value(args, i) {
                o.sources.hermes_home = v;
            }
            used = 2;
        } else if same_text(a, "--prime-dir") {
            o.sources.prime_dir = match flag_value(args, i) {
                Some(v) => if v.as_str().is_empty() {
                    None
                } else {
                    Some(v)
                },
                None => None,
            };
            used = 2;
        } else if same_text(a, "--json") {
            o.json = true;
        } else if same_text(a, "--help") {
            return Command::Help;
        } else {
            return Command::Unknown(args[i].clone());
        }
        if used == 2 && args.len() - i > 1 {
            i = i + 2;
        } else {
            i = i + 1;
        }
    }
    assert(views.skip(args@.len() as int).len() == 0);
    Command::Scan(o)
}

/// How many sessions of the kind `kind` there are.
pub open spec fn count_of(ss: Seq<model::SessionView>, kind: SessionKind) -> nat
    decreases ss.len(),
{
    if ss.len() == 0 {
        0
    } else {
        count_of(ss.drop_last(), kind) + if ss.last().kind == kind {
            1nat
        } else {
            0nat
        }
    }
}

/// How many spans the sessions have together.
pub open spec fn span_total(ss: Seq<model::SessionView>) -> nat
    decreases ss.len(),
{
    if ss.len() == 0 {
        0
    } else {
        span_total(ss.drop_last()) + ss.last().spans.len()
    }
}

/// The counts of a scan.
#[derive(Debug, Clone, Copy)]
pub struct Counts {
    pub human: usize,
    pub sub: usize,
    pub spans: u128,
}

/// Counts the sessions of either kind, and their spans.
pub fn count_sessions(sessions: &Vec<Session>) -> (r: Counts)
    ensures
        r.human == count_of(model::session_views(sessions@), SessionKind::Human),
        r.sub == count_of(model::session_views(sessions@), SessionKind::Sub),
        r.spans == span_total(model::session_views(sessions@)),
        r.human + r.sub == sessions@.len(),
{
    let ghost views = model::session_views(sessions@);
    let mut human: usize = 0;
    let mut sub: usize = 0;
    let mut spans: u128 = 0;
    let mut i: usize = 0;
    assert(views.take(0).len() == 0);
    while i < sessions.len()
        invariant
            i <= sessions@.len(),
            views == model::session_views(sessions@),
            human == count_of(views.take(i as int), SessionKind::Human),
            sub == count_of(views.take(i as int), SessionKind::Sub),
            human + sub == i,
            spans == span_total(views.take(i as int)),
            spans <= i * 0xffff_ffff_ffff_ffff,
        decreases sessions.len() - i,
    {
        let s: &Session = &sessions[i];
        proof {
            assert(views.take(i + 1).drop_last() =~= views.take(i as int));
            assert(views.take(i + 1).last() == s@);
            assert(s@.spans.len() == s.spans@.len());
            assert(i * 0xffff_ffff_ffff_ffff + 0xffff_ffff_ffff_ffff <= 0xffff_ffff_ffff_ffff
                * 0xffff_ffff_ffff_ffff) by (nonlinear_arith)
                requires
                    i < 0xffff_ffff_ffff_ffff,
            ;
            assert((i + 1) * 0xffff_ffff_ffff_ffff == i * 0xffff_ffff_ffff_ffff
                + 0xffff_ffff_ffff_ffff) by (nonlinear_arith);
        }
        match s.kind {
            SessionKind::Human => {
                human = human + 1;
            },
            SessionKind::Sub => {
                sub = sub + 1;
            },
        }
        spans = spans + s.spans.len() as u128;
        i = i + 1;
    }
    assert(views.take(sessions@.len() as int) =~= views);
    Counts { human, sub, spans }
}

/// Keys that put later starts first.
pub open spec fn lateness(ss: Seq<model::SessionView>) -> Seq<i128> {
    ss.map_values(|s: model::SessionView| (-1 - s.t_start) as i128)
}

/// The places of the sessions, latest start first, but no more than `n`.
pub open spec fn latest_of(ss: Seq<model::SessionView>, n: nat) -> Seq<int> {
    let all = order::key_order(lateness(ss));
    if all.len() <= n {
        all
    } else {
        all.take(n as int)
    }
}

/// The places of the sessions that started latest, latest first, but no more than
/// `n`.
pub fn latest(sessions: &Vec<Session>, n: usize) -> (r: Vec<usize>)
    ensures
        order::places(r@) == latest_of(model::session_views(sessions@), n as nat),
        forall|k: int| 0 <= k < r@.len() ==> #[trigger] r@[k] < sessions@.len(),
{
    let ghost views = model::session_views(sessions@);
    let mut keys: Vec<i128> = Vec::new();
    let mut i: usize = 0;
    while i < sessions.len()
        invariant
            i <= sessions@.len(),
            views == model::session_views(sessions@),
            keys@.len() == i,
            forall|k: int| 0 <= k < i ==> #[trigger] keys@[k] == -1 - views[k].t_start,
        decreases sessions.len() - i,
    {
        assert(views[i as int] == sessions@[i as int]@);
        keys.push(-1 - sessions[i].t_start);
        i = i + 1;
    }
    assert(keys@ =~= lateness(views));
    let all: Vec<usize> = stable_order(&keys);
    let mut out: Vec<usize> = Vec::new();
    let mut j: usize = 0;
    while j < all.len() && j < n
        invariant
            j <= all@.len(),
            j <= n,
            out@ == all@.take(j as int),
        decreases all.len() - j,
    {
        out.push(all[j]);
        assert(all@.take(j + 1) =~= all@.take(j as int).push(all@[j as int]));
        j = j + 1;
    }
    proof {
        if all@.len() <= n {
            assert(out@ =~= all@);
        } else {
            assert(order::places(out@) =~= order::places(all@).take(n as int));
        }
    }
    out
}

/// The sessions come latest start first, and each at most once.
pub proof fn law_latest_first(ss: Seq<model::SessionView>, n: nat)
    ensures
        latest_of(ss, n).len() == if ss.len() <= n {
            ss.len()
        } else {
            n
        },
        forall|k: int| 0 <= k < latest_of(ss, n).len() ==> 0 <= #[trigger] latest_of(ss, n)[k]
            < ss.len(),
        forall|j: int, k: int|
            0 <= j < k < latest_of(ss, n).len() ==> ss[#[trigger] latest_of(ss, n)[j]].t_start
                >= ss[#[trigger] latest_of(ss, n)[k]].t_start && latest_of(ss, n)[j] != latest_of(
                ss,
                n,
            )[k],
{
    let keys = lateness(ss);
    let all = order::key_order(keys);
    order::law_keys_order(keys);
    order::law_order_sorts(keys.len(), order::by_key(keys));
    assert forall|j: int, k: int| 0 <= j < k < latest_of(ss, n).len() implies ss[#[trigger] latest_of(
        ss,
        n,
    )[j]].t_start >= ss[#[trigger] latest_of(ss, n)[k]].t_start && latest_of(ss, n)[j] != latest_of(
        ss,
        n,
    )[k] by {
        assert(order::comes_before(order::by_key(keys), all[j], all[k]));
    }
}

/// The title of a session as the report shows it: its first 48 characters, and
/// nothing where it has none.
pub open spec fn shown_title(title: Option<Seq<char>>) -> Seq<char> {
    match title {
        Some(t) => if t.len() <= 48 {
            t
        } else {
            t.take(48)
        },
        None => Seq::empty(),
    }
}

/// The title of a session as the report shows it.
pub fn sample_title(s: &Session) -> (r: String)
    ensures
        r@ == shown_title(s@.title),
{
    match &s.title {
        Some(t) => {
            let cs: Vec<char> = chars_of(t.as_str());
            let n: usize = if cs.len() <= 48 {
                cs.len()
            } else {
                48
            };
            assert(cs@.subrange(0, n as int) =~= shown_title(s@.title));
            string_of(&cs, 0, n)
        },
        None => String::new(),
    }
}

} // verus!
