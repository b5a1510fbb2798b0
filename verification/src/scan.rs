//! Scans: what the sources yielded, put together.
use crate::model;
use crate::model::Session;
use crate::stats;
use crate::stats::ScanStats;
use vstd::prelude::*;

verus! {

/// What one source yielded, and what it had to skip.
#[derive(Debug)]
pub struct Loaded {
    pub sessions: Vec<Session>,
    pub stats: ScanStats,
}

/// The sessions of all parts, part by part.
pub open spec fn gathered(parts: Seq<Loaded>) -> Seq<model::SessionView>
    decreases parts.len(),
{
    if parts.len() == 0 {
        Seq::empty()
    } else {
        gathered(parts.drop_last()) + model::session_views(parts.last().sessions@)
    }
}

/// The counts `s` and what all parts skipped.
pub open spec fn total(s: stats::StatsView, parts: Seq<Loaded>) -> stats::StatsView
    decreases parts.len(),
{
    if parts.len() == 0 {
        s
    } else {
        stats::both(total(s, parts.drop_last()), parts.last().stats@)
    }
}

/// The sessions of all sources, in the order of the sources; what they skipped is
/// counted. A source that yielded nothing takes nothing from the others.
pub fn scan_stats(parts: Vec<Loaded>, stats: &mut ScanStats) -> (r: Vec<Session>)
    ensures
        model::session_views(r@) == gathered(parts@),
        final(stats)@ == total(old(stats)@, parts@),
{
    let mut out: Vec<Session> = Vec::new();
    let ghost all = parts@;
    let ghost start = stats@;
    proof {
        assert(all.take(0).len() == 0);
        assert(model::session_views(out@) =~= Seq::empty());
    }
    for part in it: parts
        invariant
            it.seq() == all,
            model::session_views(out@) == gathered(all.take(it.index())),
            stats@ == total(start, all.take(it.index())),
    {
        let ghost before = out@;
        proof {
            assert(all.take(it.index() + 1).drop_last() =~= all.take(it.index()));
            assert(all.take(it.index() + 1).last() == part);
        }
        let mut sessions: Vec<Session> = part.sessions;
        let ghost more = sessions@;
        stats.merge(&part.stats);
        out.append(&mut sessions);
        assert(model::session_views(out@) =~= model::session_views(before) + model::session_views(
            more,
        ));
    }
    assert(all.take(all.len() as int) =~= all);
    out
}

/// The sessions of all sources, in the order of the sources.
pub fn scan(parts: Vec<Loaded>) -> (r: Vec<Session>)
    ensures
        model::session_views(r@) == gathered(parts@),
{
    let mut unused: ScanStats = ScanStats::default();
    scan_stats(parts, &mut unused)
}

/// A scan with its counts per source and its duration in nanoseconds.
#[derive(Debug)]
pub struct ScanReport {
    pub sessions: Vec<Session>,
    pub hermes_profiles: usize,
    pub prime_files: usize,
    pub elapsed: u64,
    pub stats: ScanStats,
}

/// A scan with its counts per source and its duration in nanoseconds.
pub fn scan_reported(
    parts: Vec<Loaded>,
    hermes_profiles: usize,
    prime_files: usize,
    elapsed: u64,
) -> (r: ScanReport)
    ensures
        model::session_views(r.sessions@) == gathered(parts@),
        r.stats@ == total(stats::nothing_skipped(), parts@),
        r.hermes_profiles == hermes_profiles,
        r.prime_files == prime_files,
        r.elapsed == elapsed,
{
    let mut stats: ScanStats = ScanStats::default();
    let sessions: Vec<Session> = scan_stats(parts, &mut stats);
    ScanReport { sessions, hermes_profiles, prime_files, elapsed, stats }
}

/// One source never loses the sessions of another: each session of each part is
/// in the scan.
pub proof fn law_scan_keeps_every_session(parts: Seq<Loaded>, p: int, i: int)
    requires
        0 <= p < parts.len(),
        0 <= i < parts[p].sessions@.len(),
    ensures
        gathered(parts).contains(parts[p].sessions@[i]@),
    decreases parts.len(),
{
    let before = gathered(parts.drop_last());
    let last = model::session_views(parts.last().sessions@);
    if p < parts.len() - 1 {
        law_scan_keeps_every_session(parts.drop_last(), p, i);
        let k = choose|k: int| 0 <= k < before.len() && before[k] == parts[p].sessions@[i]@;
        assert((before + last)[k] == parts[p].sessions@[i]@);
    } else {
        assert((before + last)[before.len() + i] == parts[p].sessions@[i]@);
    }
}

/// A scan makes nothing up: each of its sessions is one of a part.
pub proof fn law_scan_invents_nothing(parts: Seq<Loaded>, k: int)
    requires
        0 <= k < gathered(parts).len(),
    ensures
        exists|p: int, i: int|
            0 <= p < parts.len() && 0 <= i < parts[p].sessions@.len() && gathered(parts)[k]
                == #[trigger] parts[p].sessions@[i]@,
    decreases parts.len(),
{
    let before = gathered(parts.drop_last());
    if k < before.len() {
        law_scan_invents_nothing(parts.drop_last(), k);
        let (p, i) = choose|p: int, i: int|
            0 <= p < parts.drop_last().len() && 0 <= i < parts.drop_last()[p].sessions@.len()
                && before[k] == #[trigger] parts.drop_last()[p].sessions@[i]@;
        assert(gathered(parts)[k] == parts[p].sessions@[i]@);
    } else {
        let p = parts.len() - 1;
        assert(gathered(parts)[k] == parts[p].sessions@[k - before.len()]@);
    }
}

/// Every skip is counted: as long as no count wraps around, the totals are the
/// sums over the parts, so a scan that skipped nothing counts nothing, and
/// another part never lowers a count.
pub proof fn law_skips_add_up(s: stats::StatsView, parts: Seq<Loaded>)
    requires
        s.sources + sources_skipped(parts) <= u64::MAX,
        s.sessions + sessions_skipped(parts) <= u64::MAX,
        s.rows + rows_skipped(parts) <= u64::MAX,
    ensures
        total(s, parts).sources == s.sources + sources_skipped(parts),
        total(s, parts).sessions == s.sessions + sessions_skipped(parts),
        total(s, parts).rows == s.rows + rows_skipped(parts),
    decreases parts.len(),
{
    if parts.len() > 0 {
        law_skips_add_up(s, parts.drop_last());
    }
}

/// The sources that all parts skipped.
pub open spec fn sources_skipped(parts: Seq<Loaded>) -> nat
    decreases parts.len(),
{
    if parts.len() == 0 {
        0
    } else {
        sources_skipped(parts.drop_last()) + parts.last().stats@.sources as nat
    }
}

/// The sessions that all parts skipped.
pub open spec fn sessions_skipped(parts: Seq<Loaded>) -> nat
    decreases parts.len(),
{
    if parts.len() == 0 {
        0
    } else {
        sessions_skipped(parts.drop_last()) + parts.last().stats@.sessions as nat
    }
}

/// The rows that all parts skipped.
pub open spec fn rows_skipped(parts: Seq<Loaded>) -> nat
    decreases parts.len(),
{
    if parts.len() == 0 {
        0
    } else {
        rows_skipped(parts.drop_last()) + parts.last().stats@.rows as nat
    }
}

/// One more part comes behind the others, whole, and its skips are counted on top.
pub proof fn law_one_more_part(s: stats::StatsView, parts: Seq<Loaded>, p: Loaded)
    ensures
        gathered(parts.push(p)).len() == gathered(parts).len() + p.sessions@.len(),
        gathered(parts).is_prefix_of(gathered(parts.push(p))),
        forall|i: int|
            0 <= i < p.sessions@.len() ==> gathered(parts.push(p))[gathered(parts).len() + i]
                == #[trigger] p.sessions@[i]@,
        gathered(Seq::empty()).len() == 0,
        total(s, Seq::empty()) == s,
        total(s, parts.push(p)) == stats::both(total(s, parts), p.stats@),
{
    assert(parts.push(p).drop_last() =~= parts);
}

} // verus!
