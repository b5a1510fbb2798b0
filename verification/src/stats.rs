//! Counters of what a scan had to skip.
use vstd::prelude::*;

verus! {

/// What a scan skipped. Every skip is counted, none is fatal.
#[derive(Debug)]
pub struct ScanStats {
    skipped_sources: u64,
    skipped_sessions: u64,
    skipped_rows: u64,
}

/// The three counts of a [`ScanStats`].
pub struct StatsView {
    pub sources: u64,
    pub sessions: u64,
    pub rows: u64,
}

impl View for ScanStats {
    type V = StatsView;

    closed spec fn view(&self) -> StatsView {
        StatsView {
            sources: self.skipped_sources,
            sessions: self.skipped_sessions,
            rows: self.skipped_rows,
        }
    }
}

/// The counts of a scan that skipped nothing.
pub open spec fn nothing_skipped() -> StatsView {
    StatsView { sources: 0, sessions: 0, rows: 0 }
}

/// `x` counted on by `n`; the count wraps around.
pub open spec fn counted_on(x: u64, n: nat) -> u64 {
    ((x + n) % 0x1_0000_0000_0000_0000) as u64
}

/// The counts of two scans together.
pub open spec fn both(a: StatsView, b: StatsView) -> StatsView {
    StatsView {
        sources: counted_on(a.sources, b.sources as nat),
        sessions: counted_on(a.sessions, b.sessions as nat),
        rows: counted_on(a.rows, b.rows as nat),
    }
}

/// Counting on twice is counting on once by the sum.
pub proof fn lemma_counted_on(x: u64, a: nat, b: nat)
    ensures
        counted_on(counted_on(x, a), b) == counted_on(x, a + b),
        counted_on(x, 0) == x,
{
}

impl Default for ScanStats {
    /// Nothing skipped yet.
    fn default() -> (r: Self)
        ensures
            r@ == nothing_skipped(),
    {
        ScanStats { skipped_sources: 0, skipped_sessions: 0, skipped_rows: 0 }
    }
}

impl ScanStats {
    /// Counts one skipped source.
    pub fn inc_skipped_sources(&mut self)
        ensures
            final(self)@ == (StatsView {
                sources: counted_on(old(self)@.sources, 1),
                ..old(self)@
            }),
    {
        self.skipped_sources = self.skipped_sources.wrapping_add(1);
    }

    /// Counts one skipped session.
    pub fn inc_skipped_sessions(&mut self)
        ensures
            final(self)@ == (StatsView {
                sessions: counted_on(old(self)@.sessions, 1),
                ..old(self)@
            }),
    {
        self.skipped_sessions = self.skipped_sessions.wrapping_add(1);
    }

    /// Counts one skipped row.
    pub fn inc_skipped_rows(&mut self)
        ensures
            final(self)@ == (StatsView { rows: counted_on(old(self)@.rows, 1), ..old(self)@ }),
    {
        self.skipped_rows = self.skipped_rows.wrapping_add(1);
    }

    /// Counts `n` skipped sessions.
    pub fn add_skipped_sessions(&mut self, n: u64)
        ensures
            final(self)@ == (StatsView {
                sessions: counted_on(old(self)@.sessions, n as nat),
                ..old(self)@
            }),
    {
        self.skipped_sessions = self.skipped_sessions.wrapping_add(n);
    }

    /// Counts `n` skipped rows.
    pub fn add_skipped_rows(&mut self, n: u64)
        ensures
            final(self)@ == (StatsView {
                rows: counted_on(old(self)@.rows, n as nat),
                ..old(self)@
            }),
    {
        self.skipped_rows = self.skipped_rows.wrapping_add(n);
    }

    /// Counts what another scan skipped.
    pub fn merge(&mut self, other: &ScanStats)
        ensures
            final(self)@ == both(old(self)@, other@),
    {
        self.skipped_sources = self.skipped_sources.wrapping_add(other.skipped_sources);
        self.skipped_sessions = self.skipped_sessions.wrapping_add(other.skipped_sessions);
        self.skipped_rows = self.skipped_rows.wrapping_add(other.skipped_rows);
    }

    /// How many sources were skipped.
    pub fn skipped_sources(&self) -> (r: u64)
        ensures
            r == self@.sources,
    {
        self.skipped_sources
    }

    /// How many sessions were skipped.
    pub fn skipped_sessions(&self) -> (r: u64)
        ensures
            r == self@.sessions,
    {
        self.skipped_sessions
    }

    /// How many rows were skipped.
    pub fn skipped_rows(&self) -> (r: u64)
        ensures
            r == self@.rows,
    {
        self.skipped_rows
    }
}

/// Counting on adds: as long as nothing wraps around, a count grows by what was
/// counted, and two scans together count what each counted.
pub proof fn law_counts_add_up(x: u64, n: nat, a: StatsView, b: StatsView)
    ensures
        x + n <= u64::MAX ==> counted_on(x, n) == x + n,
        a.sources + b.sources <= u64::MAX ==> both(a, b).sources == a.sources + b.sources,
        a.sessions + b.sessions <= u64::MAX ==> both(a, b).sessions == a.sessions + b.sessions,
        a.rows + b.rows <= u64::MAX ==> both(a, b).rows == a.rows + b.rows,
        nothing_skipped().sources == 0 && nothing_skipped().sessions == 0
            && nothing_skipped().rows == 0,
        both(a, nothing_skipped()) == a,
{
}

/// A count that grows past its last number starts over at zero.
pub proof fn law_counts_start_over(x: u64, n: nat)
    requires
        0x1_0000_0000_0000_0000 <= x + n < 0x2_0000_0000_0000_0000,
    ensures
        counted_on(x, n) == x + n - 0x1_0000_0000_0000_0000,
{
}

} // verus!
