//! Measurements over time: CPU usage and memory in use, taken once a second.

use vstd::prelude::*;

use crate::cpu::CpuUsage;
use crate::history::{with_latest, History, HISTORY_LEN};

verus! {

/// The least time between two measurements, in nanoseconds.
pub const STATS_INTERVAL: u128 = 1_000_000_000;

/// Whether measurements are due, `elapsed_millis` after the last ones.
pub fn stats_due(elapsed_millis: u128) -> (r: bool)
    ensures
        r == (elapsed_millis >= 1000),
{
    elapsed_millis >= 1000
}

/// How much of the memory is in use.
#[derive(Clone, Copy, Debug, PartialEq, Eq, Structural)]
pub struct MemoryShare {
    pub used: u64,
    pub total: u64,
}

impl MemoryShare {
    /// The share is one of an amount that is not zero, and not above it.
    pub open spec fn proper(self) -> bool {
        self.used <= self.total && self.total > 0
    }

    /// The share as a percentage.
    pub open spec fn percent(self) -> real {
        self.used as int as real / (self.total as int as real) * 100real
    }
}

pub open spec fn share_of(used: u64, total: u64) -> MemoryShare {
    if total > 0 {
        MemoryShare { used, total }
    } else {
        MemoryShare { used: 0, total: 1 }
    }
}

/// The share of the memory in use; nothing of one where the size of the memory is
/// not known.
pub fn memory_share(used: u64, total: u64) -> (r: MemoryShare)
    ensures
        r == share_of(used, total),
        r.total > 0,
        total > 0 ==> r.used == used && r.total == total,
        total == 0 ==> r.used == 0 && r.total == 1,
        total > 0 ==> r.percent() == used as int as real / (total as int as real) * 100real,
        used <= total ==> r.proper(),
{
    if total > 0 {
        MemoryShare { used, total }
    } else {
        MemoryShare { used: 0, total: 1 }
    }
}

/// What the system reports at some time, in nanoseconds.
#[derive(Clone, Copy, Debug, PartialEq, Eq, Structural)]
pub struct Reading {
    pub now: u128,
    pub cpu: CpuUsage,
    pub used_memory: u64,
    pub total_memory: u64,
}

/// The series of measurements, and when the last ones were taken.
pub struct Stats {
    pub cpu_history: History<CpuUsage>,
    pub ram_history: History<MemoryShare>,
    pub last_stats: Option<u128>,
}

pub ghost struct StatsView {
    pub cpu_history: Seq<CpuUsage>,
    pub ram_history: Seq<MemoryShare>,
    pub last_stats: Option<u128>,
}

impl View for Stats {
    type V = StatsView;

    open spec fn view(&self) -> StatsView {
        StatsView {
            cpu_history: self.cpu_history@,
            ram_history: self.ram_history@,
            last_stats: self.last_stats,
        }
    }
}

impl StatsView {
    /// Measurements are due: there are none yet, or a second has passed since.
    pub open spec fn due(self, now: u128) -> bool {
        match self.last_stats {
            Some(last) => now - last >= STATS_INTERVAL,
            None => true,
        }
    }

    /// Both series have their full length, and the memory in use is never above
    /// the whole.
    pub open spec fn valid(self) -> bool {
        &&& self.cpu_history.len() == HISTORY_LEN
        &&& self.ram_history.len() == HISTORY_LEN
        &&& forall|i: int|
            0 <= i < self.ram_history.len() ==> (#[trigger] self.ram_history[i]).proper()
    }

    /// After a reading: where measurements are due, the oldest of each series
    /// leaves and the reading is added; else nothing changes.
    pub open spec fn refreshed(self, reading: Reading) -> StatsView {
        if self.due(reading.now) {
            StatsView {
                cpu_history: with_latest(self.cpu_history, reading.cpu),
                ram_history: with_latest(
                    self.ram_history,
                    share_of(reading.used_memory, reading.total_memory),
                ),
                last_stats: Some(reading.now),
            }
        } else {
            self
        }
    }
}

/// No measurements yet: both series are zero throughout.
pub open spec fn no_stats() -> StatsView {
    StatsView {
        cpu_history: Seq::new(HISTORY_LEN as nat, |i: int| CpuUsage { bits: 0 }),
        ram_history: Seq::new(HISTORY_LEN as nat, |i: int| MemoryShare { used: 0, total: 1 }),
        last_stats: None,
    }
}

impl Stats {
    /// No measurements yet.
    pub fn new() -> (r: Self)
        ensures
            r@ == no_stats(),
            r@.valid(),
            r.last_stats is None,
            r.cpu_history@.len() == 120,
            r.ram_history@.len() == 120,
            forall|i: int| 0 <= i < 120 ==> (#[trigger] r.cpu_history@[i]).bits == 0,
            forall|i: int| 0 <= i < 120 ==> (#[trigger] r.ram_history@[i]).used == 0,
    {
        Stats {
            cpu_history: History::new(CpuUsage { bits: 0 }),
            ram_history: History::new(MemoryShare { used: 0, total: 1 }),
            last_stats: None,
        }
    }

    /// Whether measurements are due at the time `now`.
    pub fn due(&self, now: u128) -> (r: bool)
        ensures
            r == self@.due(now),
            r == (self.last_stats matches Some(last) ==> now >= last + 1_000_000_000),
    {
        match self.last_stats {
            Some(last) => now >= last && stats_due((now - last) / 1_000_000),
            None => true,
        }
    }

    /// Takes the measurements of a reading if they are due.
    pub fn maybe_refresh_stats(&mut self, reading: Reading)
        ensures
            final(self)@ == old(self)@.refreshed(reading),
            !old(self)@.due(reading.now) ==> *final(self) == *old(self),
            old(self)@.valid() && reading.used_memory <= reading.total_memory
                ==> final(self)@.valid(),
            (old(self).last_stats matches Some(last) && reading.now < last + 1_000_000_000)
                ==> *final(self) == *old(self),
            (old(self).last_stats matches Some(last) ==> reading.now >= last + 1_000_000_000) ==> {
                &&& final(self).last_stats == Some(reading.now)
                &&& final(self).cpu_history@.last() == reading.cpu
                &&& reading.total_memory > 0 ==> final(self).ram_history@.last() == (MemoryShare {
                    used: reading.used_memory,
                    total: reading.total_memory,
                })
                &&& reading.total_memory == 0 ==> final(self).ram_history@.last().used == 0
                &&& forall|i: int|
                    0 <= i < old(self).cpu_history@.len() - 1
                        ==> #[trigger] final(self).cpu_history@[i] == old(self).cpu_history@[i + 1]
                &&& forall|i: int|
                    0 <= i < old(self).ram_history@.len() - 1
                        ==> #[trigger] final(self).ram_history@[i] == old(self).ram_history@[i + 1]
            },
    {
        if self.due(reading.now) {
            self.last_stats = Some(reading.now);
            self.cpu_history.record(reading.cpu);
            self.ram_history.record(memory_share(reading.used_memory, reading.total_memory));
        }
    }
}

/// The measurements after each of `readings`, one after the other.
pub open spec fn stats_after(readings: Seq<Reading>) -> StatsView
    decreases readings.len(),
{
    if readings.len() == 0 {
        no_stats()
    } else {
        stats_after(readings.drop_last()).refreshed(readings.last())
    }
}

/// The times at which measurements were taken from `readings`.
pub open spec fn sample_times(readings: Seq<Reading>) -> Seq<u128>
    decreases readings.len(),
{
    if readings.len() == 0 {
        Seq::empty()
    } else {
        let front = readings.drop_last();
        let now = readings.last().now;
        if stats_after(front).due(now) {
            sample_times(front).push(now)
        } else {
            sample_times(front)
        }
    }
}

/// Less than a second after the last measurements nothing changes.
pub proof fn early_readings_change_nothing(stats: StatsView, reading: Reading)
    requires
        stats.last_stats matches Some(last) && reading.now < last + STATS_INTERVAL,
    ensures
        stats.refreshed(reading) == stats,
{
}

/// Measurements are taken at least a second apart, however often readings come.
pub proof fn samples_are_a_second_apart(readings: Seq<Reading>)
    ensures
        forall|k: int, l: int|
            0 <= k < l < sample_times(readings).len() ==> (#[trigger] sample_times(readings)[k])
                + STATS_INTERVAL <= (#[trigger] sample_times(readings)[l]),
        stats_after(readings).last_stats == if sample_times(readings).len() > 0 {
            Some(sample_times(readings).last())
        } else {
            None
        },
    decreases readings.len(),
{
    if readings.len() > 0 {
        samples_are_a_second_apart(readings.drop_last());
        let front = sample_times(readings.drop_last());
        let all = sample_times(readings);
        assert forall|k: int, l: int| 0 <= k < l < all.len() implies (#[trigger] all[k])
            + STATS_INTERVAL <= (#[trigger] all[l]) by {
            if l < front.len() {
                assert(front[k] + STATS_INTERVAL <= front[l]);
            } else if k < front.len() - 1 {
                assert(front[k] + STATS_INTERVAL <= front[front.len() - 1]);
            }
        }
    }
}

/// Both series always have their full length.
pub proof fn series_keep_their_length(readings: Seq<Reading>)
    ensures
        stats_after(readings).cpu_history.len() == HISTORY_LEN,
        stats_after(readings).ram_history.len() == HISTORY_LEN,
    decreases readings.len(),
{
    if readings.len() > 0 {
        series_keep_their_length(readings.drop_last());
    }
}

/// As long as the system reports no more memory in use than there is, every memory
/// figure is a percentage from 0 to 100, also where the size of the memory is not
/// known.
pub proof fn series_stay_in_range(readings: Seq<Reading>)
    requires
        forall|i: int|
            0 <= i < readings.len() ==> (#[trigger] readings[i]).used_memory
                <= readings[i].total_memory,
    ensures
        forall|i: int|
            0 <= i < stats_after(readings).ram_history.len() ==> {
                let share = #[trigger] stats_after(readings).ram_history[i];
                share.total > 0 && 0real <= share.percent() <= 100real
            },
{
    lemma_stats_valid(readings);
    let ram = stats_after(readings).ram_history;
    assert forall|i: int| 0 <= i < ram.len() implies {
        let share = #[trigger] ram[i];
        share.total > 0 && 0real <= share.percent() <= 100real
    } by {
        assert(ram[i].proper());
        lemma_percent(ram[i]);
    }
}

proof fn lemma_stats_valid(readings: Seq<Reading>)
    requires
        forall|i: int|
            0 <= i < readings.len() ==> (#[trigger] readings[i]).used_memory
                <= readings[i].total_memory,
    ensures
        stats_after(readings).valid(),
    decreases readings.len(),
{
    if readings.len() > 0 {
        let front = readings.drop_last();
        assert forall|i: int| 0 <= i < front.len() implies (#[trigger] front[i]).used_memory
            <= front[i].total_memory by {
            assert(front[i] == readings[i]);
        }
        lemma_stats_valid(front);
        let last = readings[readings.len() - 1];
        assert(last.used_memory <= last.total_memory);
    }
}

proof fn lemma_percent(share: MemoryShare)
    requires
        share.proper(),
    ensures
        0real <= share.percent() <= 100real,
{
    let u = share.used as int as real;
    let t = share.total as int as real;
    assert(0real <= u / t <= 1real) by (nonlinear_arith)
        requires
            0real <= u <= t,
            t > 0real,
    ;
}

/// A share of so much of so much is that percentage: the percentage of the total is
/// a hundred times what is used.
pub proof fn percentages_by_ratio(share: MemoryShare)
    requires
        share.total > 0,
    ensures
        share.percent() * (share.total as int as real) == share.used as int as real * 100real,
{
    let u = share.used as int as real;
    let t = share.total as int as real;
    assert(u / t * 100real * t == u * 100real) by (nonlinear_arith)
        requires
            t > 0real,
    ;
}

/// The figure of the memory is the share that the system reports, as a percentage;
/// it is zero where the size of the memory is not known.
pub proof fn shares_by_ratio(used: u64, total: u64)
    ensures
        total > 0 ==> share_of(used, total).percent() == used as int as real / (
        total as int as real) * 100real,
        total == 0 ==> share_of(used, total).percent() == 0real,
{
    assert(0real / 1real * 100real == 0real) by (nonlinear_arith);
    assert(0int as real == 0real);
    assert(1int as real == 1real);
}

/// Measurements are due where there are none yet, and from a second after the last
/// ones on.
pub proof fn due_by_time(stats: StatsView, now: u128)
    ensures
        stats.last_stats is None ==> stats.due(now),
        stats.last_stats matches Some(last) ==> (stats.due(now) <==> now >= last + 1_000_000_000),
{
}

/// A due reading is recorded: the latest figures are the CPU usage and the share of
/// the memory that it reports, the others move up by one place, and the time of the
/// reading is kept.
pub proof fn due_readings_are_recorded(stats: StatsView, reading: Reading)
    requires
        stats.valid(),
        stats.last_stats matches Some(last) ==> reading.now >= last + 1_000_000_000,
    ensures
        ({
            let after = stats.refreshed(reading);
            &&& after.last_stats == Some(reading.now)
            &&& after.cpu_history.len() == 120
            &&& after.ram_history.len() == 120
            &&& after.cpu_history[119] == reading.cpu
            &&& reading.total_memory > 0 ==> after.ram_history[119].percent()
                == reading.used_memory as int as real / (reading.total_memory as int as real)
                * 100real
            &&& reading.total_memory == 0 ==> after.ram_history[119].percent() == 0real
            &&& forall|i: int|
                0 <= i < 119 ==> #[trigger] after.cpu_history[i] == stats.cpu_history[i + 1]
            &&& forall|i: int|
                0 <= i < 119 ==> #[trigger] after.ram_history[i] == stats.ram_history[i + 1]
        }),
{
    shares_by_ratio(reading.used_memory, reading.total_memory);
}

} // verus!
