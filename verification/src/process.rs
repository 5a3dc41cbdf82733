use vstd::prelude::*;
use std::collections::HashMap;

verus! {

broadcast use vstd::std_specs::hash::group_hash_axioms;

/// A binary64 floating-point quantity (a CPU share, a number of clock ticks,
/// seconds of uptime), carried by its IEEE 754 bit pattern. The library
/// stores and moves these values; arithmetic on them happens outside it.
#[derive(Clone, Copy, Debug, PartialEq, Eq, Structural)]
pub struct FloatBits(pub u64);

impl FloatBits {
    /// Positive zero, whose bit pattern is all zeros.
    pub fn zero() -> (z: FloatBits)
        ensures
            z == FloatBits(0),
    {
        FloatBits(0)
    }
}

/// A point in wall-clock time: `secs` seconds and `nanos` nanoseconds after
/// the Unix epoch, or before it where `before_epoch` holds.
#[derive(Clone, Copy, Debug, PartialEq, Eq, Structural)]
pub struct Timestamp {
    pub before_epoch: bool,
    pub secs: u64,
    pub nanos: u32,
}

/// Reads the system's wall clock.
///
/// Calls `std::time::SystemTime::now` and gives its distance from the Unix
/// epoch (`SystemTime::duration_since`, whose error carries the distance of
/// a time before the epoch). The contract claims only that the sub-second
/// part is below one second: the value itself depends on the moment of the
/// call.
#[verifier::external_body]
fn current_time() -> (t: Timestamp)
    ensures
        t.nanos < 1_000_000_000,
{
    match std::time::SystemTime::now().duration_since(std::time::UNIX_EPOCH) {
        Ok(d) => Timestamp { before_epoch: false, secs: d.as_secs(), nanos: d.subsec_nanos() },
        Err(e) => Timestamp { before_epoch: true, secs: e.duration().as_secs(), nanos: e.duration().subsec_nanos() },
    }
}

/// One process as an agent saw it.
#[derive(Debug)]
pub struct Process {
    /// From the name of the process's directory under `/proc`.
    pub pid: u64,
    /// From the process's status file.
    pub name: String,
    /// Resident set size, in kB.
    pub rss: u64,
    /// Proportional set size, in kB.
    pub pss: u64,
    pub avg_cpu_usage: FloatBits,
    pub instant_cpu_usage: FloatBits,
    pub threads: u64,
}

/// A snapshot of all processes of one machine, with totals over them.
#[derive(Debug)]
pub struct Processes {
    pub id: String,
    pub time_stamp: Timestamp,
    pub processes: Vec<Process>,
    pub total_threads: u64,
    pub total_avg_cpu: FloatBits,
    pub total_instant_cpu: FloatBits,
    pub total_pss: u64,
}

/// The CPU times of one process at one reading, used to compute its usage
/// over the interval to the next reading.
#[derive(Clone, Copy, Debug, PartialEq, Eq, Structural)]
pub struct ProcessSnapShot {
    pub ultime: FloatBits,
    pub stime: FloatBits,
    pub uptime: FloatBits,
}

/// The last snapshot of each process, by pid.
pub struct SnapShotCollector {
    map: HashMap<u64, ProcessSnapShot>,
}

/// The sum of the thread counts of `ps`.
pub open spec fn sum_threads(ps: Seq<Process>) -> int
    decreases ps.len(),
{
    if ps.len() == 0 {
        0
    } else {
        sum_threads(ps.drop_last()) + ps.last().threads
    }
}

/// The sum of the proportional set sizes of `ps`.
pub open spec fn sum_pss(ps: Seq<Process>) -> int
    decreases ps.len(),
{
    if ps.len() == 0 {
        0
    } else {
        sum_pss(ps.drop_last()) + ps.last().pss
    }
}

/// The sums over a prefix never exceed the sums over the whole sequence.
proof fn lemma_sums_prefix_bounded(ps: Seq<Process>, k: int)
    requires
        0 <= k <= ps.len(),
    ensures
        sum_threads(ps.take(k)) <= sum_threads(ps),
        sum_pss(ps.take(k)) <= sum_pss(ps),
    decreases ps.len() - k,
{
    if k < ps.len() {
        lemma_sums_prefix_bounded(ps, k + 1);
        assert(ps.take(k + 1).drop_last() =~= ps.take(k));
    } else {
        assert(ps.take(k) =~= ps);
    }
}

impl Process {
    pub fn new(
        pid: u64,
        name: String,
        rss: u64,
        pss: u64,
        avg_cpu_usage: FloatBits,
        instant_cpu_usage: FloatBits,
        threads: u64,
    ) -> (p: Self)
        ensures
            p == (Process { pid, name, rss, pss, avg_cpu_usage, instant_cpu_usage, threads }),
    {
        Process { pid, name, rss, pss, avg_cpu_usage, instant_cpu_usage, threads }
    }
}

impl Processes {
    /// An empty snapshot for machine `id`, stamped with the current time.
    pub fn new(id: String) -> (s: Self)
        ensures
            s.id == id,
            s.time_stamp.nanos < 1_000_000_000,
            s.processes@ == Seq::<Process>::empty(),
            s.total_threads == 0,
            s.total_pss == 0,
            s.total_avg_cpu == FloatBits(0),
            s.total_instant_cpu == FloatBits(0),
    {
        Processes {
            id,
            time_stamp: current_time(),
            processes: Vec::new(),
            total_threads: 0,
            total_pss: 0,
            total_avg_cpu: FloatBits::zero(),
            total_instant_cpu: FloatBits::zero(),
        }
    }

    /// Sets the thread and memory totals to the sums over the processes.
    /// The CPU totals, sums of floating-point values, are left as they are.
    pub fn finalize(&mut self)
        requires
            sum_threads(old(self).processes@) <= u64::MAX,
            sum_pss(old(self).processes@) <= u64::MAX,
        ensures
            final(self).processes == old(self).processes,
            final(self).id == old(self).id,
            final(self).time_stamp == old(self).time_stamp,
            final(self).total_avg_cpu == old(self).total_avg_cpu,
            final(self).total_instant_cpu == old(self).total_instant_cpu,
            final(self).total_threads == sum_threads(old(self).processes@),
            final(self).total_pss == sum_pss(old(self).processes@),
    {
        let mut threads: u64 = 0;
        let mut pss: u64 = 0;
        let n = self.processes.len();
        let ghost ps = self.processes@;
        for i in 0..n
            invariant
                n == self.processes.len(),
                ps == self.processes@,
                sum_threads(ps) <= u64::MAX,
                sum_pss(ps) <= u64::MAX,
                threads == sum_threads(ps.take(i as int)),
                pss == sum_pss(ps.take(i as int)),
        {
            proof {
                lemma_sums_prefix_bounded(ps, i + 1);
                assert(ps.take(i + 1).drop_last() =~= ps.take(i as int));
            }
            threads = threads + self.processes[i].threads;
            pss = pss + self.processes[i].pss;
        }
        proof {
            assert(ps.take(n as int) =~= ps);
        }
        self.total_threads = threads;
        self.total_pss = pss;
    }

    pub fn add_process(&mut self, process: Process)
        ensures
            final(self).processes@ == old(self).processes@.push(process),
            final(self).id == old(self).id,
            final(self).time_stamp == old(self).time_stamp,
            final(self).total_threads == old(self).total_threads,
            final(self).total_pss == old(self).total_pss,
            final(self).total_avg_cpu == old(self).total_avg_cpu,
            final(self).total_instant_cpu == old(self).total_instant_cpu,
    {
        self.processes.push(process)
    }
}

impl Default for Processes {
    /// An empty snapshot with no id, stamped at the Unix epoch.
    fn default() -> (s: Self)
        ensures
            s.id@ == Seq::<char>::empty(),
            s.time_stamp == (Timestamp { before_epoch: false, secs: 0, nanos: 0 }),
            s.processes@ == Seq::<Process>::empty(),
            s.total_threads == 0,
            s.total_pss == 0,
            s.total_avg_cpu == FloatBits(0),
            s.total_instant_cpu == FloatBits(0),
    {
        Processes {
            id: String::new(),
            time_stamp: Timestamp { before_epoch: false, secs: 0, nanos: 0 },
            processes: Vec::new(),
            total_threads: 0,
            total_pss: 0,
            total_avg_cpu: FloatBits::zero(),
            total_instant_cpu: FloatBits::zero(),
        }
    }
}

impl ProcessSnapShot {
    /// The snapshot of a process never seen before: all times zero.
    pub fn default() -> (s: Self)
        ensures
            s == (ProcessSnapShot { ultime: FloatBits(0), stime: FloatBits(0), uptime: FloatBits(0) }),
    {
        ProcessSnapShot { ultime: FloatBits::zero(), stime: FloatBits::zero(), uptime: FloatBits::zero() }
    }
}

impl View for SnapShotCollector {
    type V = Map<u64, ProcessSnapShot>;

    closed spec fn view(&self) -> Map<u64, ProcessSnapShot> {
        self.map@
    }
}

/// What `SnapShotCollector::get` gives for `pid` from a collector whose
/// contents are `m`: the stored snapshot, or the all-zero one.
pub open spec fn snapshot_or_default(m: Map<u64, ProcessSnapShot>, pid: u64) -> ProcessSnapShot {
    if m.contains_key(pid) {
        m[pid]
    } else {
        ProcessSnapShot { ultime: FloatBits(0), stime: FloatBits(0), uptime: FloatBits(0) }
    }
}

impl SnapShotCollector {
    pub fn new() -> (c: Self)
        ensures
            c@ == Map::<u64, ProcessSnapShot>::empty(),
    {
        SnapShotCollector { map: HashMap::new() }
    }

    /// Stores `snapshot` as the last one of `pid`, replacing any earlier one.
    pub fn add(&mut self, pid: u64, snapshot: ProcessSnapShot)
        ensures
            final(self)@ == old(self)@.insert(pid, snapshot),
    {
        self.map.insert(pid, snapshot);
    }

    /// Takes the last snapshot of `pid` out of the collector; the all-zero
    /// snapshot where there is none.
    pub fn get(&mut self, pid: u64) -> (s: ProcessSnapShot)
        ensures
            final(self)@ == old(self)@.remove(pid),
            s == snapshot_or_default(old(self)@, pid),
    {
        match self.map.remove(&pid) {
            Some(s) => s,
            None => ProcessSnapShot::default(),
        }
    }
}

/// Adding a process raises the sums that `finalize` sets by that process's
/// thread count and proportional set size.
pub proof fn lemma_totals_after_add(ps: Seq<Process>, p: Process)
    ensures
        sum_threads(ps.push(p)) == sum_threads(ps) + p.threads,
        sum_pss(ps.push(p)) == sum_pss(ps) + p.pss,
{
    assert(ps.push(p).drop_last() =~= ps);
}

/// The collector gives back what was stored for a pid, once: after `add`,
/// `get` of that pid returns the stored snapshot, a second `get` returns
/// the all-zero snapshot, and other pids are unaffected.
pub proof fn lemma_snapshot_taken_once(
    m: Map<u64, ProcessSnapShot>,
    pid: u64,
    s: ProcessSnapShot,
    other: u64,
)
    requires
        other != pid,
    ensures
        snapshot_or_default(m.insert(pid, s), pid) == s,
        snapshot_or_default(m.insert(pid, s).remove(pid), pid) == (ProcessSnapShot {
            ultime: FloatBits(0),
            stime: FloatBits(0),
            uptime: FloatBits(0),
        }),
        snapshot_or_default(m.insert(pid, s), other) == snapshot_or_default(m, other),
{
}

} // verus!
