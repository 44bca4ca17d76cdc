use vstd::prelude::*;

verus! {

/// Operation counters. Each counter wraps around at `u64::MAX`, as an
/// atomic `fetch_add` does.
pub struct Metrics {
    pub inserts: u64,
    pub finds: u64,
    pub updates: u64,
    pub deletes: u64,
    pub sync_pushes: u64,
    pub sync_pulls: u64,
    pub local_write_latency_us_total: u64,
    pub local_write_latency_us_count: u64,
    pub replay_duration_us_total: u64,
    pub replay_duration_us_count: u64,
    pub replay_drift_detection_count: u64,
}

/// A copy of the counters at one moment.
#[derive(Debug, Clone, Copy, PartialEq, Eq, Structural)]
pub struct MetricsSnapshot {
    pub inserts: u64,
    pub finds: u64,
    pub updates: u64,
    pub deletes: u64,
    pub sync_pushes: u64,
    pub sync_pulls: u64,
    pub local_write_latency_us_total: u64,
    pub local_write_latency_us_count: u64,
    pub replay_duration_us_total: u64,
    pub replay_duration_us_count: u64,
    pub replay_drift_detection_count: u64,
}

/// `a + b` modulo 2^64.
pub open spec fn wrap_add(a: u64, b: u64) -> u64 {
    ((a as int + b as int) % 0x1_0000_0000_0000_0000int) as u64
}

fn add_wrapping(a: u64, b: u64) -> (r: u64)
    ensures
        r == wrap_add(a, b),
{
    if a <= u64::MAX - b {
        a + b
    } else {
        ((a as u128 + b as u128) - 0x1_0000_0000_0000_0000u128) as u64
    }
}

impl Metrics {
    pub open spec fn all_zero(&self) -> bool {
        &&& self.inserts == 0
        &&& self.finds == 0
        &&& self.updates == 0
        &&& self.deletes == 0
        &&& self.sync_pushes == 0
        &&& self.sync_pulls == 0
        &&& self.local_write_latency_us_total == 0
        &&& self.local_write_latency_us_count == 0
        &&& self.replay_duration_us_total == 0
        &&& self.replay_duration_us_count == 0
        &&& self.replay_drift_detection_count == 0
    }

    /// Every counter but the named ones is unchanged.
    pub open spec fn same_except(&self, other: &Metrics, changed: Set<int>) -> bool {
        &&& (!changed.contains(0) ==> self.inserts == other.inserts)
        &&& (!changed.contains(1) ==> self.finds == other.finds)
        &&& (!changed.contains(2) ==> self.updates == other.updates)
        &&& (!changed.contains(3) ==> self.deletes == other.deletes)
        &&& (!changed.contains(4) ==> self.sync_pushes == other.sync_pushes)
        &&& (!changed.contains(5) ==> self.sync_pulls == other.sync_pulls)
        &&& (!changed.contains(6) ==> self.local_write_latency_us_total == other.local_write_latency_us_total)
        &&& (!changed.contains(7) ==> self.local_write_latency_us_count == other.local_write_latency_us_count)
        &&& (!changed.contains(8) ==> self.replay_duration_us_total == other.replay_duration_us_total)
        &&& (!changed.contains(9) ==> self.replay_duration_us_count == other.replay_duration_us_count)
        &&& (!changed.contains(10) ==> self.replay_drift_detection_count == other.replay_drift_detection_count)
    }

    pub fn new() -> (r: Metrics)
        ensures
            r.all_zero(),
    {
        Metrics {
            inserts: 0,
            finds: 0,
            updates: 0,
            deletes: 0,
            sync_pushes: 0,
            sync_pulls: 0,
            local_write_latency_us_total: 0,
            local_write_latency_us_count: 0,
            replay_duration_us_total: 0,
            replay_duration_us_count: 0,
            replay_drift_detection_count: 0,
        }
    }

    pub fn record_insert(&mut self)
        ensures
            final(self).inserts == wrap_add(old(self).inserts, 1),
            final(self).same_except(old(self), set![0]),
    {
        self.inserts = add_wrapping(self.inserts, 1);
    }

    pub fn record_find(&mut self)
        ensures
            final(self).finds == wrap_add(old(self).finds, 1),
            final(self).same_except(old(self), set![1]),
    {
        self.finds = add_wrapping(self.finds, 1);
    }

    pub fn record_update(&mut self)
        ensures
            final(self).updates == wrap_add(old(self).updates, 1),
            final(self).same_except(old(self), set![2]),
    {
        self.updates = add_wrapping(self.updates, 1);
    }

    pub fn record_delete(&mut self)
        ensures
            final(self).deletes == wrap_add(old(self).deletes, 1),
            final(self).same_except(old(self), set![3]),
    {
        self.deletes = add_wrapping(self.deletes, 1);
    }

    pub fn record_sync_push(&mut self, n: usize)
        ensures
            final(self).sync_pushes == wrap_add(old(self).sync_pushes, n as u64),
            final(self).same_except(old(self), set![4]),
    {
        self.sync_pushes = add_wrapping(self.sync_pushes, n as u64);
    }

    pub fn record_sync_pull(&mut self, n: usize)
        ensures
            final(self).sync_pulls == wrap_add(old(self).sync_pulls, n as u64),
            final(self).same_except(old(self), set![5]),
    {
        self.sync_pulls = add_wrapping(self.sync_pulls, n as u64);
    }

    pub fn record_local_write_latency_us(&mut self, us: u64)
        ensures
            final(self).local_write_latency_us_total == wrap_add(old(self).local_write_latency_us_total, us),
            final(self).local_write_latency_us_count == wrap_add(old(self).local_write_latency_us_count, 1),
            final(self).same_except(old(self), set![6, 7]),
    {
        self.local_write_latency_us_total = add_wrapping(self.local_write_latency_us_total, us);
        self.local_write_latency_us_count = add_wrapping(self.local_write_latency_us_count, 1);
    }

    pub fn record_replay_duration_us(&mut self, us: u64)
        ensures
            final(self).replay_duration_us_total == wrap_add(old(self).replay_duration_us_total, us),
            final(self).replay_duration_us_count == wrap_add(old(self).replay_duration_us_count, 1),
            final(self).same_except(old(self), set![8, 9]),
    {
        self.replay_duration_us_total = add_wrapping(self.replay_duration_us_total, us);
        self.replay_duration_us_count = add_wrapping(self.replay_duration_us_count, 1);
    }

    pub fn record_replay_drift_detection(&mut self)
        ensures
            final(self).replay_drift_detection_count == wrap_add(old(self).replay_drift_detection_count, 1),
            final(self).same_except(old(self), set![10]),
    {
        self.replay_drift_detection_count = add_wrapping(self.replay_drift_detection_count, 1);
    }

    pub fn snapshot(&self) -> (r: MetricsSnapshot)
        ensures
            r.inserts == self.inserts,
            r.finds == self.finds,
            r.updates == self.updates,
            r.deletes == self.deletes,
            r.sync_pushes == self.sync_pushes,
            r.sync_pulls == self.sync_pulls,
            r.local_write_latency_us_total == self.local_write_latency_us_total,
            r.local_write_latency_us_count == self.local_write_latency_us_count,
            r.replay_duration_us_total == self.replay_duration_us_total,
            r.replay_duration_us_count == self.replay_duration_us_count,
            r.replay_drift_detection_count == self.replay_drift_detection_count,
    {
        MetricsSnapshot {
            inserts: self.inserts,
            finds: self.finds,
            updates: self.updates,
            deletes: self.deletes,
            sync_pushes: self.sync_pushes,
            sync_pulls: self.sync_pulls,
            local_write_latency_us_total: self.local_write_latency_us_total,
            local_write_latency_us_count: self.local_write_latency_us_count,
            replay_duration_us_total: self.replay_duration_us_total,
            replay_duration_us_count: self.replay_duration_us_count,
            replay_drift_detection_count: self.replay_drift_detection_count,
        }
    }
}

impl Default for Metrics {
    fn default() -> (r: Metrics)
        ensures
            r.all_zero(),
    {
        Metrics::new()
    }
}

} // verus!
