use crate::stats::Statistics;
use crate::trace::StackTrace;
use vstd::prelude::*;

verus! {

/// The shared state of the service: the append-only trace log, the
/// parallel sequence of batch timestamps it was ingested under, and the
/// current statistics snapshot. One writer (the aggregator worker) and
/// many readers (the query layer) share it behind a single lock, which
/// lives outside this crate; every function here works on the locked
/// value.
#[derive(Debug)]
pub struct Store {
    pub traces: Vec<StackTrace>,
    pub trace_ms: Vec<u64>,
    pub stats: Statistics,
}

impl Store {
    /// The store's invariant: the timestamp index runs parallel to the
    /// trace log and is non-decreasing (which range queries rely on for
    /// binary search), and the statistics series have equal lengths.
    pub open spec fn wf(&self) -> bool {
        &&& self.trace_ms@.len() == self.traces@.len()
        &&& forall|i: int, j: int|
            0 <= i <= j < self.trace_ms@.len() ==> self.trace_ms@[i] <= self.trace_ms@[j]
        &&& self.stats.wf()
    }

    /// A fresh store: no traces, empty series, and a running target
    /// process described by its command line, version, and configured
    /// sampling interval.
    pub fn new(python_command: String, version: String, sampling_rate: u64) -> (s: Store)
        ensures
            s.wf(),
            s.traces@.len() == 0,
            s.trace_ms@.len() == 0,
            s.stats.gil@.len() == 0,
            s.stats.threads@.len() == 0,
            s.stats.python_command == python_command,
            s.stats.version == version,
            s.stats.running == true,
            s.stats.sampling_rate == sampling_rate,
    {
        Store {
            traces: Vec::new(),
            trace_ms: Vec::new(),
            stats: Statistics {
                gil: Vec::new(),
                threads: Vec::new(),
                python_command,
                version,
                running: true,
                sampling_rate,
            },
        }
    }

    /// Record that the target process has exited; everything else is
    /// left untouched.
    pub fn mark_exited(&mut self)
        ensures
            final(self).stats.running == false,
            final(self).stats.gil == old(self).stats.gil,
            final(self).stats.threads == old(self).stats.threads,
            final(self).stats.python_command == old(self).stats.python_command,
            final(self).stats.version == old(self).stats.version,
            final(self).stats.sampling_rate == old(self).stats.sampling_rate,
            final(self).traces == old(self).traces,
            final(self).trace_ms == old(self).trace_ms,
            old(self).wf() ==> final(self).wf(),
    {
        self.stats.running = false;
    }

    /// The number of traces stored so far.
    pub fn trace_count(&self) -> (n: usize)
        ensures
            n == self.traces@.len(),
    {
        self.traces.len()
    }

    /// The current statistics snapshot.
    pub fn stats_snapshot(&self) -> (r: &Statistics)
        ensures
            r == &self.stats,
    {
        &self.stats
    }

    /// The exact exec mirror of `wf`, so an unverified caller can test
    /// the store's invariant before a query that relies on it.
    pub fn check_wf(&self) -> (b: bool)
        ensures
            b == self.wf(),
    {
        let n = self.trace_ms.len();
        if n != self.traces.len() {
            return false;
        }
        let mut i: usize = 0;
        while i + 1 < n
            invariant
                n == self.trace_ms@.len(),
                n > 0 ==> i < n,
                n == 0 ==> i == 0,
                forall|a: int, b: int|
                    0 <= a <= b <= i && b < n ==> self.trace_ms@[a] <= self.trace_ms@[b],
            decreases n - i,
        {
            if self.trace_ms[i] > self.trace_ms[i + 1] {
                return false;
            }
            proof {
                assert forall|a: int, b: int|
                    0 <= a <= b <= i + 1 && b < n implies self.trace_ms@[a]
                    <= self.trace_ms@[b] by {
                    if b == i + 1 && a <= i {
                        assert(self.trace_ms@[a] <= self.trace_ms@[i as int]);
                    }
                }
            }
            i = i + 1;
        }
        let m = self.stats.threads.len();
        let mut j: usize = 0;
        while j < m
            invariant
                m == self.stats.threads@.len(),
                j <= m,
                forall|k: int|
                    0 <= k < j ==> (#[trigger] self.stats.threads@[k]).series@.len()
                        == self.stats.gil@.len(),
            decreases m - j,
        {
            if self.stats.threads[j].series.len() != self.stats.gil.len() {
                return false;
            }
            j = j + 1;
        }
        let mut a: usize = 0;
        while a < m
            invariant
                m == self.stats.threads@.len(),
                a <= m,
                forall|x: int, y: int|
                    0 <= x < y < m && x < a ==> (#[trigger] self.stats.threads@[x]).thread_id != (
                    #[trigger] self.stats.threads@[y]).thread_id,
            decreases m - a,
        {
            let mut b2: usize = a + 1;
            while b2 < m
                invariant
                    m == self.stats.threads@.len(),
                    a < m,
                    a < b2 <= m,
                    forall|y: int|
                        a < y < b2 ==> self.stats.threads@[a as int].thread_id != (
                        #[trigger] self.stats.threads@[y]).thread_id,
                decreases m - b2,
            {
                if self.stats.threads[a].thread_id == self.stats.threads[b2].thread_id {
                    return false;
                }
                b2 = b2 + 1;
            }
            a = a + 1;
        }
        true
    }
}

} // verus!
