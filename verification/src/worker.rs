use crate::stats::{Fraction, Statistics, ThreadSeries};
use crate::store::Store;
use crate::trace::StackTrace;
use vstd::prelude::*;

verus! {

/// Width of one statistics bucket, in milliseconds of elapsed time.
pub const BUCKET_MS: u64 = 100;

/// What the ingest queue carries: a batch of traces tagged with its
/// elapsed time in milliseconds, or the shutdown signal.
pub enum Message {
    Batch(Vec<StackTrace>, u64),
    Shutdown,
}

/// How many traces in `traces` held the global interpreter lock.
pub open spec fn count_gil(traces: Seq<StackTrace>) -> nat
    decreases traces.len(),
{
    if traces.len() == 0 {
        0
    } else {
        count_gil(traces.drop_last()) + if traces.last().owns_gil {
            1nat
        } else {
            0nat
        }
    }
}

/// How many traces in `traces` show thread `tid` actively running.
pub open spec fn count_active(traces: Seq<StackTrace>, tid: u64) -> nat
    decreases traces.len(),
{
    if traces.len() == 0 {
        0
    } else {
        count_active(traces.drop_last(), tid) + if traces.last().active && traces.last().thread_id
            == tid {
            1nat
        } else {
            0nat
        }
    }
}

/// The thread identifiers known after registering every trace of
/// `traces`, in order of first observation, starting from `ids`.
pub open spec fn register_order(ids: Seq<u64>, traces: Seq<StackTrace>) -> Seq<u64>
    decreases traces.len(),
{
    if traces.len() == 0 {
        ids
    } else {
        let prev = register_order(ids, traces.drop_last());
        if prev.contains(traces.last().thread_id) {
            prev
        } else {
            prev.push(traces.last().thread_id)
        }
    }
}

/// The series entry flushed for a bucket: `num` observations over
/// `batches` batches. A bucket that saw no batch flushes as 0 out of 1.
pub open spec fn bucket_fraction(num: u64, batches: u64) -> Fraction {
    Fraction { num, den: if batches == 0 { 1u64 } else { batches } }
}

/// The aggregator worker's in-memory counters between bucket flushes:
/// how many traces held the GIL, how many batches arrived, the elapsed
/// time at which the next bucket flush is due, and one activity counter
/// per registered thread (parallel to `Statistics::threads`).
pub struct Worker {
    pub gil_count: u64,
    pub batches: u64,
    pub threshold: u64,
    pub active: Vec<u64>,
}

/// A bucket counter derived from one batch never exceeds the batch's size.
pub proof fn lemma_count_gil_le(traces: Seq<StackTrace>)
    ensures
        count_gil(traces) <= traces.len(),
    decreases traces.len(),
{
    if traces.len() > 0 {
        lemma_count_gil_le(traces.drop_last());
    }
}

pub proof fn lemma_count_active_le(traces: Seq<StackTrace>, tid: u64)
    ensures
        count_active(traces, tid) <= traces.len(),
    decreases traces.len(),
{
    if traces.len() > 0 {
        lemma_count_active_le(traces.drop_last(), tid);
    }
}

/// After registering a batch, every thread that occurs in it is known.
pub proof fn lemma_register_contains(ids: Seq<u64>, traces: Seq<StackTrace>, k: int)
    requires
        0 <= k < traces.len(),
    ensures
        register_order(ids, traces).contains(traces[k].thread_id),
    decreases traces.len(),
{
    let prev = register_order(ids, traces.drop_last());
    let last_tid = traces.last().thread_id;
    if k == traces.len() - 1 {
        if !prev.contains(last_tid) {
            assert(prev.push(last_tid)[prev.len() as int] == last_tid);
        }
    } else {
        lemma_register_contains(ids, traces.drop_last(), k);
        assert(traces.drop_last()[k] == traces[k]);
        let tid = traces[k].thread_id;
        let w = choose|w: int| 0 <= w < prev.len() && prev[w] == tid;
        if !prev.contains(last_tid) {
            assert(prev.push(last_tid)[w] == tid);
        }
    }
}

impl Worker {
    /// The worker's counters run parallel to the store's thread series.
    pub open spec fn wf(&self, store: Store) -> bool {
        self.active@.len() == store.stats.threads@.len()
    }

    /// Machine limits under which a batch can be counted without any
    /// counter or timestamp arithmetic overflowing.
    pub open spec fn batch_fits(&self, store: Store, traces: Seq<StackTrace>, ts: u64) -> bool {
        &&& store.trace_ms@.len() > 0 ==> ts >= store.trace_ms@.last()
        &&& ts <= u64::MAX - BUCKET_MS
        &&& self.batches < u64::MAX
        &&& self.gil_count + traces.len() <= u64::MAX
        &&& forall|i: int|
            0 <= i < self.active@.len() ==> (#[trigger] self.active@[i]) + traces.len()
                <= u64::MAX
    }

    /// A fresh worker: all counters zero, first flush due at the end of
    /// the first bucket.
    pub fn new() -> (w: Worker)
        ensures
            w.gil_count == 0,
            w.batches == 0,
            w.threshold == BUCKET_MS,
            w.active@.len() == 0,
    {
        Worker { gil_count: 0, batches: 0, threshold: BUCKET_MS, active: Vec::new() }
    }

    /// The exact exec mirror of `batch_fits`, so a caller that cannot
    /// evaluate the ghost condition can test it before calling `step`.
    pub fn accepts(&self, store: &Store, traces: &Vec<StackTrace>, ts: u64) -> (b: bool)
        ensures
            b == self.batch_fits(*store, traces@, ts),
    {
        let n = traces.len() as u64;
        let mut ok: bool = ts <= u64::MAX - BUCKET_MS && self.batches < u64::MAX
            && self.gil_count <= u64::MAX - n;
        if store.trace_ms.len() > 0 {
            ok = ok && ts >= store.trace_ms[store.trace_ms.len() - 1];
        }
        let mut i: usize = 0;
        while i < self.active.len()
            invariant
                i <= self.active@.len(),
                n as int == traces@.len(),
                ok == ({
                    &&& store.trace_ms@.len() > 0 ==> ts >= store.trace_ms@.last()
                    &&& ts <= u64::MAX - BUCKET_MS
                    &&& self.batches < u64::MAX
                    &&& self.gil_count + traces@.len() <= u64::MAX
                    &&& forall|j: int|
                        0 <= j < i ==> (#[trigger] self.active@[j]) + traces@.len() <= u64::MAX
                }),
            decreases self.active@.len() - i,
        {
            ok = ok && self.active[i] <= u64::MAX - n;
            i = i + 1;
        }
        ok
    }

    /// The series entry for one flushed bucket.
    fn bucket_entry(num: u64, batches: u64) -> (f: Fraction)
        ensures
            f == bucket_fraction(num, batches),
    {
        Fraction { num, den: if batches == 0 { 1 } else { batches } }
    }

    /// A back-filled series of `n` zero entries.
    fn zero_series(n: usize) -> (v: Vec<Fraction>)
        ensures
            v@ == Seq::new(n as nat, |k: int| Fraction { num: 0, den: 1 }),
    {
        let mut v: Vec<Fraction> = Vec::new();
        let mut i: usize = 0;
        while i < n
            invariant
                i <= n,
                v@ == Seq::new(i as nat, |k: int| Fraction { num: 0, den: 1 }),
            decreases n - i,
        {
            v.push(Fraction { num: 0, den: 1 });
            proof {
                assert(v@ =~= Seq::new((i + 1) as nat, |k: int| Fraction { num: 0, den: 1 }));
            }
            i = i + 1;
        }
        v
    }

    /// The index at which `tid`'s series is registered, if it is.
    fn find_thread(stats: &Statistics, tid: u64) -> (r: Option<usize>)
        ensures
            match r {
                Option::Some(i) => i < stats.threads@.len() && stats.threads@[i as int].thread_id
                    == tid,
                Option::None => !stats.thread_ids().contains(tid),
            },
    {
        let mut i: usize = 0;
        while i < stats.threads.len()
            invariant
                i <= stats.threads@.len(),
                forall|k: int| 0 <= k < i ==> (#[trigger] stats.threads@[k]).thread_id != tid,
            decreases stats.threads@.len() - i,
        {
            if stats.threads[i].thread_id == tid {
                return Option::Some(i);
            }
            i = i + 1;
        }
        Option::None
    }

    /// Flush one bucket: move every counter into its series as the
    /// bucket's online mean and reset the counters. The flush threshold
    /// is left for the caller to advance.
    fn flush(&mut self, stats: &mut Statistics)
        requires
            old(stats).wf(),
            old(self).active@.len() == old(stats).threads@.len(),
        ensures
            final(stats).wf(),
            final(self).active@.len() == final(stats).threads@.len(),
            final(stats).gil@ == old(stats).gil@.push(
                bucket_fraction(old(self).gil_count, old(self).batches),
            ),
            final(stats).threads@.len() == old(stats).threads@.len(),
            forall|i: int|
                0 <= i < old(stats).threads@.len() ==> {
                    &&& (#[trigger] final(stats).threads@[i]).thread_id
                        == old(stats).threads@[i].thread_id
                    &&& final(stats).threads@[i].series@ == old(stats).threads@[i].series@.push(
                        bucket_fraction(old(self).active@[i], old(self).batches),
                    )
                },
            final(self).active@.len() == old(self).active@.len(),
            forall|i: int| 0 <= i < final(self).active@.len() ==> final(self).active@[i] == 0,
            final(self).gil_count == 0,
            final(self).batches == 0,
            final(self).threshold == old(self).threshold,
            final(stats).python_command == old(stats).python_command,
            final(stats).version == old(stats).version,
            final(stats).running == old(stats).running,
            final(stats).sampling_rate == old(stats).sampling_rate,
    {
        let mut i: usize = 0;
        while i < stats.threads.len()
            invariant
                old(stats).wf(),
                self.active@.len() == old(self).active@.len(),
                old(self).active@.len() == old(stats).threads@.len(),
                i <= stats.threads@.len(),
                stats.threads@.len() == old(stats).threads@.len(),
                self.gil_count == old(self).gil_count,
                self.batches == old(self).batches,
                self.threshold == old(self).threshold,
                stats.gil == old(stats).gil,
                stats.python_command == old(stats).python_command,
                stats.version == old(stats).version,
                stats.running == old(stats).running,
                stats.sampling_rate == old(stats).sampling_rate,
                forall|k: int|
                    0 <= k < i ==> {
                        &&& (#[trigger] stats.threads@[k]).thread_id
                            == old(stats).threads@[k].thread_id
                        &&& stats.threads@[k].series@ == old(stats).threads@[k].series@.push(
                            bucket_fraction(old(self).active@[k], old(self).batches),
                        )
                    },
                forall|k: int|
                    i <= k < stats.threads@.len() ==> #[trigger] stats.threads@[k] == old(stats).threads@[k],
                forall|k: int| 0 <= k < i ==> #[trigger] self.active@[k] == 0,
                forall|k: int|
                    i <= k < self.active@.len() ==> #[trigger] self.active@[k] == old(self).active@[k],
            decreases stats.threads@.len() - i,
        {
            let ghost snap = stats.threads@;
            let entry = Self::bucket_entry(self.active[i], self.batches);
            let mut t = stats.threads.remove(i);
            t.series.push(entry);
            stats.threads.insert(i, t);
            self.active[i] = 0;
            proof {
                assert(stats.threads@ =~= snap.update(i as int, stats.threads@[i as int]));
            }
            i = i + 1;
        }
        let g = Self::bucket_entry(self.gil_count, self.batches);
        stats.gil.push(g);
        self.gil_count = 0;
        self.batches = 0;
    }

    /// Register every thread of the batch that has not been seen before:
    /// a new series, back-filled with zeros to the current bucket count,
    /// and a fresh activity counter.
    fn register_all(&mut self, stats: &mut Statistics, traces: &Vec<StackTrace>)
        requires
            old(stats).wf(),
            old(self).active@.len() == old(stats).threads@.len(),
        ensures
            final(stats).wf(),
            final(self).active@.len() == final(stats).threads@.len(),
            final(stats).thread_ids() == register_order(old(stats).thread_ids(), traces@),
            old(stats).threads@.len() <= final(stats).threads@.len(),
            forall|i: int|
                0 <= i < old(stats).threads@.len() ==> #[trigger] final(stats).threads@[i] == old(stats).threads@[i],
            forall|i: int|
                old(stats).threads@.len() <= i < final(stats).threads@.len() ==> (
                #[trigger] final(stats).threads@[i]).series@ == Seq::new(
                    old(stats).gil@.len(),
                    |k: int| Fraction { num: 0, den: 1 },
                ),
            forall|i: int|
                0 <= i < old(self).active@.len() ==> #[trigger] final(self).active@[i] == old(self).active@[i],
            forall|i: int|
                old(self).active@.len() <= i < final(self).active@.len() ==> #[trigger] final(self).active@[i] == 0,
            final(stats).gil == old(stats).gil,
            final(stats).python_command == old(stats).python_command,
            final(stats).version == old(stats).version,
            final(stats).running == old(stats).running,
            final(stats).sampling_rate == old(stats).sampling_rate,
            final(self).gil_count == old(self).gil_count,
            final(self).batches == old(self).batches,
            final(self).threshold == old(self).threshold,
    {
        let ghost ids0 = old(stats).thread_ids();
        let mut j: usize = 0;
        while j < traces.len()
            invariant
                stats.wf(),
                self.active@.len() == stats.threads@.len(),
                j <= traces@.len(),
                stats.thread_ids() == register_order(ids0, traces@.take(j as int)),
                old(stats).threads@.len() <= stats.threads@.len(),
                forall|i: int|
                    0 <= i < old(stats).threads@.len() ==> #[trigger] stats.threads@[i] == old(stats).threads@[i],
                forall|i: int|
                    old(stats).threads@.len() <= i < stats.threads@.len() ==> (
                    #[trigger] stats.threads@[i]).series@ == Seq::new(
                        old(stats).gil@.len(),
                        |k: int| Fraction { num: 0, den: 1 },
                    ),
                forall|i: int|
                    0 <= i < old(self).active@.len() ==> #[trigger] self.active@[i] == old(self).active@[i],
                forall|i: int|
                    old(self).active@.len() <= i < self.active@.len() ==> #[trigger] self.active@[i]
                        == 0,
                old(self).active@.len() == old(stats).threads@.len(),
                ids0 == old(stats).thread_ids(),
                stats.gil == old(stats).gil,
                stats.python_command == old(stats).python_command,
                stats.version == old(stats).version,
                stats.running == old(stats).running,
                stats.sampling_rate == old(stats).sampling_rate,
                self.gil_count == old(self).gil_count,
                self.batches == old(self).batches,
                self.threshold == old(self).threshold,
            decreases traces@.len() - j,
        {
            let tid = traces[j].thread_id;
            proof {
                assert(traces@.take(j + 1).drop_last() =~= traces@.take(j as int));
                assert(traces@.take(j + 1).last() == traces@[j as int]);
            }
            match Self::find_thread(stats, tid) {
                Option::Some(i) => {
                    proof {
                        assert(stats.thread_ids()[i as int] == tid);
                        assert(stats.thread_ids().contains(tid));
                    }
                },
                Option::None => {
                    let series = Self::zero_series(stats.gil.len());
                    let ghost pre = stats.thread_ids();
                    let ghost snap_len = stats.threads@.len();
                    stats.threads.push(ThreadSeries { thread_id: tid, series });
                    self.active.push(0);
                    proof {
                        assert(stats.thread_ids() =~= pre.push(tid));
                        assert forall|i: int| 0 <= i < snap_len implies (
                        #[trigger] stats.threads@[i]).thread_id != tid by {
                            assert(pre[i] == stats.threads@[i].thread_id);
                        }
                    }
                },
            }
            j = j + 1;
        }
        proof {
            assert(traces@.take(traces@.len() as int) =~= traces@);
        }
    }

    /// Fold one batch into the bucket counters: the global GIL counter
    /// and, for each registered thread, its activity counter.
    fn count_all(&mut self, stats: &Statistics, traces: &Vec<StackTrace>)
        requires
            stats.wf(),
            old(self).active@.len() == stats.threads@.len(),
            old(self).gil_count + traces@.len() <= u64::MAX,
            forall|i: int|
                0 <= i < old(self).active@.len() ==> (#[trigger] old(self).active@[i])
                    + traces@.len() <= u64::MAX,
            forall|k: int|
                0 <= k < traces@.len() ==> stats.thread_ids().contains(
                    (#[trigger] traces@[k]).thread_id,
                ),
        ensures
            final(self).active@.len() == old(self).active@.len(),
            final(self).gil_count == old(self).gil_count + count_gil(traces@),
            forall|i: int|
                0 <= i < final(self).active@.len() ==> #[trigger] final(self).active@[i] == old(self).active@[i] + count_active(traces@, stats.threads@[i].thread_id),
            final(self).batches == old(self).batches,
            final(self).threshold == old(self).threshold,
    {
        let mut j: usize = 0;
        while j < traces.len()
            invariant
                stats.wf(),
                j <= traces@.len(),
                self.active@.len() == stats.threads@.len(),
                old(self).active@.len() == stats.threads@.len(),
                old(self).gil_count + traces@.len() <= u64::MAX,
                forall|i: int|
                    0 <= i < old(self).active@.len() ==> (#[trigger] old(self).active@[i])
                        + traces@.len() <= u64::MAX,
                forall|k: int|
                    0 <= k < traces@.len() ==> stats.thread_ids().contains(
                        (#[trigger] traces@[k]).thread_id,
                    ),
                self.gil_count == old(self).gil_count + count_gil(traces@.take(j as int)),
                forall|i: int|
                    0 <= i < self.active@.len() ==> #[trigger] self.active@[i] == old(self).active@[i] + count_active(
                        traces@.take(j as int),
                        stats.threads@[i].thread_id,
                    ),
                self.batches == old(self).batches,
                self.threshold == old(self).threshold,
            decreases traces@.len() - j,
        {
            proof {
                assert(traces@.take(j + 1).drop_last() =~= traces@.take(j as int));
                assert(traces@.take(j + 1).last() == traces@[j as int]);
                lemma_count_gil_le(traces@.take(j as int));
            }
            if traces[j].owns_gil {
                self.gil_count = self.gil_count + 1;
            }
            if traces[j].active {
                match Self::find_thread(stats, traces[j].thread_id) {
                    Option::Some(i) => {
                        proof {
                            lemma_count_active_le(
                                traces@.take(j as int),
                                stats.threads@[i as int].thread_id,
                            );
                        }
                        let cur = self.active[i];
                        self.active[i] = cur + 1;
                    },
                    Option::None => {
                        proof {
                            assert(false);
                        }
                    },
                }
            }
            j = j + 1;
        }
        proof {
            assert(traces@.take(traces@.len() as int) =~= traces@);
        }
    }

    /// Consume one queue message. A batch is folded into the store:
    /// first, if the batch's elapsed time has reached the running
    /// threshold, the previous bucket is flushed and the threshold
    /// advances by exactly one bucket width; then every thread of the
    /// batch is registered, the bucket counters absorb the batch, the
    /// traces and their shared timestamp are appended to the log, and the
    /// batch counter is incremented. A shutdown message changes nothing
    /// and tells the caller to stop consuming.
    pub fn step(&mut self, store: &mut Store, msg: Message) -> (cont: bool)
        requires
            old(store).wf(),
            old(self).wf(*old(store)),
            (match msg {
                Message::Batch(traces, ts) => old(self).batch_fits(*old(store), traces@, ts),
                Message::Shutdown => true,
            }),
        ensures
            final(store).wf(),
            final(self).wf(*final(store)),
            (match msg {
                Message::Shutdown => {
                    &&& !cont
                    &&& *final(store) == *old(store)
                    &&& *final(self) == *old(self)
                },
                Message::Batch(traces, ts) => {
                    let flushed = ts >= old(self).threshold;
                    let gil_after = if flushed {
                        old(store).stats.gil@.push(
                            bucket_fraction(old(self).gil_count, old(self).batches),
                        )
                    } else {
                        old(store).stats.gil@
                    };
                    &&& cont
                    &&& final(store).traces@ == old(store).traces@ + traces@
                    &&& final(store).trace_ms@ == old(store).trace_ms@ + Seq::new(
                        traces@.len(),
                        |i: int| ts,
                    )
                    &&& final(store).stats.gil@ == gil_after
                    &&& final(store).stats.thread_ids() == register_order(
                        old(store).stats.thread_ids(),
                        traces@,
                    )
                    &&& forall|i: int|
                        0 <= i < old(store).stats.threads@.len() ==> {
                            &&& (#[trigger] final(store).stats.threads@[i]).thread_id == old(store).stats.threads@[i].thread_id
                            &&& final(store).stats.threads@[i].series@ == (if flushed {
                                old(store).stats.threads@[i].series@.push(
                                    bucket_fraction(old(self).active@[i], old(self).batches),
                                )
                            } else {
                                old(store).stats.threads@[i].series@
                            })
                        }
                    &&& forall|i: int|
                        old(store).stats.threads@.len() <= i < final(store).stats.threads@.len()
                            ==> (#[trigger] final(store).stats.threads@[i]).series@ == Seq::new(
                            gil_after.len(),
                            |k: int| Fraction { num: 0, den: 1 },
                        )
                    &&& forall|i: int|
                        0 <= i < old(store).stats.threads@.len() ==> (#[trigger] final(self).active@[i]) as int == (if flushed {
                            0int
                        } else {
                            old(self).active@[i] as int
                        }) + count_active(traces@, final(store).stats.threads@[i].thread_id)
                    &&& forall|i: int|
                        old(store).stats.threads@.len() <= i < final(self).active@.len() ==> (
                        #[trigger] final(self).active@[i]) as int == count_active(
                            traces@,
                            final(store).stats.threads@[i].thread_id,
                        )
                    &&& final(self).gil_count as int == (if flushed {
                        0int
                    } else {
                        old(self).gil_count as int
                    }) + count_gil(traces@)
                    &&& final(self).batches as int == (if flushed {
                        1int
                    } else {
                        old(self).batches + 1
                    })
                    &&& final(self).threshold == old(self).threshold + (if flushed {
                        BUCKET_MS as int
                    } else {
                        0int
                    })
                    &&& final(store).stats.python_command == old(store).stats.python_command
                    &&& final(store).stats.version == old(store).stats.version
                    &&& final(store).stats.running == old(store).stats.running
                    &&& final(store).stats.sampling_rate == old(store).stats.sampling_rate
                },
            }),
    {
        match msg {
            Message::Shutdown => false,
            Message::Batch(traces, ts) => {
                let mut traces = traces;
                if ts >= self.threshold {
                    self.flush(&mut store.stats);
                    self.threshold = self.threshold + BUCKET_MS;
                    proof {
                        assert(store.stats.thread_ids() =~= old(store).stats.thread_ids());
                    }
                }
                self.register_all(&mut store.stats, &traces);
                proof {
                    assert forall|k: int| 0 <= k < traces@.len() implies
                        store.stats.thread_ids().contains(
                        (#[trigger] traces@[k]).thread_id,
                    ) by {
                        lemma_register_contains(old(store).stats.thread_ids(), traces@, k);
                    }
                }
                self.count_all(&store.stats, &traces);
                let n = traces.len();
                let ghost ms0 = store.trace_ms@;
                let ghost stats_snap = store.stats;
                let mut k: usize = 0;
                while k < n
                    invariant
                        k <= n,
                        store.trace_ms@ == ms0 + Seq::new(k as nat, |i: int| ts),
                        store.traces@ == old(store).traces@,
                        store.stats == stats_snap,
                    decreases n - k,
                {
                    store.trace_ms.push(ts);
                    proof {
                        assert(store.trace_ms@ =~= ms0 + Seq::new((k + 1) as nat, |i: int| ts));
                    }
                    k = k + 1;
                }
                store.traces.append(&mut traces);
                self.batches = self.batches + 1;
                proof {
                    assert(store.trace_ms@.len() == store.traces@.len());
                }
                true
            },
        }
    }
}

} // verus!
