use vstd::prelude::*;

verus! {

/// One entry of a 100ms-bucket time series, stored exactly as the online
/// mean of the bucket: `num` observations seen out of `den` batches.
#[derive(Clone, Copy, Debug, PartialEq, Eq, Structural)]
pub struct Fraction {
    pub num: u64,
    pub den: u64,
}

/// The activity series of one thread, one entry per flushed 100ms bucket.
#[derive(Debug)]
pub struct ThreadSeries {
    pub thread_id: u64,
    pub series: Vec<Fraction>,
}

/// Process metadata plus the two bucketed time series: global-lock
/// occupancy and per-thread activity. Threads are registered lazily, on
/// the first trace that mentions them.
#[derive(Debug)]
pub struct Statistics {
    pub gil: Vec<Fraction>,
    pub threads: Vec<ThreadSeries>,
    pub python_command: String,
    pub version: String,
    pub running: bool,
    pub sampling_rate: u64,
}

impl Statistics {
    /// The registered thread identifiers, in registration order.
    pub open spec fn thread_ids(&self) -> Seq<u64> {
        Seq::new(self.threads@.len(), |i: int| self.threads@[i].thread_id)
    }

    /// Every per-thread series is exactly as long as the global GIL
    /// series, and no thread is registered twice.
    pub open spec fn wf(&self) -> bool {
        &&& forall|i: int|
            0 <= i < self.threads@.len() ==> (#[trigger] self.threads@[i]).series@.len()
                == self.gil@.len()
        &&& forall|i: int, j: int|
            0 <= i < j < self.threads@.len() ==> (#[trigger] self.threads@[i]).thread_id != (
            #[trigger] self.threads@[j]).thread_id
    }
}

} // verus!
