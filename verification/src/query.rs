use crate::flame::{aggregate_traces, flame_tree, node_data, wf_tree, FrameNode};
use crate::store::Store;
use crate::trace::StackTrace;
use vstd::prelude::*;

verus! {

/// The request-time failure of the query layer: parameters out of range.
#[derive(Clone, Copy, Debug, PartialEq, Eq, Structural)]
pub enum QueryError {
    InvalidRequest,
}

/// The timestamp index is non-decreasing.
pub open spec fn sorted(ms: Seq<u64>) -> bool {
    forall|i: int, j: int| 0 <= i <= j < ms.len() ==> ms[i] <= ms[j]
}

/// How many timestamps are at or before `t`.
pub open spec fn count_le(ms: Seq<u64>, t: u64) -> int
    decreases ms.len(),
{
    if ms.len() == 0 {
        0
    } else {
        count_le(ms.drop_last(), t) + if ms.last() <= t {
            1int
        } else {
            0int
        }
    }
}

/// The index a requested time resolves to: the latest recorded sample at
/// or before it, clamped to the first entry when the time lies before
/// every sample (and 0 on an empty index, which a later bounds check
/// rejects).
pub open spec fn resolve_spec(ms: Seq<u64>, t: u64) -> int {
    if count_le(ms, t) == 0 {
        0
    } else {
        count_le(ms, t) - 1
    }
}

/// On a sorted index, the entries at or before `t` form a prefix.
pub proof fn lemma_count_le_props(ms: Seq<u64>, t: u64)
    requires
        sorted(ms),
    ensures
        0 <= count_le(ms, t) <= ms.len(),
        forall|i: int| 0 <= i < count_le(ms, t) ==> ms[i] <= t,
        forall|i: int| count_le(ms, t) <= i < ms.len() ==> ms[i] > t,
    decreases ms.len(),
{
    if ms.len() > 0 {
        let head = ms.drop_last();
        assert(sorted(head));
        lemma_count_le_props(head, t);
        let c = count_le(head, t);
        if ms.last() <= t {
            assert forall|i: int| 0 <= i < c + 1 implies ms[i] <= t by {
                if i < c {
                    assert(head[i] == ms[i]);
                } else {
                    assert(ms[i] == ms.last());
                }
            }
            assert forall|i: int| c + 1 <= i < ms.len() implies ms[i] > t by {
                assert(head[i] == ms[i]);
            }
        } else {
            assert forall|i: int| 0 <= i < c implies ms[i] <= t by {
                assert(head[i] == ms[i]);
            }
            assert forall|i: int| c <= i < ms.len() implies ms[i] > t by {
                if i < ms.len() - 1 {
                    assert(head[i] == ms[i]);
                    assert(ms[i] >= ms[c]);
                }
            }
        }
    }
}

/// A boundary with "at or before" on its left and "after" on its right
/// is the count of entries at or before.
pub proof fn lemma_count_le_boundary(ms: Seq<u64>, t: u64, c: int)
    requires
        sorted(ms),
        0 <= c <= ms.len(),
        forall|i: int| 0 <= i < c ==> ms[i] <= t,
        forall|i: int| c <= i < ms.len() ==> ms[i] > t,
    ensures
        count_le(ms, t) == c,
{
    lemma_count_le_props(ms, t);
    let c0 = count_le(ms, t);
    if c0 < c {
        assert(ms[c0] <= t);
        assert(ms[c0] > t);
    }
    if c0 > c {
        assert(ms[c] <= t);
        assert(ms[c] > t);
    }
}

pub proof fn lemma_count_le_mono(ms: Seq<u64>, t1: u64, t2: u64)
    requires
        t1 <= t2,
    ensures
        count_le(ms, t1) <= count_le(ms, t2),
    decreases ms.len(),
{
    if ms.len() > 0 {
        lemma_count_le_mono(ms.drop_last(), t1, t2);
    }
}

/// Boundary resolution: a time equal to a stored timestamp resolves to
/// that timestamp's index; a time strictly between two stored timestamps
/// resolves to the earlier one's index; a time before every stored
/// timestamp resolves to index 0.
pub proof fn lemma_resolve_boundaries(ms: Seq<u64>, t: u64, i: int)
    requires
        sorted(ms),
    ensures
        (0 <= i < ms.len() && ms[i] == t && (i + 1 == ms.len() || ms[i + 1] > t)) ==> resolve_spec(
            ms,
            t,
        ) == i,
        (0 <= i && i + 1 < ms.len() && ms[i] < t && t < ms[i + 1]) ==> resolve_spec(ms, t) == i,
        (ms.len() > 0 && t < ms[0]) ==> resolve_spec(ms, t) == 0,
{
    if 0 <= i < ms.len() && ms[i] <= t && (i + 1 == ms.len() || ms[i + 1] > t) {
        assert forall|j: int| 0 <= j < i + 1 implies ms[j] <= t by {
            assert(ms[j] <= ms[i]);
        }
        assert forall|j: int| i + 1 <= j < ms.len() implies ms[j] > t by {
            assert(ms[j] >= ms[i + 1]);
        }
        lemma_count_le_boundary(ms, t, i + 1);
    }
    if 0 <= i && i + 1 < ms.len() && ms[i] < t && t < ms[i + 1] {
        assert forall|j: int| 0 <= j < i + 1 implies ms[j] <= t by {
            assert(ms[j] <= ms[i]);
        }
        assert forall|j: int| i + 1 <= j < ms.len() implies ms[j] > t by {
            assert(ms[j] >= ms[i + 1]);
        }
        lemma_count_le_boundary(ms, t, i + 1);
    }
    if ms.len() > 0 && t < ms[0] {
        assert forall|j: int| 0 <= j < ms.len() implies ms[j] > t by {
            assert(ms[j] >= ms[0]);
        }
        lemma_count_le_boundary(ms, t, 0);
    }
}

/// Range queries over adjacent time boundaries partition the trace log:
/// the shared boundary resolves to the same index in both queries, so the
/// two index windows meet there with neither gap nor overlap.
pub proof fn lemma_range_partition(
    traces: Seq<StackTrace>,
    ms: Seq<u64>,
    t0: u64,
    t1: u64,
    t2: u64,
)
    requires
        sorted(ms),
        ms.len() == traces.len(),
        t0 <= t1 <= t2,
    ensures
        ({
            let a = resolve_spec(ms, t0);
            let b = resolve_spec(ms, t1);
            let c = resolve_spec(ms, t2);
            &&& 0 <= a <= b <= c <= traces.len()
            &&& traces.subrange(a, b) + traces.subrange(b, c) == traces.subrange(a, c)
        }),
{
    lemma_count_le_props(ms, t0);
    lemma_count_le_props(ms, t1);
    lemma_count_le_props(ms, t2);
    lemma_count_le_mono(ms, t0, t1);
    lemma_count_le_mono(ms, t1, t2);
    let a = resolve_spec(ms, t0);
    let b = resolve_spec(ms, t1);
    let c = resolve_spec(ms, t2);
    assert(traces.subrange(a, b) + traces.subrange(b, c) =~= traces.subrange(a, c));
}

/// Resolve one requested time against the timestamp index by binary
/// search: the latest sample at or before it, else index 0.
pub fn resolve_index(ms: &Vec<u64>, t: u64) -> (r: usize)
    requires
        sorted(ms@),
    ensures
        r == resolve_spec(ms@, t),
        ms@.len() > 0 ==> r < ms@.len(),
        ms@.len() == 0 ==> r == 0,
{
    let mut lo: usize = 0;
    let mut hi: usize = ms.len();
    while lo < hi
        invariant
            sorted(ms@),
            lo <= hi <= ms@.len(),
            forall|i: int| 0 <= i < lo ==> ms@[i] <= t,
            forall|i: int| hi <= i < ms@.len() ==> ms@[i] > t,
        decreases hi - lo,
    {
        let mid = lo + (hi - lo) / 2;
        if ms[mid] <= t {
            proof {
                assert forall|i: int| 0 <= i < mid + 1 implies ms@[i] <= t by {
                    assert(ms@[i] <= ms@[mid as int]);
                }
            }
            lo = mid + 1;
        } else {
            proof {
                assert forall|i: int| mid <= i < ms@.len() implies ms@[i] > t by {
                    assert(ms@[i] >= ms@[mid as int]);
                }
            }
            hi = mid;
        }
    }
    proof {
        lemma_count_le_boundary(ms@, t, lo as int);
    }
    if lo == 0 {
        0
    } else {
        lo - 1
    }
}

impl Store {
    /// The stored trace at `id`; an invalid request exactly when `id` is
    /// at or past the trace count.
    pub fn trace_by_index(&self, id: usize) -> (r: Result<&StackTrace, QueryError>)
        ensures
            (id < self.traces@.len()) <==> r is Ok,
            (match r {
                Result::Ok(t) => *t == self.traces@[id as int],
                Result::Err(e) => e == QueryError::InvalidRequest,
            }),
    {
        if id < self.traces.len() {
            Result::Ok(&self.traces[id])
        } else {
            Result::Err(QueryError::InvalidRequest)
        }
    }

    /// Resolve `[start_time, end_time]` against the timestamp index and
    /// merge the traces of the half-open index window into one call
    /// tree. An invalid request exactly when a resolved boundary is out
    /// of bounds (in particular on an empty log) or the window is empty.
    pub fn range_aggregate(
        &self,
        start_time: u64,
        end_time: u64,
        include_lines: bool,
        group_by_thread: bool,
        include_idle: bool,
        gil_only: bool,
    ) -> (r: Result<FrameNode, QueryError>)
        requires
            self.wf(),
            self.traces@.len() < u64::MAX,
        ensures
            ({
                let s = resolve_spec(self.trace_ms@, start_time);
                let e = resolve_spec(self.trace_ms@, end_time);
                &&& (s < self.traces@.len() && e < self.traces@.len() && e > s) <==> r is Ok
                &&& (match r {
                    Result::Ok(tree) => node_data(tree) == flame_tree(
                        self.traces@.subrange(s, e),
                        include_lines,
                        group_by_thread,
                        include_idle,
                        gil_only,
                    ) && wf_tree(node_data(tree)),
                    Result::Err(err) => err == QueryError::InvalidRequest,
                })
            }),
    {
        let start = resolve_index(&self.trace_ms, start_time);
        let end = resolve_index(&self.trace_ms, end_time);
        if !(start < self.traces.len() && end < self.traces.len()) {
            return Result::Err(QueryError::InvalidRequest);
        }
        if !(end > start) {
            return Result::Err(QueryError::InvalidRequest);
        }
        let window = vstd::slice::slice_subrange(self.traces.as_slice(), start, end);
        Result::Ok(
            aggregate_traces(window, include_lines, group_by_thread, include_idle, gil_only),
        )
    }
}

} // verus!
