use crate::trace::{Frame, FrameData, StackTrace};
use vstd::prelude::*;

verus! {

/// The identity of a node among its siblings. Code frames merge by their
/// display identity — name, file (the shortened name when present), and
/// the line number when line numbers are requested (0 stands for "not
/// shown") — which is the compression that turns many traces into one
/// flame graph.
#[derive(Clone, Debug)]
pub enum NodeLabel {
    Root,
    Thread(u64),
    Code { name: String, file: String, line: u64 },
}

/// The ghost image of a `NodeLabel`, text fields as character sequences.
#[verifier::ext_equal]
pub ghost enum LabelData {
    Root,
    Thread(u64),
    Code { name: Seq<char>, file: Seq<char>, line: u64 },
}

impl View for NodeLabel {
    type V = LabelData;

    open spec fn view(&self) -> LabelData {
        match *self {
            NodeLabel::Root => LabelData::Root,
            NodeLabel::Thread(t) => LabelData::Thread(t),
            NodeLabel::Code { name, file, line } => LabelData::Code {
                name: name@,
                file: file@,
                line,
            },
        }
    }
}

/// One node of the aggregated call tree: its label, the frame that first
/// created it (absent on the synthetic root and thread nodes), how many
/// traces passed through it, and its children, each under a label unique
/// among the siblings.
#[derive(Debug)]
pub struct FrameNode {
    pub label: NodeLabel,
    pub frame: Option<Frame>,
    pub count: u64,
    pub children: Vec<FrameNode>,
}

/// The ghost image of a whole `FrameNode` tree.
#[verifier::ext_equal]
pub ghost struct NodeData {
    pub label: LabelData,
    pub frame: Option<FrameData>,
    pub count: nat,
    pub children: Seq<NodeData>,
}

/// The ghost image of a sequence of sibling nodes.
pub open spec fn nodes_data(s: Seq<FrameNode>) -> Seq<NodeData>
    decreases s,
{
    if s.len() == 0 {
        Seq::empty()
    } else {
        nodes_data(s.drop_last()).push(node_data(s.last()))
    }
}

pub open spec fn node_data(n: FrameNode) -> NodeData
    decreases n,
{
    NodeData {
        label: n.label@,
        frame: match n.frame {
            Option::Some(f) => Option::Some(f@),
            Option::None => Option::None,
        },
        count: n.count as nat,
        children: nodes_data(n.children@),
    }
}

pub proof fn lemma_nodes_data(s: Seq<FrameNode>)
    ensures
        nodes_data(s).len() == s.len(),
        forall|i: int| 0 <= i < s.len() ==> nodes_data(s)[i] == node_data(s[i]),
    decreases s.len(),
{
    if s.len() > 0 {
        lemma_nodes_data(s.drop_last());
    }
}

/// The label a frame aggregates under: its name, the shortened file name
/// when present (else the full one), and its line number when line
/// numbers are requested and known.
pub open spec fn code_label(f: FrameData, include_lines: bool) -> LabelData {
    LabelData::Code {
        name: f.name,
        file: match f.short_filename {
            Option::Some(s) => s,
            Option::None => f.filename,
        },
        line: if include_lines && f.line > 0 {
            f.line
        } else {
            0
        },
    }
}

/// One step on a trace's path down the tree: the label it descends
/// under, and the frame a node created for it remembers.
#[verifier::ext_equal]
pub ghost struct PathStep {
    pub label: LabelData,
    pub frame: Option<FrameData>,
}

/// A trace's frames as path steps, walked from the outermost caller
/// (stored last) down to the innermost frame (stored first).
pub open spec fn frame_steps(frames: Seq<Frame>, include_lines: bool) -> Seq<PathStep> {
    Seq::new(
        frames.len(),
        |i: int|
            PathStep {
                label: code_label(frames[frames.len() - 1 - i]@, include_lines),
                frame: Option::Some(frames[frames.len() - 1 - i]@),
            },
    )
}

/// A trace's full path: under its thread's node when grouping by thread,
/// directly under the root otherwise.
pub open spec fn trace_steps(t: StackTrace, include_lines: bool, group_by_thread: bool) -> Seq<
    PathStep,
> {
    if group_by_thread {
        seq![PathStep { label: LabelData::Thread(t.thread_id), frame: Option::None }]
            + frame_steps(t.frames@, include_lines)
    } else {
        frame_steps(t.frames@, include_lines)
    }
}

/// Whether the filters keep this trace: idle traces only when idle ones
/// are requested, and, under `gil_only`, only traces that held the lock.
pub open spec fn included(t: StackTrace, include_idle: bool, gil_only: bool) -> bool {
    (include_idle || t.active) && (!gil_only || t.owns_gil)
}

/// The index of the first sibling carrying `lab`, or -1.
pub open spec fn find_child(children: Seq<NodeData>, lab: LabelData) -> int
    decreases children.len(),
{
    if children.len() == 0 {
        -1
    } else if children[0].label == lab {
        0
    } else {
        let r = find_child(children.drop_first(), lab);
        if r == -1 {
            -1
        } else {
            r + 1
        }
    }
}

pub proof fn lemma_find_child(children: Seq<NodeData>, lab: LabelData)
    ensures
        ({
            let r = find_child(children, lab);
            &&& -1 <= r < children.len()
            &&& r >= 0 ==> children[r].label == lab && (forall|k: int|
                0 <= k < r ==> (#[trigger] children[k]).label != lab)
            &&& r == -1 ==> forall|k: int|
                0 <= k < children.len() ==> (#[trigger] children[k]).label != lab
        }),
    decreases children.len(),
{
    if children.len() > 0 && children[0].label != lab {
        let rest = children.drop_first();
        lemma_find_child(rest, lab);
        let r0 = find_child(rest, lab);
        if r0 == -1 {
            assert forall|k: int| 0 <= k < children.len() implies (
            #[trigger] children[k]).label != lab by {
                if k > 0 {
                    assert(rest[k - 1] == children[k]);
                }
            }
        } else {
            assert(rest[r0] == children[r0 + 1]);
            assert forall|k: int| 0 <= k < r0 + 1 implies (#[trigger] children[k]).label
                != lab by {
                if k > 0 {
                    assert(rest[k - 1] == children[k]);
                }
            }
        }
    }
}

/// One trace's path folded into the tree: every node along the path —
/// the node itself first — has its count raised by one; a missing child
/// is created with count 0 and the step's frame before descending.
pub open spec fn insert_steps(v: NodeData, path: Seq<PathStep>) -> NodeData
    decreases path.len(),
{
    if path.len() == 0 {
        NodeData { count: v.count + 1, ..v }
    } else {
        let i = find_child(v.children, path[0].label);
        if i >= 0 {
            NodeData {
                count: v.count + 1,
                children: v.children.update(i, insert_steps(v.children[i], path.drop_first())),
                ..v
            }
        } else {
            NodeData {
                count: v.count + 1,
                children: v.children.push(
                    insert_steps(
                        NodeData {
                            label: path[0].label,
                            frame: path[0].frame,
                            count: 0,
                            children: Seq::empty(),
                        },
                        path.drop_first(),
                    ),
                ),
                ..v
            }
        }
    }
}

/// The synthetic root every aggregation starts from.
pub open spec fn empty_root() -> NodeData {
    NodeData { label: LabelData::Root, frame: Option::None, count: 0, children: Seq::empty() }
}

/// The call tree summarizing `traces` under the four filters: each
/// included trace's path, walked from the outermost caller inwards, is
/// folded into the tree in order.
pub open spec fn flame_tree(
    traces: Seq<StackTrace>,
    include_lines: bool,
    group_by_thread: bool,
    include_idle: bool,
    gil_only: bool,
) -> NodeData
    decreases traces.len(),
{
    if traces.len() == 0 {
        empty_root()
    } else {
        let prev = flame_tree(
            traces.drop_last(),
            include_lines,
            group_by_thread,
            include_idle,
            gil_only,
        );
        if included(traces.last(), include_idle, gil_only) {
            insert_steps(prev, trace_steps(traces.last(), include_lines, group_by_thread))
        } else {
            prev
        }
    }
}

/// Every count in the tree is at most `k`.
pub open spec fn counts_below(v: NodeData, k: nat) -> bool
    decreases v,
{
    &&& v.count <= k
    &&& forall|i: int| 0 <= i < v.children.len() ==> counts_below(#[trigger] v.children[i], k)
}

pub proof fn lemma_counts_below_mono(v: NodeData, k1: nat, k2: nat)
    requires
        counts_below(v, k1),
        k1 <= k2,
    ensures
        counts_below(v, k2),
    decreases v,
{
    assert forall|i: int| 0 <= i < v.children.len() implies counts_below(
        #[trigger] v.children[i],
        k2,
    ) by {
        lemma_counts_below_mono(v.children[i], k1, k2);
    }
}

pub proof fn lemma_counts_below_insert(v: NodeData, path: Seq<PathStep>, k: nat)
    requires
        counts_below(v, k),
    ensures
        counts_below(insert_steps(v, path), k + 1),
    decreases path.len(),
{
    let r = insert_steps(v, path);
    if path.len() == 0 {
        assert forall|i: int| 0 <= i < r.children.len() implies counts_below(
            #[trigger] r.children[i],
            k + 1,
        ) by {
            lemma_counts_below_mono(v.children[i], k, k + 1);
        }
    } else {
        let i = find_child(v.children, path[0].label);
        lemma_find_child(v.children, path[0].label);
        if i >= 0 {
            lemma_counts_below_insert(v.children[i], path.drop_first(), k);
            assert forall|j: int| 0 <= j < r.children.len() implies counts_below(
                #[trigger] r.children[j],
                k + 1,
            ) by {
                if j != i {
                    lemma_counts_below_mono(v.children[j], k, k + 1);
                }
            }
        } else {
            let fresh = NodeData {
                label: path[0].label,
                frame: path[0].frame,
                count: 0,
                children: Seq::empty(),
            };
            lemma_counts_below_insert(fresh, path.drop_first(), k);
            assert forall|j: int| 0 <= j < r.children.len() implies counts_below(
                #[trigger] r.children[j],
                k + 1,
            ) by {
                if j < v.children.len() {
                    lemma_counts_below_mono(v.children[j], k, k + 1);
                }
            }
        }
    }
}

pub proof fn lemma_flame_counts(
    traces: Seq<StackTrace>,
    include_lines: bool,
    group_by_thread: bool,
    include_idle: bool,
    gil_only: bool,
)
    ensures
        counts_below(
            flame_tree(traces, include_lines, group_by_thread, include_idle, gil_only),
            traces.len(),
        ),
    decreases traces.len(),
{
    if traces.len() > 0 {
        lemma_flame_counts(
            traces.drop_last(),
            include_lines,
            group_by_thread,
            include_idle,
            gil_only,
        );
        let prev = flame_tree(
            traces.drop_last(),
            include_lines,
            group_by_thread,
            include_idle,
            gil_only,
        );
        if included(traces.last(), include_idle, gil_only) {
            lemma_counts_below_insert(
                prev,
                trace_steps(traces.last(), include_lines, group_by_thread),
                (traces.len() - 1) as nat,
            );
        } else {
            lemma_counts_below_mono(prev, (traces.len() - 1) as nat, traces.len());
        }
    }
}

/// How many of `traces` the filters keep.
pub open spec fn included_count(traces: Seq<StackTrace>, include_idle: bool, gil_only: bool) -> nat
    decreases traces.len(),
{
    if traces.len() == 0 {
        0
    } else {
        included_count(traces.drop_last(), include_idle, gil_only) + if included(
            traces.last(),
            include_idle,
            gil_only,
        ) {
            1nat
        } else {
            0nat
        }
    }
}

/// Filtering law: a trace outside the filters leaves the tree untouched —
/// under `gil_only` every trace that did not hold the lock is excluded,
/// and without `include_idle` every trace that was not running is.
pub proof fn lemma_filters_exclude(
    traces: Seq<StackTrace>,
    t: StackTrace,
    include_lines: bool,
    group_by_thread: bool,
    include_idle: bool,
    gil_only: bool,
)
    ensures
        gil_only && !t.owns_gil ==> flame_tree(
            traces.push(t),
            include_lines,
            group_by_thread,
            include_idle,
            gil_only,
        ) == flame_tree(traces, include_lines, group_by_thread, include_idle, gil_only),
        !include_idle && !t.active ==> flame_tree(
            traces.push(t),
            include_lines,
            group_by_thread,
            include_idle,
            gil_only,
        ) == flame_tree(traces, include_lines, group_by_thread, include_idle, gil_only),
{
    assert(traces.push(t).drop_last() =~= traces);
    assert(traces.push(t).last() == t);
}

/// Weight law: the root's count is exactly the number of traces the
/// filters keep.
pub proof fn lemma_root_count(
    traces: Seq<StackTrace>,
    include_lines: bool,
    group_by_thread: bool,
    include_idle: bool,
    gil_only: bool,
)
    ensures
        flame_tree(traces, include_lines, group_by_thread, include_idle, gil_only).count
            == included_count(traces, include_idle, gil_only),
    decreases traces.len(),
{
    if traces.len() > 0 {
        lemma_root_count(
            traces.drop_last(),
            include_lines,
            group_by_thread,
            include_idle,
            gil_only,
        );
    }
}

/// A single-path tree: every node on the path carries count `c`, and the
/// deepest node — the only leaf — has no children.
pub open spec fn chain_node(
    label: LabelData,
    frame: Option<FrameData>,
    path: Seq<PathStep>,
    c: nat,
) -> NodeData
    decreases path.len(),
{
    NodeData {
        label,
        frame,
        count: c,
        children: if path.len() == 0 {
            Seq::empty()
        } else {
            seq![chain_node(path[0].label, path[0].frame, path.drop_first(), c)]
        },
    }
}

/// Inserting a path into a fresh node yields a single-path tree of
/// weight 1.
pub proof fn lemma_insert_into_fresh(label: LabelData, frame: Option<FrameData>, path: Seq<PathStep>)
    ensures
        insert_steps(
            NodeData { label, frame, count: 0, children: Seq::empty() },
            path,
        ) == chain_node(label, frame, path, 1),
    decreases path.len(),
{
    let fresh = NodeData { label, frame, count: 0, children: Seq::empty() };
    if path.len() == 0 {
        assert(insert_steps(fresh, path) =~= chain_node(label, frame, path, 1));
    } else {
        lemma_insert_into_fresh(path[0].label, path[0].frame, path.drop_first());
        assert(find_child(fresh.children, path[0].label) == -1);
        assert(insert_steps(fresh, path) =~= chain_node(label, frame, path, 1));
    }
}

/// Re-inserting the same path into a single-path tree only raises every
/// count on the path by one.
pub proof fn lemma_insert_same_path(
    label: LabelData,
    frame: Option<FrameData>,
    path: Seq<PathStep>,
    c: nat,
)
    ensures
        insert_steps(chain_node(label, frame, path, c), path) == chain_node(
            label,
            frame,
            path,
            c + 1,
        ),
    decreases path.len(),
{
    let v = chain_node(label, frame, path, c);
    if path.len() == 0 {
        assert(insert_steps(v, path) =~= chain_node(label, frame, path, c + 1));
    } else {
        lemma_insert_same_path(path[0].label, path[0].frame, path.drop_first(), c);
        assert(v.children[0].label == path[0].label);
        assert(find_child(v.children, path[0].label) == 0);
        assert(insert_steps(v, path).children =~= chain_node(
            label,
            frame,
            path,
            c + 1,
        ).children);
        assert(insert_steps(v, path) =~= chain_node(label, frame, path, c + 1));
    }
}

/// Order-independence law: two traces with identical frame sequences (on
/// one thread) merge into the same single-path tree, whose every node —
/// the single leaf included — weighs 2, in whichever order they arrive.
pub proof fn lemma_order_independent(
    t1: StackTrace,
    t2: StackTrace,
    include_lines: bool,
    group_by_thread: bool,
    include_idle: bool,
    gil_only: bool,
)
    requires
        t1.frames@.len() == t2.frames@.len(),
        forall|i: int| 0 <= i < t1.frames@.len() ==> t1.frames@[i]@ == t2.frames@[i]@,
        group_by_thread ==> t1.thread_id == t2.thread_id,
        included(t1, include_idle, gil_only),
        included(t2, include_idle, gil_only),
    ensures
        ({
            let p = trace_steps(t1, include_lines, group_by_thread);
            &&& flame_tree(seq![t1, t2], include_lines, group_by_thread, include_idle, gil_only)
                == chain_node(LabelData::Root, Option::None, p, 2)
            &&& flame_tree(seq![t2, t1], include_lines, group_by_thread, include_idle, gil_only)
                == chain_node(LabelData::Root, Option::None, p, 2)
        }),
{
    let p = trace_steps(t1, include_lines, group_by_thread);
    assert(frame_steps(t2.frames@, include_lines) =~= frame_steps(t1.frames@, include_lines));
    assert(trace_steps(t2, include_lines, group_by_thread) == p);
    lemma_insert_into_fresh(LabelData::Root, Option::None, p);
    lemma_insert_same_path(LabelData::Root, Option::None, p, 1);
    assert(empty_root() =~= NodeData {
        label: LabelData::Root,
        frame: Option::None,
        count: 0,
        children: Seq::empty(),
    });
    reveal_with_fuel(flame_tree, 3);
    let s12 = seq![t1, t2];
    assert(s12.drop_last() =~= seq![t1]);
    assert(seq![t1].drop_last() =~= Seq::<StackTrace>::empty());
    assert(s12.last() == t2 && seq![t1].last() == t1);
    assert(flame_tree(seq![t1], include_lines, group_by_thread, include_idle, gil_only)
        == insert_steps(empty_root(), p));
    assert(flame_tree(s12, include_lines, group_by_thread, include_idle, gil_only)
        == insert_steps(insert_steps(empty_root(), p), p));
    let s21 = seq![t2, t1];
    assert(s21.drop_last() =~= seq![t2]);
    assert(seq![t2].drop_last() =~= Seq::<StackTrace>::empty());
    assert(s21.last() == t1 && seq![t2].last() == t2);
    assert(flame_tree(seq![t2], include_lines, group_by_thread, include_idle, gil_only)
        == insert_steps(empty_root(), p));
    assert(flame_tree(s21, include_lines, group_by_thread, include_idle, gil_only)
        == insert_steps(insert_steps(empty_root(), p), p));
}

/// The tree's structural invariant: at every level, no two siblings
/// carry the same label.
pub open spec fn wf_tree(v: NodeData) -> bool
    decreases v,
{
    &&& forall|i: int, j: int|
        0 <= i < j < v.children.len() ==> (#[trigger] v.children[i]).label != (
        #[trigger] v.children[j]).label
    &&& forall|i: int| 0 <= i < v.children.len() ==> wf_tree(#[trigger] v.children[i])
}

pub proof fn lemma_insert_wf(v: NodeData, path: Seq<PathStep>)
    requires
        wf_tree(v),
    ensures
        wf_tree(insert_steps(v, path)),
    decreases path.len(),
{
    if path.len() > 0 {
        let r = insert_steps(v, path);
        let i = find_child(v.children, path[0].label);
        lemma_find_child(v.children, path[0].label);
        if i >= 0 {
            lemma_insert_wf(v.children[i], path.drop_first());
            let child1 = insert_steps(v.children[i], path.drop_first());
            assert(child1.label == v.children[i].label);
            assert(r.children == v.children.update(i, child1));
            assert forall|x: int| 0 <= x < r.children.len() implies wf_tree(
                #[trigger] r.children[x],
            ) by {
                if x != i {
                    assert(r.children[x] == v.children[x]);
                }
            }
        } else {
            let fresh = NodeData {
                label: path[0].label,
                frame: path[0].frame,
                count: 0,
                children: Seq::empty(),
            };
            assert(wf_tree(fresh));
            lemma_insert_wf(fresh, path.drop_first());
            let child1 = insert_steps(fresh, path.drop_first());
            assert(child1.label == path[0].label);
            assert(r.children == v.children.push(child1));
            assert forall|x: int, y: int| 0 <= x < y < r.children.len() implies (
            #[trigger] r.children[x]).label != (#[trigger] r.children[y]).label by {
                if y == v.children.len() as int {
                    assert(v.children[x].label != path[0].label);
                }
            }
        }
    }
}

/// The aggregated tree satisfies the structural invariant.
pub proof fn lemma_flame_wf(
    traces: Seq<StackTrace>,
    include_lines: bool,
    group_by_thread: bool,
    include_idle: bool,
    gil_only: bool,
)
    ensures
        wf_tree(flame_tree(traces, include_lines, group_by_thread, include_idle, gil_only)),
    decreases traces.len(),
{
    if traces.len() > 0 {
        lemma_flame_wf(
            traces.drop_last(),
            include_lines,
            group_by_thread,
            include_idle,
            gil_only,
        );
        if included(traces.last(), include_idle, gil_only) {
            lemma_insert_wf(
                flame_tree(
                    traces.drop_last(),
                    include_lines,
                    group_by_thread,
                    include_idle,
                    gil_only,
                ),
                trace_steps(traces.last(), include_lines, group_by_thread),
            );
        }
    }
}

/// The labels along a path, without the remembered frames.
pub open spec fn step_labels(path: Seq<PathStep>) -> Seq<LabelData> {
    path.map_values(|s: PathStep| s.label)
}

/// The node reached from `v` by descending through the children named by
/// `labs`, if every level has one.
pub open spec fn node_at(v: NodeData, labs: Seq<LabelData>) -> Option<NodeData>
    decreases labs.len(),
{
    if labs.len() == 0 {
        Option::Some(v)
    } else {
        let i = find_child(v.children, labs[0]);
        if i >= 0 {
            node_at(v.children[i], labs.drop_first())
        } else {
            Option::None
        }
    }
}

/// How many of `traces` the filters keep whose path starts with `labs`.
pub open spec fn passing_count(
    traces: Seq<StackTrace>,
    include_lines: bool,
    group_by_thread: bool,
    include_idle: bool,
    gil_only: bool,
    labs: Seq<LabelData>,
) -> nat
    decreases traces.len(),
{
    if traces.len() == 0 {
        0
    } else {
        passing_count(
            traces.drop_last(),
            include_lines,
            group_by_thread,
            include_idle,
            gil_only,
            labs,
        ) + if included(traces.last(), include_idle, gil_only) && labs.is_prefix_of(
            step_labels(trace_steps(traces.last(), include_lines, group_by_thread)),
        ) {
            1nat
        } else {
            0nat
        }
    }
}

proof fn lemma_find_child_update(children: Seq<NodeData>, i: int, c: NodeData, lab: LabelData)
    requires
        0 <= i < children.len(),
        c.label == children[i].label,
    ensures
        find_child(children.update(i, c), lab) == find_child(children, lab),
    decreases children.len(),
{
    if i == 0 {
        if children[0].label != lab {
            assert(children.update(0, c).drop_first() =~= children.drop_first());
        }
    } else {
        if children[0].label != lab {
            assert(children.update(i, c).drop_first() =~= children.drop_first().update(i - 1, c));
            lemma_find_child_update(children.drop_first(), i - 1, c, lab);
        }
    }
}

proof fn lemma_find_child_push(children: Seq<NodeData>, c: NodeData, lab: LabelData)
    ensures
        find_child(children.push(c), lab) == (if find_child(children, lab) >= 0 {
            find_child(children, lab)
        } else if c.label == lab {
            children.len() as int
        } else {
            -1int
        }),
    decreases children.len(),
{
    reveal_with_fuel(find_child, 2);
    lemma_find_child(children, lab);
    if children.len() == 0 {
        assert(children.push(c)[0] == c);
        if c.label != lab {
            assert(children.push(c).drop_first() =~= Seq::<NodeData>::empty());
        }
    } else {
        assert(children.push(c)[0] == children[0]);
        if children[0].label != lab {
            assert(children.push(c).drop_first() =~= children.drop_first().push(c));
            lemma_find_child_push(children.drop_first(), c, lab);
            lemma_find_child(children.drop_first(), lab);
            let r0 = find_child(children.drop_first(), lab);
            let r2 = find_child(children.drop_first().push(c), lab);
            assert(find_child(children.push(c), lab) == (if r2 == -1 {
                -1int
            } else {
                r2 + 1
            }));
            assert(find_child(children, lab) == (if r0 == -1 {
                -1int
            } else {
                r0 + 1
            }));
        }
    }
}

/// With matching heads, being a prefix descends to the tails.
proof fn lemma_prefix_step(labs: Seq<LabelData>, path: Seq<PathStep>)
    requires
        labs.len() > 0,
        path.len() > 0,
        labs[0] == path[0].label,
    ensures
        labs.is_prefix_of(step_labels(path)) <==> labs.drop_first().is_prefix_of(
            step_labels(path.drop_first()),
        ),
{
    let sl = step_labels(path);
    let sl1 = step_labels(path.drop_first());
    assert(sl.drop_first() =~= sl1);
    if labs.is_prefix_of(sl) {
        assert(labs =~= sl.subrange(0, labs.len() as int));
        assert forall|j: int| 0 <= j < labs.len() - 1 implies labs.drop_first()[j] == sl1[j] by {
            assert(labs[j + 1] == sl[j + 1]);
        }
        assert(labs.drop_first() =~= sl1.subrange(0, labs.len() - 1));
    }
    if labs.drop_first().is_prefix_of(sl1) {
        assert(labs.drop_first() =~= sl1.subrange(0, labs.len() - 1));
        assert forall|j: int| 0 <= j < labs.len() implies labs[j] == sl[j] by {
            if j > 0 {
                assert(labs.drop_first()[j - 1] == sl1[j - 1]);
            }
        }
        assert(labs =~= sl.subrange(0, labs.len() as int));
    }
}

/// How one insertion changes the weights: exactly the nodes on the
/// inserted path — created on first use — gain one; every other node is
/// untouched.
proof fn lemma_insert_node_at(v: NodeData, path: Seq<PathStep>, labs: Seq<LabelData>)
    ensures
        labs.is_prefix_of(step_labels(path)) ==> (match (
            node_at(v, labs),
            node_at(insert_steps(v, path), labs),
        ) {
            (Option::Some(n0), Option::Some(n1)) => n1.count == n0.count + 1,
            (Option::None, Option::Some(n1)) => n1.count == 1,
            _ => false,
        }),
        !labs.is_prefix_of(step_labels(path)) ==> node_at(insert_steps(v, path), labs) == node_at(
            v,
            labs,
        ),
    decreases labs.len(),
{
    let v1 = insert_steps(v, path);
    if labs.len() == 0 {
        assert(labs.is_prefix_of(step_labels(path)));
    } else if path.len() == 0 {
        assert(!labs.is_prefix_of(step_labels(path)));
        assert(v1.children == v.children);
    } else {
        let i = find_child(v.children, path[0].label);
        lemma_find_child(v.children, path[0].label);
        assert(step_labels(path)[0] == path[0].label);
        assert(step_labels(path).drop_first() =~= step_labels(path.drop_first()));
        if labs[0] == path[0].label {
            lemma_prefix_step(labs, path);
            if i >= 0 {
                let child1 = insert_steps(v.children[i], path.drop_first());
                assert(child1.label == v.children[i].label);
                lemma_find_child_update(v.children, i, child1, labs[0]);
                assert(v1.children == v.children.update(i, child1));
                assert(node_at(v1, labs) == node_at(child1, labs.drop_first()));
                lemma_insert_node_at(v.children[i], path.drop_first(), labs.drop_first());
            } else {
                let fresh = NodeData {
                    label: path[0].label,
                    frame: path[0].frame,
                    count: 0,
                    children: Seq::empty(),
                };
                let child1 = insert_steps(fresh, path.drop_first());
                assert(child1.label == labs[0]);
                lemma_find_child_push(v.children, child1, labs[0]);
                assert(v1.children == v.children.push(child1));
                assert(v1.children[v.children.len() as int] == child1);
                assert(node_at(v1, labs) == node_at(child1, labs.drop_first()));
                assert(node_at(v, labs) is None);
                lemma_insert_node_at(fresh, path.drop_first(), labs.drop_first());
                if labs.drop_first().is_prefix_of(step_labels(path.drop_first())) {
                    if labs.drop_first().len() == 0 {
                        assert(node_at(fresh, labs.drop_first()) == Option::Some(fresh));
                    } else {
                        assert(find_child(fresh.children, labs.drop_first()[0]) == -1);
                        assert(node_at(fresh, labs.drop_first()) is None);
                    }
                } else {
                    assert(node_at(child1, labs.drop_first()) == node_at(
                        fresh,
                        labs.drop_first(),
                    ));
                    if labs.drop_first().len() > 0 {
                        assert(find_child(fresh.children, labs.drop_first()[0]) == -1);
                    }
                }
            }
        } else {
            assert(!labs.is_prefix_of(step_labels(path))) by {
                if labs.is_prefix_of(step_labels(path)) {
                    assert(labs =~= step_labels(path).subrange(0, labs.len() as int));
                    assert(labs[0] == step_labels(path)[0]);
                }
            }
            if i >= 0 {
                let child1 = insert_steps(v.children[i], path.drop_first());
                assert(child1.label == v.children[i].label);
                lemma_find_child_update(v.children, i, child1, labs[0]);
                assert(v1.children == v.children.update(i, child1));
                let j = find_child(v.children, labs[0]);
                lemma_find_child(v.children, labs[0]);
                if j >= 0 {
                    if j == i {
                        assert(v.children[i].label == path[0].label);
                    }
                    assert(v1.children[j] == v.children[j]);
                    assert(node_at(v1, labs) == node_at(v.children[j], labs.drop_first()));
                }
            } else {
                let fresh = NodeData {
                    label: path[0].label,
                    frame: path[0].frame,
                    count: 0,
                    children: Seq::empty(),
                };
                let child1 = insert_steps(fresh, path.drop_first());
                assert(child1.label == path[0].label);
                lemma_find_child_push(v.children, child1, labs[0]);
                assert(v1.children == v.children.push(child1));
                let j = find_child(v.children, labs[0]);
                if j >= 0 {
                    lemma_find_child(v.children, labs[0]);
                    assert(v1.children[j] == v.children[j]);
                    assert(node_at(v1, labs) == node_at(v.children[j], labs.drop_first()));
                }
            }
        }
    }
}

/// Weight law: in the aggregated tree, the node reached by any label
/// path weighs exactly the number of filter-surviving traces whose own
/// path passes through it — and where no node exists, no trace passes.
pub proof fn lemma_node_weights(
    traces: Seq<StackTrace>,
    include_lines: bool,
    group_by_thread: bool,
    include_idle: bool,
    gil_only: bool,
    labs: Seq<LabelData>,
)
    ensures
        (match node_at(
            flame_tree(traces, include_lines, group_by_thread, include_idle, gil_only),
            labs,
        ) {
            Option::Some(n) => n.count == passing_count(
                traces,
                include_lines,
                group_by_thread,
                include_idle,
                gil_only,
                labs,
            ),
            Option::None => passing_count(
                traces,
                include_lines,
                group_by_thread,
                include_idle,
                gil_only,
                labs,
            ) == 0,
        }),
    decreases traces.len(),
{
    if traces.len() == 0 {
        if labs.len() > 0 {
            assert(find_child(empty_root().children, labs[0]) == -1);
        }
    } else {
        lemma_node_weights(
            traces.drop_last(),
            include_lines,
            group_by_thread,
            include_idle,
            gil_only,
            labs,
        );
        let prev = flame_tree(
            traces.drop_last(),
            include_lines,
            group_by_thread,
            include_idle,
            gil_only,
        );
        if included(traces.last(), include_idle, gil_only) {
            lemma_insert_node_at(
                prev,
                trace_steps(traces.last(), include_lines, group_by_thread),
                labs,
            );
        }
    }
}

/// Whether two labels read the same.
fn labels_equal(a: &NodeLabel, b: &NodeLabel) -> (r: bool)
    ensures
        r == (a@ == b@),
{
    match (a, b) {
        (NodeLabel::Root, NodeLabel::Root) => true,
        (NodeLabel::Thread(x), NodeLabel::Thread(y)) => *x == *y,
        (
            NodeLabel::Code { name: n1, file: f1, line: l1 },
            NodeLabel::Code { name: n2, file: f2, line: l2 },
        ) => {
            let r = *l1 == *l2 && *n1 == *n2 && *f1 == *f2;
            proof {
                if r {
                    assert(a@ =~= b@);
                }
            }
            r
        },
        _ => false,
    }
}

/// The label a frame aggregates under.
fn code_label_of(f: &Frame, include_lines: bool) -> (l: NodeLabel)
    ensures
        l@ == code_label(f@, include_lines),
{
    let file = match &f.short_filename {
        Option::Some(s) => s.clone(),
        Option::None => f.filename.clone(),
    };
    let line = if include_lines && f.line > 0 {
        f.line
    } else {
        0
    };
    let l = NodeLabel::Code { name: f.name.clone(), file, line };
    proof {
        assert(l@ =~= code_label(f@, include_lines));
    }
    l
}

/// The first child carrying `lab`, if any.
fn find_child_vec(children: &Vec<FrameNode>, lab: &NodeLabel) -> (r: Option<usize>)
    ensures
        match r {
            Option::Some(i) => 0 <= i < children@.len() && find_child(
                nodes_data(children@),
                lab@,
            ) == i as int,
            Option::None => find_child(nodes_data(children@), lab@) == -1,
        },
{
    proof {
        lemma_nodes_data(children@);
        lemma_find_child(nodes_data(children@), lab@);
    }
    let mut i: usize = 0;
    while i < children.len()
        invariant
            i <= children@.len(),
            forall|k: int| 0 <= k < i ==> (#[trigger] children@[k]).label@ != lab@,
        decreases children@.len() - i,
    {
        if labels_equal(&children[i].label, lab) {
            proof {
                lemma_nodes_data(children@);
                lemma_find_child(nodes_data(children@), lab@);
                let nd = nodes_data(children@);
                let r = find_child(nd, lab@);
                assert(nd[i as int].label == lab@);
                if r == -1 {
                    assert(nd[i as int].label != lab@);
                } else if r < i as int {
                    assert(children@[r].label@ != lab@);
                    assert(nd[r].label == lab@);
                } else if r > i as int {
                    assert(nd[i as int].label != lab@);
                }
            }
            return Option::Some(i);
        }
        i = i + 1;
    }
    proof {
        lemma_nodes_data(children@);
        lemma_find_child(nodes_data(children@), lab@);
        let nd = nodes_data(children@);
        let r = find_child(nd, lab@);
        if r >= 0 {
            assert(children@[r].label@ != lab@);
            assert(nd[r].label == lab@);
        }
    }
    Option::None
}

impl FrameNode {
    /// Fold one trace's frames, outermost first, into this node: raise
    /// its count, then descend into (or create) the child labeled by the
    /// outermost of the first `upto` frames.
    fn insert_frames(
        self,
        frames: &Vec<Frame>,
        upto: usize,
        include_lines: bool,
        Ghost(k): Ghost<nat>,
    ) -> (r: FrameNode)
        requires
            upto <= frames@.len(),
            counts_below(node_data(self), k),
            k < u64::MAX,
        ensures
            node_data(r) == insert_steps(
                node_data(self),
                frame_steps(frames@.take(upto as int), include_lines),
            ),
        decreases upto,
    {
        let ghost v0 = node_data(self);
        let ghost path = frame_steps(frames@.take(upto as int), include_lines);
        let mut node = self;
        node.count = node.count + 1;
        if upto == 0 {
            proof {
                assert(node_data(node) =~= insert_steps(v0, path));
            }
            node
        } else {
            let lab = code_label_of(&frames[upto - 1], include_lines);
            proof {
                assert(path[0].label == lab@);
                assert(path[0].frame == Option::Some(frames@[upto - 1]@));
                assert(path.drop_first() =~= frame_steps(
                    frames@.take(upto - 1),
                    include_lines,
                ));
                lemma_nodes_data(node.children@);
            }
            match find_child_vec(&node.children, &lab) {
                Option::Some(i) => {
                    let ghost kids0 = node.children@;
                    let child = node.children.remove(i);
                    proof {
                        assert(node_data(child) == nodes_data(kids0)[i as int]);
                        assert(counts_below(node_data(child), k));
                    }
                    let child2 = child.insert_frames(frames, upto - 1, include_lines, Ghost(k));
                    node.children.insert(i, child2);
                    proof {
                        assert(node.children@ =~= kids0.update(i as int, node.children@[i as int]));
                        lemma_nodes_data(node.children@);
                        assert(nodes_data(node.children@) =~= v0.children.update(
                            i as int,
                            node_data(child2),
                        ));
                        assert(node_data(node) =~= insert_steps(v0, path));
                    }
                    node
                },
                Option::None => {
                    let fresh = FrameNode {
                        label: lab,
                        frame: Option::Some(frames[upto - 1].duplicate()),
                        count: 0,
                        children: Vec::new(),
                    };
                    proof {
                        assert(nodes_data(fresh.children@) =~= Seq::<NodeData>::empty());
                        assert(counts_below(node_data(fresh), k));
                    }
                    let ghost kids0 = node.children@;
                    let child2 = fresh.insert_frames(frames, upto - 1, include_lines, Ghost(k));
                    node.children.push(child2);
                    proof {
                        lemma_nodes_data(node.children@);
                        lemma_nodes_data(kids0);
                        assert(nodes_data(node.children@) =~= v0.children.push(
                            node_data(child2),
                        ));
                        assert(node_data(node) =~= insert_steps(v0, path));
                    }
                    node
                },
            }
        }
    }

    /// Fold one whole trace into this (root) node, descending through a
    /// per-thread child when grouping by thread.
    fn insert_trace(
        self,
        t: &StackTrace,
        include_lines: bool,
        group_by_thread: bool,
        Ghost(k): Ghost<nat>,
    ) -> (r: FrameNode)
        requires
            counts_below(node_data(self), k),
            k < u64::MAX,
        ensures
            node_data(r) == insert_steps(
                node_data(self),
                trace_steps(*t, include_lines, group_by_thread),
            ),
    {
        let ghost v0 = node_data(self);
        let ghost path = trace_steps(*t, include_lines, group_by_thread);
        if !group_by_thread {
            let n = t.frames.len();
            let r = self.insert_frames(&t.frames, n, include_lines, Ghost(k));
            proof {
                assert(t.frames@.take(n as int) =~= t.frames@);
            }
            r
        } else {
            let mut node = self;
            node.count = node.count + 1;
            let lab = NodeLabel::Thread(t.thread_id);
            let n = t.frames.len();
            proof {
                assert(path[0].label == lab@);
                assert(path[0].frame == Option::None::<FrameData>);
                assert(t.frames@.take(n as int) =~= t.frames@);
                assert(path.drop_first() =~= frame_steps(t.frames@, include_lines));
                lemma_nodes_data(node.children@);
            }
            match find_child_vec(&node.children, &lab) {
                Option::Some(i) => {
                    let ghost kids0 = node.children@;
                    let child = node.children.remove(i);
                    proof {
                        assert(node_data(child) == nodes_data(kids0)[i as int]);
                        assert(counts_below(node_data(child), k));
                    }
                    let child2 = child.insert_frames(&t.frames, n, include_lines, Ghost(k));
                    node.children.insert(i, child2);
                    proof {
                        assert(node.children@ =~= kids0.update(i as int, node.children@[i as int]));
                        lemma_nodes_data(node.children@);
                        assert(nodes_data(node.children@) =~= v0.children.update(
                            i as int,
                            node_data(child2),
                        ));
                        assert(node_data(node) =~= insert_steps(v0, path));
                    }
                    node
                },
                Option::None => {
                    let fresh = FrameNode {
                        label: lab,
                        frame: Option::None,
                        count: 0,
                        children: Vec::new(),
                    };
                    proof {
                        assert(nodes_data(fresh.children@) =~= Seq::<NodeData>::empty());
                        assert(counts_below(node_data(fresh), k));
                    }
                    let ghost kids0 = node.children@;
                    let child2 = fresh.insert_frames(&t.frames, n, include_lines, Ghost(k));
                    node.children.push(child2);
                    proof {
                        lemma_nodes_data(node.children@);
                        lemma_nodes_data(kids0);
                        assert(nodes_data(node.children@) =~= v0.children.push(
                            node_data(child2),
                        ));
                        assert(node_data(node) =~= insert_steps(v0, path));
                    }
                    node
                },
            }
        }
    }
}

/// Merge a slice of traces into one weighted call tree under the four
/// caller-selected filters.
pub fn aggregate_traces(
    traces: &[StackTrace],
    include_lines: bool,
    group_by_thread: bool,
    include_idle: bool,
    gil_only: bool,
) -> (r: FrameNode)
    requires
        traces@.len() < u64::MAX,
    ensures
        node_data(r) == flame_tree(traces@, include_lines, group_by_thread, include_idle, gil_only),
        wf_tree(node_data(r)),
{
    proof {
        lemma_flame_wf(traces@, include_lines, group_by_thread, include_idle, gil_only);
    }
    let mut root = FrameNode {
        label: NodeLabel::Root,
        frame: Option::None,
        count: 0,
        children: Vec::new(),
    };
    proof {
        assert(nodes_data(root.children@) =~= Seq::<NodeData>::empty());
        assert(node_data(root) =~= empty_root());
    }
    let mut j: usize = 0;
    while j < traces.len()
        invariant
            j <= traces@.len(),
            traces@.len() < u64::MAX,
            node_data(root) == flame_tree(
                traces@.take(j as int),
                include_lines,
                group_by_thread,
                include_idle,
                gil_only,
            ),
        decreases traces@.len() - j,
    {
        let t = vstd::slice::slice_index_get(traces, j);
        proof {
            assert(traces@.take(j + 1).drop_last() =~= traces@.take(j as int));
            assert(traces@.take(j + 1).last() == traces@[j as int]);
            lemma_flame_counts(
                traces@.take(j as int),
                include_lines,
                group_by_thread,
                include_idle,
                gil_only,
            );
        }
        if (include_idle || t.active) && (!gil_only || t.owns_gil) {
            root = root.insert_trace(t, include_lines, group_by_thread, Ghost(j as nat));
        }
        j = j + 1;
    }
    proof {
        assert(traces@.take(traces@.len() as int) =~= traces@);
    }
    root
}

} // verus!
