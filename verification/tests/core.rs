use flameview::{
    aggregate_traces, resolve_index, Fraction, Frame, FrameNode, Message, NodeLabel, QueryError,
    StackTrace, Store, Worker,
};

fn frame(name: &str, file: &str, line: u64) -> Frame {
    Frame {
        name: name.to_string(),
        filename: file.to_string(),
        short_filename: None,
        module: None,
        line,
    }
}

fn trace(tid: u64, frames: Vec<Frame>, active: bool, owns_gil: bool) -> StackTrace {
    StackTrace { thread_id: tid, frames, active, owns_gil }
}

fn fresh_store() -> Store {
    Store::new("python script.py".to_string(), "1.0".to_string(), 10)
}

fn labels_eq(a: &NodeLabel, b: &NodeLabel) -> bool {
    match (a, b) {
        (NodeLabel::Root, NodeLabel::Root) => true,
        (NodeLabel::Thread(x), NodeLabel::Thread(y)) => x == y,
        (
            NodeLabel::Code { name: n1, file: f1, line: l1 },
            NodeLabel::Code { name: n2, file: f2, line: l2 },
        ) => n1 == n2 && f1 == f2 && l1 == l2,
        _ => false,
    }
}

fn trees_eq(a: &FrameNode, b: &FrameNode) -> bool {
    if !labels_eq(&a.label, &b.label) || a.count != b.count {
        return false;
    }
    if a.children.len() != b.children.len() {
        return false;
    }
    for i in 0..a.children.len() {
        if !trees_eq(&a.children[i], &b.children[i]) {
            return false;
        }
    }
    true
}

fn child_by_thread(node: &FrameNode, tid: u64) -> Option<&FrameNode> {
    node.children.iter().find(|c| matches!(c.label, NodeLabel::Thread(t) if t == tid))
}

fn series_of(store: &Store, tid: u64) -> &Vec<Fraction> {
    &store.stats.threads.iter().find(|t| t.thread_id == tid).expect("thread registered").series
}

#[test]
fn store_counts_and_timestamps() {
    let mut store = fresh_store();
    let mut worker = Worker::new();
    let b1 = vec![
        trace(1, vec![frame("f", "a.py", 1)], true, true),
        trace(2, vec![frame("g", "b.py", 2)], true, false),
    ];
    let b2 = vec![trace(1, vec![frame("f", "a.py", 1)], false, false)];
    assert!(worker.step(&mut store, Message::Batch(b1, 50)));
    assert!(worker.step(&mut store, Message::Batch(b2, 150)));
    assert_eq!(store.trace_count(), 3);
    assert_eq!(store.trace_ms, vec![50, 50, 150]);
}

#[test]
fn resolve_boundaries() {
    let ms: Vec<u64> = vec![100, 200, 300];
    assert_eq!(resolve_index(&ms, 200), 1);
    assert_eq!(resolve_index(&ms, 100), 0);
    assert_eq!(resolve_index(&ms, 250), 1);
    assert_eq!(resolve_index(&ms, 50), 0);
    assert_eq!(resolve_index(&ms, 400), 2);
    let empty: Vec<u64> = vec![];
    assert_eq!(resolve_index(&empty, 7), 0);
}

#[test]
fn flame_order_independence() {
    let frames = vec![frame("inner", "a.py", 3), frame("outer", "a.py", 1)];
    let t1 = trace(1, frames.clone(), true, true);
    let t2 = trace(1, frames, true, false);
    let one_way = vec![t1.clone(), t2.clone()];
    let other_way = vec![t2, t1];
    let r1 = aggregate_traces(&one_way, false, false, false, false);
    let r2 = aggregate_traces(&other_way, false, false, false, false);
    assert!(trees_eq(&r1, &r2));
    // single path, every node weighing 2, the leaf childless
    assert_eq!(r1.count, 2);
    assert_eq!(r1.children.len(), 1);
    let outer = &r1.children[0];
    assert_eq!(outer.count, 2);
    assert_eq!(outer.children.len(), 1);
    let inner = &outer.children[0];
    assert_eq!(inner.count, 2);
    assert_eq!(inner.children.len(), 0);
}

#[test]
fn filters_exclude() {
    let traces = vec![
        trace(1, vec![frame("f", "a.py", 1)], true, true),
        trace(2, vec![frame("f", "a.py", 1)], true, false),
        trace(3, vec![frame("f", "a.py", 1)], false, true),
    ];
    assert_eq!(aggregate_traces(&traces, false, false, false, true).count, 1);
    assert_eq!(aggregate_traces(&traces, false, false, false, false).count, 2);
    assert_eq!(aggregate_traces(&traces, false, false, true, false).count, 3);
    assert_eq!(aggregate_traces(&traces, false, false, true, true).count, 2);
}

#[test]
fn series_lengths_never_diverge() {
    let mut store = fresh_store();
    let mut worker = Worker::new();
    let mut elapsed: u64 = 40;
    for round in 0..7 {
        let b = vec![
            trace(1, vec![frame("f", "a.py", 1)], round % 2 == 0, true),
            trace(2 + round, vec![frame("g", "b.py", 2)], true, false),
        ];
        assert!(worker.step(&mut store, Message::Batch(b, elapsed)));
        elapsed += 80;
    }
    assert!(store.stats.gil.len() > 0);
    for t in &store.stats.threads {
        assert_eq!(t.series.len(), store.stats.gil.len());
    }
}

#[test]
fn end_to_end_scenario() {
    let mut store = fresh_store();
    let mut worker = Worker::new();
    let b1 = vec![
        trace(0xa, vec![frame("fa", "a.py", 1)], true, true),
        trace(0xb, vec![frame("fb", "b.py", 2)], true, false),
        trace(0xc, vec![frame("fc", "c.py", 3)], false, false),
    ];
    assert!(worker.step(&mut store, Message::Batch(b1, 50)));
    // nothing flushed yet: the first bucket is still open
    assert_eq!(store.stats.gil.len(), 0);
    let b2 = vec![trace(0xa, vec![frame("fa", "a.py", 1)], false, false)];
    assert!(worker.step(&mut store, Message::Batch(b2, 150)));
    // the bucket [0, 100) flushed: one batch observed, one GIL holder
    assert_eq!(store.stats.gil, vec![Fraction { num: 1, den: 1 }]);
    assert_eq!(series_of(&store, 0xa), &vec![Fraction { num: 1, den: 1 }]);
    assert_eq!(series_of(&store, 0xb), &vec![Fraction { num: 1, den: 1 }]);
    assert_eq!(series_of(&store, 0xc), &vec![Fraction { num: 0, den: 1 }]);
    assert_eq!(store.trace_count(), 4);
}

#[test]
fn trace_id_bounds() {
    let mut store = fresh_store();
    let mut worker = Worker::new();
    let b = vec![
        trace(1, vec![frame("f", "a.py", 1)], true, true),
        trace(2, vec![frame("g", "b.py", 2)], true, false),
    ];
    assert!(worker.step(&mut store, Message::Batch(b, 10)));
    assert!(matches!(store.trace_by_index(2), Err(QueryError::InvalidRequest)));
    let last = store.trace_by_index(1).expect("in range");
    assert_eq!(last.thread_id, 2);
    assert_eq!(store.trace_by_index(0).expect("in range").thread_id, 1);
}

#[test]
fn zero_width_range_rejected() {
    let mut store = fresh_store();
    let mut worker = Worker::new();
    let b1 = vec![trace(1, vec![frame("f", "a.py", 1)], true, true)];
    let b2 = vec![trace(1, vec![frame("f", "a.py", 1)], true, true)];
    assert!(worker.step(&mut store, Message::Batch(b1, 100)));
    assert!(worker.step(&mut store, Message::Batch(b2, 200)));
    let r = store.range_aggregate(150, 150, false, false, true, false);
    assert!(matches!(r, Err(QueryError::InvalidRequest)));
    let empty = fresh_store();
    let r2 = empty.range_aggregate(0, 100, false, false, true, false);
    assert!(matches!(r2, Err(QueryError::InvalidRequest)));
}

#[test]
fn range_windows_partition() {
    let mut store = fresh_store();
    let mut worker = Worker::new();
    for (i, ts) in [100u64, 200, 300].iter().enumerate() {
        let b = vec![trace(i as u64, vec![frame("f", "a.py", 1)], true, true)];
        assert!(worker.step(&mut store, Message::Batch(b, *ts)));
    }
    let left = store.range_aggregate(100, 200, false, false, true, false).expect("valid");
    let right = store.range_aggregate(200, 300, false, false, true, false).expect("valid");
    let whole = store.range_aggregate(100, 300, false, false, true, false).expect("valid");
    assert_eq!(left.count + right.count, whole.count);
    assert_eq!(whole.count, 2);
}

#[test]
fn labels_merge_and_split() {
    let t1 = trace(1, vec![frame("f", "a.py", 3)], true, true);
    let t2 = trace(1, vec![frame("f", "a.py", 9)], true, true);
    let merged = aggregate_traces(&[t1.clone(), t2.clone()], false, false, false, false);
    assert_eq!(merged.children.len(), 1);
    assert_eq!(merged.children[0].count, 2);
    let split = aggregate_traces(&[t1, t2], true, false, false, false);
    assert_eq!(split.children.len(), 2);
    assert_eq!(split.children[0].count, 1);
    assert_eq!(split.children[1].count, 1);
}

#[test]
fn short_filename_preferred() {
    let mut f1 = frame("f", "/long/path/a.py", 4);
    f1.short_filename = Some("a.py".to_string());
    let mut f2 = frame("f", "/other/path/a.py", 4);
    f2.short_filename = Some("a.py".to_string());
    let t1 = trace(1, vec![f1], true, true);
    let t2 = trace(1, vec![f2], true, true);
    let tree = aggregate_traces(&[t1, t2], false, false, false, false);
    assert_eq!(tree.children.len(), 1);
    assert_eq!(tree.children[0].count, 2);
    match &tree.children[0].label {
        NodeLabel::Code { file, .. } => assert_eq!(file, "a.py"),
        other => panic!("unexpected label {:?}", other),
    }
}

#[test]
fn grouping_by_thread() {
    let t1 = trace(7, vec![frame("f", "a.py", 1)], true, true);
    let t2 = trace(8, vec![frame("f", "a.py", 1)], true, true);
    let t3 = trace(7, vec![frame("f", "a.py", 1)], true, true);
    let tree = aggregate_traces(&[t1, t2, t3], false, true, false, false);
    assert_eq!(tree.count, 3);
    assert_eq!(tree.children.len(), 2);
    let seven = child_by_thread(&tree, 7).expect("thread 7 grouped");
    let eight = child_by_thread(&tree, 8).expect("thread 8 grouped");
    assert_eq!(seven.count, 2);
    assert_eq!(eight.count, 1);
    assert_eq!(seven.children.len(), 1);
    assert_eq!(seven.children[0].count, 2);
}

#[test]
fn shutdown_stops_and_changes_nothing() {
    let mut store = fresh_store();
    let mut worker = Worker::new();
    let b = vec![trace(1, vec![frame("f", "a.py", 1)], true, true)];
    assert!(worker.step(&mut store, Message::Batch(b, 10)));
    let count = store.trace_count();
    assert!(!worker.step(&mut store, Message::Shutdown));
    assert_eq!(store.trace_count(), count);
    assert_eq!(store.stats.gil.len(), 0);
}

#[test]
fn mark_exited_flips_running() {
    let mut store = fresh_store();
    assert!(store.stats.running);
    store.mark_exited();
    assert!(!store.stats.running);
    assert_eq!(store.stats.python_command, "python script.py");
    assert_eq!(store.stats.version, "1.0");
    assert_eq!(store.stats.sampling_rate, 10);
}

#[test]
fn accepts_mirrors_limits() {
    let store = fresh_store();
    let worker = Worker::new();
    let b = vec![trace(1, vec![frame("f", "a.py", 1)], true, true)];
    assert!(worker.accepts(&store, &b, 50));
    assert!(!worker.accepts(&store, &b, u64::MAX));
}

#[test]
fn weights_count_traces_through_each_node() {
    // two traces share the caller "main" and then diverge
    let t1 = trace(1, vec![frame("work_a", "a.py", 5), frame("main", "m.py", 1)], true, true);
    let t2 = trace(1, vec![frame("work_b", "b.py", 9), frame("main", "m.py", 1)], true, true);
    let tree = aggregate_traces(&[t1, t2], false, false, false, false);
    assert_eq!(tree.count, 2);
    assert_eq!(tree.children.len(), 1);
    let main = &tree.children[0];
    assert_eq!(main.count, 2);
    assert_eq!(main.children.len(), 2);
    assert_eq!(main.children[0].count, 1);
    assert_eq!(main.children[1].count, 1);
}

#[test]
fn store_invariant_checkable() {
    let mut store = fresh_store();
    assert!(store.check_wf());
    let mut worker = Worker::new();
    let b = vec![trace(1, vec![frame("f", "a.py", 1)], true, true)];
    assert!(worker.step(&mut store, Message::Batch(b, 120)));
    assert!(store.check_wf());
    assert_eq!(store.stats_snapshot().python_command, "python script.py");
    // a store whose parallel sequences diverge is rejected
    store.trace_ms.push(7);
    assert!(!store.check_wf());
}

#[test]
fn flush_on_empty_bucket() {
    let mut store = fresh_store();
    let mut worker = Worker::new();
    // the first batch arrives after the first bucket already closed:
    // the flushed bucket saw no batch and reads 0 out of 1
    let b = vec![trace(1, vec![frame("f", "a.py", 1)], true, true)];
    assert!(worker.step(&mut store, Message::Batch(b, 250)));
    assert_eq!(store.stats.gil, vec![Fraction { num: 0, den: 1 }]);
}
