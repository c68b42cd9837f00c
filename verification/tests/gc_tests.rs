use tracing_gc::CollectReport;
use tracing_gc::TracingGC;
use tracing_gc::Value;

fn ids(report: &CollectReport) -> (Vec<usize>, Vec<usize>) {
    (report.retained.clone(), report.collected.clone())
}

#[test]
fn scenario_chain_rooted_then_unrooted() {
    let mut gc: TracingGC<Value> = TracingGC::new();
    let obj1 = gc.allocate(Value { value: 1, next: None });
    assert_eq!(obj1.id(), 0);
    let obj2 = gc.allocate(Value {
        value: 2,
        next: Some(obj1),
    });
    assert_eq!(obj2.id(), 1);
    gc.add_root(1);
    let report = gc.collect();
    let (retained, collected) = ids(&report);
    assert_eq!(retained, vec![0, 1]);
    assert_eq!(collected, Vec::<usize>::new());
    gc.remove_root(1);
    let report = gc.collect();
    let (retained, collected) = ids(&report);
    assert_eq!(retained, Vec::<usize>::new());
    assert_eq!(collected, vec![0, 1]);
}

#[test]
fn cycle_unrooted_is_collected() {
    let mut gc: TracingGC<Value> = TracingGC::new();
    let a = gc.allocate(Value { value: 1, next: None });
    let b = gc.allocate(Value {
        value: 2,
        next: Some(a),
    });
    // close the cycle: a now references b as well
    let updated = gc.update(
        a.id(),
        Value {
            value: 1,
            next: Some(b),
        },
    );
    assert!(updated);
    let report = gc.collect();
    assert_eq!(report.retained, Vec::<usize>::new());
    assert_eq!(report.collected, vec![0, 1]);
}

#[test]
fn cycle_rooted_is_retained() {
    let mut gc: TracingGC<Value> = TracingGC::new();
    let a = gc.allocate(Value { value: 1, next: None });
    let b = gc.allocate(Value {
        value: 2,
        next: Some(a),
    });
    gc.update(
        a.id(),
        Value {
            value: 1,
            next: Some(b),
        },
    );
    gc.add_root(a.id());
    let report = gc.collect();
    assert_eq!(report.retained, vec![0, 1]);
    assert_eq!(report.collected, Vec::<usize>::new());
}

#[test]
fn self_cycle_follows_its_root() {
    let mut gc: TracingGC<Value> = TracingGC::new();
    let a = gc.allocate(Value { value: 9, next: None });
    gc.update(
        a.id(),
        Value {
            value: 9,
            next: Some(a),
        },
    );
    let report = gc.collect();
    assert_eq!(report.collected, vec![0]);
    let b = gc.allocate(Value { value: 3, next: None });
    gc.update(
        b.id(),
        Value {
            value: 3,
            next: Some(b),
        },
    );
    gc.add_root(b.id());
    let report = gc.collect();
    assert_eq!(report.retained, vec![b.id()]);
    assert_eq!(report.collected, Vec::<usize>::new());
}

#[test]
fn second_collect_collects_nothing() {
    let mut gc: TracingGC<Value> = TracingGC::new();
    let a = gc.allocate(Value { value: 1, next: None });
    let b = gc.allocate(Value {
        value: 2,
        next: Some(a),
    });
    let _c = gc.allocate(Value { value: 3, next: None });
    gc.add_root(b.id());
    let first = gc.collect();
    assert_eq!(first.retained, vec![0, 1]);
    assert_eq!(first.collected, vec![2]);
    let second = gc.collect();
    assert_eq!(second.retained, first.retained);
    assert_eq!(second.collected.len(), 0);
}

#[test]
fn shared_child_is_retained_and_reported_once() {
    let mut gc: TracingGC<Value> = TracingGC::new();
    let child = gc.allocate(Value { value: 0, next: None });
    let p1 = gc.allocate(Value {
        value: 1,
        next: Some(child),
    });
    let p2 = gc.allocate(Value {
        value: 2,
        next: Some(child),
    });
    gc.add_root(p1.id());
    gc.add_root(p2.id());
    let report = gc.collect();
    assert_eq!(report.retained, vec![child.id(), p1.id(), p2.id()]);
    assert_eq!(
        report
            .retained
            .iter()
            .filter(|&&id| id == child.id())
            .count(),
        1
    );
    assert_eq!(report.collected, Vec::<usize>::new());
}

#[test]
fn removing_sole_root_collects_its_subgraph() {
    let mut gc: TracingGC<Value> = TracingGC::new();
    let shared = gc.allocate(Value { value: 0, next: None });
    let a = gc.allocate(Value {
        value: 1,
        next: Some(shared),
    });
    let b = gc.allocate(Value {
        value: 2,
        next: Some(shared),
    });
    gc.add_root(a.id());
    gc.add_root(b.id());
    let report = gc.collect();
    assert_eq!(report.retained, vec![0, 1, 2]);
    gc.remove_root(a.id());
    let report = gc.collect();
    // a's subgraph goes, minus the part independently rooted through b
    assert_eq!(report.retained, vec![0, 2]);
    assert_eq!(report.collected, vec![1]);
}

#[test]
fn identifiers_are_distinct_and_strictly_increasing() {
    let mut gc: TracingGC<Value> = TracingGC::new();
    let mut prev: Option<usize> = None;
    for i in 0..10 {
        let h = gc.allocate(Value {
            value: i as i32,
            next: None,
        });
        assert_eq!(h.id(), i);
        if let Some(p) = prev {
            assert!(p < h.id());
        }
        prev = Some(h.id());
    }
}

#[test]
fn stale_and_repeated_root_edits_are_no_ops() {
    let mut gc: TracingGC<Value> = TracingGC::new();
    // a root that was never allocated is tolerated and silently skipped
    gc.add_root(42);
    let a = gc.allocate(Value { value: 1, next: None });
    gc.add_root(a.id());
    gc.add_root(a.id());
    // removing an absent root is a no-op
    gc.remove_root(7);
    let report = gc.collect();
    assert_eq!(report.retained, vec![a.id()]);
    assert_eq!(report.collected, Vec::<usize>::new());
}

#[test]
fn collect_on_empty_heap() {
    let mut gc: TracingGC<Value> = TracingGC::new();
    let report = gc.collect();
    assert_eq!(report.retained, Vec::<usize>::new());
    assert_eq!(report.collected, Vec::<usize>::new());
}

#[test]
fn lookup_tracks_eviction_not_handles() {
    let mut gc: TracingGC<Value> = TracingGC::new();
    let a = gc.allocate(Value { value: 5, next: None });
    assert_eq!(gc.lookup(a.id()).map(|v| v.value), Some(5));
    assert!(gc.lookup(1).is_none());
    let report = gc.collect();
    assert_eq!(report.collected, vec![a.id()]);
    // the handle still names the id, but the table entry is gone
    assert_eq!(a.id(), 0);
    assert!(gc.lookup(a.id()).is_none());
}

#[test]
fn update_rewires_edges_between_collections() {
    let mut gc: TracingGC<Value> = TracingGC::new();
    let a = gc.allocate(Value { value: 1, next: None });
    let b = gc.allocate(Value {
        value: 2,
        next: Some(a),
    });
    gc.add_root(b.id());
    let report = gc.collect();
    assert_eq!(report.retained, vec![0, 1]);
    // drop b's edge to a; a is no longer reachable
    let updated = gc.update(b.id(), Value { value: 2, next: None });
    assert!(updated);
    // updating an evicted or unknown id reports false
    assert!(!gc.update(17, Value { value: 0, next: None }));
    let report = gc.collect();
    assert_eq!(report.retained, vec![b.id()]);
    assert_eq!(report.collected, vec![a.id()]);
}
