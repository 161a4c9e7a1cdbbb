use std::cell::RefCell;
use std::mem::drop;
use std::rc::Rc;

use shredder::collector::{Collector, DestructionPolicy, QueuedDrop};
use shredder::smart_ptr::Gc;

#[derive(Debug)]
struct DirectedGraphNode {
    label: String,
}

/// Carry out the destruction effects the collector handed back, as the
/// background dropper does: run the destructor, run the finalizer instead,
/// or leave the value untouched.
fn enact_drops(events: Vec<QueuedDrop<Finalizable>>) {
    for ev in events {
        let QueuedDrop { value, policy, deallocated, .. } = ev;
        assert!(deallocated);
        match policy {
            DestructionPolicy::RunDestructor => drop(value),
            DestructionPolicy::RunFinalizer => {
                value.finalize();
                std::mem::forget(value);
            }
            DestructionPolicy::NoOp => std::mem::forget(value),
        }
    }
}

struct Finalizable {
    tracker: Rc<RefCell<String>>,
    _marker: String,
}

impl Finalizable {
    fn finalize(&self) {
        *self.tracker.borrow_mut() = String::from("finalized");
    }
}

impl Drop for Finalizable {
    fn drop(&mut self) {
        *self.tracker.borrow_mut() = String::from("dropped");
    }
}

#[test]
fn alloc_u32_gc() {
    let mut c: Collector<u32> = Collector::new();
    assert_eq!(c.tracked_data_count(), 0);

    let val = 7;

    let gc_ptr = Gc::new(&mut c, val);
    assert_eq!(*gc_ptr.get(&c).value(), val);
    c.drop_handle(&gc_ptr.internal_handle());

    c.collect();
    assert_eq!(c.tracked_data_count(), 0);
}

#[test]
fn alloc_directed_graph_node_gc() {
    let mut c: Collector<DirectedGraphNode> = Collector::new();
    assert_eq!(c.tracked_data_count(), 0);

    let node = DirectedGraphNode { label: "A".to_string() };

    let gc_ptr = Gc::new(&mut c, node);
    assert_eq!(gc_ptr.get(&c).value().label, "A");
    c.drop_handle(&gc_ptr.internal_handle());

    c.collect();
    assert_eq!(c.tracked_data_count(), 0);
}

#[test]
fn clone_directed_graph_node_gc() {
    let mut c: Collector<DirectedGraphNode> = Collector::new();
    assert_eq!(c.tracked_data_count(), 0);
    assert_eq!(c.handle_count(), 0);

    let node = DirectedGraphNode { label: "A".to_string() };

    let gc_ptr_one = Gc::new(&mut c, node);
    let gc_ptr_two = c.clone_handle(&gc_ptr_one.internal_handle());
    assert_eq!(c.tracked_data_count(), 1);
    assert_eq!(c.handle_count(), 2);

    assert_eq!(gc_ptr_one.get(&c).value().label, "A");
    let gc_ptr_two_view: Gc<DirectedGraphNode> =
        Gc { backing_handle: gc_ptr_two, marker: std::marker::PhantomData };
    assert_eq!(gc_ptr_two_view.get(&c).value().label, "A");
    c.drop_handle(&gc_ptr_one.internal_handle());
    c.drop_handle(&gc_ptr_two);

    c.collect();
    assert_eq!(c.tracked_data_count(), 0);
}

#[test]
fn clone_directed_graph_chain_gc() {
    let mut c: Collector<DirectedGraphNode> = Collector::new();
    assert_eq!(c.tracked_data_count(), 0);
    assert_eq!(c.handle_count(), 0);

    let node = DirectedGraphNode { label: "A".to_string() };

    let gc_ptr_one = Gc::new(&mut c, node);
    let gc_ptr_two = c.clone_handle(&gc_ptr_one.internal_handle());
    assert_eq!(c.tracked_data_count(), 1);
    assert_eq!(c.handle_count(), 2);

    assert_eq!(gc_ptr_one.get(&c).value().label, "A");
    let gc_ptr_two_view: Gc<DirectedGraphNode> =
        Gc { backing_handle: gc_ptr_two, marker: std::marker::PhantomData };
    assert_eq!(gc_ptr_two_view.get(&c).value().label, "A");

    // Give the node an edge back to itself through a fresh handle, forming
    // a cycle: the value now owns that handle.
    let inner = c.clone_handle(&gc_ptr_one.internal_handle());
    c.set_edges(&gc_ptr_two, vec![inner.handle_id]);

    c.drop_handle(&gc_ptr_one.internal_handle());
    c.drop_handle(&gc_ptr_two);

    c.collect();
    assert_eq!(c.tracked_data_count(), 0);
}

#[test]
fn scan_skip_problem() {
    let mut c: Collector<DirectedGraphNode> = Collector::new();
    assert_eq!(c.tracked_data_count(), 0);
    let root_con = Gc::new(&mut c, DirectedGraphNode { label: "root".to_string() });
    println!("root {:?}", root_con.internal_handle());

    let hidden = Gc::new(&mut c, DirectedGraphNode { label: "hidden".to_string() });
    println!("hidden {:?}", hidden.internal_handle());
    let hider = Gc::new(&mut c, DirectedGraphNode { label: "hider".to_string() });
    println!("hider {:?}", hider.internal_handle());
    {
        let hidden_clone_1 = c.clone_handle(&hidden.internal_handle());
        println!("hidden clone 1 {:?}", hidden_clone_1);
        c.set_edges(&root_con.internal_handle(), vec![hidden_clone_1.handle_id]);
        let hidden_clone_2 = c.clone_handle(&hidden.internal_handle());
        println!("hidden clone 2 {:?}", hidden_clone_2);
        c.set_edges(&hider.internal_handle(), vec![hidden_clone_2.handle_id]);
    }
    c.drop_handle(&hidden.internal_handle());
    c.drop_handle(&hider.internal_handle());

    // An in-flight access: the root's value is in use while we collect.
    let root_blocker = c.get_data_warrant(&root_con.internal_handle());
    c.collect();
    assert_eq!(c.tracked_data_count(), 2);

    c.release_warrant(root_blocker);
    c.drop_handle(&root_con.internal_handle());

    c.collect();
    assert_eq!(c.tracked_data_count(), 0);
}

#[test]
fn drop_run() {
    let mut c: Collector<Finalizable> = Collector::new();
    let tracker = Rc::new(RefCell::new(String::from("none")));
    let to_drop = Gc::new(
        &mut c,
        Finalizable {
            tracker: tracker.clone(),
            _marker: String::from("a static string, safe in drop :)"),
        },
    );
    c.drop_handle(&to_drop.internal_handle());
    c.collect();
    enact_drops(c.synchronize_destructors());
    assert_eq!(&*tracker.borrow(), "dropped");
    assert_eq!(c.tracked_data_count(), 0);
}

#[test]
fn finalizers_run() {
    let mut c: Collector<Finalizable> = Collector::new();
    let tracker = Rc::new(RefCell::new(String::from("none")));
    let s = String::from("just a temp string");
    let to_drop = Gc::new_with_finalizer(
        &mut c,
        Finalizable { tracker: tracker.clone(), _marker: s },
    );
    c.drop_handle(&to_drop.internal_handle());
    c.collect();
    enact_drops(c.synchronize_destructors());
    assert_eq!(&*tracker.borrow(), "finalized");
    assert_eq!(c.tracked_data_count(), 0);
}

#[test]
fn no_drop_functional() {
    let mut c: Collector<Finalizable> = Collector::new();
    let tracker = Rc::new(RefCell::new(String::from("none")));
    let s = String::from("just a temp string");
    let to_drop = Gc::new_no_drop(
        &mut c,
        Finalizable { tracker: tracker.clone(), _marker: s },
    );
    c.drop_handle(&to_drop.internal_handle());
    c.collect();
    enact_drops(c.synchronize_destructors());
    assert_eq!(&*tracker.borrow(), "none");
    assert_eq!(c.tracked_data_count(), 0);
}

#[test]
fn cyclic_graph_reclaimed() {
    // Two nodes that reference each other are unreachable once the outer
    // handles are gone, and a collection reclaims both.
    let mut c: Collector<DirectedGraphNode> = Collector::new();
    let a = Gc::new(&mut c, DirectedGraphNode { label: "A".to_string() });
    let b = Gc::new(&mut c, DirectedGraphNode { label: "B".to_string() });
    let a_edge = c.clone_handle(&b.internal_handle());
    let b_edge = c.clone_handle(&a.internal_handle());
    c.set_edges(&a.internal_handle(), vec![a_edge.handle_id]);
    c.set_edges(&b.internal_handle(), vec![b_edge.handle_id]);
    assert_eq!(c.tracked_data_count(), 2);
    c.drop_handle(&a.internal_handle());
    c.drop_handle(&b.internal_handle());
    c.collect();
    assert_eq!(c.tracked_data_count(), 0);
    assert_eq!(c.handle_count(), 0);
}

#[test]
fn clone_then_drop_restores_counts() {
    // Cloning handles and dropping the clones leaves the registry as it was.
    let mut c: Collector<u32> = Collector::new();
    let gc = Gc::new(&mut c, 11);
    let before_handles = c.handle_count();
    let before_data = c.tracked_data_count();
    let c1 = c.clone_handle(&gc.internal_handle());
    let c2 = c.clone_handle(&gc.internal_handle());
    let c3 = c.clone_handle(&gc.internal_handle());
    assert_eq!(c.handle_count(), before_handles + 3);
    c.drop_handle(&c3);
    c.drop_handle(&c2);
    c.drop_handle(&c1);
    assert_eq!(c.handle_count(), before_handles);
    assert_eq!(c.tracked_data_count(), before_data);
    c.drop_handle(&gc.internal_handle());
    c.collect();
    assert_eq!(c.tracked_data_count(), 0);
}

#[test]
fn trigger_formula_exact() {
    // With a baseline of 40 and a 75% allowance the threshold is 70:
    // 70 does not trigger, 71 does.  Below the floor of 10 the baseline is
    // treated as 10, so 17 allocations do not trigger but 18 do.
    let mut t = shredder::trigger::Trigger::new();
    t.set_data_count_after_collection(40);
    assert!(!t.should_collect(70));
    assert!(t.should_collect(71));
    t.set_data_count_after_collection(0);
    assert!(!t.should_collect(17));
    assert!(t.should_collect(18));
    t.set_trigger_percent(200);
    t.set_data_count_after_collection(40);
    assert!(!t.should_collect(120));
    assert!(t.should_collect(121));
}

#[test]
fn check_then_collect_consults_trigger() {
    let mut c: Collector<u32> = Collector::new();
    // Fresh collector: baseline 0 is floored to 10, so a single tracked
    // value does not warrant a collection.
    let gc = Gc::new(&mut c, 1);
    assert!(!c.check_then_collect());
    assert_eq!(c.tracked_data_count(), 1);
    // Many unreachable values exceed the floored threshold.
    let mut garbage = Vec::new();
    for i in 0..30 {
        garbage.push(Gc::new(&mut c, i));
    }
    for g in &garbage {
        c.drop_handle(&g.internal_handle());
    }
    assert!(c.check_then_collect());
    assert_eq!(c.tracked_data_count(), 1);
    assert_eq!(*gc.get(&c).value(), 1);
}

#[test]
fn warrant_counts_balance() {
    let mut c: Collector<u32> = Collector::new();
    let gc = Gc::new(&mut c, 5);
    let w1 = c.get_data_warrant(&gc.internal_handle());
    let w2 = c.get_data_warrant(&gc.internal_handle());
    // The value is in use: a collection keeps it even with no live handle.
    c.drop_handle(&gc.internal_handle());
    c.collect();
    assert_eq!(c.tracked_data_count(), 1);
    c.release_warrant(w1);
    c.release_warrant(w2);
    c.collect();
    assert_eq!(c.tracked_data_count(), 0);
}

#[test]
fn synchronize_destructors_sets_deallocated() {
    let mut c: Collector<u32> = Collector::new();
    let gc = Gc::new(&mut c, 9);
    c.drop_handle(&gc.internal_handle());
    c.collect();
    let events = c.synchronize_destructors();
    assert_eq!(events.len(), 1);
    assert_eq!(events[0].policy, DestructionPolicy::RunDestructor);
    assert_eq!(events[0].value, 9);
    assert!(events[0].deallocated);
    // The queue is drained: a second barrier finds nothing.
    assert_eq!(c.synchronize_destructors().len(), 0);
}
