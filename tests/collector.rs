use basedrop::{Collector, Node, Owned};
use std::sync::atomic::{AtomicUsize, Ordering};
use std::sync::Arc;

struct Test(Arc<AtomicUsize>);

impl Drop for Test {
    fn drop(&mut self) {
        self.0.fetch_add(1, Ordering::Relaxed);
    }
}

#[test]
fn collector_many_producers_in_turn() {
    let counter = Arc::new(AtomicUsize::new(0));
    let mut collector: Collector<Test> = Collector::new();
    let handle = collector.handle();
    let mut handles = Vec::new();
    for _ in 0..100 {
        handles.push(handle.duplicate(&mut collector));
    }
    assert_eq!(collector.handle_count(), 101);
    for h in handles {
        for _ in 0..100 {
            let node = Node::allocate(&h, &mut collector, Test(counter.clone()));
            Node::queue_drop(&mut collector, node);
        }
        collector.collect();
        h.release(&mut collector);
    }
    collector.collect();
    assert_eq!(counter.load(Ordering::Relaxed), 10000);
    assert_eq!(collector.alloc_count(), 0);
    assert_eq!(collector.handle_count(), 1);
    handle.release(&mut collector);
    assert!(collector.try_cleanup().is_ok());
}

#[test]
fn single_producer_single_consumer() {
    let mut collector = Collector::new();
    let handle = collector.handle();
    let o1 = Owned::new(&handle, &mut collector, 1);
    let o2 = Owned::new(&handle, &mut collector, 2);
    let o3 = Owned::new(&handle, &mut collector, 3);
    assert_eq!(collector.alloc_count(), 3);
    o1.release(&mut collector);
    o2.release(&mut collector);
    o3.release(&mut collector);
    assert!(collector.collect_one());
    assert!(collector.collect_one());
    assert!(collector.collect_one());
    assert!(!collector.collect_one());
    assert_eq!(collector.alloc_count(), 0);
}

#[test]
fn reclaims_in_queue_order() {
    let mut collector = Collector::new();
    let handle = collector.handle();
    let a = Node::allocate(&handle, &mut collector, 1);
    let b = Node::allocate(&handle, &mut collector, 2);
    Node::queue_drop(&mut collector, b);
    Node::queue_drop(&mut collector, a);
    assert!(collector.collect_one());
    // `b` went first; its place is handed out again
    let c = Node::allocate(&handle, &mut collector, 3);
    assert_eq!(c, b);
    assert!(collector.collect_one());
    assert!(!collector.collect_one());
    assert_eq!(collector.alloc_count(), 1);
}

#[test]
fn fresh_collector() {
    let mut collector: Collector<u32> = Collector::new();
    assert_eq!(collector.handle_count(), 0);
    assert_eq!(collector.alloc_count(), 0);
    assert!(!collector.collect_one());
    assert!(collector.try_cleanup().is_ok());
}

#[test]
fn try_cleanup_gating() {
    let mut collector = Collector::new();
    let handle = collector.handle();
    let x = Owned::new(&handle, &mut collector, 3);

    let result = collector.try_cleanup();
    assert!(result.is_err());
    let mut collector = result.unwrap_err();
    assert_eq!(collector.handle_count(), 1);
    assert_eq!(collector.alloc_count(), 1);

    handle.release(&mut collector);
    let result = collector.try_cleanup();
    assert!(result.is_err());
    let mut collector = result.unwrap_err();

    x.release(&mut collector);
    collector.collect();
    assert!(collector.try_cleanup().is_ok());
}

#[test]
fn collect_twice_is_collect_once() {
    let counter = Arc::new(AtomicUsize::new(0));
    let mut collector = Collector::new();
    let handle = collector.handle();
    let kept = Owned::new(&handle, &mut collector, Test(counter.clone()));
    for _ in 0..5 {
        Owned::new(&handle, &mut collector, Test(counter.clone())).release(&mut collector);
    }
    collector.collect();
    assert_eq!(counter.load(Ordering::Relaxed), 5);
    assert_eq!(collector.alloc_count(), 1);
    collector.collect();
    assert_eq!(counter.load(Ordering::Relaxed), 5);
    assert_eq!(collector.alloc_count(), 1);
    kept.release(&mut collector);
    collector.collect();
    assert_eq!(counter.load(Ordering::Relaxed), 6);
}

#[test]
fn handle_counting() {
    let mut collector: Collector<u8> = Collector::new();
    let h1 = collector.handle();
    let h2 = h1.duplicate(&mut collector);
    let x = Node::allocate(&h2, &mut collector, 9);
    let h3 = Node::handle(&mut collector, x);
    assert_eq!(collector.handle_count(), 3);
    h1.release(&mut collector);
    h2.release(&mut collector);
    assert_eq!(collector.handle_count(), 1);
    h3.release(&mut collector);
    assert_eq!(collector.handle_count(), 0);
}

#[test]
fn owned_deref_and_mutate() {
    let mut collector = Collector::new();
    let handle = collector.handle();
    let mut o = Owned::new(&handle, &mut collector, vec![1, 2]);
    o.deref_mut(&mut collector).push(3);
    assert_eq!(o.deref(&collector), &vec![1, 2, 3]);
    o.release(&mut collector);
    collector.collect();
    assert_eq!(collector.alloc_count(), 0);
}

#[test]
fn sentinel_recirculates_between_rounds() {
    let mut collector = Collector::new();
    let handle = collector.handle();
    for round in 0..3u32 {
        for i in 0..4u32 {
            Owned::new(&handle, &mut collector, round * 10 + i).release(&mut collector);
        }
        for _ in 0..4 {
            assert!(collector.collect_one());
        }
        assert!(!collector.collect_one());
    }
    assert_eq!(collector.alloc_count(), 0);
}

#[test]
fn owned_duplicate_clones_payload() {
    let mut collector = Collector::new();
    let handle = collector.handle();
    let mut a = Owned::new(&handle, &mut collector, vec![1u8, 2]);
    let b = a.duplicate(&mut collector);
    assert_eq!(collector.alloc_count(), 2);
    assert_eq!(collector.handle_count(), 1);
    a.deref_mut(&mut collector).push(3);
    assert_eq!(b.deref(&collector), &vec![1u8, 2]);
    assert_eq!(a.deref(&collector), &vec![1u8, 2, 3]);
    a.release(&mut collector);
    b.release(&mut collector);
    collector.collect();
    assert_eq!(collector.alloc_count(), 0);
}
