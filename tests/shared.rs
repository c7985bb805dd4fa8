use basedrop::{Collector, Shared, SharedCell, SharedInner};
use std::ops::Deref;
use std::sync::atomic::{AtomicUsize, Ordering};
use std::sync::{Arc, Mutex};

struct Test(Arc<AtomicUsize>);

impl Drop for Test {
    fn drop(&mut self) {
        self.0.fetch_add(1, Ordering::Relaxed);
    }
}

#[test]
fn shared() {
    let counter = Arc::new(AtomicUsize::new(0));

    let mut collector: Collector<SharedInner<Test>> = Collector::new();
    let handle = collector.handle();

    let shared = Shared::new(&handle, &mut collector, Test(counter.clone()));
    let mut copies = Vec::new();
    for _ in 0..10 {
        copies.push(shared.duplicate(&mut collector));
    }

    assert_eq!(counter.load(Ordering::Relaxed), 0);

    shared.release(&mut collector);
    for copy in copies {
        copy.release(&mut collector);
    }
    collector.collect();

    assert_eq!(counter.load(Ordering::Relaxed), 1);
}

#[test]
fn get_mut() {
    let mut collector = Collector::new();
    let mut x = Shared::new(&collector.handle(), &mut collector, 3);

    *Shared::get_mut(&mut x, &mut collector).unwrap() = 4;
    assert_eq!(*x.deref(&collector), 4);

    let _y = x.duplicate(&mut collector);
    assert!(Shared::get_mut(&mut x, &mut collector).is_none());
}

#[test]
fn test_a_shared_cell_will_hold_a_ref_to_the_target() {
    struct Flag(Arc<Mutex<bool>>);
    impl Drop for Flag {
        fn drop(&mut self) {
            let mut lock = self.0.lock().unwrap();
            *lock = true;
        }
    }
    let mut collector = Collector::new();
    let has_dropped = Arc::new(Mutex::new(false));
    let handle = collector.handle();
    let owned = SharedCell::new(Shared::new(&handle, &mut collector, Flag(has_dropped.clone())));
    collector.collect();
    assert_eq!(*has_dropped.lock().unwrap().deref(), false);
    let _shared = owned.get(&mut collector);
}

#[test]
fn shared_refcount_drops_payload_once() {
    let counter = Arc::new(AtomicUsize::new(0));
    let mut collector: Collector<SharedInner<Test>> = Collector::new();
    let handle = collector.handle();
    let s = Shared::new(&handle, &mut collector, Test(counter.clone()));
    let t = s.duplicate(&mut collector);
    assert_eq!(collector.alloc_count(), 1);
    s.release(&mut collector);
    assert!(!collector.collect_one());
    assert_eq!(counter.load(Ordering::Relaxed), 0);
    t.release(&mut collector);
    assert!(collector.collect_one());
    assert_eq!(counter.load(Ordering::Relaxed), 1);
    assert!(!collector.collect_one());
    assert_eq!(collector.alloc_count(), 0);
}

#[test]
fn get_mut_present_only_for_sole_reference() {
    let mut collector = Collector::new();
    let handle = collector.handle();
    let mut x = Shared::new(&handle, &mut collector, 10u32);
    assert!(Shared::get_mut(&mut x, &mut collector).is_some());
    let cell = SharedCell::new(x.duplicate(&mut collector));
    assert!(Shared::get_mut(&mut x, &mut collector).is_none());
    cell.release(&mut collector);
    assert_eq!(Shared::get_mut(&mut x, &mut collector).map(|v| *v), Some(10));
}

#[test]
fn cell_get_replace_set() {
    let mut collector = Collector::new();
    let handle = collector.handle();
    let a = Shared::new(&handle, &mut collector, 1u32);
    let mut cell = SharedCell::new(a);
    let got = cell.get(&mut collector);
    assert_eq!(*got.deref(&collector), 1);

    let b = Shared::new(&handle, &mut collector, 2u32);
    let old = cell.replace(b);
    assert_eq!(*old.deref(&collector), 1);
    let now = cell.get(&mut collector);
    assert_eq!(*now.deref(&collector), 2);

    let c = Shared::new(&handle, &mut collector, 3u32);
    cell.set(&mut collector, c);
    collector.collect();
    // `b` is still held by `now`
    assert_eq!(collector.alloc_count(), 3);
    now.release(&mut collector);
    collector.collect();
    assert_eq!(collector.alloc_count(), 2);

    let inner = cell.into_inner();
    assert_eq!(*inner.deref(&collector), 3);
    inner.release(&mut collector);
    old.release(&mut collector);
    got.release(&mut collector);
    collector.collect();
    assert_eq!(collector.alloc_count(), 0);
}

#[test]
fn cell_set_after_replace_restores() {
    let counter = Arc::new(AtomicUsize::new(0));
    let mut collector: Collector<SharedInner<Test>> = Collector::new();
    let handle = collector.handle();
    let mut cell = SharedCell::new(Shared::new(&handle, &mut collector, Test(counter.clone())));
    let x = Shared::new(&handle, &mut collector, Test(counter.clone()));
    let old = cell.replace(x);
    cell.set(&mut collector, old);
    collector.collect();
    // only the payload handed in was dropped; the cell's own is kept
    assert_eq!(counter.load(Ordering::Relaxed), 1);
    assert_eq!(collector.alloc_count(), 1);
    cell.release(&mut collector);
    collector.collect();
    assert_eq!(counter.load(Ordering::Relaxed), 2);
}

#[test]
fn cell_into_inner_then_new() {
    let mut collector = Collector::new();
    let handle = collector.handle();
    let cell = SharedCell::new(Shared::new(&handle, &mut collector, 7u8));
    let rebuilt = SharedCell::new(cell.into_inner());
    let v = rebuilt.get(&mut collector);
    assert_eq!(*v.deref(&collector), 7);
    v.release(&mut collector);
    rebuilt.release(&mut collector);
    collector.collect();
    assert_eq!(collector.alloc_count(), 0);
}
