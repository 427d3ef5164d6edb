use relvar::gc::{GarbageCollector, HeapObject};
use relvar::garbage_collector::{GarbageCollector as Sweeper, HeapCell};

fn setup_gc() -> GarbageCollector {
    let objects = vec![
        HeapObject { id: 1, size: 10 },
        HeapObject { id: 2, size: 20 },
        HeapObject { id: 3, size: 30 },
        HeapObject { id: 4, size: 40 },
        HeapObject { id: 5, size: 50 },
    ];
    let roots = vec![1];
    let pointers = vec![(1, 2), (2, 3), (4, 5)];
    GarbageCollector::new(objects, pointers, roots)
}

#[test]
fn test_compute_reachable() {
    let gc = setup_gc();
    let reachable = gc.compute_reachable();
    assert_eq!(reachable.len(), 3);
    assert!(reachable.contains(&1));
    assert!(reachable.contains(&2));
    assert!(reachable.contains(&3));
    assert!(!reachable.contains(&4));
}

#[test]
fn test_compute_garbage() {
    let gc = setup_gc();
    let garbage = gc.compute_garbage();
    assert_eq!(garbage.len(), 2);
    assert!(garbage.contains(&HeapObject { id: 4, size: 40 }));
    assert!(garbage.contains(&HeapObject { id: 5, size: 50 }));
    assert!(!garbage.contains(&HeapObject { id: 3, size: 30 }));
}

#[test]
fn test_collect_garbage() {
    let mut gc = setup_gc();
    gc.collect_garbage();
    assert_eq!(gc.objects.len(), 3);
    assert_eq!(gc.pointers.len(), 2);
    assert!(!gc.objects.contains(&HeapObject { id: 4, size: 40 }));
    assert!(!gc.pointers.contains(&(4, 5)));
}

#[test]
fn collection_leaves_no_garbage() {
    let mut gc = setup_gc();
    gc.collect_garbage();
    assert!(gc.compute_garbage().is_empty());
}

#[test]
fn cycles_terminate() {
    let gc = GarbageCollector::new(
        vec![HeapObject { id: 1, size: 1 }, HeapObject { id: 2, size: 1 }, HeapObject { id: 3, size: 1 }],
        vec![(1, 2), (2, 1), (3, 3)],
        vec![1],
    );
    let mut reachable = gc.compute_reachable();
    reachable.sort();
    assert_eq!(reachable, vec![1, 2]);
    assert_eq!(gc.compute_garbage(), vec![HeapObject { id: 3, size: 1 }]);
}

#[test]
fn test_mark_and_sweep() {
    let roots = vec![1];
    let heap = vec![
        HeapCell { address: 1, size: 10 },
        HeapCell { address: 2, size: 20 },
        HeapCell { address: 3, size: 30 },
        HeapCell { address: 4, size: 40 },
        HeapCell { address: 5, size: 50 },
        HeapCell { address: 6, size: 60 },
    ];
    let references = vec![(1, 2), (2, 3), (4, 5)];
    let gc = Sweeper::new(roots, heap, references);
    let garbage = gc.mark_and_sweep();
    assert_eq!(garbage.len(), 3);
    let mut g_addrs: Vec<i64> = garbage.iter().map(|c| c.address).collect();
    g_addrs.sort();
    assert_eq!(g_addrs, vec![4, 5, 6]);
}
