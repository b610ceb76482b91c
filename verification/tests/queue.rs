use gtfs_heatmap_lib::gtfs_graph::queue::MinQueue;

#[test]
fn queue_gives_the_least_duration_first() {
    let mut queue = MinQueue::new();
    assert_eq!(queue.len(), 0);
    for (duration, stop) in [(50u64, 1usize), (10, 2), (40, 3), (10, 1), (0, 9), (70, 0), (40, 2)] {
        queue.push((duration, stop));
    }
    assert_eq!(queue.len(), 7);
    let mut out = Vec::new();
    while queue.len() > 0 {
        out.push(queue.pop());
    }
    assert_eq!(out, vec![(0, 9), (10, 1), (10, 2), (40, 2), (40, 3), (50, 1), (70, 0)]);
}

#[test]
fn queue_keeps_entries_that_come_twice() {
    let mut queue = MinQueue::new();
    queue.push((5, 5));
    queue.push((5, 5));
    queue.push((1, 7));
    assert_eq!(queue.pop(), (1, 7));
    assert_eq!(queue.pop(), (5, 5));
    assert_eq!(queue.len(), 1);
    assert_eq!(queue.pop(), (5, 5));
    assert_eq!(queue.len(), 0);
}

#[test]
fn queue_sorts_many_entries() {
    let mut queue = MinQueue::new();
    let mut expected = Vec::new();
    let mut seed: u64 = 12_345;
    for i in 0..500usize {
        seed = seed.wrapping_mul(6_364_136_223_846_793_005).wrapping_add(1_442_695_040_888_963_407);
        let entry = ((seed >> 40) % 97, i % 13);
        queue.push(entry);
        expected.push(entry);
        if i % 7 == 3 {
            expected.sort();
            assert_eq!(queue.pop(), expected.remove(0));
        }
    }
    expected.sort();
    for entry in expected {
        assert_eq!(queue.pop(), entry);
    }
    assert_eq!(queue.len(), 0);
}
