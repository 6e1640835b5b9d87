use keamogetswe::heap::MinHeap;

#[test]
fn heap_pops_in_key_order() {
    let mut h = MinHeap::new();
    assert!(h.is_empty());
    let keys = [50u64, 3, 17, 3, 99, 0, 42, 8, 8, 1000, 5];
    for (i, k) in keys.iter().enumerate() {
        h.push((*k, i));
    }
    assert_eq!(h.len(), keys.len());
    let mut out = Vec::new();
    while let Some(e) = h.pop() {
        out.push(e.0);
    }
    let mut sorted = keys.to_vec();
    sorted.sort();
    assert_eq!(out, sorted);
    assert!(h.is_empty());
    assert_eq!(h.pop(), None);
}

#[test]
fn heap_returns_what_was_pushed() {
    let mut h = MinHeap::new();
    h.push((7, 3));
    assert_eq!(h.pop(), Some((7, 3)));
    assert_eq!(h.pop(), None);
}

#[test]
fn heap_interleaved_push_pop() {
    let mut h = MinHeap::new();
    h.push((10, 1));
    h.push((4, 2));
    assert_eq!(h.pop(), Some((4, 2)));
    h.push((6, 3));
    h.push((12, 4));
    assert_eq!(h.pop(), Some((6, 3)));
    assert_eq!(h.pop(), Some((10, 1)));
    assert_eq!(h.len(), 1);
    assert_eq!(h.pop(), Some((12, 4)));
}

#[test]
fn heap_many_entries_sorted() {
    let mut h = MinHeap::new();
    let mut x: u64 = 12345;
    let mut all = Vec::new();
    for i in 0..500usize {
        x = x.wrapping_mul(6364136223846793005).wrapping_add(1442695040888963407);
        let k = x >> 40;
        all.push(k);
        h.push((k, i));
    }
    all.sort();
    for k in all {
        assert_eq!(h.pop().unwrap().0, k);
    }
}
