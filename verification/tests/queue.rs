use voxel_terrain::queue::Queue;

#[test]
fn push_then_slice() {
    let elems: Vec<i64> = vec![1, 2, 3];
    let mut q = Queue::new(32);
    q.push_all(elems.as_slice());
    assert!(q.len() == elems.len());
    let (l, h) = q.slices(0, q.len() - 1);
    assert!(l.len() + h.len() == elems.len() - 1);
    for (i, elem) in l.iter().enumerate() {
        assert!(*elem == elems[i]);
    }
    for (i, elem) in h.iter().enumerate() {
        assert!(*elem == elems[i + l.len()]);
    }
}

#[test]
fn push_then_pop() {
    let popped_pushes: Vec<i64> = vec![1, 2, 3];
    let more_pushes: Vec<i64> = vec![4, 5];
    let mut q = Queue::new(32);
    q.push_all(popped_pushes.as_slice());
    q.push_all(more_pushes.as_slice());
    assert!(q.len() == popped_pushes.len() + more_pushes.len());
    q.pop(popped_pushes.len());
    assert!(q.len() == more_pushes.len());
    let (l, h) = q.slices(0, q.len());
    assert!(l.len() + h.len() == more_pushes.len());
    for (i, elem) in l.iter().enumerate() {
        assert!(*elem == more_pushes[i]);
    }
    for (i, elem) in h.iter().enumerate() {
        assert!(*elem == more_pushes[i + l.len()]);
    }
}

#[test]
fn wrapped_pushes() {
    let capacity: usize = 32;
    let popped_pushes: Vec<i64> = vec![0; capacity / 2];
    let more_pushes: Vec<i64> = (1..=capacity as i64).collect();
    let mut q: Queue<i64> = Queue::new(capacity);
    q.push_all(popped_pushes.as_slice());
    q.pop(popped_pushes.len());
    q.push_all(more_pushes.as_slice());
    assert!(q.len() == more_pushes.len());
    let (l, h) = q.slices(0, q.len());
    assert!(l.len() + h.len() == more_pushes.len());
    assert!(h.len() > 0);
    for (i, elem) in l.iter().enumerate() {
        assert!(*elem == more_pushes[i]);
    }
    for (i, elem) in h.iter().enumerate() {
        assert!(*elem == more_pushes[i + l.len()]);
    }
}

#[test]
fn swap_remove_keeps_order_among_the_moved() {
    // Replace two elements in the middle with the last two, in order.
    let mut q: Queue<i64> = Queue::new(8);
    q.push_all(&[10, 11, 12, 13, 14, 15]);
    q.swap_remove(1, 2);
    assert_eq!(q.len(), 4);
    let (l, h) = q.slices(0, q.len());
    let collected: Vec<i64> = l.iter().chain(h.iter()).copied().collect();
    assert_eq!(collected, vec![10, 14, 15, 13]);
}

#[test]
fn swap_remove_of_the_tail_just_drops_it() {
    let mut q: Queue<i64> = Queue::new(8);
    q.push_all(&[1, 2, 3, 4]);
    q.swap_remove(2, 2);
    assert_eq!(q.len(), 2);
    let (l, h) = q.slices(0, q.len());
    let collected: Vec<i64> = l.iter().chain(h.iter()).copied().collect();
    assert_eq!(collected, vec![1, 2]);
}

#[test]
fn clear_empties_the_queue() {
    let mut q: Queue<i64> = Queue::new(4);
    q.push_all(&[1, 2, 3]);
    assert!(!q.is_empty());
    q.clear();
    assert!(q.is_empty());
    assert_eq!(q.len(), 0);
    // The queue is usable again after clearing.
    q.push(9);
    assert_eq!(q.get(0), 9);
}
