use bheap::{BinaryMaxHeap, Uid};

#[derive(Debug, Clone, Copy, PartialEq, Eq, PartialOrd, Ord)]
struct Task {
    priority: u32,
    id: u64,
}

impl Uid for Task {
    fn spec_uid(&self) -> u64 {
        self.id
    }

    fn uid(&self) -> u64 {
        self.id
    }
}

fn index_consistent<T: Ord + Uid + Copy>(heap: &mut BinaryMaxHeap<T>) -> bool {
    let mut result = true;
    for i in 0..heap.len() {
        let elem = *heap.get(i).unwrap();
        result = result && heap.index_in_heap(&elem) == Some(i);
        result = result && heap.index_in_heap_from_uid(elem.uid()) == Some(i);
    }
    result
}

fn slots<T: Ord + Uid + Copy>(heap: &mut BinaryMaxHeap<T>) -> Vec<T> {
    let mut out = Vec::new();
    for i in 0..heap.len() {
        out.push(*heap.get(i).unwrap());
    }
    out
}

fn heap_ordered<T: Ord + Uid + Copy>(heap: &mut BinaryMaxHeap<T>) -> bool {
    let s = slots(heap);
    (1..s.len()).all(|c| s[c] <= s[(c - 1) / 2])
}

#[test]
fn empty_binary_max_heap() {
    let mut heap = BinaryMaxHeap::<u32>::new();

    assert_eq!(heap.is_empty(), true);
    assert_eq!(heap.len(), 0);
    assert_eq!(heap.peek(), None);
    assert_eq!(heap.pop(), None);

    let mut heap = BinaryMaxHeap::from_vec(Vec::<u32>::with_capacity(10));

    assert_eq!(heap.is_empty(), true);
    assert_eq!(heap.len(), 0);
    assert_eq!(heap.peek(), None);
    assert_eq!(heap.pop(), None);
}

#[test]
fn binary_max_heap_from_vec_with_elems() {
    let mut heap = BinaryMaxHeap::from_vec(vec![1u32, 7, 2, 5, 10, 9]);
    assert_eq!(heap.peek(), Some(&10));
    assert_eq!(heap.pop(), Some(10));

    assert_eq!(heap.peek(), Some(&9));
    assert_eq!(heap.pop(), Some(9));

    assert_eq!(heap.peek(), Some(&7));
    assert_eq!(heap.pop(), Some(7));

    assert_eq!(heap.peek(), Some(&5));
    assert_eq!(heap.pop(), Some(5));

    assert_eq!(heap.peek(), Some(&2));
    assert_eq!(heap.pop(), Some(2));

    assert_eq!(heap.peek(), Some(&1));
    assert_eq!(heap.pop(), Some(1));

    assert_eq!(heap.peek(), None);
    assert_eq!(heap.pop(), None);
}

#[test]
fn push_peek_pop_index_correctness() {
    let mut heap = BinaryMaxHeap::<u32>::new();

    heap.push(1);
    assert_eq!(heap.peek(), Some(&1));
    assert!(index_consistent(&mut heap));

    heap.push(7);
    assert_eq!(heap.peek(), Some(&7));
    assert!(index_consistent(&mut heap));

    heap.push(2);
    assert_eq!(heap.peek(), Some(&7));
    assert!(index_consistent(&mut heap));

    heap.push(5);
    assert_eq!(heap.peek(), Some(&7));
    assert!(index_consistent(&mut heap));

    heap.push(10);
    assert_eq!(heap.peek(), Some(&10));
    assert!(index_consistent(&mut heap));

    heap.push(9);
    assert_eq!(heap.peek(), Some(&10));
    assert!(index_consistent(&mut heap));

    assert_eq!(heap.peek(), Some(&10));
    assert_eq!(heap.pop(), Some(10));
    assert!(index_consistent(&mut heap));

    assert_eq!(heap.peek(), Some(&9));
    assert_eq!(heap.pop(), Some(9));
    assert!(index_consistent(&mut heap));

    assert_eq!(heap.peek(), Some(&7));
    assert_eq!(heap.pop(), Some(7));
    assert!(index_consistent(&mut heap));

    assert_eq!(heap.peek(), Some(&5));
    assert_eq!(heap.pop(), Some(5));
    assert!(index_consistent(&mut heap));

    assert_eq!(heap.peek(), Some(&2));
    assert_eq!(heap.pop(), Some(2));
    assert!(index_consistent(&mut heap));

    assert_eq!(heap.peek(), Some(&1));
    assert_eq!(heap.pop(), Some(1));
    assert!(index_consistent(&mut heap));

    assert_eq!(heap.peek(), None);
    assert_eq!(heap.pop(), None);
    assert!(index_consistent(&mut heap));
}

#[test]
fn heap_property_and_index_after_every_operation() {
    let mut heap = BinaryMaxHeap::from_vec(vec![4u32, 15, 8, 23, 42, 16, 3]);
    assert!(heap_ordered(&mut heap));
    assert!(index_consistent(&mut heap));
    for x in [11u32, 1, 50, 9] {
        heap.push(x);
        assert!(heap_ordered(&mut heap));
        assert!(index_consistent(&mut heap));
    }
    while heap.pop().is_some() {
        assert!(heap_ordered(&mut heap));
        assert!(index_consistent(&mut heap));
    }
    assert_eq!(heap.len(), 0);
}

#[test]
fn pops_come_out_sorted_descending() {
    let input = vec![31u32, 4, 15, 92, 65, 35, 89, 79, 32, 38, 46, 26, 43];
    let mut heap = BinaryMaxHeap::from_vec(input.clone());
    let mut out = Vec::new();
    while let Some(x) = heap.pop() {
        out.push(x);
    }
    let mut expected = input;
    expected.sort();
    expected.reverse();
    assert_eq!(out, expected);
    assert!(heap.is_empty());
}

#[test]
fn push_then_pop_round_trip() {
    let mut heap = BinaryMaxHeap::<u32>::new();
    for x in [3u32, 8, 1, 9, 4, 7, 2] {
        heap.push(x);
    }
    assert_eq!(heap.len(), 7);
    let mut out = Vec::new();
    for _ in 0..7 {
        out.push(heap.pop().unwrap());
    }
    assert_eq!(out, vec![9, 8, 7, 4, 3, 2, 1]);
    assert!(heap.is_empty());
    assert_eq!(heap.index_in_heap_from_uid(9), None);
}

#[test]
fn from_vec_keeps_an_existing_heap() {
    let ordered = vec![10u32, 9, 7, 5, 2, 1];
    let mut heap = BinaryMaxHeap::from_vec(ordered.clone());
    assert_eq!(slots(&mut heap), ordered);

    let mut shuffled = BinaryMaxHeap::from_vec(vec![2u32, 5, 1, 10, 7, 9]);
    assert!(heap_ordered(&mut shuffled));
    let mut a = slots(&mut shuffled);
    let mut b = ordered;
    a.sort();
    b.sort();
    assert_eq!(a, b);
}

#[test]
fn build_heap_on_a_heap_changes_nothing() {
    let mut heap = BinaryMaxHeap::from_vec(vec![6u32, 3, 5, 1, 2, 4]);
    let before = slots(&mut heap);
    heap.build_index();
    heap.build_heap();
    assert_eq!(slots(&mut heap), before);
    assert!(index_consistent(&mut heap));
}

#[test]
fn restore_after_raising_priority_moves_up() {
    let tasks: Vec<Task> = (0..7).map(|i| Task { priority: 10 * i as u32, id: i }).collect();
    let mut heap = BinaryMaxHeap::from_vec(tasks);
    let slot = heap.index_in_heap_from_uid(2).unwrap();
    heap.get(slot).unwrap().priority = 100;
    let moved = heap.restore_heap_property(slot);
    assert_eq!(moved, Some(0));
    assert_eq!(heap.peek(), Some(&Task { priority: 100, id: 2 }));
    assert!(heap_ordered(&mut heap));
    assert!(index_consistent(&mut heap));
}

#[test]
fn restore_after_lowering_priority_moves_down() {
    let tasks: Vec<Task> = (0..7).map(|i| Task { priority: 10 * i as u32, id: i }).collect();
    let mut heap = BinaryMaxHeap::from_vec(tasks);
    assert_eq!(heap.peek(), Some(&Task { priority: 60, id: 6 }));
    heap.get(0).unwrap().priority = 0;
    let moved = heap.restore_heap_property(0);
    let slot = moved.unwrap();
    assert!(slot > 0);
    assert_eq!(heap.index_in_heap_from_uid(6), Some(slot));
    assert_eq!(heap.peek(), Some(&Task { priority: 50, id: 5 }));
    assert!(heap_ordered(&mut heap));
    assert!(index_consistent(&mut heap));
    let mut out = Vec::new();
    while let Some(t) = heap.pop() {
        out.push(t.id);
    }
    assert_eq!(out, vec![5, 4, 3, 2, 1, 6, 0]);
}

#[test]
fn restore_without_change_or_out_of_range_returns_none() {
    let mut heap = BinaryMaxHeap::from_vec(vec![1u32, 7, 2, 5, 10, 9]);
    let before = slots(&mut heap);
    assert_eq!(heap.restore_heap_property(3), None);
    assert_eq!(heap.restore_heap_property(6), None);
    assert_eq!(heap.restore_heap_property(100), None);
    assert_eq!(slots(&mut heap), before);
}

#[test]
fn lookups_by_uid_and_element() {
    let mut heap = BinaryMaxHeap::from_vec(vec![1u32, 7, 2, 5, 10, 9]);
    assert_eq!(heap.index_in_heap_from_uid(10), Some(0));
    assert_eq!(heap.index_in_heap(&10), Some(0));
    assert_eq!(heap.index_in_heap_from_uid(3), None);
    assert_eq!(heap.index_in_heap(&3), None);
    let slot = heap.index_in_heap(&5).unwrap();
    assert_eq!(heap.get(slot).copied(), Some(5));
    assert!(heap.get(6).is_none());
    assert!(heap.get(100).is_none());
}

#[test]
fn equal_priorities_keep_both_elements() {
    let mut heap = BinaryMaxHeap::from_vec(vec![
        Task { priority: 5, id: 1 },
        Task { priority: 5, id: 2 },
        Task { priority: 5, id: 3 },
    ]);
    assert!(index_consistent(&mut heap));
    let mut ids = Vec::new();
    while let Some(t) = heap.pop() {
        assert_eq!(t.priority, 5);
        ids.push(t.id);
    }
    assert_eq!(ids, vec![3, 2, 1]);
}

#[derive(Debug, Clone, Copy)]
struct Job {
    priority: u32,
    id: u64,
}

impl PartialEq for Job {
    fn eq(&self, other: &Job) -> bool {
        self.priority == other.priority
    }
}

impl Eq for Job {}

impl PartialOrd for Job {
    fn partial_cmp(&self, other: &Job) -> Option<std::cmp::Ordering> {
        Some(self.cmp(other))
    }
}

impl Ord for Job {
    fn cmp(&self, other: &Job) -> std::cmp::Ordering {
        self.priority.cmp(&other.priority)
    }
}

impl Uid for Job {
    fn spec_uid(&self) -> u64 {
        self.id
    }

    fn uid(&self) -> u64 {
        self.id
    }
}

fn ids(heap: &mut BinaryMaxHeap<Job>) -> Vec<u64> {
    slots(heap).iter().map(|j| j.id).collect()
}

#[test]
fn sift_down_prefers_left_child_on_tie() {
    let mut heap = BinaryMaxHeap::from_vec(vec![
        Job { priority: 1, id: 0 },
        Job { priority: 5, id: 1 },
        Job { priority: 5, id: 2 },
    ]);
    assert_eq!(ids(&mut heap), vec![1, 0, 2]);
}

#[test]
fn push_tying_the_root_leaves_the_root() {
    let mut heap = BinaryMaxHeap::from_vec(vec![Job { priority: 5, id: 1 }]);
    heap.push(Job { priority: 5, id: 2 });
    assert_eq!(ids(&mut heap), vec![1, 2]);
    assert_eq!(heap.peek().map(|j| j.id), Some(1));
}

#[test]
fn push_changes_only_the_ancestor_path() {
    let mut heap = BinaryMaxHeap::from_vec(vec![10u32, 9, 8, 7, 6, 5, 4]);
    heap.push(11);
    assert_eq!(slots(&mut heap), vec![11, 10, 8, 9, 6, 5, 4, 7]);
    assert_eq!(heap.index_in_heap(&11), Some(0));
}

#[test]
fn pop_moves_last_to_root_and_sifts_down() {
    let mut heap = BinaryMaxHeap::from_vec(vec![10u32, 9, 8, 7, 6, 5, 4]);
    assert_eq!(heap.pop(), Some(10));
    assert_eq!(slots(&mut heap), vec![9, 7, 8, 4, 6, 5]);
    assert!(index_consistent(&mut heap));
}

#[test]
fn restore_in_order_element_returns_none() {
    let tasks: Vec<Task> = (0..7).map(|i| Task { priority: 10 * i as u32, id: i }).collect();
    let mut heap = BinaryMaxHeap::from_vec(tasks);
    let before = slots(&mut heap);
    let slot = heap.index_in_heap_from_uid(3).unwrap();
    heap.get(slot).unwrap().priority = 31;
    assert_eq!(heap.restore_heap_property(slot), None);
    let after = slots(&mut heap);
    for k in 0..after.len() {
        if k != slot {
            assert_eq!(after[k], before[k]);
        }
    }
}
