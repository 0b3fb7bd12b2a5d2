//! The heap itself: a buffer of elements and the index of their slots,
//! changed together by every operation.
use crate::heap_spec::{
    built_from, children_ok, edge_ok, heap_except, heap_from, heap_from_except,
    in_order_at, index_consistent, index_within, is_heap, is_max_of, landing, larger_child,
    lemma_child_off_path, lemma_heap_except_closed,
    lemma_heap_from_except_closed, lemma_moved_down_step, lemma_moved_up_step,
    lemma_parent_off_path, lemma_path_to_self, lemma_root_is_max, lemma_sift_down_step, lemma_sift_up_step, moved_down,
    moved_up, parent, popped, sifted_down, sifted_up, swapped, uids_distinct,
};
use crate::order::{gt, is_total_order, le, lemma_le_total, lemma_le_trans};
use crate::Uid;
use std::cmp::Ordering;
use std::collections::HashMap;
use vstd::prelude::*;
use vstd::std_specs::cmp::OrdSpec;

verus! {

broadcast use vstd::std_specs::hash::group_hash_axioms;

/// A re-prioritizable binary max heap: a buffer of elements and an index
/// from element identifiers to their positions in the buffer.
pub struct BinaryMaxHeap<T> where T: Ord + Uid {
    buffer: Vec<T>,
    index: HashMap<u64, usize>,
}

impl<T> View for BinaryMaxHeap<T> where T: Ord + Uid {
    type V = Seq<T>;

    closed spec fn view(&self) -> Seq<T> {
        self.buffer@
    }
}

impl<T> BinaryMaxHeap<T> where T: Ord + Uid {
    /// The index: identifier to slot.
    pub closed spec fn positions(&self) -> Map<u64, usize> {
        self.index@
    }

    /// The index agrees with the buffer.
    pub open spec fn index_ok(&self) -> bool {
        index_consistent(self@, self.positions())
    }

    /// The heap's invariant: the max-heap property and a consistent index.
    pub open spec fn wf(&self) -> bool {
        &&& is_heap(self@)
        &&& self.index_ok()
    }

    /// Creates an empty binary max heap with no elements.
    pub fn new() -> (h: Self)
        ensures
            h.wf(),
            h@ == Seq::<T>::empty(),
            h.positions() == Map::<u64, usize>::empty(),
    {
        BinaryMaxHeap { buffer: Vec::new(), index: HashMap::new() }
    }

    /// Whether the heap holds no element.
    pub fn is_empty(&self) -> (r: bool)
        ensures
            r == (self@.len() == 0),
    {
        self.buffer.len() == 0
    }

    /// The number of elements in the heap.
    pub fn len(&self) -> (r: usize)
        ensures
            r == self@.len(),
    {
        self.buffer.len()
    }

    /// Swaps the elements at slots `i` and `j`, and their index entries with
    /// them.
    fn swap_elems_at_indices(&mut self, i: usize, j: usize)
        requires
            i < old(self)@.len(),
            j < old(self)@.len(),
            old(self).index_ok(),
        ensures
            final(self)@ == swapped(old(self)@, i as int, j as int),
            final(self)@.to_multiset() == old(self)@.to_multiset(),
            final(self).index_ok(),
    {
        let ghost s = self@;
        let ui = self.buffer[i].uid();
        let uj = self.buffer[j].uid();
        self.index.insert(ui, j);
        self.index.insert(uj, i);
        swap_slots(&mut self.buffer, i, j);
        proof {
            broadcast use vstd::seq_lib::group_to_multiset_ensures;

            let t = s.update(i as int, s[j as int]);
            assert(t.to_multiset() == s.to_multiset().insert(s[j as int]).remove(s[i as int]));
            assert(t.update(j as int, s[i as int]).to_multiset() == t.to_multiset().insert(
                s[i as int],
            ).remove(t[j as int]));
            assert(s.to_multiset().contains(s[i as int]));
            assert(s.to_multiset().contains(s[j as int]));
            assert(self@.to_multiset() =~= s.to_multiset());
        }
    }

    /// Compares the elements at slots `i` and `j`.
    fn cmp(&self, i: usize, j: usize) -> (r: Ordering)
        requires
            i < self@.len(),
            j < self@.len(),
            T::obeys_cmp_spec(),
        ensures
            r == self@[i as int].cmp_spec(&self@[j as int]),
    {
        self.buffer[i].cmp(&self.buffer[j])
    }

    /// Sets the index entry of the element at slot `i` to `i`, returning the
    /// entry it replaced; `None` where `i` is out of range.
    fn update_index(&mut self, i: usize) -> (r: Option<usize>)
        ensures
            final(self)@ == old(self)@,
            i >= old(self)@.len() ==> r is None && final(self).positions() == old(self).positions(),
            i < old(self)@.len() ==> final(self).positions() == old(self).positions().insert(
                old(self)@[i as int].spec_uid(),
                i,
            ) && r == (if old(self).positions().contains_key(old(self)@[i as int].spec_uid()) {
                Some(old(self).positions()[old(self)@[i as int].spec_uid()])
            } else {
                None
            }),
    {
        if i >= self.buffer.len() {
            return None;
        }
        self.index.insert(self.buffer[i].uid(), i)
    }

    /// Moves the element at slot `idx` up towards the root while it is
    /// strictly above its parent. Returns the slot where it came to rest, or
    /// `None` where it did not move.
    fn heapify_up(&mut self, idx: usize) -> (r: Option<usize>)
        requires
            idx < old(self)@.len(),
            old(self).index_ok(),
            is_total_order::<T>(),
        ensures
            final(self).index_ok(),
            final(self)@.to_multiset() == old(self)@.to_multiset(),
            sifted_up(old(self)@, final(self)@, idx as int, landing(r, idx)),
            r is None <==> !(idx > 0 && gt(old(self)@[idx as int], old(self)@[parent(idx as int)])),
            r is None ==> final(self)@ == old(self)@,
            r matches Some(j) ==> j < idx,
            heap_except(old(self)@, idx as int) && r is Some ==> is_heap(final(self)@),
    {
        let ghost s0 = self@;
        let mut i: usize = idx;
        proof {
            lemma_path_to_self(idx as int);
        }
        while i > 0
            invariant
                i <= idx < self@.len(),
                self@.len() == s0.len(),
                self.index_ok(),
                is_total_order::<T>(),
                self@.to_multiset() == s0.to_multiset(),
                moved_up(s0, self@, idx as int, i as int),
                heap_except(s0, idx as int) ==> heap_except(self@, i as int),
                heap_except(s0, idx as int) && i != idx ==> children_ok(self@, i as int),
                i == idx ==> self@ == s0,
                i != idx ==> idx > 0 && gt(s0[idx as int], s0[parent(idx as int)]),
            ensures
                i == 0 || !gt(s0[idx as int], s0[parent(i as int)]),
            decreases i,
        {
            let parent: usize = (i - 1) / 2;
            proof {
                lemma_parent_off_path(i as int, idx as int);
            }
            if let Ordering::Greater = self.cmp(i, parent) {
                proof {
                    lemma_moved_up_step(s0, self@, idx as int, i as int);
                    if heap_except(s0, idx as int) {
                        lemma_sift_up_step(self@, i as int);
                    }
                }
                self.swap_elems_at_indices(i, parent);
                i = parent;
            } else {
                break;
            }
        }
        proof {
            if i > 0 {
                lemma_parent_off_path(i as int, idx as int);
            }
        }
        if i != idx {
            proof {
                if heap_except(s0, idx as int) {
                    lemma_heap_except_closed(self@, i as int);
                }
            }
            Some(i)
        } else {
            None
        }
    }

    /// Moves the element at slot `idx` down towards the leaves while one of
    /// its children is strictly above it, exchanging it with the larger child
    /// (the left one on a tie). Returns the slot where it came to rest, or
    /// `None` where it did not move (also where `idx` has no child).
    fn heapify_dn(&mut self, idx: usize, Ghost(lo): Ghost<int>) -> (r: Option<usize>)
        requires
            0 <= lo <= idx,
            old(self).index_ok(),
            is_total_order::<T>(),
        ensures
            final(self).index_ok(),
            final(self)@.to_multiset() == old(self)@.to_multiset(),
            final(self)@.len() == old(self)@.len(),
            idx < old(self)@.len() ==> sifted_down(
                old(self)@,
                final(self)@,
                idx as int,
                landing(r, idx),
            ),
            r is None <==> children_ok(old(self)@, idx as int),
            r is None ==> final(self)@ == old(self)@,
            r matches Some(j) ==> idx < j,
            heap_from_except(old(self)@, lo, idx as int) ==> heap_from(final(self)@, lo),
    {
        let ghost s0 = self@;
        let n = self.buffer.len();
        let mut i: usize = idx;
        proof {
            lemma_path_to_self(idx as int);
        }
        while i < n / 2
            invariant
                0 <= lo <= idx <= i,
                n == self@.len() == s0.len(),
                self.index_ok(),
                is_total_order::<T>(),
                self@.to_multiset() == s0.to_multiset(),
                idx < n ==> i < n && moved_down(s0, self@, idx as int, i as int),
                heap_from_except(s0, lo, idx as int) ==> heap_from_except(self@, lo, i as int),
                i == idx ==> self@ == s0,
                i != idx ==> !children_ok(s0, idx as int),
            ensures
                children_ok(self@, i as int),
            decreases n - i,
        {
            let mut max: usize = i;
            let lc: usize = 2 * i + 1;
            let rc: usize = 2 * i + 2;
            proof {
                crate::order::lemma_le_refl(self@[i as int]);
                lemma_child_off_path(idx as int, i as int, lc as int);
                lemma_child_off_path(idx as int, i as int, rc as int);
            }
            if lc < n {
                proof {
                    lemma_le_total(self@[max as int], self@[lc as int]);
                }
                if let Ordering::Less = self.cmp(max, lc) {
                    max = lc;
                }
            }
            assert(le(self@[i as int], self@[max as int]));
            assert(lc < n ==> le(self@[lc as int], self@[max as int]));
            if rc < n {
                proof {
                    lemma_le_total(self@[max as int], self@[rc as int]);
                    lemma_le_total(self@[lc as int], self@[rc as int]);
                }
                if let Ordering::Less = self.cmp(max, rc) {
                    proof {
                        lemma_le_trans(self@[i as int], self@[max as int], self@[rc as int]);
                        lemma_le_trans(self@[lc as int], self@[max as int], self@[rc as int]);
                        if max == i {
                            lemma_le_total(self@[rc as int], self@[i as int]);
                            if !(s0[lc as int].cmp_spec(&s0[rc as int]) == Ordering::Less) {
                                lemma_le_trans(self@[rc as int], self@[lc as int], self@[i as int]);
                            }
                        }
                    }
                    max = rc;
                }
            }
            assert forall|c: int| 0 < c < n && parent(c) == i implies le(
                #[trigger] self@[c],
                self@[max as int],
            ) by {
                assert(c == lc || c == rc);
            }
            if i != max {
                proof {
                    lemma_le_total(self@[max as int], self@[i as int]);
                    if i == idx && children_ok(s0, idx as int) {
                        assert(edge_ok(s0, max as int));
                    }
                    assert(max == larger_child(s0, i as int));
                    lemma_moved_down_step(s0, self@, idx as int, i as int, max as int);
                    if heap_from_except(s0, lo, idx as int) {
                        lemma_sift_down_step(self@, lo, i as int, max as int);
                    }
                }
                self.swap_elems_at_indices(i, max);
                i = max;
            } else {
                break;
            }
        }
        proof {
            if heap_from_except(s0, lo, idx as int) {
                lemma_heap_from_except_closed(self@, lo, i as int);
            }
            assert forall|c: int| 0 < c < n && parent(c) == i implies !gt(
                #[trigger] s0[c],
                s0[idx as int],
            ) by {
                assert(edge_ok(self@, c));
                if idx < n {
                    lemma_child_off_path(idx as int, i as int, c);
                }
            }
        }
        if i != idx {
            Some(i)
        } else {
            None
        }
    }

    /// Returns a mutable reference to the element at the given position, if
    /// present. The identifier of the element must not be changed through it.
    pub fn get(&mut self, i: usize) -> (r: Option<&mut T>)
        ensures
            i >= old(self)@.len() ==> r is None && final(self)@ == old(self)@,
            i < old(self)@.len() ==> r is Some && *r.unwrap() == old(self)@[i as int]
                && final(self)@ == old(self)@.update(i as int, *final(r.unwrap())),
            final(self).positions() == old(self).positions(),
    {
        if i >= self.buffer.len() {
            return None;
        }
        Some(&mut self.buffer[i])
    }

    /// Pushes a new element into this priority queue. No element already in
    /// the heap may share its identifier.
    pub fn push(&mut self, elem: T)
        requires
            old(self).wf(),
            is_total_order::<T>(),
            forall|i: int|
                0 <= i < old(self)@.len() ==> #[trigger] old(self)@[i].spec_uid() != elem.spec_uid(),
        ensures
            final(self).wf(),
            final(self)@.to_multiset() == old(self)@.to_multiset().insert(elem),
            sifted_up(
                old(self)@.push(elem),
                final(self)@,
                old(self)@.len() as int,
                final(self).positions()[elem.spec_uid()] as int,
            ),
    {
        let ghost s0 = self@;
        let idx = self.buffer.len();
        self.buffer.push(elem);
        self.update_index(idx);
        proof {
            broadcast use vstd::seq_lib::group_to_multiset_ensures;

            assert(self@ == s0.push(elem));
            assert(!old(self).positions().contains_key(elem.spec_uid())) by {
                if old(self).positions().contains_key(elem.spec_uid()) {
                    let k = elem.spec_uid();
                    assert(s0[old(self).positions()[k] as int].spec_uid() == k);
                }
            }
            assert(self.index_ok());
            assert(heap_except(self@, idx as int)) by {
                assert forall|c: int| 0 < c < self@.len() && c != idx && parent(c) != idx implies #[trigger] edge_ok(self@, c) by {
                    assert(edge_ok(s0, c));
                }
            }
        }
        let moved = self.heapify_up(idx);
        proof {
            if moved is None {
                lemma_heap_except_closed(self@, idx as int);
            }
        }
    }

    /// Peeks at the element with the highest priority, if present.
    pub fn peek(&self) -> (r: Option<&T>)
        ensures
            r is None <==> self@.len() == 0,
            r matches Some(e) ==> *e == self@[0] && (is_total_order::<T>() && is_heap(self@)
                ==> is_max_of(*e, self@)),
    {
        if self.is_empty() {
            return None;
        }
        proof {
            if is_total_order::<T>() && is_heap(self@) {
                lemma_root_is_max(self@);
            }
        }
        Some(&self.buffer[0])
    }

    /// Pops the element with the highest priority, if present.
    pub fn pop(&mut self) -> (r: Option<T>)
        requires
            old(self).wf(),
            is_total_order::<T>(),
        ensures
            final(self).wf(),
            old(self)@.len() == 0 ==> r is None && final(self)@ == old(self)@,
            old(self)@.len() > 0 ==> popped(old(self)@, r.unwrap(), final(self)@) && r
                == Some(old(self)@[0]),
            old(self)@.len() > 1 ==> sifted_down(
                old(self)@.update(0, old(self)@.last()).drop_last(),
                final(self)@,
                0,
                final(self).positions()[old(self)@.last().spec_uid()] as int,
            ),
    {
        if self.is_empty() {
            return None;
        }
        let ghost s0 = self@;
        let ghost m0 = self.positions();
        proof {
            lemma_root_is_max(s0);
        }
        let elem = self.buffer.swap_remove(0);
        self.index.remove(&elem.uid());
        self.update_index(0);
        proof {
            broadcast use vstd::seq_lib::group_to_multiset_ensures;

            let n = s0.len();
            let t = s0.update(0, s0[n - 1]);
            assert(self@ =~= t.remove(n - 1));
            assert(t.to_multiset() == s0.to_multiset().insert(s0[n - 1]).remove(s0[0]));
            assert(t.remove(n - 1).to_multiset() == t.to_multiset().remove(t[n - 1]));
            assert(self@.to_multiset() =~= s0.to_multiset().remove(s0[0]));
            assert(self.index_ok()) by {
                assert forall|k: u64| #[trigger] self.positions().contains_key(k) implies self.positions()[k]
                    < self@.len() && self@[self.positions()[k] as int].spec_uid() == k by {
                    if k != s0[n - 1].spec_uid() {
                        assert(m0.contains_key(k));
                        assert(s0[m0[k] as int].spec_uid() == k);
                    }
                }
            }
            assert(heap_from_except(self@, 0, 0)) by {
                assert forall|c: int| 0 < c < self@.len() && parent(c) >= 0 && parent(c) != 0 implies #[trigger] edge_ok(self@, c) by {
                    assert(edge_ok(s0, c));
                }
            }
        }
        if !self.is_empty() {
            self.heapify_dn(0, Ghost(0));
        }
        Some(elem)
    }
    /// Builds the index from identifiers to slots: each element's entry is
    /// set to its slot.
    pub fn build_index(&mut self)
        requires
            uids_distinct(old(self)@),
            index_within(old(self)@, old(self).positions()),
        ensures
            final(self)@ == old(self)@,
            final(self).index_ok(),
    {
        let ghost s0 = self@;
        let n = self.buffer.len();
        let mut i: usize = 0;
        while i < n
            invariant
                i <= n == s0.len(),
                self@ == s0,
                uids_distinct(s0),
                index_within(s0, self.positions()),
                forall|j: int|
                    0 <= j < i ==> self.positions().contains_key(#[trigger] s0[j].spec_uid())
                        && self.positions()[s0[j].spec_uid()] == j,
            decreases n - i,
        {
            self.update_index(i);
            i += 1;
        }
        proof {
            let m = self.positions();
            assert forall|k: u64| #[trigger] m.contains_key(k) implies m[k] < s0.len()
                && s0[m[k] as int].spec_uid() == k by {
                let j = choose|j: int| 0 <= j < s0.len() && s0[j].spec_uid() == k;
                assert(m[s0[j].spec_uid()] == j);
            }
        }
    }

    /// Arranges the elements of the buffer into a heap: builds the index,
    /// then sifts down every slot that has a child, from the last one to the
    /// root.
    pub fn build_heap(&mut self)
        requires
            uids_distinct(old(self)@),
            index_within(old(self)@, old(self).positions()),
            is_total_order::<T>(),
        ensures
            final(self).wf(),
            built_from(old(self)@, final(self)@),
    {
        let ghost s0 = self@;
        self.build_index();
        let mut i: usize = self.buffer.len() / 2;
        assert(heap_from(self@, i as int)) by {
            assert forall|c: int| 0 < c < self@.len() && parent(c) >= i implies #[trigger] edge_ok(
                self@,
                c,
            ) by {
                assert(false);
            }
        }
        while i > 0
            invariant
                i <= self@.len(),
                self@.len() == s0.len(),
                self.index_ok(),
                is_total_order::<T>(),
                heap_from(self@, i as int),
                self@.to_multiset() == s0.to_multiset(),
                is_heap(s0) ==> self@ == s0,
            decreases i,
        {
            i -= 1;
            assert(heap_from_except(self@, i as int, i as int)) by {
                assert forall|c: int|
                    0 < c < self@.len() && parent(c) >= i && parent(c) != i implies #[trigger] edge_ok(
                    self@,
                    c,
                ) by {
                    assert(parent(c) >= i + 1);
                }
            }
            self.heapify_dn(i, Ghost(i as int));
        }
    }

    /// Creates a heap from a vector, which may or may not be empty: its
    /// elements are arranged with [`Self::build_heap`]. No two of them may
    /// share an identifier.
    pub fn from_vec(buffer: Vec<T>) -> (h: Self)
        requires
            uids_distinct(buffer@),
            is_total_order::<T>(),
        ensures
            h.wf(),
            built_from(buffer@, h@),
    {
        let mut bheap = BinaryMaxHeap { buffer, index: HashMap::new() };
        if !bheap.is_empty() {
            bheap.build_heap();
        }
        bheap
    }

    /// Restores the heap property at slot `idx`, after the priority of the
    /// element there changed: it is moved up if it is strictly above its
    /// parent, else down while a child is strictly above it. Returns the slot
    /// where it came to rest, or `None` where it did not move or `idx` is out
    /// of range.
    pub fn restore_heap_property(&mut self, idx: usize) -> (r: Option<usize>)
        requires
            old(self).index_ok(),
            heap_except(old(self)@, idx as int),
            is_total_order::<T>(),
        ensures
            final(self).wf(),
            final(self)@.to_multiset() == old(self)@.to_multiset(),
            r is None ==> final(self)@ == old(self)@,
            r matches Some(j) ==> idx < old(self)@.len() && j < old(self)@.len() && j != idx
                && final(self)@[j as int] == old(self)@[idx as int],
            idx < old(self)@.len() ==> (r is None <==> in_order_at(old(self)@, idx as int)),
            idx < old(self)@.len() && idx > 0 && gt(
                old(self)@[idx as int],
                old(self)@[parent(idx as int)],
            ) ==> (r matches Some(j) && j < idx && sifted_up(
                old(self)@,
                final(self)@,
                idx as int,
                j as int,
            )),
            idx < old(self)@.len() && !(idx > 0 && gt(
                old(self)@[idx as int],
                old(self)@[parent(idx as int)],
            )) ==> sifted_down(old(self)@, final(self)@, idx as int, landing(r, idx)),
    {
        if idx >= self.buffer.len() {
            return None;
        }
        match self.heapify_up(idx) {
            Some(j) => Some(j),
            None => {
                assert(heap_from_except(self@, 0, idx as int));
                self.heapify_dn(idx, Ghost(0))
            },
        }
    }

    /// Returns the slot of the element with the given identifier.
    pub fn index_in_heap_from_uid(&self, uid: u64) -> (r: Option<usize>)
        ensures
            r == (if self.positions().contains_key(uid) {
                Some(self.positions()[uid])
            } else {
                None
            }),
            self.index_ok() ==> match r {
                Some(i) => i < self@.len() && self@[i as int].spec_uid() == uid,
                None => forall|i: int| 0 <= i < self@.len() ==> #[trigger] self@[i].spec_uid() != uid,
            },
    {
        match self.index.get(&uid) {
            Some(p) => Some(*p),
            None => None,
        }
    }

    /// Returns the slot of the element with the identifier of `elem`.
    pub fn index_in_heap(&self, elem: &T) -> (r: Option<usize>)
        ensures
            r == (if self.positions().contains_key(elem.spec_uid()) {
                Some(self.positions()[elem.spec_uid()])
            } else {
                None
            }),
            self.index_ok() ==> match r {
                Some(i) => i < self@.len() && self@[i as int].spec_uid() == elem.spec_uid(),
                None => forall|i: int|
                    0 <= i < self@.len() ==> #[trigger] self@[i].spec_uid() != elem.spec_uid(),
            },
    {
        match self.index.get(&elem.uid()) {
            Some(p) => Some(*p),
            None => None,
        }
    }
}


/// Swaps the elements at slots `i` and `j` of `v`.
fn swap_slots<T>(v: &mut Vec<T>, i: usize, j: usize)
    requires
        i < old(v)@.len(),
        j < old(v)@.len(),
    ensures
        final(v)@ == swapped(old(v)@, i as int, j as int),
{
    if i == j {
        return;
    }
    let (lo, hi) = if i < j { (i, j) } else { (j, i) };
    let s = v.as_mut_slice();
    let (left, right) = s.split_at_mut(hi);
    let (_, mid) = left.split_at_mut(lo);
    match (mid.first_mut(), right.first_mut()) {
        (Some(a), Some(b)) => core::mem::swap(a, b),
        _ => {},
    }
    assert(final(v)@ =~= swapped(old(v)@, i as int, j as int));
}

} // verus!
