//! The mathematical model of a heap: a sequence of elements laid out as a
//! complete binary tree, and an index from identifiers to slots.
use crate::order::{gt, is_total_order, le, lemma_le_total, lemma_le_trans};
use crate::Uid;
use std::cmp::Ordering;
use vstd::prelude::*;
use vstd::std_specs::cmp::OrdSpec;

verus! {

/// The slot of the parent of slot `c` (for `c > 0`).
pub open spec fn parent(c: int) -> int {
    (c - 1) / 2
}

/// The element at slot `c` is at or below its parent.
pub open spec fn edge_ok<T: Ord>(s: Seq<T>, c: int) -> bool {
    le(s[c], s[parent(c)])
}

/// The element at slot `c` is at or below its grandparent.
pub open spec fn below_grandparent<T: Ord>(s: Seq<T>, c: int) -> bool {
    le(s[c], s[parent(parent(c))])
}

/// Every element whose parent sits at slot `lo` or later is at or below
/// that parent.
pub open spec fn heap_from<T: Ord>(s: Seq<T>, lo: int) -> bool {
    forall|c: int| 0 < c < s.len() && parent(c) >= lo ==> #[trigger] edge_ok(s, c)
}

/// The max-heap property: every element is at or below its parent.
pub open spec fn is_heap<T: Ord>(s: Seq<T>) -> bool {
    heap_from(s, 0)
}

/// The max-heap property holds for every parent at slot `lo` or later,
/// except possibly between slot `k` and its children; those children are at
/// or below `k`'s parent wherever that parent is at `lo` or later.
pub open spec fn heap_from_except<T: Ord>(s: Seq<T>, lo: int, k: int) -> bool {
    &&& forall|c: int|
        0 < c < s.len() && parent(c) >= lo && parent(c) != k ==> #[trigger] edge_ok(s, c)
    &&& forall|c: int|
        0 < c < s.len() && parent(c) == k && 0 < k && parent(k) >= lo
            ==> #[trigger] below_grandparent(s, c)
}

/// The max-heap property holds for every edge that does not touch slot `k`,
/// and `k`'s children are at or below `k`'s parent: the state of a heap
/// after the element at slot `k` was replaced by another.
pub open spec fn heap_except<T: Ord>(s: Seq<T>, k: int) -> bool {
    &&& forall|c: int| 0 < c < s.len() && c != k && parent(c) != k ==> #[trigger] edge_ok(s, c)
    &&& forall|c: int| 0 < c < s.len() && parent(c) == k && 0 < k ==> #[trigger] below_grandparent(s, c)
}

/// Each child of slot `k` is at or below the element at `k`.
pub open spec fn children_ok<T: Ord>(s: Seq<T>, k: int) -> bool {
    forall|c: int| 0 < c < s.len() && parent(c) == k ==> #[trigger] edge_ok(s, c)
}

/// `s` with the elements at slots `i` and `j` exchanged.
pub open spec fn swapped<T>(s: Seq<T>, i: int, j: int) -> Seq<T> {
    s.update(i, s[j]).update(j, s[i])
}

/// Every element of `s` is at or below `e`.
pub open spec fn is_max_of<T: Ord>(e: T, s: Seq<T>) -> bool {
    forall|i: int| 0 <= i < s.len() ==> le(#[trigger] s[i], e)
}

/// `after` is what remains of `before` once `e`, a largest element of
/// `before`, was taken out.
pub open spec fn popped<T: Ord>(before: Seq<T>, e: T, after: Seq<T>) -> bool {
    &&& before.contains(e)
    &&& is_max_of(e, before)
    &&& after.to_multiset() == before.to_multiset().remove(e)
}

/// `result` is a heap holding the elements of `input`, and equal to `input`
/// where that already was a heap.
pub open spec fn built_from<T: Ord>(input: Seq<T>, result: Seq<T>) -> bool {
    &&& is_heap(result)
    &&& result.to_multiset() == input.to_multiset()
    &&& is_heap(input) ==> result == input
}

/// The index `m` maps the identifier of the element at each slot to that
/// slot, and holds no other entry.
pub open spec fn index_consistent<T: Uid>(s: Seq<T>, m: Map<u64, usize>) -> bool {
    &&& forall|i: int|
        0 <= i < s.len() ==> m.contains_key(#[trigger] s[i].spec_uid()) && m[s[i].spec_uid()]
            == i
    &&& forall|k: u64|
        #[trigger] m.contains_key(k) ==> m[k] < s.len() && s[m[k] as int].spec_uid() == k
}

/// No two elements of `s` share an identifier.
pub open spec fn uids_distinct<T: Uid>(s: Seq<T>) -> bool {
    forall|i: int, j: int|
        0 <= i < s.len() && 0 <= j < s.len() && i != j ==> #[trigger] s[i].spec_uid()
            != #[trigger] s[j].spec_uid()
}

/// Every entry of the index `m` is the identifier of some element of `s`.
pub open spec fn index_within<T: Uid>(s: Seq<T>, m: Map<u64, usize>) -> bool {
    forall|k: u64| #[trigger] m.contains_key(k) ==> exists|i: int| 0 <= i < s.len() && s[i].spec_uid() == k
}

/// The slot `d` levels above slot `k` (`k` itself for `d == 0`).
pub open spec fn ancestor(k: int, d: nat) -> int
    decreases d,
{
    if d == 0 {
        k
    } else {
        parent(ancestor(k, (d - 1) as nat))
    }
}

/// Slot `a` is `k` or lies above it on its path to the root.
pub open spec fn is_ancestor(a: int, k: int) -> bool {
    exists|d: nat| #[trigger] ancestor(k, d) == a
}

/// Slot `c` lies on the tree path from slot `top` down to slot `bottom`,
/// both included.
pub open spec fn on_path(top: int, bottom: int, c: int) -> bool {
    is_ancestor(top, c) && is_ancestor(c, bottom)
}

/// The larger of the children of slot `p`, the left one on a tie.
pub open spec fn larger_child<T: Ord>(s: Seq<T>, p: int) -> int {
    if 2 * p + 2 < s.len() && s[2 * p + 1].cmp_spec(&s[2 * p + 2]) == Ordering::Less {
        2 * p + 2
    } else {
        2 * p + 1
    }
}

/// `new` is `old` with the element at slot `idx` moved up to its ancestor
/// `j`: each slot on the path between them, below `j`, holds the element
/// of its parent in `old`, which was strictly below the moved element; every
/// slot off that path is unchanged.
pub open spec fn moved_up<T: Ord>(old: Seq<T>, new: Seq<T>, idx: int, j: int) -> bool {
    &&& new.len() == old.len()
    &&& 0 <= j <= idx < old.len()
    &&& is_ancestor(j, idx)
    &&& new[j] == old[idx]
    &&& forall|c: int|
        0 <= c < old.len() && on_path(j, idx, c) && c != j ==> #[trigger] new[c] == old[parent(c)]
            && gt(old[idx], old[parent(c)])
    &&& forall|c: int| 0 <= c < old.len() && !on_path(j, idx, c) ==> #[trigger] new[c] == old[c]
}

/// As [`moved_up`], and the element stopped at the root or below a parent
/// that is not strictly below it.
pub open spec fn sifted_up<T: Ord>(old: Seq<T>, new: Seq<T>, idx: int, j: int) -> bool {
    &&& moved_up(old, new, idx, j)
    &&& j > 0 ==> !gt(old[idx], old[parent(j)])
}

/// `new` is `old` with the element at slot `idx` moved down to its
/// descendant `j`: each slot on the path between them, below `idx`, was
/// the larger child of its parent in `old` (the left one on a tie), was
/// strictly above the moved element, and now holds its parent's place; every
/// slot off that path is unchanged.
pub open spec fn moved_down<T: Ord>(old: Seq<T>, new: Seq<T>, idx: int, j: int) -> bool {
    &&& new.len() == old.len()
    &&& 0 <= idx <= j < old.len()
    &&& is_ancestor(idx, j)
    &&& new[j] == old[idx]
    &&& forall|c: int|
        0 <= c < old.len() && on_path(idx, j, c) && c != idx ==> new[parent(c)] == #[trigger] old[c]
            && c == larger_child(old, parent(c)) && gt(old[c], old[idx])
    &&& forall|c: int| 0 <= c < old.len() && !on_path(idx, j, c) ==> #[trigger] new[c] == old[c]
}

/// As [`moved_down`], and no child of `j` is strictly above the element.
pub open spec fn sifted_down<T: Ord>(old: Seq<T>, new: Seq<T>, idx: int, j: int) -> bool {
    &&& moved_down(old, new, idx, j)
    &&& forall|c: int| 0 < c < old.len() && parent(c) == j ==> !gt(#[trigger] old[c], old[idx])
}

/// The slot where an element that started at `idx` came to rest, as a
/// sift reports it: the slot it moved to, or `idx` where it did not move.
pub open spec fn landing(r: Option<usize>, idx: usize) -> int {
    match r {
        Some(j) => j as int,
        None => idx as int,
    }
}

/// The element at slot `k` is in order with its parent and its children.
pub open spec fn in_order_at<T: Ord>(s: Seq<T>, k: int) -> bool {
    &&& k == 0 || !gt(s[k], s[parent(k)])
    &&& children_ok(s, k)
}

/// The heap's root is a largest element.
pub proof fn lemma_root_is_max<T: Ord>(s: Seq<T>)
    requires
        is_total_order::<T>(),
        is_heap(s),
        s.len() > 0,
    ensures
        is_max_of(s[0], s),
{
    assert forall|i: int| 0 <= i < s.len() implies le(#[trigger] s[i], s[0]) by {
        lemma_below_root(s, i);
    }
}

proof fn lemma_below_root<T: Ord>(s: Seq<T>, i: int)
    requires
        is_total_order::<T>(),
        is_heap(s),
        0 <= i < s.len(),
    ensures
        le(s[i], s[0]),
    decreases i,
{
    if i == 0 {
        crate::order::lemma_le_refl(s[0]);
    } else {
        assert(edge_ok(s, i));
        lemma_below_root(s, parent(i));
        lemma_le_trans(s[i], s[parent(i)], s[0]);
    }
}

/// A consistent index has one entry for each element.
pub proof fn lemma_index_size<T: Uid>(s: Seq<T>, m: Map<u64, usize>)
    requires
        index_consistent(s, m),
    ensures
        m.dom().finite(),
        m.dom().len() == s.len(),
{
    let ids = s.map_values(|e: T| e.spec_uid());
    assert(ids.no_duplicates()) by {
        assert forall|i: int, j: int| 0 <= i < ids.len() && 0 <= j < ids.len() && i != j implies ids[i] != ids[j] by {
            assert(m[s[i].spec_uid()] == i);
            assert(m[s[j].spec_uid()] == j);
        }
    }
    ids.unique_seq_to_set();
    assert(m.dom() =~= ids.to_set()) by {
        assert forall|k: u64| m.dom().contains(k) implies ids.to_set().contains(k) by {
            assert(ids[m[k] as int] == k);
        }
        assert forall|k: u64| ids.to_set().contains(k) implies m.dom().contains(k) by {
            let i = choose|i: int| 0 <= i < ids.len() && ids[i] == k;
            assert(s[i].spec_uid() == k);
        }
    }
}

/// Moving an element above a smaller parent keeps the almost-heap shape,
/// one level up, with the moved element above its new children.
pub proof fn lemma_sift_up_step<T: Ord>(s: Seq<T>, i: int)
    requires
        is_total_order::<T>(),
        0 < i < s.len(),
        heap_except(s, i),
        gt(s[i], s[parent(i)]),
    ensures
        heap_except(swapped(s, i, parent(i)), parent(i)),
        children_ok(swapped(s, i, parent(i)), parent(i)),
{
    let p = parent(i);
    let t = swapped(s, i, p);
    lemma_le_total(s[i], s[p]);
    assert forall|c: int| 0 < c < t.len() && c != p && parent(c) != p implies #[trigger] edge_ok(t, c) by {
        if parent(c) == i {
            assert(below_grandparent(s, c));
        } else {
            assert(edge_ok(s, c));
        }
    }
    assert forall|c: int| 0 < c < t.len() && parent(c) == p implies #[trigger] edge_ok(t, c) by {
        if c != i {
            assert(edge_ok(s, c));
            lemma_le_trans(s[c], s[p], s[i]);
        }
    }
    assert forall|c: int| 0 < c < t.len() && parent(c) == p && 0 < p implies #[trigger] below_grandparent(t, c) by {
        assert(edge_ok(s, p));
        if c != i {
            assert(edge_ok(s, c));
            lemma_le_trans(s[c], s[p], s[parent(p)]);
        }
    }
}

/// An almost-heap whose exceptional slot is in order with its parent and
/// its children is a heap.
pub proof fn lemma_heap_except_closed<T: Ord>(s: Seq<T>, k: int)
    requires
        heap_except(s, k),
        children_ok(s, k),
        k == 0 || (0 < k < s.len() && edge_ok(s, k)),
    ensures
        is_heap(s),
{
    assert forall|c: int| 0 < c < s.len() && parent(c) >= 0 implies #[trigger] edge_ok(s, c) by {
        if parent(c) == k {
        }
    }
}

/// Moving an element below the largest of its children keeps the
/// almost-heap shape, one level down.
pub proof fn lemma_sift_down_step<T: Ord>(s: Seq<T>, lo: int, i: int, m: int)
    requires
        is_total_order::<T>(),
        0 <= lo <= i,
        0 < m < s.len(),
        parent(m) == i,
        heap_from_except(s, lo, i),
        le(s[i], s[m]),
        forall|c: int| 0 < c < s.len() && parent(c) == i ==> le(#[trigger] s[c], s[m]),
    ensures
        heap_from_except(swapped(s, i, m), lo, m),
{
    let t = swapped(s, i, m);
    assert forall|c: int| 0 < c < t.len() && parent(c) >= lo && parent(c) != m implies #[trigger] edge_ok(t, c) by {
        if c == i {
            assert(below_grandparent(s, m));
        } else if parent(c) == i {
        } else {
            assert(edge_ok(s, c));
        }
    }
    assert forall|c: int| 0 < c < t.len() && parent(c) == m && 0 < m && parent(m) >= lo implies #[trigger] below_grandparent(t, c) by {
        assert(edge_ok(s, c));
    }
}

/// An almost-heap whose exceptional slot is above its children is a heap
/// from `lo` on.
pub proof fn lemma_heap_from_except_closed<T: Ord>(s: Seq<T>, lo: int, k: int)
    requires
        heap_from_except(s, lo, k),
        children_ok(s, k),
    ensures
        heap_from(s, lo),
{
    assert forall|c: int| 0 < c < s.len() && parent(c) >= lo implies #[trigger] edge_ok(s, c) by {
        if parent(c) == k {
        }
    }
}

pub proof fn lemma_ancestor_shift(k: int, d: nat)
    ensures
        ancestor(k, d + 1) == ancestor(parent(k), d),
    decreases d,
{
    assert(ancestor(k, d + 1) == parent(ancestor(k, d)));
    if d > 0 {
        lemma_ancestor_shift(k, (d - 1) as nat);
        assert(ancestor(parent(k), d) == parent(ancestor(parent(k), (d - 1) as nat)));
    }
}

pub proof fn lemma_ancestor_add(k: int, a: nat, b: nat)
    ensures
        ancestor(ancestor(k, a), b) == ancestor(k, a + b),
    decreases b,
{
    if b > 0 {
        lemma_ancestor_add(k, a, (b - 1) as nat);
        assert(ancestor(k, a + b) == parent(ancestor(k, (a + b - 1) as nat)));
    }
}

/// Going up never passes below the root's parent, and from a slot it only
/// reaches smaller slots.
pub proof fn lemma_ancestor_bounds(k: int, d: nat)
    requires
        k >= -1,
    ensures
        -1 <= ancestor(k, d) <= k,
        d > 0 && k >= 0 ==> ancestor(k, d) < k,
    decreases d,
{
    if d > 0 {
        lemma_ancestor_bounds(k, (d - 1) as nat);
    }
}

/// The path from `idx` down to a child `m` of `i` is the path down to `i`
/// and `m`.
pub proof fn lemma_on_path_extend_down(idx: int, i: int, m: int, c: int)
    requires
        0 <= idx,
        is_ancestor(idx, i),
        0 < m,
        parent(m) == i,
    ensures
        on_path(idx, m, c) <==> (on_path(idx, i, c) || c == m),
        is_ancestor(idx, m),
{
    let d = choose|d: nat| #[trigger] ancestor(i, d) == idx;
    lemma_ancestor_shift(m, d);
    assert(ancestor(m, d + 1) == idx);
    assert(ancestor(m, 0) == m);
    if on_path(idx, m, c) && c != m {
        let e = choose|e: nat| #[trigger] ancestor(m, e) == c;
        assert(e > 0);
        lemma_ancestor_shift(m, (e - 1) as nat);
        assert(ancestor(i, (e - 1) as nat) == c);
    }
    if on_path(idx, i, c) {
        let e = choose|e: nat| #[trigger] ancestor(i, e) == c;
        lemma_ancestor_shift(m, e);
        assert(ancestor(m, e + 1) == c);
    }
}

/// The path from `p`, the parent of `i`, down to `idx` is `p` and the path
/// from `i` down to `idx`.
pub proof fn lemma_on_path_extend_up(p: int, i: int, idx: int, c: int)
    requires
        0 < i,
        p == parent(i),
        is_ancestor(i, idx),
        0 <= c,
        idx >= 0,
    ensures
        on_path(p, idx, c) <==> (on_path(i, idx, c) || c == p),
        is_ancestor(p, idx),
{
    let d = choose|d: nat| #[trigger] ancestor(idx, d) == i;
    assert(ancestor(idx, d + 1) == p);
    assert(ancestor(p, 0) == p);
    if on_path(p, idx, c) && c != p {
        let e = choose|e: nat| #[trigger] ancestor(idx, e) == c;
        let f = choose|f: nat| #[trigger] ancestor(c, f) == p;
        if e <= d {
            lemma_ancestor_add(idx, e, (d - e) as nat);
            assert(ancestor(c, (d - e) as nat) == i);
        } else {
            lemma_ancestor_add(idx, d + 1, (e - d - 1) as nat);
            assert(ancestor(p, (e - d - 1) as nat) == c);
            lemma_ancestor_bounds(p, (e - d - 1) as nat);
            lemma_ancestor_bounds(c, f);
            assert(false);
        }
    }
    if on_path(i, idx, c) {
        let f = choose|f: nat| #[trigger] ancestor(c, f) == i;
        assert(ancestor(c, f + 1) == p);
    }
}

/// One more exchange with the larger child keeps the record of a move down.
pub proof fn lemma_moved_down_step<T: Ord>(s0: Seq<T>, s: Seq<T>, idx: int, i: int, m: int)
    requires
        moved_down(s0, s, idx, i),
        0 < m < s0.len(),
        parent(m) == i,
        m == larger_child(s0, i),
        gt(s0[m], s0[idx]),
    ensures
        moved_down(s0, swapped(s, i, m), idx, m),
{
    let t = swapped(s, i, m);
    lemma_on_path_extend_down(idx, i, m, m);
    if is_ancestor(m, i) {
        let d = choose|d: nat| #[trigger] ancestor(i, d) == m;
        lemma_ancestor_bounds(i, d);
    }
    assert(s[m] == s0[m]);
    assert forall|c: int| 0 <= c < s0.len() && on_path(idx, m, c) && c != idx implies t[parent(c)]
        == #[trigger] s0[c] && c == larger_child(s0, parent(c)) && gt(s0[c], s0[idx]) by {
        lemma_on_path_extend_down(idx, i, m, c);
        if c != m {
            let d = choose|d: nat| #[trigger] ancestor(i, d) == c;
            lemma_ancestor_bounds(i, d);
            let e = choose|e: nat| #[trigger] ancestor(c, e) == idx;
            lemma_ancestor_bounds(c, e);
        }
    }
    assert forall|c: int| 0 <= c < s0.len() && !on_path(idx, m, c) implies #[trigger] t[c] == s0[c] by {
        lemma_on_path_extend_down(idx, i, m, c);
        lemma_on_path_extend_down(idx, i, m, i);
        assert(ancestor(i, 0) == i);
    }
}

/// One more exchange with a smaller parent keeps the record of a move up.
pub proof fn lemma_moved_up_step<T: Ord>(s0: Seq<T>, s: Seq<T>, idx: int, i: int)
    requires
        moved_up(s0, s, idx, i),
        0 < i,
        gt(s0[idx], s0[parent(i)]),
    ensures
        moved_up(s0, swapped(s, i, parent(i)), idx, parent(i)),
{
    let p = parent(i);
    let t = swapped(s, i, p);
    lemma_on_path_extend_up(p, i, idx, p);
    if is_ancestor(i, p) {
        let d = choose|d: nat| #[trigger] ancestor(p, d) == i;
        lemma_ancestor_bounds(p, d);
    }
    assert(s[p] == s0[p]);
    assert(ancestor(i, 0) == i);
    assert forall|c: int| 0 <= c < s0.len() && on_path(p, idx, c) && c != p implies #[trigger] t[c]
        == s0[parent(c)] && gt(s0[idx], s0[parent(c)]) by {
        lemma_on_path_extend_up(p, i, idx, c);
        let d = choose|d: nat| #[trigger] ancestor(c, d) == i;
        lemma_ancestor_bounds(c, d);
    }
    assert forall|c: int| 0 <= c < s0.len() && !on_path(p, idx, c) implies #[trigger] t[c] == s0[c] by {
        lemma_on_path_extend_up(p, i, idx, c);
        lemma_on_path_extend_up(p, i, idx, i);
    }
}

/// The parent of `i` is not on a path that starts at `i` and goes down.
pub proof fn lemma_parent_off_path(i: int, idx: int)
    requires
        0 < i,
    ensures
        !on_path(i, idx, parent(i)),
{
    if is_ancestor(i, parent(i)) {
        let d = choose|d: nat| #[trigger] ancestor(parent(i), d) == i;
        lemma_ancestor_bounds(parent(i), d);
    }
}

/// A child of `i` is not on a path that goes down from `idx` to `i`.
pub proof fn lemma_child_off_path(idx: int, i: int, c: int)
    requires
        0 <= i,
        parent(c) == i,
        0 < c,
    ensures
        !on_path(idx, i, c),
{
    if is_ancestor(c, i) {
        let d = choose|d: nat| #[trigger] ancestor(i, d) == c;
        lemma_ancestor_bounds(i, d);
    }
}

/// The path from a slot down to itself is that slot alone.
pub proof fn lemma_path_to_self(k: int)
    requires
        0 <= k,
    ensures
        is_ancestor(k, k),
        forall|c: int| 0 <= c && on_path(k, k, c) ==> c == k,
{
    assert(ancestor(k, 0) == k);
    assert forall|c: int| 0 <= c && on_path(k, k, c) implies c == k by {
        let d = choose|d: nat| #[trigger] ancestor(c, d) == k;
        let e = choose|e: nat| #[trigger] ancestor(k, e) == c;
        lemma_ancestor_bounds(c, d);
        lemma_ancestor_bounds(k, e);
    }
}

} // verus!
