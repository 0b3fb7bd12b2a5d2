//! Laws that relate several operations of the heap, stated over the models
//! that the operations' own contracts use.
use crate::heap::BinaryMaxHeap;
use crate::heap_spec::{
    built_from, edge_ok, heap_except, index_consistent, is_heap, lemma_index_size, parent, popped,
};
use crate::order::{is_total_order, le};
use crate::Uid;
use vstd::multiset::Multiset;
use vstd::prelude::*;

verus! {

/// `out` runs from the largest element to the smallest.
pub open spec fn sorted_desc<T: Ord>(out: Seq<T>) -> bool {
    forall|i: int, j: int| 0 <= i < j < out.len() ==> le(#[trigger] out[j], #[trigger] out[i])
}

/// A heap's index holds exactly one entry for each element.
pub proof fn lemma_index_has_len_entries<T: Ord + Uid>(h: &BinaryMaxHeap<T>)
    requires
        h.index_ok(),
    ensures
        h.positions().dom().finite(),
        h.positions().len() == h@.len(),
{
    lemma_index_size(h@, h.positions());
}

proof fn lemma_pops_shrink<T: Ord>(states: Seq<Seq<T>>, out: Seq<T>, i: int, j: int, x: T)
    requires
        states.len() == out.len() + 1,
        forall|k: int| 0 <= k < out.len() ==> popped(states[k], #[trigger] out[k], states[k + 1]),
        0 <= i <= j < states.len(),
    ensures
        states[j].to_multiset().count(x) <= states[i].to_multiset().count(x),
    decreases j - i,
{
    if i < j {
        lemma_pops_shrink(states, out, i, j - 1, x);
        assert(popped(states[j - 1], out[j - 1], states[j]));
    }
}

proof fn lemma_pops_account<T: Ord>(states: Seq<Seq<T>>, out: Seq<T>, k: int)
    requires
        states.len() == out.len() + 1,
        forall|i: int| 0 <= i < out.len() ==> popped(states[i], #[trigger] out[i], states[i + 1]),
        0 <= k <= out.len(),
    ensures
        states[0].to_multiset() == out.subrange(0, k).to_multiset().add(states[k].to_multiset()),
    decreases k,
{
    broadcast use vstd::seq_lib::group_to_multiset_ensures;

    if k == 0 {
        assert(out.subrange(0, 0).to_multiset() =~= Multiset::empty());
        assert(states[0].to_multiset() =~= Multiset::empty().add(states[0].to_multiset()));
    } else {
        lemma_pops_account(states, out, k - 1);
        assert(popped(states[k - 1], out[k - 1], states[k]));
        let e = out[k - 1];
        assert(states[k - 1].to_multiset().count(e) > 0);
        assert(states[k - 1].to_multiset() =~= states[k].to_multiset().insert(e));
        assert(out.subrange(0, k) =~= out.subrange(0, k - 1).push(e));
        assert(states[0].to_multiset() =~= out.subrange(0, k).to_multiset().add(
            states[k].to_multiset(),
        ));
    }
}

/// Each pop of a heap yields an element at or above every later one, and
/// the elements popped together with what remains are the elements that
/// were there at the start.
pub proof fn lemma_pops_sorted<T: Ord>(states: Seq<Seq<T>>, out: Seq<T>)
    requires
        is_total_order::<T>(),
        states.len() == out.len() + 1,
        forall|i: int| 0 <= i < out.len() ==> popped(states[i], #[trigger] out[i], states[i + 1]),
    ensures
        sorted_desc(out),
        states[0].to_multiset() == out.to_multiset().add(states[out.len() as int].to_multiset()),
{
    broadcast use vstd::seq_lib::group_to_multiset_ensures;

    assert forall|i: int, j: int| 0 <= i < j < out.len() implies le(#[trigger] out[j], #[trigger] out[i]) by {
        assert(popped(states[j], out[j], states[j + 1]));
        assert(popped(states[i], out[i], states[i + 1]));
        lemma_pops_shrink(states, out, i, j, out[j]);
        assert(states[j].to_multiset().count(out[j]) > 0);
        assert(states[i].contains(out[j]));
    }
    lemma_pops_account(states, out, out.len() as int);
    assert(out.subrange(0, out.len() as int) =~= out);
}

/// Pushing elements into an empty heap, then popping as many, yields them
/// from the largest to the smallest and leaves the heap empty.
pub proof fn lemma_push_pop_round_trip<T: Ord>(
    xs: Seq<T>,
    pushes: Seq<Seq<T>>,
    pops: Seq<Seq<T>>,
    out: Seq<T>,
)
    requires
        is_total_order::<T>(),
        pushes.len() == xs.len() + 1,
        pushes[0].len() == 0,
        forall|i: int|
            0 <= i < xs.len() ==> pushes[i + 1].to_multiset() == pushes[i].to_multiset().insert(
                #[trigger] xs[i],
            ),
        out.len() == xs.len(),
        pops.len() == out.len() + 1,
        pops[0] == pushes[xs.len() as int],
        forall|i: int| 0 <= i < out.len() ==> popped(pops[i], #[trigger] out[i], pops[i + 1]),
    ensures
        sorted_desc(out),
        out.to_multiset() == xs.to_multiset(),
        pops[out.len() as int].len() == 0,
{
    broadcast use vstd::seq_lib::group_to_multiset_ensures;

    lemma_pushes_account(xs, pushes, xs.len() as int);
    assert(xs.subrange(0, xs.len() as int) =~= xs);
    lemma_pops_sorted(pops, out);
    let rest = pops[out.len() as int].to_multiset();
    assert(out.to_multiset().add(rest).len() == out.to_multiset().len() + rest.len());
    assert(rest.len() == 0);
    assert(out.to_multiset().add(rest) =~= out.to_multiset());
}

proof fn lemma_pushes_account<T>(xs: Seq<T>, pushes: Seq<Seq<T>>, k: int)
    requires
        pushes.len() == xs.len() + 1,
        pushes[0].len() == 0,
        forall|i: int|
            0 <= i < xs.len() ==> pushes[i + 1].to_multiset() == pushes[i].to_multiset().insert(
                #[trigger] xs[i],
            ),
        0 <= k <= xs.len(),
    ensures
        pushes[k].to_multiset() == xs.subrange(0, k).to_multiset(),
    decreases k,
{
    broadcast use vstd::seq_lib::group_to_multiset_ensures;

    if k == 0 {
        assert(pushes[0] =~= Seq::<T>::empty());
        assert(xs.subrange(0, 0) =~= Seq::<T>::empty());
    } else {
        lemma_pushes_account(xs, pushes, k - 1);
        assert(xs.subrange(0, k) =~= xs.subrange(0, k - 1).push(xs[k - 1]));
        assert(pushes[k].to_multiset() == pushes[k - 1].to_multiset().insert(xs[k - 1]));
    }
}

/// Building a heap from any two arrangements of the same elements gives, for
/// each, a valid heap of exactly those elements; an arrangement that is
/// already a heap is left as it is.
pub proof fn lemma_build_converges<T: Ord>(a: Seq<T>, b: Seq<T>, ha: Seq<T>, hb: Seq<T>)
    requires
        a.to_multiset() == b.to_multiset(),
        built_from(a, ha),
        built_from(b, hb),
    ensures
        is_heap(ha),
        is_heap(hb),
        ha.to_multiset() == hb.to_multiset(),
        is_heap(a) ==> ha == a,
        is_heap(b) ==> hb == b,
{
}

/// Replacing the element at one slot of a heap by another with the same
/// identifier, whatever its priority, leaves a state from which
/// `restore_heap_property` at that slot restores the heap: the index is
/// still consistent and the heap property fails at most around that slot.
pub proof fn lemma_reprioritize<T: Ord + Uid>(s: Seq<T>, m: Map<u64, usize>, k: int, v: T)
    requires
        is_total_order::<T>(),
        is_heap(s),
        index_consistent(s, m),
        0 <= k < s.len(),
        v.spec_uid() == s[k].spec_uid(),
    ensures
        heap_except(s.update(k, v), k),
        index_consistent(s.update(k, v), m),
{
    let t = s.update(k, v);
    assert forall|c: int| 0 < c < t.len() && c != k && parent(c) != k implies #[trigger] edge_ok(t, c) by {
        assert(edge_ok(s, c));
    }
    assert forall|c: int| 0 < c < t.len() && parent(c) == k && 0 < k implies #[trigger] crate::heap_spec::below_grandparent(t, c) by {
        assert(edge_ok(s, c));
        assert(edge_ok(s, k));
        crate::order::lemma_le_trans(s[c], s[k], s[parent(k)]);
    }
    assert forall|i: int| 0 <= i < t.len() implies m.contains_key(#[trigger] t[i].spec_uid()) && m[t[i].spec_uid()] == i by {
        assert(m.contains_key(s[i].spec_uid()));
    }
}

} // verus!
