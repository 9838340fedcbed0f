//! Stable sorting of sequences, as mathematics.
//!
//! The order is given by a strict "comes before" relation `lt`. Nothing is
//! assumed of it here; each law names what it needs.

use vstd::prelude::*;

verus! {

/// `s` with `x` put in behind every entry that does not have to follow it:
/// `x` moves forward from the end for as long as it comes before its
/// neighbour.
pub open spec fn stable_insert<A>(s: Seq<A>, x: A, lt: spec_fn(A, A) -> bool) -> Seq<A>
    decreases s.len(),
{
    if s.len() > 0 && lt(x, s.last()) {
        stable_insert(s.drop_last(), x, lt).push(s.last())
    } else {
        s.push(x)
    }
}

/// The entries of `s`, put in one after the other by [`stable_insert`].
pub open spec fn stable_sort<A>(s: Seq<A>, lt: spec_fn(A, A) -> bool) -> Seq<A>
    decreases s.len(),
{
    if s.len() == 0 {
        s
    } else {
        stable_insert(stable_sort(s.drop_last(), lt), s.last(), lt)
    }
}

/// No entry comes before its left neighbour.
pub open spec fn ascending<A>(s: Seq<A>, lt: spec_fn(A, A) -> bool) -> bool {
    forall|i: int| 0 <= i < s.len() - 1 ==> !lt(#[trigger] s[i + 1], s[i])
}

/// No entry comes before any entry to its left.
pub open spec fn sorted<A>(s: Seq<A>, lt: spec_fn(A, A) -> bool) -> bool {
    forall|i: int, j: int| 0 <= i < j < s.len() ==> !lt(#[trigger] s[j], #[trigger] s[i])
}

/// Of two entries at most one comes before the other.
pub open spec fn asymmetric<A>(lt: spec_fn(A, A) -> bool) -> bool {
    forall|a: A, b: A| #[trigger] lt(a, b) ==> !lt(b, a)
}

/// "Does not come before" carries over a middle entry.
pub open spec fn chains<A>(lt: spec_fn(A, A) -> bool) -> bool {
    forall|a: A, b: A, c: A| !(#[trigger] lt(b, a)) && !(#[trigger] lt(c, b)) ==> !lt(c, a)
}

/// The place [`stable_insert`] gives `x` in `s`: behind the last entry that
/// `x` does not come before.
pub open spec fn is_insert_place<A>(s: Seq<A>, x: A, lt: spec_fn(A, A) -> bool, at: int) -> bool {
    &&& 0 <= at <= s.len()
    &&& forall|k: int| at <= k < s.len() ==> lt(x, #[trigger] s[k])
    &&& at > 0 ==> !lt(x, s[at - 1])
}

/// Inserting at the insert place is what [`stable_insert`] does.
pub proof fn lemma_insert_at_place<A>(s: Seq<A>, x: A, lt: spec_fn(A, A) -> bool, at: int)
    requires
        is_insert_place(s, x, lt, at),
    ensures
        stable_insert(s, x, lt) == s.insert(at, x),
    decreases s.len(),
{
    if at == s.len() {
        assert(s.insert(at, x) =~= s.push(x));
    } else {
        assert(lt(x, s[s.len() - 1]));
        let front = s.drop_last();
        assert forall|k: int| at <= k < front.len() implies lt(x, #[trigger] front[k]) by {
            assert(front[k] == s[k]);
        }
        lemma_insert_at_place(front, x, lt, at);
        assert(front.insert(at, x).push(s.last()) =~= s.insert(at, x));
    }
}

/// Inserting adds one entry and keeps the others.
pub proof fn lemma_insert_keeps_entries<A>(s: Seq<A>, x: A, lt: spec_fn(A, A) -> bool)
    ensures
        stable_insert(s, x, lt).len() == s.len() + 1,
        stable_insert(s, x, lt).to_multiset() == s.to_multiset().insert(x),
    decreases s.len(),
{
    broadcast use vstd::seq_lib::to_multiset_build;

    if s.len() > 0 && lt(x, s.last()) {
        lemma_insert_keeps_entries(s.drop_last(), x, lt);
        assert(s.drop_last().push(s.last()) =~= s);
        assert(stable_insert(s, x, lt).to_multiset() =~= s.to_multiset().insert(x));
    }
}

/// Sorting permutes: the result holds the same entries, each as often.
pub proof fn lemma_sort_permutes<A>(s: Seq<A>, lt: spec_fn(A, A) -> bool)
    ensures
        stable_sort(s, lt).len() == s.len(),
        stable_sort(s, lt).to_multiset() == s.to_multiset(),
    decreases s.len(),
{
    broadcast use vstd::seq_lib::to_multiset_build;

    if s.len() > 0 {
        lemma_sort_permutes(s.drop_last(), lt);
        lemma_insert_keeps_entries(stable_sort(s.drop_last(), lt), s.last(), lt);
        assert(s.drop_last().push(s.last()) =~= s);
    }
}

/// Every entry of the sorted sequence is an entry of the given one.
pub proof fn lemma_sort_entry_given<A>(s: Seq<A>, lt: spec_fn(A, A) -> bool, at: int)
    requires
        0 <= at < stable_sort(s, lt).len(),
    ensures
        s.contains(stable_sort(s, lt)[at]),
{
    lemma_sort_permutes(s, lt);
    let out = stable_sort(s, lt);
    assert(out.contains(out[at]));
    vstd::seq_lib::to_multiset_contains(out, out[at]);
    vstd::seq_lib::to_multiset_contains(s, out[at]);
}

/// Sorting leaves alone what is already in ascending order.
pub proof fn lemma_sort_fixes_ascending<A>(s: Seq<A>, lt: spec_fn(A, A) -> bool)
    requires
        ascending(s, lt),
    ensures
        stable_sort(s, lt) == s,
    decreases s.len(),
{
    if s.len() > 0 {
        let front = s.drop_last();
        assert forall|i: int| 0 <= i < front.len() - 1 implies !lt(
            #[trigger] front[i + 1],
            front[i],
        ) by {
            assert(front[i + 1] == s[i + 1] && front[i] == s[i]);
        }
        lemma_sort_fixes_ascending(front, lt);
        if front.len() > 0 {
            let i = front.len() - 1;
            assert(!lt(s[i + 1], s[i]));
            assert(front.last() == s[i]);
        }
        assert(front.push(s.last()) =~= s);
    }
}

/// Inserting into an ascending sequence gives an ascending sequence.
pub proof fn lemma_insert_keeps_ascending<A>(s: Seq<A>, x: A, lt: spec_fn(A, A) -> bool)
    requires
        asymmetric(lt),
        ascending(s, lt),
    ensures
        ascending(stable_insert(s, x, lt), lt),
        stable_insert(s, x, lt).last() == x || (s.len() > 0 && stable_insert(s, x, lt).last()
            == s.last()),
    decreases s.len(),
{
    let out = stable_insert(s, x, lt);
    if s.len() > 0 && lt(x, s.last()) {
        let front = s.drop_last();
        assert forall|i: int| 0 <= i < front.len() - 1 implies !lt(
            #[trigger] front[i + 1],
            front[i],
        ) by {
            assert(front[i + 1] == s[i + 1] && front[i] == s[i]);
        }
        lemma_insert_keeps_ascending(front, x, lt);
        lemma_insert_keeps_entries(front, x, lt);
        let mid = stable_insert(front, x, lt);
        assert forall|i: int| 0 <= i < out.len() - 1 implies !lt(#[trigger] out[i + 1], out[i]) by {
            if i + 1 < mid.len() {
                assert(out[i + 1] == mid[i + 1] && out[i] == mid[i]);
            } else {
                assert(out[i + 1] == s.last());
                assert(out[i] == mid.last());
                if mid.last() != x {
                    let k = front.len() - 1;
                    assert(!lt(s[k + 1], s[k]));
                    assert(front.last() == s[k]);
                }
            }
        }
    } else {
        assert forall|i: int| 0 <= i < out.len() - 1 implies !lt(#[trigger] out[i + 1], out[i]) by {
            if i + 1 < s.len() {
                assert(out[i + 1] == s[i + 1] && out[i] == s[i]);
            }
        }
    }
}

/// Sorting gives an ascending sequence.
pub proof fn lemma_sort_ascending<A>(s: Seq<A>, lt: spec_fn(A, A) -> bool)
    requires
        asymmetric(lt),
    ensures
        ascending(stable_sort(s, lt), lt),
    decreases s.len(),
{
    if s.len() > 0 {
        lemma_sort_ascending(s.drop_last(), lt);
        lemma_insert_keeps_ascending(stable_sort(s.drop_last(), lt), s.last(), lt);
    }
}

/// Sorting twice is sorting once.
pub proof fn lemma_sort_idempotent<A>(s: Seq<A>, lt: spec_fn(A, A) -> bool)
    requires
        asymmetric(lt),
    ensures
        stable_sort(stable_sort(s, lt), lt) == stable_sort(s, lt),
{
    lemma_sort_ascending(s, lt);
    lemma_sort_fixes_ascending(stable_sort(s, lt), lt);
}

/// No two entries that satisfy `among` are told apart by the order.
pub open spec fn unordered_among<A>(among: spec_fn(A) -> bool, lt: spec_fn(A, A) -> bool) -> bool {
    forall|a: A, b: A| among(a) && among(b) ==> !#[trigger] lt(a, b)
}

/// Inserting puts `x` behind the entries it is not told apart from.
pub proof fn lemma_insert_stable<A>(
    s: Seq<A>,
    x: A,
    lt: spec_fn(A, A) -> bool,
    among: spec_fn(A) -> bool,
)
    requires
        unordered_among(among, lt),
    ensures
        stable_insert(s, x, lt).filter(among) == s.push(x).filter(among),
    decreases s.len(),
{
    if s.len() > 0 && lt(x, s.last()) {
        let front = s.drop_last();
        let last = s.last();
        lemma_insert_stable(front, x, lt, among);
        stable_insert(front, x, lt).lemma_filter_push(last, among);
        front.lemma_filter_push(x, among);
        front.lemma_filter_push(last, among);
        s.lemma_filter_push(x, among);
        assert(front.push(last) =~= s);
        assert(!(among(x) && among(last)));
    }
}

/// Sorting is stable: entries that the order does not tell apart stand in
/// the result as they stood in what was given.
pub proof fn lemma_sort_stable<A>(s: Seq<A>, lt: spec_fn(A, A) -> bool, among: spec_fn(A) -> bool)
    requires
        unordered_among(among, lt),
    ensures
        stable_sort(s, lt).filter(among) == s.filter(among),
    decreases s.len(),
{
    if s.len() > 0 {
        let front = s.drop_last();
        lemma_sort_stable(front, lt, among);
        lemma_insert_stable(stable_sort(front, lt), s.last(), lt, among);
        stable_sort(front, lt).lemma_filter_push(s.last(), among);
        front.lemma_filter_push(s.last(), among);
        assert(front.push(s.last()) =~= s);
    }
}

/// Where "does not come before" chains, ascending order is sorted order.
pub proof fn lemma_ascending_is_sorted<A>(s: Seq<A>, lt: spec_fn(A, A) -> bool)
    requires
        chains(lt),
        ascending(s, lt),
    ensures
        sorted(s, lt),
{
    assert forall|i: int, j: int| 0 <= i < j < s.len() implies !lt(
        #[trigger] s[j],
        #[trigger] s[i],
    ) by {
        lemma_ascending_reaches(s, lt, i, j);
    }
}

proof fn lemma_ascending_reaches<A>(s: Seq<A>, lt: spec_fn(A, A) -> bool, i: int, j: int)
    requires
        chains(lt),
        ascending(s, lt),
        0 <= i < j < s.len(),
    ensures
        !lt(s[j], s[i]),
    decreases j - i,
{
    let k = j - 1;
    assert(!lt(s[k + 1], s[k]));
    if i < k {
        lemma_ascending_reaches(s, lt, i, k);
        assert(!lt(s[k], s[i]) && !lt(s[j], s[k]));
    }
}

} // verus!
