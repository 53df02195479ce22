use vstd::prelude::*;
use vstd::std_specs::cmp::PartialOrdSpec;
use vstd::laws_cmp::obeys_partial_cmp_spec_properties;
use core::cmp::Ordering;

verus! {

/// `a` compares strictly greater than `b`; this is the one test that decides a swap.
pub open spec fn greater<T: PartialOrd>(a: T, b: T) -> bool {
    a.partial_cmp_spec(&b) == Some(Ordering::Greater)
}

/// The operator `>` on `T` follows `partial_cmp_spec`, and no two values are each
/// greater than the other. Pairs that do not compare at all are allowed.
pub open spec fn lawful_comparison<T: PartialOrd>() -> bool {
    &&& T::obeys_partial_cmp_spec()
    &&& forall|x: T, y: T| #[trigger] greater(x, y) ==> !greater(y, x)
}

/// A comparison that meets the standard partial order laws (each `Less` mirrored by a
/// `Greater`) is lawful in the sense that bubble sort needs.
pub proof fn lemma_partial_order_is_lawful<T: PartialOrd>()
    requires
        T::obeys_partial_cmp_spec(),
        obeys_partial_cmp_spec_properties::<T>(),
    ensures
        lawful_comparison::<T>(),
{
    reveal(obeys_partial_cmp_spec_properties);
    assert forall|x: T, y: T| #[trigger] greater(x, y) implies !greater(y, x) by {
        assert(y.partial_cmp_spec(&x) == Some(Ordering::Less) <==> x.partial_cmp_spec(&y) == Some(
            Ordering::Greater,
        ));
    }
}

/// No element is greater than the element right after it.
pub open spec fn adjacent_sorted<T: PartialOrd>(s: Seq<T>) -> bool {
    forall|k: int| 0 <= k < s.len() - 1 ==> !greater(#[trigger] s[k], s[k + 1])
}

/// `s` with the elements at `j` and `j + 1` exchanged.
pub open spec fn swapped<T>(s: Seq<T>, j: int) -> Seq<T> {
    s.update(j, s[j + 1]).update(j + 1, s[j])
}

/// Compare positions `j` and `j + 1` and exchange them when the first is greater.
pub open spec fn compare_swap<T: PartialOrd>(s: Seq<T>, j: int) -> Seq<T> {
    if greater(s[j], s[j + 1]) {
        swapped(s, j)
    } else {
        s
    }
}

/// The first `k` steps of a pass: compare-and-swap at (0, 1), then (1, 2), up to (k - 1, k).
pub open spec fn pass_prefix<T: PartialOrd>(s: Seq<T>, k: nat) -> Seq<T>
    decreases k,
{
    if k == 0 {
        s
    } else {
        compare_swap(pass_prefix(s, (k - 1) as nat), k - 1)
    }
}

/// The first `i` passes over `s`; pass `p` makes `s.len() - p - 1` compare-and-swaps.
pub open spec fn passes<T: PartialOrd>(s: Seq<T>, i: nat) -> Seq<T>
    decreases i,
{
    if i == 0 {
        s
    } else {
        pass_prefix(passes(s, (i - 1) as nat), (s.len() - i) as nat)
    }
}

/// What bubble sort makes of `s`: one pass for each position, with no early exit.
pub open spec fn bubble_sorted<T: PartialOrd>(s: Seq<T>) -> Seq<T> {
    passes(s, s.len())
}

/// The number of comparisons that bubble sort makes on `n` elements.
pub open spec fn comparison_count(n: nat) -> nat {
    n * (n - 1) as nat / 2
}

/// The element that a pass carries into position `j`.
pub open spec fn carried<T: PartialOrd>(s: Seq<T>, j: nat) -> T {
    pass_prefix(s, j)[j as int]
}

/// Exchanging two neighbours keeps the length and the multiset.
pub proof fn lemma_swapped<T>(s: Seq<T>, j: int)
    requires
        0 <= j < s.len() - 1,
    ensures
        swapped(s, j).len() == s.len(),
        swapped(s, j).to_multiset() == s.to_multiset(),
{
    let t = s.update(j, s[j + 1]);
    vstd::seq_lib::to_multiset_update(s, j, s[j + 1]);
    vstd::seq_lib::to_multiset_update(t, j + 1, s[j]);
    broadcast use vstd::multiset::group_multiset_axioms, vstd::seq_lib::group_to_multiset_ensures;
    assert(s.contains(s[j]));
    assert(t[j + 1] == s[j + 1]);
    assert(swapped(s, j).to_multiset() =~= s.to_multiset());
}

/// A compare-and-swap keeps the length and the multiset and touches only its two positions.
proof fn lemma_compare_swap<T: PartialOrd>(s: Seq<T>, j: int)
    requires
        0 <= j < s.len() - 1,
    ensures
        compare_swap(s, j).len() == s.len(),
        compare_swap(s, j).to_multiset() == s.to_multiset(),
        forall|q: int| 0 <= q < s.len() && q != j && q != j + 1 ==> #[trigger] compare_swap(s, j)[q] == s[q],
{
    lemma_swapped(s, j);
}

/// A pass keeps the length and the multiset, leaves the positions after `k` alone,
/// and never again moves a position that it has gone past.
pub proof fn lemma_pass_prefix<T: PartialOrd>(s: Seq<T>, k: nat)
    requires
        k < s.len(),
    ensures
        pass_prefix(s, k).len() == s.len(),
        pass_prefix(s, k).to_multiset() == s.to_multiset(),
        forall|q: int| k < q < s.len() ==> #[trigger] pass_prefix(s, k)[q] == s[q],
        forall|q: int|
            0 <= q < k ==> #[trigger] pass_prefix(s, k)[q] == pass_prefix(s, (q + 1) as nat)[q],
    decreases k,
{
    if k > 0 {
        let k1 = (k - 1) as nat;
        lemma_pass_prefix(s, k1);
        lemma_compare_swap(pass_prefix(s, k1), k1 as int);
        assert forall|q: int| 0 <= q < k implies #[trigger] pass_prefix(s, k)[q] == pass_prefix(
            s,
            (q + 1) as nat,
        )[q] by {
            if q < k1 {
                assert(pass_prefix(s, k)[q] == pass_prefix(s, k1)[q]);
            }
        }
    }
}

/// What one pass leaves behind: each settled element is not greater than the element
/// carried past it, and a carried element changes only where it was left in place.
proof fn lemma_pass_trace<T: PartialOrd>(s: Seq<T>, m: nat)
    requires
        lawful_comparison::<T>(),
        m < s.len(),
    ensures
        forall|j: nat| j < m ==> !greater(#[trigger] pass_prefix(s, m)[j as int], carried(s, j + 1)),
        forall|j: nat|
            j + 1 < m ==> carried(s, j + 2) == carried(s, j + 1) || #[trigger] pass_prefix(s, m)[j as int + 1] == carried(s, j + 1),
{
    let t = pass_prefix(s, m);
    lemma_pass_prefix(s, m);
    assert forall|j: nat| j < m implies !greater(#[trigger] t[j as int], carried(s, j + 1)) by {
        let u = pass_prefix(s, j);
        lemma_pass_prefix(s, j);
        lemma_pass_prefix(s, j + 1);
        assert(t[j as int] == pass_prefix(s, j + 1)[j as int]);
        if greater(u[j as int], u[j as int + 1]) {
            assert(!greater(u[j as int + 1], u[j as int]));
        }
    }
    assert forall|j: nat| j + 1 < m implies carried(s, j + 2) == carried(s, j + 1)
        || #[trigger] t[j as int + 1] == carried(s, j + 1) by {
        lemma_pass_prefix(s, j + 1);
        lemma_pass_prefix(s, j + 2);
        assert(t[j as int + 1] == pass_prefix(s, j + 2)[j as int + 1]);
        assert(pass_prefix(s, (j + 2) as nat) == compare_swap(pass_prefix(s, j + 1), j as int + 1));
    }
}

/// During the pass after a pass that ended at `m`, the carried element is never greater
/// than the element that the earlier pass carried one position further.
proof fn lemma_next_pass_carried<T: PartialOrd>(s: Seq<T>, m: nat, j: nat)
    requires
        lawful_comparison::<T>(),
        1 <= m < s.len(),
        j <= m - 1,
    ensures
        !greater(carried(pass_prefix(s, m), j), carried(s, j + 1)),
    decreases j,
{
    let t = pass_prefix(s, m);
    lemma_pass_prefix(s, m);
    lemma_pass_trace(s, m);
    if j > 0 {
        let i = (j - 1) as nat;
        lemma_next_pass_carried(s, m, i);
        let w = pass_prefix(t, i);
        lemma_pass_prefix(t, i);
        lemma_pass_prefix(t, j);
        assert(w[i as int + 1] == t[i as int + 1]);
        assert(pass_prefix(t, j) == compare_swap(w, i as int));
        assert(!greater(t[j as int], carried(s, j + 1)));
    }
}

/// The pass after a pass that ended at position `m` ends with an element that is not
/// greater than the one that the earlier pass put at `m`.
proof fn lemma_next_pass<T: PartialOrd>(s: Seq<T>, m: nat)
    requires
        lawful_comparison::<T>(),
        1 <= m < s.len(),
    ensures
        !greater(
            pass_prefix(pass_prefix(s, m), (m - 1) as nat)[m - 1],
            pass_prefix(pass_prefix(s, m), (m - 1) as nat)[m as int],
        ),
{
    let t = pass_prefix(s, m);
    lemma_pass_prefix(s, m);
    lemma_next_pass_carried(s, m, (m - 1) as nat);
    lemma_pass_prefix(t, (m - 1) as nat);
}

/// After `i` passes the length and the multiset are kept, and the last `i` positions
/// hold no adjacent pair out of order.
proof fn lemma_passes<T: PartialOrd>(s: Seq<T>, i: nat)
    requires
        i <= s.len(),
    ensures
        passes(s, i).len() == s.len(),
        passes(s, i).to_multiset() == s.to_multiset(),
        lawful_comparison::<T>() ==> forall|k: int|
            s.len() - i <= k < s.len() - 1 ==> !greater(
                #[trigger] passes(s, i)[k],
                passes(s, i)[k + 1],
            ),
    decreases i,
{
    if i > 0 {
        let i1 = (i - 1) as nat;
        let n = s.len();
        let u = passes(s, i1);
        let m = (n - i) as nat;
        lemma_passes(s, i1);
        lemma_pass_prefix(u, m);
        let v = passes(s, i);
        assert(v == pass_prefix(u, m));
        if lawful_comparison::<T>() {
            if i1 > 0 {
                let prev = passes(s, (i1 - 1) as nat);
                lemma_passes(s, (i1 - 1) as nat);
                assert(u == pass_prefix(prev, (m + 1) as nat));
                lemma_next_pass(prev, (m + 1) as nat);
            }
            assert forall|k: int| n - i <= k < n - 1 implies !greater(
                #[trigger] v[k],
                v[k + 1],
            ) by {
                if k > m {
                    assert(v[k] == u[k]);
                    assert(v[k + 1] == u[k + 1]);
                }
            }
        }
    }
}

/// A pass over a sequence with no adjacent pair out of order makes no swap.
proof fn lemma_pass_prefix_of_sorted<T: PartialOrd>(s: Seq<T>, k: nat)
    requires
        adjacent_sorted(s),
        k < s.len(),
    ensures
        pass_prefix(s, k) == s,
    decreases k,
{
    if k > 0 {
        lemma_pass_prefix_of_sorted(s, (k - 1) as nat);
    }
}

/// Passes over a sequence with no adjacent pair out of order leave it as it is.
pub proof fn lemma_passes_of_sorted<T: PartialOrd>(s: Seq<T>, i: nat)
    requires
        adjacent_sorted(s),
        i <= s.len(),
    ensures
        passes(s, i) == s,
    decreases i,
{
    if i > 0 {
        lemma_passes_of_sorted(s, (i - 1) as nat);
        lemma_pass_prefix_of_sorted(s, (s.len() - i) as nat);
    }
}

/// Bubble sort only reorders: the result holds the same multiset of elements.
pub proof fn lemma_bubble_sorted_permutes<T: PartialOrd>(s: Seq<T>)
    ensures
        bubble_sorted(s).len() == s.len(),
        bubble_sorted(s).to_multiset() == s.to_multiset(),
{
    lemma_passes(s, s.len());
}

/// Under a lawful comparison no element of the result is greater than its successor.
pub proof fn lemma_bubble_sorted_is_sorted<T: PartialOrd>(s: Seq<T>)
    requires
        lawful_comparison::<T>(),
    ensures
        adjacent_sorted(bubble_sorted(s)),
{
    lemma_passes(s, s.len());
}

/// Sorting a sorted result again changes nothing.
pub proof fn lemma_bubble_sort_idempotent<T: PartialOrd>(s: Seq<T>)
    requires
        lawful_comparison::<T>(),
    ensures
        bubble_sorted(bubble_sorted(s)) == bubble_sorted(s),
{
    let r = bubble_sorted(s);
    lemma_bubble_sorted_permutes(s);
    lemma_bubble_sorted_is_sorted(s);
    lemma_passes_of_sorted(r, r.len());
}

/// An empty or one-element sequence is its own bubble sort.
pub proof fn lemma_bubble_sort_short<T: PartialOrd>(s: Seq<T>)
    requires
        s.len() <= 1,
    ensures
        bubble_sorted(s) == s,
{
    lemma_passes_of_sorted(s, s.len());
}

} // verus!
