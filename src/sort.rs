use vstd::prelude::*;
use vstd::std_specs::cmp::PartialOrdSpec;
use crate::model::{
    adjacent_sorted, bubble_sorted, comparison_count, lawful_comparison, lemma_bubble_sorted_is_sorted,
    lemma_bubble_sorted_permutes, lemma_swapped, pass_prefix, passes, compare_swap, swapped,
};

verus! {

/// Relies on `<[A]>::swap` of std: it exchanges the elements at `a` and `b`, and panics when
/// either is out of bounds.
pub assume_specification<A>[ <[A]>::swap ](s: &mut [A], a: usize, b: usize)
    requires
        a < old(s)@.len(),
        b < old(s)@.len(),
    ensures
        final(s)@ == old(s)@.update(a as int, old(s)@[b as int]).update(b as int, old(s)@[a as int]),
;

/// Sorts `arr` in place into non-descending order by repeated adjacent compare-and-swap,
/// making every pass without an early exit, and returns how many comparisons it made.
///
/// The result is always a reordering of the input and always costs `n * (n - 1) / 2`
/// comparisons. Where the comparison is lawful, the result is exactly the bubble sort
/// model of the input and no element is greater than its successor; pairs that do not
/// compare are never swapped.
pub fn bubble_sort_counted<T: PartialOrd>(arr: &mut [T]) -> (comparisons: u128)
    ensures
        final(arr)@.to_multiset() == old(arr)@.to_multiset(),
        comparisons == comparison_count(old(arr)@.len()),
        old(arr)@.len() <= 1 ==> final(arr)@ == old(arr)@,
        T::obeys_partial_cmp_spec() ==> final(arr)@ == bubble_sorted(old(arr)@),
        lawful_comparison::<T>() ==> adjacent_sorted(final(arr)@),
{
    let n = arr.len();
    let ghost s = arr@;
    let mut comparisons: u128 = 0;
    let mut i: usize = 0;
    while i < n
        invariant
            n == arr@.len(),
            n == s.len(),
            s == old(arr)@,
            i <= n,
            arr@.to_multiset() == s.to_multiset(),
            T::obeys_partial_cmp_spec() ==> arr@ == passes(s, i as nat),
            2 * comparisons == i * (2 * n - i - 1),
            n <= 1 ==> arr@ == s,
        decreases n - i,
    {
        let bound = n - i - 1;
        let ghost start = arr@;
        let mut j: usize = 0;
        while j < bound
            invariant
                n == arr@.len(),
                n == s.len(),
                i < n,
                bound == n - i - 1,
                j <= bound,
                arr@.to_multiset() == s.to_multiset(),
                T::obeys_partial_cmp_spec() ==> start == passes(s, i as nat),
                T::obeys_partial_cmp_spec() ==> arr@ == pass_prefix(start, j as nat),
                2 * comparisons == i * (2 * n - i - 1) + 2 * j,
                j == 0 ==> arr@ == start,
            decreases bound - j,
        {
            let ghost before = arr@;
            proof {
                lemma_swapped(before, j as int);
                assert(2 * comparisons + 2 <= n * n) by (nonlinear_arith)
                    requires
                        2 * comparisons == i * (2 * n - i - 1) + 2 * j,
                        j < n - i - 1,
                        i < n,
                ;
                assert(n * n <= 0xffff_ffff_ffff_ffff * 0xffff_ffff_ffff_ffffint) by (nonlinear_arith)
                    requires
                        n <= 0xffff_ffff_ffff_ffff,
                ;
            }
            if arr[j] > arr[j + 1] {
                arr.swap(j, j + 1);
                assert(arr@ == swapped(before, j as int));
            }
            assert(T::obeys_partial_cmp_spec() ==> arr@ == compare_swap(before, j as int));
            comparisons = comparisons + 1;
            j = j + 1;
        }
        assert(2 * comparisons == (i + 1) * (2 * n - (i + 1) - 1)) by (nonlinear_arith)
            requires
                2 * comparisons == i * (2 * n - i - 1) + 2 * bound,
                bound == n - i - 1,
        ;
        i = i + 1;
    }
    proof {
        assert(comparisons == comparison_count(n as nat)) by (nonlinear_arith)
            requires
                2 * comparisons == n * (2 * n - n - 1),
        ;
        if lawful_comparison::<T>() {
            lemma_bubble_sorted_is_sorted(s);
        }
        lemma_bubble_sorted_permutes(s);
    }
    comparisons
}

/// Sorts `arr` in place into non-descending order with bubble sort.
///
/// The result is always a reordering of the input, and an empty or one-element slice
/// is left as it is. Where the comparison is lawful, the result is exactly the bubble
/// sort model of the input and no element is greater than its successor; pairs that do
/// not compare are never swapped.
pub fn bubble_sort<T: PartialOrd>(arr: &mut [T])
    ensures
        final(arr)@.to_multiset() == old(arr)@.to_multiset(),
        old(arr)@.len() <= 1 ==> final(arr)@ == old(arr)@,
        T::obeys_partial_cmp_spec() ==> final(arr)@ == bubble_sorted(old(arr)@),
        lawful_comparison::<T>() ==> adjacent_sorted(final(arr)@),
{
    bubble_sort_counted(arr);
}

} // verus!
