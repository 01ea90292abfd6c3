//! Bubble sort, in two variants.

use vstd::prelude::*;

verus! {

broadcast use vstd::seq_lib::to_multiset_update;

/// Sorted in ascending order.
pub open spec fn sorted(s: Seq<i64>) -> bool {
    forall|i: int, j: int| 0 <= i <= j < s.len() ==> s[i] <= s[j]
}

/// The first `k` elements (or all, if there are fewer) are sorted.
pub open spec fn sorted_prefix(s: Seq<i64>, k: int) -> bool {
    forall|i: int, j: int| 0 <= i <= j < k && j < s.len() ==> s[i] <= s[j]
}

/// The elements from position `m` on are sorted and none of them is smaller
/// than an element before `m`.
pub open spec fn settled_from(s: Seq<i64>, m: int) -> bool {
    &&& forall|i: int, j: int| m <= i <= j < s.len() ==> s[i] <= s[j]
    &&& forall|i: int, j: int| 0 <= i < m <= j < s.len() ==> s[i] <= s[j]
}

/// Swap the neighbours at `i - 1` and `i`.
fn swap_down(arr: &mut [i64], i: usize)
    requires
        0 < i < old(arr)@.len(),
    ensures
        final(arr)@ == old(arr)@.update(i - 1, old(arr)@[i as int]).update(
            i as int,
            old(arr)@[i - 1],
        ),
        final(arr)@.to_multiset() == old(arr)@.to_multiset(),
{
    let ghost s = arr@;
    let a = arr[i - 1];
    let b = arr[i];
    arr[i - 1] = b;
    arr[i] = a;
    proof {
        let s1 = s.update(i - 1, b);
        assert(s[i - 1] == a);
        assert(s.to_multiset().count(a) > 0) by {
            vstd::seq_lib::to_multiset_contains(s, a);
            assert(s.contains(a));
        }
        assert(s1[i - 1] == b);
        assert(s1.to_multiset() =~= s.to_multiset().insert(b).remove(a));
        assert(s1.update(i as int, a).to_multiset() =~= s1.to_multiset().insert(a).remove(b));
        assert(arr@.to_multiset() =~= s.to_multiset());
    }
}

/// One pass over `arr[..n]` that swaps each neighbouring pair out of order.
/// `arr[m..]` is settled before the pass; after it `arr[m - 1..]` is too.
/// Returns `true` when nothing was swapped, in which case `arr[..n]` is
/// sorted; with nothing left unsettled no swap happens.
fn bubble_pass(arr: &mut [i64], n: usize, Ghost(m): Ghost<int>) -> (no_swap: bool)
    requires
        n <= old(arr)@.len(),
        0 <= m <= n,
        settled_from(old(arr)@, m),
    ensures
        final(arr)@.to_multiset() == old(arr)@.to_multiset(),
        final(arr)@.len() == old(arr)@.len(),
        settled_from(final(arr)@, m),
        m >= 1 ==> settled_from(final(arr)@, m - 1),
        no_swap ==> sorted_prefix(final(arr)@, n as int),
        no_swap ==> final(arr)@ == old(arr)@,
        m == 0 ==> no_swap,
{
    let ghost s0 = arr@;
    let mut no_swap = true;
    let mut i: usize = 1;
    while i < n
        invariant
            1 <= i,
            i <= n || n == 0,
            n <= arr@.len(),
            arr@.len() == s0.len(),
            arr@.to_multiset() == s0.to_multiset(),
            0 <= m <= n,
            settled_from(arr@, m),
            forall|k: int| m <= k < arr@.len() ==> arr@[k] == s0[k],
            i <= m ==> forall|k: int| 0 <= k < i ==> #[trigger] arr@[k] <= arr@[i - 1],
            i > m && m >= 1 ==> forall|k: int| 0 <= k < m ==> #[trigger] arr@[k] <= arr@[m - 1],
            no_swap ==> sorted_prefix(arr@, i as int),
            no_swap ==> arr@ == s0,
            m == 0 ==> no_swap,
        decreases n - i,
    {
        if arr[i] < arr[i - 1] {
            swap_down(arr, i);
            no_swap = false;
        }
        i += 1;
    }
    no_swap
}

/// Sort a slice: pass over the whole slice until a pass swaps nothing.
pub fn bubble_sort0(arr: &mut [i64])
    ensures
        sorted(final(arr)@),
        final(arr)@.to_multiset() == old(arr)@.to_multiset(),
{
    let ghost mut m: int = arr@.len() as int;
    loop
        invariant
            0 <= m <= arr@.len(),
            settled_from(arr@, m),
            arr@.to_multiset() == old(arr)@.to_multiset(),
        ensures
            sorted(arr@),
            arr@.to_multiset() == old(arr)@.to_multiset(),
        decreases m,
    {
        let n = arr.len();
        let no_swap = bubble_pass(arr, n, Ghost(m));
        if no_swap {
            break;
        }
        proof {
            m = m - 1;
        }
    }
}

/// Sort a slice: after each pass the largest remaining element has reached
/// its place, so the next pass stops one position earlier.
pub fn bubble_sort(arr: &mut [i64])
    ensures
        sorted(final(arr)@),
        final(arr)@.to_multiset() == old(arr)@.to_multiset(),
{
    let mut n = arr.len();
    loop
        invariant
            n <= arr@.len(),
            settled_from(arr@, n as int),
            arr@.to_multiset() == old(arr)@.to_multiset(),
        ensures
            sorted(arr@),
            arr@.to_multiset() == old(arr)@.to_multiset(),
        decreases n,
    {
        let no_swap = bubble_pass(arr, n, Ghost(n as int));
        if no_swap {
            break;
        }
        n -= 1;
    }
}

} // verus!
