//! Summing the numbers of a slice, directly and through boxes.

use vstd::prelude::*;

verus! {

/// The sum of a sequence of integers.
pub open spec fn seq_sum(s: Seq<i64>) -> int
    decreases s.len(),
{
    if s.len() == 0 {
        0
    } else {
        seq_sum(s.drop_last()) + s.last()
    }
}

/// Every running sum of `s`, from the first element on, fits in an `i64`.
pub open spec fn running_sums_fit(s: Seq<i64>) -> bool {
    forall|k: int| 0 <= k <= s.len() ==> i64::MIN <= #[trigger] seq_sum(s.subrange(0, k)) <= i64::MAX
}

/// The values behind a slice of boxes.
pub open spec fn unboxed(s: Seq<Box<i64>>) -> Seq<i64> {
    s.map_values(|b: Box<i64>| *b)
}

/// Sum the elements of a slice.
pub fn sum_slice(arr: &[i64]) -> (r: i64)
    requires
        running_sums_fit(arr@),
    ensures
        r == seq_sum(arr@),
{
    let mut sum: i64 = 0;
    let mut i: usize = 0;
    assert(arr@.subrange(0, 0) =~= Seq::<i64>::empty());
    while i < arr.len()
        invariant
            i <= arr@.len(),
            running_sums_fit(arr@),
            sum == seq_sum(arr@.subrange(0, i as int)),
        decreases arr@.len() - i,
    {
        assert(arr@.subrange(0, i + 1).drop_last() =~= arr@.subrange(0, i as int));
        assert(i64::MIN <= seq_sum(arr@.subrange(0, i + 1)) <= i64::MAX);
        sum += arr[i];
        i += 1;
    }
    assert(arr@.subrange(0, i as int) =~= arr@);
    sum
}

/// Sum the values behind a slice of boxes.
pub fn sum_slice_boxed(arr: &[Box<i64>]) -> (r: i64)
    requires
        running_sums_fit(unboxed(arr@)),
    ensures
        r == seq_sum(unboxed(arr@)),
{
    let ghost s = unboxed(arr@);
    let mut sum: i64 = 0;
    let mut i: usize = 0;
    assert(s.subrange(0, 0) =~= Seq::<i64>::empty());
    while i < arr.len()
        invariant
            i <= arr@.len(),
            s == unboxed(arr@),
            running_sums_fit(s),
            sum == seq_sum(s.subrange(0, i as int)),
        decreases arr@.len() - i,
    {
        assert(s.subrange(0, i + 1).drop_last() =~= s.subrange(0, i as int));
        assert(i64::MIN <= seq_sum(s.subrange(0, i + 1)) <= i64::MAX);
        let v: i64 = *arr[i];
        sum += v;
        i += 1;
    }
    assert(s.subrange(0, i as int) =~= s);
    sum
}

} // verus!
