//! A binary (max) heap backed by a vector, and heapsort built on it.

use vstd::multiset::Multiset;
use vstd::prelude::*;

verus! {


broadcast use {
    vstd::seq_lib::to_multiset_update,
    vstd::seq_lib::to_multiset_build,
    vstd::seq_lib::to_multiset_len,
};

/// Position of the parent of position `i` (for `i > 0`).
pub open spec fn parent(i: int) -> int {
    (i - 1) / 2
}

/// The first `end` elements of `s` are in max-heap order: no element is
/// larger than its parent.
pub open spec fn heap_ordered(s: Seq<u64>, end: int) -> bool {
    forall|i: int| 0 < i < end ==> s[parent(i)] >= #[trigger] s[i]
}

/// Heap order on `s[..end]` may fail only between position `k` and its
/// children, and the parent of `k` is no smaller than those children.
spec fn heap_below(s: Seq<u64>, end: int, k: int) -> bool {
    &&& forall|i: int| 0 < i < end && parent(i) != k ==> s[parent(i)] >= #[trigger] s[i]
    &&& forall|i: int| 0 < i < end && parent(i) == k && k > 0 ==> s[parent(k)] >= #[trigger] s[i]
}

/// Heap order on `s[..end]` may fail only between position `k` and its
/// parent, and the parent of `k` is no smaller than the children of `k`.
spec fn heap_above(s: Seq<u64>, end: int, k: int) -> bool {
    &&& forall|i: int| 0 < i < end && i != k ==> s[parent(i)] >= #[trigger] s[i]
    &&& forall|i: int| 0 < i < end && parent(i) == k && k > 0 ==> s[parent(k)] >= #[trigger] s[i]
}

/// The root of a heap is its largest element.
proof fn lemma_root_is_max(s: Seq<u64>, end: int, i: int)
    requires
        heap_ordered(s, end),
        0 <= i < end,
    ensures
        s[0] >= s[i],
    decreases i,
{
    if i > 0 {
        lemma_root_is_max(s, end, parent(i));
    }
}

/// Every element of a heap is at most its root.
proof fn lemma_root_bounds_contents(s: Seq<u64>)
    requires
        heap_ordered(s, s.len() as int),
        s.len() > 0,
    ensures
        forall|y: u64| s.to_multiset().contains(y) ==> y <= s[0],
{
    assert forall|y: u64| s.to_multiset().contains(y) implies y <= s[0] by {
        vstd::seq_lib::to_multiset_contains(s, y);
        let i = choose|i: int| 0 <= i < s.len() && s[i] == y;
        lemma_root_is_max(s, s.len() as int, i);
    }
}

/// Exchange the elements at `i` and `j`.
fn swap_at(v: &mut Vec<u64>, i: usize, j: usize)
    requires
        i < old(v)@.len(),
        j < old(v)@.len(),
    ensures
        final(v)@ == swapped(old(v)@, i as int, j as int),
        final(v)@.to_multiset() == old(v)@.to_multiset(),
{
    let ghost s = v@;
    let a = v[i];
    let b = v[j];
    v[i] = b;
    v[j] = a;
    proof {
        let s1 = s.update(i as int, b);
        vstd::seq_lib::to_multiset_contains(s, a);
        assert(s.contains(a)) by {
            assert(s[i as int] == a);
        }
        assert(s1[i as int] == b);
        assert(s1.to_multiset() =~= s.to_multiset().insert(b).remove(a));
        assert(s1.update(j as int, a).to_multiset() =~= s1.to_multiset().insert(a).remove(
            s1[j as int],
        ));
        assert(v@.to_multiset() =~= s.to_multiset());
    }
}

/// `s` with the elements at `i` and `j` exchanged.
pub open spec fn swapped(s: Seq<u64>, i: int, j: int) -> Seq<u64> {
    s.update(i, s[j]).update(j, s[i])
}

/// Exchanging a position with its larger child, when that child is larger,
/// moves the possible fault of heap order one level down.
proof fn lemma_sink_step(s: Seq<u64>, end: int, k: int, child: int)
    requires
        end <= s.len(),
        0 <= k < end,
        child < end,
        child == 2 * k + 1 || child == 2 * k + 2,
        2 * k + 1 < end ==> s[child] >= s[2 * k + 1],
        2 * k + 2 < end ==> s[child] >= s[2 * k + 2],
        s[k] < s[child],
        heap_below(s, end, k),
    ensures
        heap_below(swapped(s, k, child), end, child),
{
    let t = swapped(s, k, child);
    assert(parent(child) == k);
    assert forall|i: int| 0 < i < end && parent(i) != child implies t[parent(i)] >= #[trigger] t[i] by {
        if parent(i) == k {
            assert(i == 2 * k + 1 || i == 2 * k + 2);
        }
        if i == k && k > 0 {
            assert(s[parent(k)] >= s[child]);
        }
    }
    assert forall|i: int| 0 < i < end && parent(i) == child && child > 0 implies t[parent(
        child,
    )] >= #[trigger] t[i] by {
        assert(i != k && i != child);
        assert(s[child] >= s[i]);
    }
}

/// Exchanging a position with its parent, when it is larger than the
/// parent, moves the possible fault of heap order one level up.
proof fn lemma_swim_step(s: Seq<u64>, end: int, k: int)
    requires
        end <= s.len(),
        0 < k < end,
        s[k] > s[parent(k)],
        heap_above(s, end, k),
    ensures
        heap_above(swapped(s, k, parent(k)), end, parent(k)),
{
    let p = parent(k);
    let t = swapped(s, k, p);
    assert forall|i: int| 0 < i < end && i != p implies t[parent(i)] >= #[trigger] t[i] by {
        if parent(i) == k {
            assert(s[p] >= s[i]);
        } else if parent(i) == p && i != k {
            assert(s[p] >= s[i]);
        }
    }
    assert forall|i: int| 0 < i < end && parent(i) == p && p > 0 implies t[parent(p)] >= #[trigger] t[i] by {
        assert(s[parent(p)] >= s[p]);
        if i != k {
            assert(s[p] >= s[i]);
        }
    }
}

/// Moving the root of the heap `s[..end + 1]` to position `end` extends the
/// sorted tail by one and leaves a heap faulty at most at its root.
proof fn lemma_sorted_step(s: Seq<u64>, end: int)
    requires
        0 < end < s.len(),
        heap_ordered(s, end + 1),
        forall|i: int| 0 <= i <= end ==> s[0] >= #[trigger] s[i],
        forall|i: int, j: int| end + 1 <= i <= j < s.len() ==> s[i] <= s[j],
        forall|i: int, j: int| 0 <= i < end + 1 <= j < s.len() ==> s[i] <= s[j],
    ensures
        heap_below(swapped(s, 0, end), end, 0),
        forall|i: int, j: int|
            end <= i <= j < s.len() ==> swapped(s, 0, end)[i] <= swapped(s, 0, end)[j],
        forall|i: int, j: int|
            0 <= i < end <= j < s.len() ==> swapped(s, 0, end)[i] <= swapped(s, 0, end)[j],
{
    let t = swapped(s, 0, end);
    assert forall|i: int| 0 < i < end && parent(i) != 0 implies t[parent(i)] >= #[trigger] t[i] by {
        assert(s[parent(i)] >= s[i]);
    }
    assert forall|i: int, j: int| 0 <= i < end <= j < s.len() implies t[i] <= t[j] by {
        if i == 0 {
            assert(s[end] <= s[0]);
        }
    }
}

/// A heap faulty at most below `k` is in order once `k` is no smaller than
/// its children (if it has any).
proof fn lemma_children_in_order(s: Seq<u64>, end: int, k: int)
    requires
        end <= s.len(),
        0 <= k < end,
        heap_below(s, end, k),
        2 * k + 1 < end ==> s[k] >= s[2 * k + 1],
        2 * k + 2 < end ==> s[k] >= s[2 * k + 2],
    ensures
        heap_ordered(s, end),
{
    assert forall|i: int| 0 < i < end implies s[parent(i)] >= #[trigger] s[i] by {
        if parent(i) == k {
            assert(i == 2 * k + 1 || i == 2 * k + 2);
        }
    }
}

/// A binary max-heap: the largest element can always be retrieved in O(1)
/// time. The elements are kept in a vector in heap order.
pub struct BinaryHeap {
    data: Vec<u64>,
}

impl View for BinaryHeap {
    type V = Multiset<u64>;

    /// The elements of the heap.
    closed spec fn view(&self) -> Multiset<u64> {
        self.data@.to_multiset()
    }
}

impl BinaryHeap {
    /// The backing vector is in heap order.
    pub closed spec fn wf(&self) -> bool {
        heap_ordered(self.data@, self.data@.len() as int)
    }

    /// Create an empty heap.
    pub fn new() -> (r: BinaryHeap)
        ensures
            r.wf(),
            r@ == Multiset::<u64>::empty(),
    {
        let r = BinaryHeap { data: Vec::new() };
        proof {
            vstd::multiset::lemma_multiset_empty_len(r@);
        }
        r
    }

    /// Build a heap from the elements of a vector, in place.
    pub fn from_vec(vec: Vec<u64>) -> (r: BinaryHeap)
        ensures
            r.wf(),
            r@ == vec@.to_multiset(),
    {
        let mut heap = BinaryHeap { data: vec };
        let mut idx: usize = 1;
        while idx < heap.data.len()
            invariant
                1 <= idx,
                idx <= heap.data@.len() || heap.data@.len() == 0,
                heap_ordered(heap.data@, idx as int),
                heap.data@.to_multiset() == vec@.to_multiset(),
            decreases heap.data@.len() - idx,
        {
            heap.swim(idx);
            idx += 1;
        }
        heap
    }

    /// Insert a value into the heap. The average-case complexity is O(1),
    /// the worst-case complexity O(log n).
    pub fn insert(&mut self, val: u64)
        requires
            old(self).wf(),
        ensures
            final(self).wf(),
            final(self)@ == old(self)@.insert(val),
    {
        let idx = self.data.len();
        self.data.push(val);
        self.swim(idx);
    }

    /// Returns `true` if the heap is empty, `false` otherwise.
    pub fn is_empty(&self) -> (r: bool)
        ensures
            r == (self@.len() == 0),
    {
        self.data.len() == 0
    }

    /// Get the largest element in the heap. Returns `None` when the heap is
    /// empty.
    pub fn peek(&self) -> (r: Option<&u64>)
        requires
            self.wf(),
        ensures
            match r {
                None => self@.len() == 0,
                Some(x) => self@.contains(*x) && forall|y: u64| self@.contains(y) ==> y <= *x,
            },
    {
        if self.data.len() == 0 {
            None
        } else {
            proof {
                lemma_root_bounds_contents(self.data@);
                vstd::seq_lib::to_multiset_contains(self.data@, self.data@[0]);
            }
            Some(&self.data[0])
        }
    }

    /// Replace the largest element by `value` and restore the heap property.
    /// Returns the element that was replaced, or `None` (leaving the heap as
    /// it is) when the heap is empty.
    pub fn peek_mut(&mut self, value: u64) -> (r: Option<u64>)
        requires
            old(self).wf(),
        ensures
            final(self).wf(),
            match r {
                None => old(self)@.len() == 0 && final(self)@ == old(self)@,
                Some(x) => old(self)@.contains(x) && (forall|y: u64|
                    old(self)@.contains(y) ==> y <= x) && final(self)@ == old(self)@.remove(
                    x,
                ).insert(value),
            },
    {
        if self.data.len() == 0 {
            None
        } else {
            proof {
                lemma_root_bounds_contents(self.data@);
                vstd::seq_lib::to_multiset_contains(self.data@, self.data@[0]);
            }
            let top = self.data[0];
            self.data[0] = value;
            self.sink(0);
            Some(top)
        }
    }

    /// Retrieve and remove the largest element.
    pub fn pop(&mut self) -> (r: Option<u64>)
        requires
            old(self).wf(),
        ensures
            final(self).wf(),
            match r {
                None => old(self)@.len() == 0 && final(self)@ == old(self)@,
                Some(x) => old(self)@.contains(x) && (forall|y: u64|
                    old(self)@.contains(y) ==> y <= x) && final(self)@ == old(self)@.remove(x),
            },
    {
        if self.data.len() == 0 {
            return None;
        }
        proof {
            lemma_root_bounds_contents(self.data@);
            vstd::seq_lib::to_multiset_contains(self.data@, self.data@[0]);
        }
        let ghost s = self.data@;
        let last = self.data.pop().unwrap();
        assert(s =~= self.data@.push(last));
        if self.data.len() == 0 {
            return Some(last);
        }
        let top = self.data[0];
        self.data[0] = last;
        proof {
            assert(heap_below(self.data@, self.data@.len() as int, 0));
        }
        self.sink(0);
        Some(top)
    }

    /// Perform an in-place conversion of the heap to a sorted vector, in
    /// O(n log n) time.
    #[verifier::spinoff_prover]
    #[verifier::rlimit(100)]
    pub fn into_sorted_vec(self) -> (r: Vec<u64>)
        requires
            self.wf(),
        ensures
            forall|i: int, j: int| 0 <= i <= j < r@.len() ==> r@[i] <= r@[j],
            r@.to_multiset() == self@,
    {
        let mut heap = self;
        let mut heap_end = heap.data.len();
        while heap_end > 1
            invariant
                heap_end <= heap.data@.len(),
                heap_ordered(heap.data@, heap_end as int),
                forall|i: int, j: int|
                    heap_end <= i <= j < heap.data@.len() ==> heap.data@[i] <= heap.data@[j],
                forall|i: int, j: int|
                    0 <= i < heap_end <= j < heap.data@.len() ==> heap.data@[i] <= heap.data@[j],
                heap.data@.to_multiset() == self@,
            decreases heap_end,
        {
            heap_end -= 1;
            heap.move_max_to(heap_end);
        }
        heap.data
    }

    /// Move the largest element of the heap `data[..end + 1]` to position
    /// `end`, in front of the sorted elements after it, and restore the heap
    /// property on `data[..end]`.
    #[verifier::rlimit(50)]
    fn move_max_to(&mut self, end: usize)
        requires
            0 < end < old(self).data@.len(),
            heap_ordered(old(self).data@, end + 1),
            forall|i: int, j: int|
                end + 1 <= i <= j < old(self).data@.len() ==> old(self).data@[i] <= old(self).data@[j],
            forall|i: int, j: int|
                0 <= i < end + 1 <= j < old(self).data@.len() ==> old(self).data@[i] <= old(self).data@[j],
        ensures
            final(self).data@.len() == old(self).data@.len(),
            heap_ordered(final(self).data@, end as int),
            forall|i: int, j: int|
                end <= i <= j < final(self).data@.len() ==> final(self).data@[i] <= final(self).data@[j],
            forall|i: int, j: int|
                0 <= i < end <= j < final(self).data@.len() ==> final(self).data@[i] <= final(self).data@[j],
            final(self)@ == old(self)@,
    {
        let ghost s = self.data@;
        proof {
            assert forall|i: int| 0 <= i <= end implies s[0] >= #[trigger] s[i] by {
                lemma_root_is_max(s, end + 1, i);
            }
        }
        swap_at(&mut self.data, 0, end);
        let ghost t = self.data@;
        proof {
            lemma_sorted_step(s, end as int);
        }
        self.sink_range(0, end, Ghost(t[end as int]));
        proof {
            let u = self.data@;
            assert forall|i: int, j: int| end <= i <= j < u.len() implies u[i] <= u[j] by {
                assert(u[i] == t[i] && u[j] == t[j]);
            }
            assert forall|i: int, j: int| 0 <= i < end <= j < u.len() implies u[i] <= u[j] by {
                assert(u[i] <= t[end as int]);
                assert(u[j] == t[j]);
                assert(t[end as int] <= t[j]);
            }
        }
    }

    /// The sink operation restores the heap property when a value is smaller
    /// than one of its children.
    fn sink(&mut self, idx: usize)
        requires
            heap_below(old(self).data@, old(self).data@.len() as int, idx as int),
            idx < old(self).data@.len(),
        ensures
            final(self).wf(),
            final(self)@ == old(self)@,
    {
        let len = self.data.len();
        self.sink_range(idx, len, Ghost(u64::MAX));
    }

    /// The sink operation, on the heap formed by the first `end` elements.
    fn sink_range(&mut self, idx: usize, end: usize, Ghost(bound): Ghost<u64>)
        requires
            forall|i: int| 0 <= i < end ==> old(self).data@[i] <= bound,
            end <= old(self).data@.len(),
            idx < end || end == 0,
            heap_below(old(self).data@, end as int, idx as int),
        ensures
            heap_ordered(final(self).data@, end as int),
            final(self)@ == old(self)@,
            final(self).data@.len() == old(self).data@.len(),
            forall|k: int| end <= k < final(self).data@.len() ==> final(self).data@[k] == old(self).data@[k],
            forall|i: int| 0 <= i < end ==> final(self).data@[i] <= bound,
    {
        let mut k = idx;
        while k < end / 2
            invariant
                end <= self.data@.len(),
                self.data@.len() == old(self).data@.len(),
                k < end || end == 0,
                heap_below(self.data@, end as int, k as int),
                self@ == old(self)@,
                forall|j: int| end <= j < self.data@.len() ==> self.data@[j] == old(self).data@[j],
                forall|i: int| 0 <= i < end ==> self.data@[i] <= bound,
            decreases end - k,
        {
            assert(2 * k + 2 <= end);
            let left = k * 2 + 1;
            let mut child = left;
            let right = left + 1;
            if right < end && self.data[right] > self.data[left] {
                child = right;
            }
            if self.data[k] >= self.data[child] {
                proof {
                    lemma_children_in_order(self.data@, end as int, k as int);
                }
                return;
            }
            proof {
                lemma_sink_step(self.data@, end as int, k as int, child as int);
            }
            swap_at(&mut self.data, k, child);
            k = child;
        }
        proof {
            if end > 0 {
                lemma_children_in_order(self.data@, end as int, k as int);
            }
        }
    }

    /// The swim operation restores the heap property when a value is larger
    /// than its parent.
    fn swim(&mut self, idx: usize)
        requires
            idx < old(self).data@.len(),
            heap_ordered(old(self).data@, idx as int),
        ensures
            heap_ordered(final(self).data@, idx + 1),
            final(self)@ == old(self)@,
            final(self).data@.len() == old(self).data@.len(),
            forall|k: int| idx < k < final(self).data@.len() ==> final(self).data@[k] == old(self).data@[k],
    {
        let n = self.data.len();
        let end = idx + 1;
        let mut k = idx;
        assert(heap_above(self.data@, end as int, k as int));
        while k != 0
            invariant
                k < end,
                end == idx + 1,
                end <= self.data@.len(),
                self.data@.len() == old(self).data@.len(),
                heap_above(self.data@, end as int, k as int),
                self@ == old(self)@,
                forall|j: int| end <= j < self.data@.len() ==> self.data@[j] == old(self).data@[j],
            decreases k,
        {
            let parent = (k - 1) / 2;
            if self.data[k] <= self.data[parent] {
                assert(heap_ordered(self.data@, end as int));
                return;
            }
            proof {
                lemma_swim_step(self.data@, end as int, k as int);
            }
            swap_at(&mut self.data, k, parent);
            k = parent;
        }
        assert(heap_ordered(self.data@, end as int));
    }
}

/// Sort a vector: convert it to a binary heap, then the heap to a sorted
/// vector. Both conversions happen in place.
pub fn heapsort(arr: Vec<u64>) -> (r: Vec<u64>)
    ensures
        forall|i: int, j: int| 0 <= i <= j < r@.len() ==> r@[i] <= r@[j],
        r@.to_multiset() == arr@.to_multiset(),
{
    let heap = BinaryHeap::from_vec(arr);
    heap.into_sorted_vec()
}

impl vstd::std_specs::convert::FromSpecImpl<Vec<u64>> for BinaryHeap {
    /// The arrangement that `from` builds is not given as a spec value; what
    /// `from` returns is the heap that `from_vec` describes.
    open spec fn obeys_from_spec() -> bool {
        false
    }

    closed spec fn from_spec(v: Vec<u64>) -> BinaryHeap {
        BinaryHeap { data: v }
    }
}

impl From<Vec<u64>> for BinaryHeap {
    /// Build a heap from the elements of a vector.
    fn from(vec: Vec<u64>) -> BinaryHeap {
        BinaryHeap::from_vec(vec)
    }
}

} // verus!
