//! A suffix array over bytes: the positions of a text, ordered by the
//! suffixes that start there, for substring search.

use vstd::prelude::*;

verus! {

/// Strict lexicographic order on byte sequences (a proper prefix comes
/// first); the order of Rust's slices of bytes.
pub open spec fn bytes_lt(a: Seq<u8>, b: Seq<u8>) -> bool
    decreases a.len(),
{
    if b.len() == 0 {
        false
    } else if a.len() == 0 {
        true
    } else if a[0] != b[0] {
        a[0] < b[0]
    } else {
        bytes_lt(a.drop_first(), b.drop_first())
    }
}

/// The suffix of `d` that starts at position `i`.
pub open spec fn suffix(d: Seq<u8>, i: int) -> Seq<u8> {
    d.subrange(i, d.len() as int)
}

/// `s` cut to at most `m` elements.
pub open spec fn truncated(s: Seq<u8>, m: int) -> Seq<u8> {
    if s.len() <= m {
        s
    } else {
        s.subrange(0, m)
    }
}

/// `p` is a prefix of `s`.
pub open spec fn bytes_prefix(p: Seq<u8>, s: Seq<u8>) -> bool {
    p.len() <= s.len() && s.subrange(0, p.len() as int) == p
}

proof fn lemma_lt_irreflexive(a: Seq<u8>)
    ensures
        !bytes_lt(a, a),
    decreases a.len(),
{
    if a.len() > 0 {
        lemma_lt_irreflexive(a.drop_first());
    }
}

proof fn lemma_lt_total(a: Seq<u8>, b: Seq<u8>)
    ensures
        a == b || bytes_lt(a, b) || bytes_lt(b, a),
        !(bytes_lt(a, b) && bytes_lt(b, a)),
    decreases a.len(),
{
    if a.len() > 0 && b.len() > 0 && a[0] == b[0] {
        lemma_lt_total(a.drop_first(), b.drop_first());
        if a.drop_first() == b.drop_first() {
            assert(a =~= b) by {
                assert forall|k: int| 0 <= k < a.len() implies a[k] == b[k] by {
                    if k > 0 {
                        assert(a[k] == a.drop_first()[k - 1]);
                        assert(b[k] == b.drop_first()[k - 1]);
                    }
                }
            }
        }
    }
    if a.len() == 0 && b.len() == 0 {
        assert(a =~= b);
    }
}

proof fn lemma_lt_transitive(a: Seq<u8>, b: Seq<u8>, c: Seq<u8>)
    requires
        bytes_lt(a, b),
        bytes_lt(b, c),
    ensures
        bytes_lt(a, c),
    decreases a.len(),
{
    if a.len() > 0 && a[0] == b[0] && b[0] == c[0] {
        lemma_lt_transitive(a.drop_first(), b.drop_first(), c.drop_first());
    }
}

/// Cutting two ordered sequences to the same length keeps them in order,
/// or makes them equal.
proof fn lemma_lt_truncated(a: Seq<u8>, b: Seq<u8>, m: int)
    requires
        bytes_lt(a, b),
        m >= 0,
    ensures
        bytes_lt(truncated(a, m), truncated(b, m)) || truncated(a, m) == truncated(b, m),
    decreases a.len(),
{
    let ta = truncated(a, m);
    let tb = truncated(b, m);
    if m == 0 {
        assert(ta =~= Seq::<u8>::empty());
        assert(tb =~= Seq::<u8>::empty());
    } else if a.len() == 0 {
    } else if a[0] != b[0] {
        assert(ta[0] == a[0] && tb[0] == b[0]);
    } else {
        lemma_lt_truncated(a.drop_first(), b.drop_first(), m - 1);
        assert(ta.drop_first() =~= truncated(a.drop_first(), m - 1));
        assert(tb.drop_first() =~= truncated(b.drop_first(), m - 1));
        if ta.drop_first() == tb.drop_first() {
            assert(ta =~= tb) by {
                assert forall|k: int| 0 <= k < ta.len() implies ta[k] == tb[k] by {
                    if k > 0 {
                        assert(ta[k] == ta.drop_first()[k - 1]);
                        assert(tb[k] == tb.drop_first()[k - 1]);
                    }
                }
            }
        }
    }
}

/// A sequence cut to the length of `p` equals `p` exactly when `p` is a
/// prefix of it.
proof fn lemma_truncated_prefix(s: Seq<u8>, p: Seq<u8>)
    ensures
        (truncated(s, p.len() as int) == p) == bytes_prefix(p, s),
{
    if s.len() < p.len() {
        assert(truncated(s, p.len() as int).len() < p.len());
    }
    if s.len() == p.len() {
        assert(s.subrange(0, s.len() as int) =~= s);
    }
}

/// Positions `0..n`, each once.
pub open spec fn is_permutation_of_positions(s: Seq<usize>, n: int) -> bool {
    &&& s.len() == n
    &&& forall|k: int| 0 <= k < n ==> s[k] < n
    &&& s.no_duplicates()
    &&& forall|p: usize| p < n ==> s.contains(p)
}

/// Three-way comparison of `s` cut to the length of `needle` with `needle`:
/// -1, 0 or 1.
pub open spec fn compare_cut(s: Seq<u8>, needle: Seq<u8>) -> int {
    let t = truncated(s, needle.len() as int);
    if bytes_lt(t, needle) {
        -1
    } else if t == needle {
        0
    } else {
        1
    }
}

/// The suffix at `a` comes before the suffix at `b`.
pub open spec fn suffix_lt(d: Seq<u8>, a: usize, b: usize) -> bool {
    bytes_lt(suffix(d, a as int), suffix(d, b as int))
}

/// Suffixes at different positions differ (they differ in length).
proof fn lemma_suffixes_differ(d: Seq<u8>, a: int, b: int)
    requires
        0 <= a < d.len(),
        0 <= b < d.len(),
        a != b,
    ensures
        suffix(d, a) != suffix(d, b),
{
    assert(suffix(d, a).len() != suffix(d, b).len());
}

/// Whether the suffix at `i` comes before the suffix at `j`.
fn suffix_less(data: &Vec<u8>, i: usize, j: usize) -> (r: bool)
    requires
        i < data@.len(),
        j < data@.len(),
    ensures
        r == suffix_lt(data@, i, j),
{
    let n = data.len();
    let mut k: usize = 0;
    while i + k < n && j + k < n
        invariant
            i < n,
            j < n,
            n == data@.len(),
            k <= n,
            i + k <= n,
            j + k <= n,
            suffix_lt(data@, i, j) == bytes_lt(suffix(data@, i + k), suffix(data@, j + k)),
        decreases n - k,
    {
        let a = data[i + k];
        let b = data[j + k];
        assert(suffix(data@, i + k)[0] == a);
        assert(suffix(data@, j + k)[0] == b);
        if a != b {
            return a < b;
        }
        assert(suffix(data@, i + k).drop_first() =~= suffix(data@, i + k + 1));
        assert(suffix(data@, j + k).drop_first() =~= suffix(data@, j + k + 1));
        k += 1;
    }
    i + k == n && j + k < n
}

/// Three-way comparison of the suffix at `start`, cut to the length of
/// `needle`, with `needle`: -1, 0 or 1.
fn compare_cut_at(data: &Vec<u8>, start: usize, needle: &[u8]) -> (r: i8)
    requires
        start <= data@.len(),
    ensures
        r as int == compare_cut(suffix(data@, start as int), needle@),
{
    let n = data.len();
    let m = needle.len();
    let avail = n - start;
    let len = if avail < m {
        avail
    } else {
        m
    };
    let ghost t = truncated(suffix(data@, start as int), m as int);
    assert(t.len() == len);
    assert(t.subrange(0, len as int) =~= t);
    assert(needle@.subrange(0, m as int) =~= needle@);
    let mut k: usize = 0;
    while k < len
        invariant
            len == t.len(),
            len <= m,
            m == needle@.len(),
            start + len <= n,
            n == data@.len(),
            t == truncated(suffix(data@, start as int), m as int),
            k <= len,
            bytes_lt(t, needle@) == bytes_lt(
                t.subrange(k as int, len as int),
                needle@.subrange(k as int, m as int),
            ),
            forall|q: int| 0 <= q < k ==> t[q] == needle@[q],
        decreases len - k,
    {
        let a = data[start + k];
        let b = needle[k];
        assert(t[k as int] == a);
        let ghost tk = t.subrange(k as int, len as int);
        let ghost nk = needle@.subrange(k as int, m as int);
        assert(tk[0] == a && nk[0] == b);
        if a != b {
            proof {
                lemma_lt_total(t, needle@);
            }
            if a < b {
                return -1;
            } else {
                assert(t != needle@) by {
                    assert(t[k as int] != needle@[k as int]);
                }
                return 1;
            }
        }
        assert(tk.drop_first() =~= t.subrange(k + 1, len as int));
        assert(nk.drop_first() =~= needle@.subrange(k + 1, m as int));
        k += 1;
    }
    assert(t.subrange(len as int, len as int) =~= Seq::<u8>::empty());
    if len == m {
        assert(t =~= needle@);
        proof {
            lemma_lt_irreflexive(t);
        }
        0
    } else {
        assert(t != needle@);
        -1
    }
}

/// Along the order of a suffix array, the comparison of the cut suffixes
/// with a needle never decreases.
proof fn lemma_compare_monotone(d: Seq<u8>, a: usize, b: usize, needle: Seq<u8>)
    requires
        suffix_lt(d, a, b),
    ensures
        compare_cut(suffix(d, a as int), needle) <= compare_cut(suffix(d, b as int), needle),
{
    let m = needle.len() as int;
    let t1 = truncated(suffix(d, a as int), m);
    let t2 = truncated(suffix(d, b as int), m);
    lemma_lt_truncated(suffix(d, a as int), suffix(d, b as int), m);
    lemma_lt_total(t1, needle);
    lemma_lt_total(t2, needle);
    if t1 != t2 {
        if bytes_lt(t2, needle) {
            lemma_lt_transitive(t1, t2, needle);
        }
        if t2 == needle {
            assert(bytes_lt(t1, needle));
        }
    }
}

/// `s` with the elements at `a` and `b` exchanged.
pub open spec fn exchanged(s: Seq<usize>, a: int, b: int) -> Seq<usize> {
    s.update(a, s[b]).update(b, s[a])
}

proof fn lemma_exchange_permutation(s: Seq<usize>, n: int, a: int, b: int)
    requires
        is_permutation_of_positions(s, n),
        0 <= a < n,
        0 <= b < n,
    ensures
        is_permutation_of_positions(exchanged(s, a, b), n),
{
    let t = exchanged(s, a, b);
    assert forall|p: usize| p < n implies t.contains(p) by {
        assert(s.contains(p));
        let k = choose|k: int| 0 <= k < s.len() && s[k] == p;
        if k == a {
            assert(t[b] == p);
        } else if k == b {
            assert(t[a] == p);
        } else {
            assert(t[k] == p);
        }
    }
    assert forall|p: int, q: int| 0 <= p < t.len() && 0 <= q < t.len() && p != q implies t[p]
        != t[q] by {
        let sp = if p == a {
            b
        } else if p == b {
            a
        } else {
            p
        };
        let sq = if q == a {
            b
        } else if q == b {
            a
        } else {
            q
        };
        assert(t[p] == s[sp] && t[q] == s[sq]);
    }
}

/// Invariant of inserting the element at `j` into the sorted `s[..j]`:
/// `s[..j]` and `s[j..=i]` are sorted, and the elements before `j` come
/// before those after `j`.
pub open spec fn inserting(d: Seq<u8>, s: Seq<usize>, i: int, j: int) -> bool {
    &&& forall|p: int, q: int| 0 <= p < q < j ==> suffix_lt(d, s[p], s[q])
    &&& forall|p: int, q: int| j <= p < q <= i ==> suffix_lt(d, s[p], s[q])
    &&& forall|p: int, q: int| 0 <= p < j < q <= i ==> suffix_lt(d, s[p], s[q])
}

proof fn lemma_insert_step(d: Seq<u8>, s: Seq<usize>, i: int, j: int)
    requires
        0 < j <= i < s.len(),
        inserting(d, s, i, j),
        suffix_lt(d, s[j], s[j - 1]),
    ensures
        inserting(d, exchanged(s, j - 1, j), i, j - 1),
{
    let t = exchanged(s, j - 1, j);
    assert forall|p: int, q: int| j - 1 <= p < q <= i implies suffix_lt(d, t[p], t[q]) by {
        if p == j - 1 && q == j {
        } else if p == j - 1 {
            assert(suffix_lt(d, s[j], s[q]));
        } else {
            assert(suffix_lt(d, s[j - 1], s[q]));
        }
    }
    assert forall|p: int, q: int| 0 <= p < j - 1 < q <= i implies suffix_lt(d, t[p], t[q]) by {
        if q == j {
            assert(suffix_lt(d, s[p], s[j - 1]));
        }
    }
}

proof fn lemma_insert_done(d: Seq<u8>, s: Seq<usize>, i: int, j: int)
    requires
        0 <= j <= i < s.len(),
        s.len() == d.len(),
        is_permutation_of_positions(s, d.len() as int),
        inserting(d, s, i, j),
        j > 0 ==> !suffix_lt(d, s[j], s[j - 1]),
    ensures
        forall|p: int, q: int| 0 <= p < q <= i ==> suffix_lt(d, s[p], s[q]),
{
    if j > 0 {
        lemma_suffixes_differ(d, s[j] as int, s[j - 1] as int);
        lemma_lt_total(suffix(d, s[j] as int), suffix(d, s[j - 1] as int));
        assert(suffix_lt(d, s[j - 1], s[j]));
    }
    assert forall|p: int, q: int| 0 <= p < q <= i implies suffix_lt(d, s[p], s[q]) by {
        if p < j && q == j && p < j - 1 {
            assert(suffix_lt(d, s[p], s[j - 1]));
            lemma_lt_transitive(suffix(d, s[p] as int), suffix(d, s[j - 1] as int), suffix(d, s[j] as int));
        }
    }
}

/// Which end of the run of matching suffixes a search looks for.
enum Bound {
    LowerBound,
    UpperBound,
}

/// A suffix whose cut comparison with the needle is `c` lies before the
/// bound: before the matches for the lower bound, before the suffixes that
/// come after the matches for the upper bound.
spec fn before_bound(c: int, upper: bool) -> bool {
    if upper {
        c <= 0
    } else {
        c < 0
    }
}

#[derive(Debug)]
pub struct SuffixArray {
    data: Vec<u8>,
    sarr: Vec<usize>,
}

impl SuffixArray {
    /// The text.
    pub closed spec fn text(&self) -> Seq<u8> {
        self.data@
    }

    /// The positions of the text, ordered by their suffixes.
    pub closed spec fn order(&self) -> Seq<usize> {
        self.sarr@
    }

    /// The positions are those of the text, each once, in strictly
    /// ascending order of the suffixes that start there.
    pub open spec fn wf(&self) -> bool {
        &&& is_permutation_of_positions(self.order(), self.text().len() as int)
        &&& forall|i: int, j: int|
            0 <= i < j < self.order().len() ==> bytes_lt(
                suffix(self.text(), self.order()[i] as int),
                suffix(self.text(), self.order()[j] as int),
            )
    }

    /// Build the suffix array of a text. Sorting compares whole suffixes,
    /// so this takes O(n^2 log n) time at best; for real applications, use
    /// a fast algorithm like SA-IS.
    pub fn new(data: &[u8]) -> (r: SuffixArray)
        ensures
            r.wf(),
            r.text() == data@,
    {
        let d = vstd::slice::slice_to_vec(data);
        let n = d.len();
        let mut sarr: Vec<usize> = Vec::new();
        let mut p: usize = 0;
        while p < n
            invariant
                p <= n,
                sarr@.len() == p,
                forall|k: int| 0 <= k < p ==> sarr@[k] == k,
            decreases n - p,
        {
            sarr.push(p);
            p += 1;
        }
        assert(is_permutation_of_positions(sarr@, n as int)) by {
            assert forall|q: usize| q < n implies sarr@.contains(q) by {
                assert(sarr@[q as int] == q);
            }
        }
        let mut i: usize = 1;
        while i < n
            invariant
                1 <= i,
                n == d@.len(),
                is_permutation_of_positions(sarr@, n as int),
                forall|p: int, q: int| 0 <= p < q < i && q < n ==> suffix_lt(d@, sarr@[p], sarr@[q]),
            decreases n - i,
        {
            let mut j = i;
            loop
                invariant
                    j <= i < n,
                    n == d@.len(),
                    is_permutation_of_positions(sarr@, n as int),
                    inserting(d@, sarr@, i as int, j as int),
                ensures
                    is_permutation_of_positions(sarr@, n as int),
                    forall|p: int, q: int| 0 <= p < q <= i ==> suffix_lt(d@, sarr@[p], sarr@[q]),
                decreases j,
            {
                if j == 0 || !suffix_less(&d, sarr[j], sarr[j - 1]) {
                    proof {
                        lemma_insert_done(d@, sarr@, i as int, j as int);
                    }
                    break;
                }
                let a = sarr[j - 1];
                let b = sarr[j];
                proof {
                    lemma_insert_step(d@, sarr@, i as int, j as int);
                    lemma_exchange_permutation(sarr@, n as int, j - 1, j as int);
                }
                sarr[j - 1] = b;
                sarr[j] = a;
                j -= 1;
            }
            i += 1;
        }
        let r = SuffixArray { data: d, sarr };
        assert forall|p: int, q: int| 0 <= p < q < r.order().len() implies bytes_lt(
            suffix(r.text(), r.order()[p] as int),
            suffix(r.text(), r.order()[q] as int),
        ) by {
            assert(suffix_lt(d@, sarr@[p], sarr@[q]));
        }
        r
    }

    /// The cut comparison of the suffix at rank `k` with `needle`.
    pub open spec fn rank_compare(&self, k: int, needle: Seq<u8>) -> int {
        compare_cut(suffix(self.text(), self.order()[k] as int), needle)
    }

    proof fn lemma_rank_monotone(&self, k1: int, k2: int, needle: Seq<u8>)
        requires
            self.wf(),
            0 <= k1 <= k2 < self.order().len(),
        ensures
            self.rank_compare(k1, needle) <= self.rank_compare(k2, needle),
    {
        if k1 < k2 {
            lemma_compare_monotone(self.text(), self.order()[k1], self.order()[k2], needle);
        }
    }

    /// The number of ranks whose suffixes lie before the bound.
    fn bound(&self, bound: Bound, needle: &[u8]) -> (r: usize)
        requires
            self.wf(),
        ensures
            r <= self.order().len(),
            forall|k: int| 0 <= k < r ==> before_bound(self.rank_compare(k, needle@), bound is UpperBound),
            forall|k: int|
                r <= k < self.order().len() ==> !before_bound(self.rank_compare(k, needle@), bound is UpperBound),
    {
        let upper = match bound {
            Bound::LowerBound => false,
            Bound::UpperBound => true,
        };
        let mut lo: usize = 0;
        let mut hi: usize = self.sarr.len();
        while lo < hi
            invariant
                self.wf(),
                upper == bound is UpperBound,
                lo <= hi <= self.order().len(),
                forall|k: int| 0 <= k < lo ==> before_bound(self.rank_compare(k, needle@), upper),
                forall|k: int|
                    hi <= k < self.order().len() ==> !before_bound(self.rank_compare(k, needle@), upper),
            decreases hi - lo,
        {
            let mid = lo + (hi - lo) / 2;
            let c = compare_cut_at(&self.data, self.sarr[mid], needle);
            let go_right = if upper {
                c <= 0
            } else {
                c < 0
            };
            if go_right {
                proof {
                    assert forall|k: int| 0 <= k <= mid implies before_bound(
                        self.rank_compare(k, needle@),
                        upper,
                    ) by {
                        self.lemma_rank_monotone(k, mid as int, needle@);
                    }
                }
                lo = mid + 1;
            } else {
                proof {
                    assert forall|k: int| mid <= k < self.order().len() implies !before_bound(
                        self.rank_compare(k, needle@),
                        upper,
                    ) by {
                        self.lemma_rank_monotone(mid as int, k, needle@);
                    }
                }
                hi = mid;
            }
        }
        lo
    }

    fn lower_bound(&self, needle: &[u8]) -> (r: usize)
        requires
            self.wf(),
        ensures
            r <= self.order().len(),
            forall|k: int| 0 <= k < r ==> self.rank_compare(k, needle@) < 0,
            forall|k: int| r <= k < self.order().len() ==> self.rank_compare(k, needle@) >= 0,
    {
        self.bound(Bound::LowerBound, needle)
    }

    fn upper_bound(&self, needle: &[u8]) -> (r: usize)
        requires
            self.wf(),
        ensures
            r <= self.order().len(),
            forall|k: int| 0 <= k < r ==> self.rank_compare(k, needle@) <= 0,
            forall|k: int| r <= k < self.order().len() ==> self.rank_compare(k, needle@) > 0,
    {
        self.bound(Bound::UpperBound, needle)
    }

    /// Returns `true` when `needle` starts one of the suffixes of the text:
    /// for a non-empty needle, when it occurs in the text.
    pub fn contains(&self, needle: &[u8]) -> (r: bool)
        requires
            self.wf(),
        ensures
            r == exists|p: int|
                0 <= p < self.text().len() && bytes_prefix(needle@, #[trigger] suffix(self.text(), p)),
    {
        let mut lo: usize = 0;
        let mut hi: usize = self.sarr.len();
        while lo < hi
            invariant
                self.wf(),
                lo <= hi <= self.order().len(),
                forall|k: int| 0 <= k < lo ==> self.rank_compare(k, needle@) < 0,
                forall|k: int| hi <= k < self.order().len() ==> self.rank_compare(k, needle@) > 0,
            decreases hi - lo,
        {
            let mid = lo + (hi - lo) / 2;
            let c = compare_cut_at(&self.data, self.sarr[mid], needle);
            if c == 0 {
                proof {
                    let p = self.order()[mid as int] as int;
                    lemma_truncated_prefix(suffix(self.text(), p), needle@);
                    assert(bytes_prefix(needle@, suffix(self.text(), p)));
                }
                return true;
            } else if c < 0 {
                proof {
                    assert forall|k: int| 0 <= k <= mid implies self.rank_compare(k, needle@) < 0 by {
                        self.lemma_rank_monotone(k, mid as int, needle@);
                    }
                }
                lo = mid + 1;
            } else {
                proof {
                    assert forall|k: int| mid <= k < self.order().len() implies self.rank_compare(
                        k,
                        needle@,
                    ) > 0 by {
                        self.lemma_rank_monotone(mid as int, k, needle@);
                    }
                }
                hi = mid;
            }
        }
        proof {
            assert forall|p: int| 0 <= p < self.text().len() implies !bytes_prefix(
                needle@,
                #[trigger] suffix(self.text(), p),
            ) by {
                assert(self.order().contains(p as usize));
                let k = choose|k: int| 0 <= k < self.order().len() && self.order()[k] == p as usize;
                lemma_truncated_prefix(suffix(self.text(), p), needle@);
                lemma_lt_irreflexive(needle@);
                assert(self.rank_compare(k, needle@) != 0);
            }
        }
        false
    }

    /// The text.
    pub fn data(&self) -> (r: &[u8])
        ensures
            r@ == self.text(),
    {
        self.data.as_slice()
    }

    /// The positions at which the suffixes that start with `needle` start,
    /// in the order of those suffixes: a run of consecutive entries of
    /// `positions()`.
    pub fn find(&self, needle: &[u8]) -> (r: &[usize])
        requires
            self.wf(),
        ensures
            exists|lo: int, hi: int|
                0 <= lo <= hi <= self.order().len() && r@ == self.order().subrange(lo, hi) && forall|
                    k: int,
                |
                    0 <= k < self.order().len() ==> ((lo <= k < hi) <==> bytes_prefix(
                        needle@,
                        suffix(self.text(), #[trigger] self.order()[k] as int),
                    )),
    {
        let lower = self.lower_bound(needle);
        let upper = self.upper_bound(needle);
        proof {
            if upper < lower {
                assert(self.rank_compare(upper as int, needle@) < 0);
            }
            assert forall|k: int| 0 <= k < self.order().len() implies ((lower <= k < upper)
                <==> bytes_prefix(needle@, suffix(self.text(), #[trigger] self.order()[k] as int))) by {
                lemma_truncated_prefix(suffix(self.text(), self.order()[k] as int), needle@);
                lemma_lt_irreflexive(needle@);
                assert(self.rank_compare(k, needle@) == compare_cut(
                    suffix(self.text(), self.order()[k] as int),
                    needle@,
                ));
            }
        }
        vstd::slice::slice_subrange(self.sarr.as_slice(), lower, upper)
    }

    /// The positions of the text, ordered by the suffixes that start there.
    pub fn positions(&self) -> (r: &[usize])
        ensures
            r@ == self.order(),
    {
        self.sarr.as_slice()
    }
}

} // verus!
