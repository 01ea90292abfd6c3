//! Boolean operations on posting lists: sorted lists of unique document
//! identifiers.

use vstd::prelude::*;

verus! {

/// Every element is smaller than each later one: sorted, without duplicates.
pub open spec fn strictly_increasing(s: Seq<u32>) -> bool {
    forall|i: int, j: int| 0 <= i < j < s.len() ==> s[i] < s[j]
}

/// Extending a prefix of `s` by one element adds exactly that element.
proof fn lemma_prefix_extend(s: Seq<u32>, n: int, x: u32)
    requires
        0 <= n < s.len(),
    ensures
        s.subrange(0, n + 1).contains(x) <==> (s.subrange(0, n).contains(x) || x == s[n]),
{
    if s.subrange(0, n + 1).contains(x) {
        let i = choose|i: int| 0 <= i < n + 1 && #[trigger] s.subrange(0, n + 1)[i] == x;
        if i < n {
            assert(s.subrange(0, n)[i] == x);
        }
    }
    if s.subrange(0, n).contains(x) {
        let i = choose|i: int| 0 <= i < n && #[trigger] s.subrange(0, n)[i] == x;
        assert(s.subrange(0, n + 1)[i] == x);
    }
    if x == s[n] {
        assert(s.subrange(0, n + 1)[n] == x);
    }
}

/// Pushing an element adds exactly that element.
proof fn lemma_push_contains(s: Seq<u32>, v: u32)
    ensures
        forall|x: u32| s.push(v).contains(x) <==> (s.contains(x) || x == v),
{
    assert forall|x: u32| s.push(v).contains(x) <==> (s.contains(x) || x == v) by {
        if s.contains(x) {
            let i = choose|i: int| 0 <= i < s.len() && s[i] == x;
            assert(s.push(v)[i] == x);
        }
        if s.push(v).contains(x) {
            let i = choose|i: int| 0 <= i < s.len() + 1 && s.push(v)[i] == x;
            if i < s.len() {
                assert(s[i] == x);
            }
        }
        assert(s.push(v)[s.len() as int] == v);
    }
}

/// A value that every element of a prefix exceeds, or that exceeds every
/// element of it, is not in that prefix.
proof fn lemma_not_in_prefix(s: Seq<u32>, n: int, v: u32)
    requires
        0 <= n <= s.len(),
        (forall|i: int| 0 <= i < n ==> s[i] < v) || (forall|i: int| 0 <= i < n ==> v < s[i]),
    ensures
        !s.subrange(0, n).contains(v),
{
    if s.subrange(0, n).contains(v) {
        let i = choose|i: int| 0 <= i < n && #[trigger] s.subrange(0, n)[i] == v;
        assert(s[i] == v);
    }
}

/// The prefix of the full length is the whole sequence.
proof fn lemma_prefix_full(s: Seq<u32>)
    ensures
        s.subrange(0, s.len() as int) == s,
{
    assert(s.subrange(0, s.len() as int) =~= s);
}

/// When one list is used up by a merge, the common elements of the two
/// lists are the common elements of the consumed prefixes.
proof fn lemma_merge_done(a: Seq<u32>, b: Seq<u32>, p1: int, p2: int)
    requires
        strictly_increasing(a),
        strictly_increasing(b),
        0 <= p1 <= a.len(),
        0 <= p2 <= b.len(),
        p1 == a.len() || p2 == b.len(),
        forall|i: int| 0 <= i < p1 && p2 < b.len() ==> a[i] < b[p2],
        forall|j: int| 0 <= j < p2 && p1 < a.len() ==> b[j] < a[p1],
    ensures
        forall|x: u32|
            (a.contains(x) && b.contains(x)) <==> (a.subrange(0, p1).contains(x) && b.subrange(
                0,
                p2,
            ).contains(x)),
{
    assert forall|x: u32|
        (a.contains(x) && b.contains(x)) implies (a.subrange(0, p1).contains(x) && b.subrange(
            0,
            p2,
        ).contains(x)) by {
        let i = choose|i: int| 0 <= i < a.len() && a[i] == x;
        let j = choose|j: int| 0 <= j < b.len() && b[j] == x;
        if p1 == a.len() {
            if j >= p2 {
                assert(b[p2] <= b[j]);
                assert(a[i] < b[p2]);
            }
        } else {
            if i >= p1 {
                assert(a[p1] <= a[i]);
                assert(b[j] < a[p1]);
            }
        }
        assert(a.subrange(0, p1)[i] == x);
        assert(b.subrange(0, p2)[j] == x);
    }
    assert forall|x: u32|
        (a.subrange(0, p1).contains(x) && b.subrange(0, p2).contains(x)) implies (a.contains(x)
        && b.contains(x)) by {
        let i = choose|i: int| 0 <= i < p1 && #[trigger] a.subrange(0, p1)[i] == x;
        let j = choose|j: int| 0 <= j < p2 && #[trigger] b.subrange(0, p2)[j] == x;
        assert(a[i] == x);
        assert(b[j] == x);
    }
}

/// A value that lies strictly between the consumed prefix `s[..n]` and the
/// rest of a strictly increasing `s` is not in `s`.
proof fn lemma_not_in_sorted(s: Seq<u32>, n: int, v: u32)
    requires
        strictly_increasing(s),
        0 <= n <= s.len(),
        forall|j: int| 0 <= j < n ==> s[j] < v,
        n == s.len() || v < s[n],
    ensures
        !s.contains(v),
{
    if s.contains(v) {
        let j = choose|j: int| 0 <= j < s.len() && s[j] == v;
        if j >= n {
            assert(s[n] <= s[j]);
        }
    }
}

/// Relies on `slice::binary_search` over a slice sorted in ascending order:
/// `Ok` holds the position of an element equal to `x`; `Err` holds the
/// position where `x` could be inserted keeping the order, so every element
/// before it is smaller than `x` and every element from it on is larger.
#[verifier::external_body]
pub(crate) fn search_sorted(s: &[u32], x: u32) -> (r: Result<usize, usize>)
    requires
        strictly_increasing(s@),
    ensures
        match r {
            Ok(i) => i < s@.len() && s@[i as int] == x,
            Err(i) => i <= s@.len() && (forall|j: int| 0 <= j < i ==> s@[j] < x) && (forall|j: int|
                i <= j < s@.len() ==> x < s@[j]),
        },
{
    s.binary_search(&x)
}

/// The smaller and the larger of two posting lists, by length.
fn min_max_posting<'a>(a: &'a PostingList, b: &'a PostingList) -> (r: (
    &'a PostingList,
    &'a PostingList,
))
    ensures
        (r.0 == a && r.1 == b) || (r.0 == b && r.1 == a),
        r.0@.len() <= r.1@.len(),
{
    if a.docs.len() < b.docs.len() {
        (a, b)
    } else {
        (b, a)
    }
}

/// The elements of both sorted lists, by a linear merge.
pub(crate) fn intersect_merge(a: &Vec<u32>, b: &Vec<u32>) -> (r: Vec<u32>)
    requires
        strictly_increasing(a@),
        strictly_increasing(b@),
    ensures
        strictly_increasing(r@),
        forall|x: u32| r@.contains(x) <==> (a@.contains(x) && b@.contains(x)),
{
    let mut inter: Vec<u32> = Vec::new();
    let mut p1i: usize = 0;
    let mut p2i: usize = 0;
    while p1i != a.len() && p2i != b.len()
        invariant
            strictly_increasing(a@),
            strictly_increasing(b@),
            p1i <= a@.len(),
            p2i <= b@.len(),
            strictly_increasing(inter@),
            forall|k: int| 0 <= k < inter@.len() && p1i < a@.len() ==> inter@[k] < a@[p1i as int],
            forall|i: int| 0 <= i < p1i && p2i < b@.len() ==> a@[i] < b@[p2i as int],
            forall|j: int| 0 <= j < p2i && p1i < a@.len() ==> b@[j] < a@[p1i as int],
            forall|x: u32|
                inter@.contains(x) <==> (a@.subrange(0, p1i as int).contains(x) && b@.subrange(
                    0,
                    p2i as int,
                ).contains(x)),
        decreases a@.len() - p1i + b@.len() - p2i,
    {
        let doc1 = a[p1i];
        let doc2 = b[p2i];
        proof {
            lemma_push_contains(inter@, doc1);
            if doc1 < doc2 {
                lemma_not_in_prefix(b@, p2i as int, doc1);
            }
            if doc2 < doc1 {
                lemma_not_in_prefix(a@, p1i as int, doc2);
            }
        }
        let ghost old_inter = inter@;
        let ghost q1 = p1i as int;
        let ghost q2 = p2i as int;
        if doc1 == doc2 {
            inter.push(doc1);
            p1i += 1;
            p2i += 1;
        } else if doc1 < doc2 {
            p1i += 1;
        } else {
            p2i += 1;
        }
        assert forall|x: u32|
            inter@.contains(x) <==> (a@.subrange(0, p1i as int).contains(x) && b@.subrange(
                0,
                p2i as int,
            ).contains(x)) by {
            assert(old_inter.contains(x) == (a@.subrange(0, q1).contains(x) && b@.subrange(
                0,
                q2,
            ).contains(x)));
            lemma_prefix_extend(a@, q1, x);
            assert(a@.subrange(0, q1 + 1).contains(x) == (a@.subrange(0, q1).contains(x) || x
                == doc1));
            lemma_prefix_extend(b@, q2, x);
            assert(b@.subrange(0, q2 + 1).contains(x) == (b@.subrange(0, q2).contains(x) || x
                == doc2));
        }
    }
    proof {
        lemma_merge_done(a@, b@, p1i as int, p2i as int);
    }
    inter
}


/// The elements of both sorted lists, looking each element of `a` up in `b`
/// by binary search; each search starts from where the previous one ended.
pub(crate) fn intersect_search(a: &Vec<u32>, b: &Vec<u32>) -> (r: Vec<u32>)
    requires
        strictly_increasing(a@),
        strictly_increasing(b@),
    ensures
        strictly_increasing(r@),
        forall|x: u32| r@.contains(x) <==> (a@.contains(x) && b@.contains(x)),
{
    let mut inter: Vec<u32> = Vec::new();
    let mut offset: usize = 0;
    let mut i: usize = 0;
    while i < a.len()
        invariant
            strictly_increasing(a@),
            strictly_increasing(b@),
            i <= a@.len(),
            offset <= b@.len(),
            strictly_increasing(inter@),
            forall|k: int| 0 <= k < inter@.len() && i < a@.len() ==> inter@[k] < a@[i as int],
            forall|j: int| 0 <= j < offset && i < a@.len() ==> b@[j] < a@[i as int],
            forall|x: u32|
                inter@.contains(x) <==> (a@.subrange(0, i as int).contains(x) && b@.contains(x)),
        decreases a@.len() - i,
    {
        let doc = a[i];
        let rest = vstd::slice::slice_subrange(b.as_slice(), offset, b.len());
        assert(strictly_increasing(rest@));
        let ghost old_inter = inter@;
        let ghost q = i as int;
        proof {
            lemma_push_contains(inter@, doc);
        }
        offset = match search_sorted(rest, doc) {
            Ok(idx) => {
                assert(b@[offset + idx] == doc);
                inter.push(doc);
                idx
            },
            Err(idx) => {
                assert forall|j: int| 0 <= j < offset + idx implies b@[j] < doc by {
                    if j >= offset {
                        assert(rest@[j - offset] == b@[j]);
                    }
                }
                assert(offset + idx == b@.len() || doc < b@[offset + idx]) by {
                    if offset + idx < b@.len() {
                        assert(rest@[idx as int] == b@[offset + idx]);
                    }
                }
                proof {
                    lemma_not_in_sorted(b@, offset + idx, doc);
                }
                idx
            },
        };
        i += 1;
        assert forall|x: u32|
            inter@.contains(x) <==> (a@.subrange(0, i as int).contains(x) && b@.contains(x)) by {
            assert(old_inter.contains(x) == (a@.subrange(0, q).contains(x) && b@.contains(x)));
            lemma_prefix_extend(a@, q, x);
            assert(a@.subrange(0, q + 1).contains(x) == (a@.subrange(0, q).contains(x) || x
                == doc));
        }
    }
    proof {
        lemma_prefix_full(a@);
    }
    inter
}

/// Returns `true` when the elements are sorted and unique.
pub fn is_sorted_uniq(r: &[u32]) -> (b: bool)
    ensures
        b == strictly_increasing(r@),
{
    let mut i: usize = 1;
    while i < r.len()
        invariant
            1 <= i,
            forall|p: int, q: int| 0 <= p < q < i && q < r@.len() ==> r@[p] < r@[q],
        decreases r@.len() - i,
    {
        if r[i - 1] >= r[i] {
            return false;
        }
        i += 1;
    }
    true
}

/// A posting list: the document identifiers in which a term occurs, sorted
/// and unique.
pub struct PostingList {
    docs: Vec<u32>,
}

impl View for PostingList {
    type V = Seq<u32>;

    closed spec fn view(&self) -> Seq<u32> {
        self.docs@
    }
}

impl PostingList {
    /// The list is sorted and holds each identifier once.
    pub open spec fn wf(&self) -> bool {
        strictly_increasing(self@)
    }

    /// Build a posting list from identifiers that are already sorted and
    /// unique.
    pub fn from_sorted(docs: Vec<u32>) -> (r: PostingList)
        requires
            strictly_increasing(docs@),
        ensures
            r@ == docs@,
            r.wf(),
    {
        PostingList { docs }
    }

    /// The document identifiers, in ascending order.
    pub fn docs(&self) -> (r: &[u32])
        ensures
            r@ == self@,
    {
        self.docs.as_slice()
    }

    /// The documents in both lists.
    pub fn intersect(&self, other: &PostingList) -> (r: PostingList)
        requires
            self.wf(),
            other.wf(),
        ensures
            r.wf(),
            forall|x: u32| r@.contains(x) <==> (self@.contains(x) && other@.contains(x)),
    {
        PostingList { docs: intersect_merge(&self.docs, &other.docs) }
    }

    /// The documents in both lists, found by comparing every pair.
    pub fn intersect_naive(&self, other: &PostingList) -> (r: PostingList)
        requires
            self.wf(),
            other.wf(),
        ensures
            r.wf(),
            forall|x: u32| r@.contains(x) <==> (self@.contains(x) && other@.contains(x)),
    {
        let a = &self.docs;
        let b = &other.docs;
        let mut inter: Vec<u32> = Vec::new();
        let mut i: usize = 0;
        while i < a.len()
            invariant
                strictly_increasing(a@),
                i <= a@.len(),
                strictly_increasing(inter@),
                forall|k: int| 0 <= k < inter@.len() && i < a@.len() ==> inter@[k] < a@[i as int],
                forall|x: u32|
                    inter@.contains(x) <==> (a@.subrange(0, i as int).contains(x) && b@.contains(
                        x,
                    )),
            decreases a@.len() - i,
        {
            let doc1 = a[i];
            let mut found = false;
            let mut j: usize = 0;
            while j < b.len() && !found
                invariant
                    j <= b@.len(),
                    found ==> b@.contains(doc1),
                    !found ==> forall|k: int| 0 <= k < j ==> b@[k] != doc1,
                decreases b@.len() - j + (if found {
                    0int
                } else {
                    1int
                }),
            {
                if doc1 == b[j] {
                    found = true;
                    assert(b@[j as int] == doc1);
                } else {
                    j += 1;
                }
            }
            let ghost old_inter = inter@;
            proof {
                if !found && b@.contains(doc1) {
                    let k = choose|k: int| 0 <= k < b@.len() && b@[k] == doc1;
                    assert(b@[k] != doc1);
                }
                lemma_push_contains(inter@, doc1);
            }
            if found {
                inter.push(doc1);
            }
            i += 1;
            assert forall|x: u32|
                inter@.contains(x) <==> (a@.subrange(0, i as int).contains(x) && b@.contains(x)) by {
                lemma_prefix_extend(a@, i - 1, x);
                assert(a@.subrange(0, i as int).contains(x) == (a@.subrange(0, i - 1).contains(x)
                    || x == doc1));
                assert(old_inter.contains(x) == (a@.subrange(0, i - 1).contains(x) && b@.contains(
                    x,
                )));
            }
        }
        proof {
            lemma_prefix_full(a@);
        }
        PostingList { docs: inter }
    }

    /// The documents in either list.
    pub fn union(&self, other: &PostingList) -> (r: PostingList)
        requires
            self.wf(),
            other.wf(),
        ensures
            r.wf(),
            forall|x: u32| r@.contains(x) <==> (self@.contains(x) || other@.contains(x)),
    {
        let a = &self.docs;
        let b = &other.docs;
        let mut result: Vec<u32> = Vec::new();
        let mut p1i: usize = 0;
        let mut p2i: usize = 0;
        while p1i != a.len() && p2i != b.len()
            invariant
                strictly_increasing(a@),
                strictly_increasing(b@),
                p1i <= a@.len(),
                p2i <= b@.len(),
                strictly_increasing(result@),
                forall|k: int| 0 <= k < result@.len() && p1i < a@.len() ==> result@[k] < a@[p1i as int],
                forall|k: int| 0 <= k < result@.len() && p2i < b@.len() ==> result@[k] < b@[p2i as int],
                forall|x: u32|
                    result@.contains(x) <==> (a@.subrange(0, p1i as int).contains(x) || b@.subrange(
                        0,
                        p2i as int,
                    ).contains(x)),
            decreases a@.len() - p1i + b@.len() - p2i,
        {
            let doc1 = a[p1i];
            let doc2 = b[p2i];
            let ghost old_result = result@;
            let ghost q1 = p1i as int;
            let ghost q2 = p2i as int;
            proof {
                lemma_push_contains(result@, doc1);
                lemma_push_contains(result@, doc2);
            }
            if doc1 == doc2 {
                result.push(doc1);
                p1i += 1;
                p2i += 1;
            } else if doc1 < doc2 {
                result.push(doc1);
                p1i += 1;
            } else {
                result.push(doc2);
                p2i += 1;
            }
            assert forall|x: u32|
                result@.contains(x) <==> (a@.subrange(0, p1i as int).contains(x) || b@.subrange(
                    0,
                    p2i as int,
                ).contains(x)) by {
                assert(old_result.contains(x) == (a@.subrange(0, q1).contains(x) || b@.subrange(
                    0,
                    q2,
                ).contains(x)));
                lemma_prefix_extend(a@, q1, x);
                assert(a@.subrange(0, q1 + 1).contains(x) == (a@.subrange(0, q1).contains(x) || x
                    == doc1));
                lemma_prefix_extend(b@, q2, x);
                assert(b@.subrange(0, q2 + 1).contains(x) == (b@.subrange(0, q2).contains(x) || x
                    == doc2));
            }
        }
        while p1i < a.len()
            invariant
                strictly_increasing(a@),
                p1i <= a@.len(),
                p2i == b@.len() || p1i == a@.len(),
                p2i <= b@.len(),
                strictly_increasing(result@),
                forall|k: int| 0 <= k < result@.len() && p1i < a@.len() ==> result@[k] < a@[p1i as int],
                forall|k: int| 0 <= k < result@.len() && p2i < b@.len() ==> result@[k] < b@[p2i as int],
                forall|x: u32|
                    result@.contains(x) <==> (a@.subrange(0, p1i as int).contains(x) || b@.subrange(
                        0,
                        p2i as int,
                    ).contains(x)),
            decreases a@.len() - p1i,
        {
            let doc1 = a[p1i];
            let ghost old_result = result@;
            let ghost q = p1i as int;
            assert(forall|x: u32| old_result.contains(x) == (a@.subrange(0, p1i as int).contains(x)
                || b@.subrange(0, p2i as int).contains(x)));
            proof {
                lemma_push_contains(result@, doc1);
            }
            result.push(doc1);
            p1i += 1;
            assert(result@ == old_result.push(doc1));
            assert forall|x: u32|
                result@.contains(x) <==> (a@.subrange(0, p1i as int).contains(x) || b@.subrange(
                    0,
                    p2i as int,
                ).contains(x)) by {
                assert(result@.contains(x) == (old_result.contains(x) || x == doc1));
                assert(old_result.contains(x) == (a@.subrange(0, q).contains(x) || b@.subrange(
                    0,
                    p2i as int,
                ).contains(x)));
                lemma_prefix_extend(a@, q, x);
                assert(a@.subrange(0, q + 1).contains(x) == (a@.subrange(0, q).contains(x) || x
                    == doc1));
                assert(p1i == q + 1);
            }
        }
        while p2i < b.len()
            invariant
                strictly_increasing(b@),
                p2i <= b@.len(),
                p1i == a@.len(),
                strictly_increasing(result@),
                forall|k: int| 0 <= k < result@.len() && p2i < b@.len() ==> result@[k] < b@[p2i as int],
                forall|x: u32|
                    result@.contains(x) <==> (a@.subrange(0, p1i as int).contains(x) || b@.subrange(
                        0,
                        p2i as int,
                    ).contains(x)),
            decreases b@.len() - p2i,
        {
            let doc2 = b[p2i];
            let ghost old_result = result@;
            let ghost q = p2i as int;
            assert(forall|x: u32| old_result.contains(x) == (a@.subrange(0, p1i as int).contains(x)
                || b@.subrange(0, p2i as int).contains(x)));
            proof {
                lemma_push_contains(result@, doc2);
            }
            result.push(doc2);
            p2i += 1;
            assert(result@ == old_result.push(doc2));
            assert forall|x: u32|
                result@.contains(x) <==> (a@.subrange(0, p1i as int).contains(x) || b@.subrange(
                    0,
                    p2i as int,
                ).contains(x)) by {
                assert(result@.contains(x) == (old_result.contains(x) || x == doc2));
                assert(old_result.contains(x) == (a@.subrange(0, p1i as int).contains(x)
                    || b@.subrange(0, q).contains(x)));
                lemma_prefix_extend(b@, q, x);
                assert(b@.subrange(0, q + 1).contains(x) == (b@.subrange(0, q).contains(x) || x
                    == doc2));
                assert(p2i == q + 1);
            }
        }
        proof {
            lemma_prefix_full(a@);
            lemma_prefix_full(b@);
        }
        PostingList { docs: result }
    }

    /// The documents in this list that are not in `other`.
    pub fn difference(&self, other: &PostingList) -> (r: PostingList)
        requires
            self.wf(),
            other.wf(),
        ensures
            r.wf(),
            forall|x: u32| r@.contains(x) <==> (self@.contains(x) && !other@.contains(x)),
    {
        let a = &self.docs;
        let b = &other.docs;
        let mut result: Vec<u32> = Vec::new();
        let mut p1i: usize = 0;
        let mut p2i: usize = 0;
        while p1i != a.len() && p2i != b.len()
            invariant
                strictly_increasing(a@),
                strictly_increasing(b@),
                p1i <= a@.len(),
                p2i <= b@.len(),
                strictly_increasing(result@),
                forall|k: int| 0 <= k < result@.len() && p1i < a@.len() ==> result@[k] < a@[p1i as int],
                forall|j: int| 0 <= j < p2i && p1i < a@.len() ==> b@[j] < a@[p1i as int],
                forall|x: u32|
                    result@.contains(x) <==> (a@.subrange(0, p1i as int).contains(x)
                        && !b@.contains(x)),
            decreases a@.len() - p1i + b@.len() - p2i,
        {
            let doc1 = a[p1i];
            let doc2 = b[p2i];
            let ghost old_result = result@;
            let ghost q = p1i as int;
            proof {
                lemma_push_contains(result@, doc1);
                if doc1 < doc2 {
                    lemma_not_in_sorted(b@, p2i as int, doc1);
                }
            }
            if doc1 == doc2 {
                p1i += 1;
                p2i += 1;
            } else if doc1 < doc2 {
                result.push(doc1);
                p1i += 1;
            } else {
                p2i += 1;
            }
            assert forall|x: u32|
                result@.contains(x) <==> (a@.subrange(0, p1i as int).contains(x) && !b@.contains(x)) by {
                assert(old_result.contains(x) == (a@.subrange(0, q).contains(x) && !b@.contains(x)));
                lemma_prefix_extend(a@, q, x);
                assert(a@.subrange(0, q + 1).contains(x) == (a@.subrange(0, q).contains(x) || x
                    == doc1));
                if doc1 == doc2 {
                    assert(b@[p2i - 1] == doc1);
                }
            }
        }
        while p1i < a.len()
            invariant
                strictly_increasing(a@),
                strictly_increasing(b@),
                p1i <= a@.len(),
                p2i <= b@.len(),
                p2i == b@.len() || p1i == a@.len(),
                strictly_increasing(result@),
                forall|k: int| 0 <= k < result@.len() && p1i < a@.len() ==> result@[k] < a@[p1i as int],
                forall|j: int| 0 <= j < p2i && p1i < a@.len() ==> b@[j] < a@[p1i as int],
                forall|x: u32|
                    result@.contains(x) <==> (a@.subrange(0, p1i as int).contains(x)
                        && !b@.contains(x)),
            decreases a@.len() - p1i,
        {
            let doc1 = a[p1i];
            let ghost old_result = result@;
            let ghost q = p1i as int;
            proof {
                lemma_push_contains(result@, doc1);
                lemma_not_in_sorted(b@, p2i as int, doc1);
            }
            result.push(doc1);
            p1i += 1;
            assert forall|x: u32|
                result@.contains(x) <==> (a@.subrange(0, p1i as int).contains(x) && !b@.contains(x)) by {
                assert(old_result.contains(x) == (a@.subrange(0, q).contains(x) && !b@.contains(x)));
                lemma_prefix_extend(a@, q, x);
                assert(a@.subrange(0, q + 1).contains(x) == (a@.subrange(0, q).contains(x) || x
                    == doc1));
            }
        }
        proof {
            lemma_prefix_full(a@);
        }
        PostingList { docs: result }
    }

    /// The documents in this list that are not in `other`, looking each one
    /// up in `other` by binary search.
    pub fn difference_binsearch(&self, other: &PostingList) -> (r: PostingList)
        requires
            self.wf(),
            other.wf(),
        ensures
            r.wf(),
            forall|x: u32| r@.contains(x) <==> (self@.contains(x) && !other@.contains(x)),
    {
        let a = &self.docs;
        let b = &other.docs;
        let mut diff: Vec<u32> = Vec::new();
        let mut offset: usize = 0;
        let mut i: usize = 0;
        while i < a.len()
            invariant
                strictly_increasing(a@),
                strictly_increasing(b@),
                i <= a@.len(),
                offset <= b@.len(),
                strictly_increasing(diff@),
                forall|k: int| 0 <= k < diff@.len() && i < a@.len() ==> diff@[k] < a@[i as int],
                forall|j: int| 0 <= j < offset && i < a@.len() ==> b@[j] < a@[i as int],
                forall|x: u32|
                    diff@.contains(x) <==> (a@.subrange(0, i as int).contains(x) && !b@.contains(x)),
            decreases a@.len() - i,
        {
            let doc = a[i];
            let rest = vstd::slice::slice_subrange(b.as_slice(), offset, b.len());
            assert(strictly_increasing(rest@));
            let ghost old_diff = diff@;
            let ghost q = i as int;
            proof {
                lemma_push_contains(diff@, doc);
            }
            offset = match search_sorted(rest, doc) {
                Ok(idx) => {
                    assert(b@[offset + idx] == doc);
                    idx
                },
                Err(idx) => {
                    assert forall|j: int| 0 <= j < offset + idx implies b@[j] < doc by {
                        if j >= offset {
                            assert(rest@[j - offset] == b@[j]);
                        }
                    }
                    assert(offset + idx == b@.len() || doc < b@[offset + idx]) by {
                        if offset + idx < b@.len() {
                            assert(rest@[idx as int] == b@[offset + idx]);
                        }
                    }
                    proof {
                        lemma_not_in_sorted(b@, offset + idx, doc);
                    }
                    diff.push(doc);
                    idx
                },
            };
            i += 1;
            assert forall|x: u32|
                diff@.contains(x) <==> (a@.subrange(0, i as int).contains(x) && !b@.contains(x)) by {
                assert(old_diff.contains(x) == (a@.subrange(0, q).contains(x) && !b@.contains(x)));
                lemma_prefix_extend(a@, q, x);
                assert(a@.subrange(0, q + 1).contains(x) == (a@.subrange(0, q).contains(x) || x
                    == doc));
            }
        }
        proof {
            lemma_prefix_full(a@);
        }
        PostingList { docs: diff }
    }

    /// The documents in both lists, looking each document of the shorter
    /// list up in the longer one by binary search.
    pub fn intersect_binsearch(&self, other: &PostingList) -> (r: PostingList)
        requires
            self.wf(),
            other.wf(),
        ensures
            r.wf(),
            forall|x: u32| r@.contains(x) <==> (self@.contains(x) && other@.contains(x)),
    {
        let (smaller, larger) = min_max_posting(self, other);
        PostingList { docs: intersect_search(&smaller.docs, &larger.docs) }
    }
}

} // verus!
