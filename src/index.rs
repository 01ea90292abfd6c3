//! Postings lists of an inverted index, and their intersection.

use crate::memory::Iter;
use crate::postings::{intersect_merge, intersect_search, strictly_increasing};
use vstd::prelude::*;
use vstd::std_specs::iter::IteratorSpec;

verus! {

/// Errors for reading an inverted index from text.
#[derive(Debug)]
pub enum TextReadError {
    Io(std::io::Error),
    NoTerm,
    NotSortedOrUnique(String),
    Parse,
}

/// Reading an inverted index from lines of text.
pub trait InvertedIndexFromText: Sized {
    /// Read an inverted index from lines. The expected format is:
    ///
    /// * Each line contains a term and postings list.
    /// * The term and the documents are separated by whitespace.
    /// * The postings list consists of unsigned integers, sorted and unique.
    fn from_text(lines: &Vec<String>) -> Result<Self, TextReadError>;
}

/// Writing an inverted index as text, in the format that
/// `InvertedIndexFromText` reads.
pub trait InvertedIndexToText {
    fn to_text(&self) -> String;
}

/// An inverted index that can be mutated.
pub trait InvertedIndexMut {
    /// The index's structural invariant.
    spec fn well_formed(&self) -> bool;

    /// The postings list of each term.
    spec fn postings(&self) -> Map<Seq<char>, Seq<u32>>;

    /// Add a term-document pair to the inverted index.
    fn add_term(&mut self, term: &str, doc: u32)
        requires
            old(self).well_formed(),
        ensures
            final(self).well_formed(),
            final(self).postings().dom() == old(self).postings().dom().insert(term@),
            forall|k: Seq<char>|
                k != term@ && old(self).postings().contains_key(k) ==> final(self).postings()[k]
                    == old(self).postings()[k],
            strictly_increasing(final(self).postings()[term@]),
            forall|x: u32|
                final(self).postings()[term@].contains(x) <==> (x == doc || (old(self).postings().contains_key(term@) && old(self).postings()[term@].contains(x))),
    ;

    /// Add a sorted postings list of unique documents for a term. If the
    /// term is already in the inverted index, its postings list is replaced.
    fn add_postings_list(&mut self, term: &str, docs: Vec<u32>)
        requires
            old(self).well_formed(),
            strictly_increasing(docs@),
        ensures
            final(self).well_formed(),
            final(self).postings() == old(self).postings().insert(term@, docs@),
    ;
}

/// An inverted index stores a term <-> postings list mapping.
pub trait InvertedIndex {
    /// The index's structural invariant.
    spec fn well_formed(&self) -> bool;

    /// The postings list of each term.
    spec fn postings(&self) -> Map<Seq<char>, Seq<u32>>;

    /// Iterate over all term, postings list pairs in the inverted index:
    /// each term once, with its postings list.
    fn iter(&self) -> (r: Iter<'_>)
        requires
            self.well_formed(),
        ensures
            crate::memory::terms_unique(r@),
            crate::memory::index_map(r@) == self.postings(),
    ;

    /// Get the number of terms in the index.
    fn len(&self) -> (r: usize)
        requires
            self.well_formed(),
        ensures
            r == self.postings().dom().len(),
    ;

    /// Retrieve the postings list for a term.
    fn posting(&self, term: &str) -> (r: Option<Posting>)
        requires
            self.well_formed(),
        ensures
            match r {
                Some(p) => self.postings().contains_key(term@) && p@ == self.postings()[term@],
                None => !self.postings().contains_key(term@),
            },
    ;
}

/// A posting: a sorted list of unique document identifiers.
pub struct Posting {
    docs: Vec<u32>,
}

impl View for Posting {
    type V = Seq<u32>;

    closed spec fn view(&self) -> Seq<u32> {
        self.docs@
    }
}

/// The number of halvings that bring `n` down to 1: the integer part of
/// the base-2 logarithm (0 for `n <= 1`).
pub open spec fn log2_floor(n: nat) -> nat
    decreases n,
{
    if n <= 1 {
        0
    } else {
        1 + log2_floor(n / 2)
    }
}

fn log2_floor_exec(n: usize) -> (r: usize)
    ensures
        r == log2_floor(n as nat),
{
    let mut m = n;
    let mut r: usize = 0;
    while m > 1
        invariant
            r <= n - m,
            m <= n,
            r + log2_floor(m as nat) == log2_floor(n as nat),
        decreases m,
    {
        m = m / 2;
        r += 1;
    }
    r
}

/// The smaller and the larger of two postings, by length.
fn min_max_posting<'a>(a: &'a Posting, b: &'a Posting) -> (r: (&'a Posting, &'a Posting))
    ensures
        (r.0 == a && r.1 == b) || (r.0 == b && r.1 == a),
        r.0@.len() <= r.1@.len(),
{
    if a.docs.len() < b.docs.len() {
        (a, b)
    } else {
        (b, a)
    }
}

impl Posting {
    /// The list is sorted and holds each identifier once.
    pub open spec fn wf(&self) -> bool {
        strictly_increasing(self@)
    }

    /// Intersect the posting with another posting. With n the length of the
    /// shorter and m that of the longer list, the intersection is found by
    /// binary search when n is smaller than m / log m, and by a linear merge
    /// otherwise.
    pub fn intersect(&self, other: &Posting) -> (r: Posting)
        requires
            self.wf(),
            other.wf(),
        ensures
            r.wf(),
            forall|x: u32| r@.contains(x) <==> (self@.contains(x) && other@.contains(x)),
    {
        let (smaller, larger) = min_max_posting(self, other);
        let log = log2_floor_exec(larger.docs.len());
        let n: u128 = smaller.docs.len() as u128;
        let l: u128 = log as u128;
        assert(n * l <= u128::MAX) by (nonlinear_arith)
            requires
                n <= 0xffff_ffff_ffff_ffff,
                l <= 0xffff_ffff_ffff_ffff,
        ;
        if n * l < larger.docs.len() as u128 {
            self.intersect_binsearch(other)
        } else {
            self.intersect_linear(other)
        }
    }

    fn intersect_binsearch(&self, other: &Posting) -> (r: Posting)
        requires
            self.wf(),
            other.wf(),
        ensures
            r.wf(),
            forall|x: u32| r@.contains(x) <==> (self@.contains(x) && other@.contains(x)),
    {
        let (smaller, larger) = min_max_posting(self, other);
        posting_from_vec(intersect_search(&smaller.docs, &larger.docs))
    }

    fn intersect_linear(&self, other: &Posting) -> (r: Posting)
        requires
            self.wf(),
            other.wf(),
        ensures
            r.wf(),
            forall|x: u32| r@.contains(x) <==> (self@.contains(x) && other@.contains(x)),
    {
        posting_from_vec(intersect_merge(&self.docs, &other.docs))
    }

    /// Get an iterator over the document identifiers in the posting.
    pub fn iter(&self) -> (r: std::slice::Iter<'_, u32>)
        ensures
            r.remaining().len() == self@.len(),
            forall|i: int| 0 <= i < self@.len() ==> *r.remaining()[i] == self@[i],
    {
        broadcast use vstd::std_specs::slice::axiom_spec_slice_iter;

        self.docs.as_slice().iter()
    }

    /// Get the size of the posting.
    pub fn len(&self) -> (r: usize)
        ensures
            r == self@.len(),
    {
        self.docs.len()
    }
}

/// A posting with the identifiers of a slice.
pub fn posting_from_ref(s: &[u32]) -> (r: Posting)
    ensures
        r@ == s@,
{
    Posting { docs: vstd::slice::slice_to_vec(s) }
}

/// A posting with the identifiers of a vector.
pub fn posting_from_vec(v: Vec<u32>) -> (r: Posting)
    ensures
        r@ == v@,
{
    Posting { docs: v }
}

} // verus!
