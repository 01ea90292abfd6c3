//! An in-memory inverted index: a posting list for each term.

use crate::index::{
    posting_from_ref, posting_from_vec, InvertedIndex, InvertedIndexFromText, InvertedIndexMut,
    InvertedIndexToText, Posting, TextReadError,
};
use crate::text::{decimal, push_char, push_decimal, unsigned_value};
use crate::postings::{is_sorted_uniq, search_sorted, strictly_increasing};
use crate::text::same_text;
use vstd::prelude::*;

verus! {

/// The index that a list of (term, postings) entries describes.
pub open spec fn index_map(es: Seq<(Seq<char>, Seq<u32>)>) -> Map<Seq<char>, Seq<u32>>
    decreases es.len(),
{
    if es.len() == 0 {
        Map::empty()
    } else {
        index_map(es.drop_last()).insert(es.last().0, es.last().1)
    }
}

/// No term occurs twice.
pub open spec fn terms_unique(es: Seq<(Seq<char>, Seq<u32>)>) -> bool {
    forall|i: int, j: int| 0 <= i < j < es.len() ==> es[i].0 != es[j].0
}

proof fn lemma_index_map(es: Seq<(Seq<char>, Seq<u32>)>)
    requires
        terms_unique(es),
    ensures
        forall|i: int|
            0 <= i < es.len() ==> #[trigger] index_map(es).contains_key(es[i].0) && index_map(
                es,
            )[es[i].0] == es[i].1,
        forall|k: Seq<char>|
            #[trigger] index_map(es).contains_key(k) ==> exists|i: int| 0 <= i < es.len() && es[i].0 == k,
        index_map(es).dom().finite(),
        index_map(es).dom().len() == es.len(),
    decreases es.len(),
{
    if es.len() > 0 {
        let rest = es.drop_last();
        assert(terms_unique(rest));
        lemma_index_map(rest);
        assert forall|k: Seq<char>| #[trigger]
            index_map(es).contains_key(k) implies exists|i: int| 0 <= i < es.len() && es[i].0 == k by {
            if k != es.last().0 {
                let i = choose|i: int| 0 <= i < rest.len() && rest[i].0 == k;
                assert(es[i].0 == k);
            } else {
                assert(es[es.len() - 1].0 == k);
            }
        }
        assert(!index_map(rest).contains_key(es.last().0)) by {
            if index_map(rest).contains_key(es.last().0) {
                let i = choose|i: int| 0 <= i < rest.len() && rest[i].0 == es.last().0;
                assert(es[i].0 == es[es.len() - 1].0);
            }
        }
        assert forall|i: int| 0 <= i < es.len() implies #[trigger] index_map(es).contains_key(
            es[i].0,
        ) && index_map(es)[es[i].0] == es[i].1 by {
            if i < es.len() - 1 {
                assert(rest[i] == es[i]);
            }
        }
    }
}

/// Replacing the postings of the entry at `i` replaces them in the index.
proof fn lemma_index_map_update(es: Seq<(Seq<char>, Seq<u32>)>, i: int, v: Seq<u32>)
    requires
        terms_unique(es),
        0 <= i < es.len(),
    ensures
        index_map(es.update(i, (es[i].0, v))) == index_map(es).insert(es[i].0, v),
        terms_unique(es.update(i, (es[i].0, v))),
{
    let fs = es.update(i, (es[i].0, v));
    assert(terms_unique(fs));
    lemma_index_map(es);
    lemma_index_map(fs);
    assert forall|k: Seq<char>| index_map(fs).contains_key(k) <==> index_map(es).insert(
        es[i].0,
        v,
    ).contains_key(k) by {
        if index_map(fs).contains_key(k) {
            let j = choose|j: int| 0 <= j < fs.len() && fs[j].0 == k;
            assert(es[j].0 == k);
        }
        if index_map(es).contains_key(k) {
            let j = choose|j: int| 0 <= j < es.len() && es[j].0 == k;
            assert(fs[j].0 == k);
        }
    }
    assert forall|k: Seq<char>| #[trigger] index_map(fs).contains_key(k) implies index_map(fs)[k]
        == index_map(es).insert(es[i].0, v)[k] by {
        let j = choose|j: int| 0 <= j < fs.len() && fs[j].0 == k;
        assert(index_map(fs)[fs[j].0] == fs[j].1);
    }
    assert(index_map(fs) =~= index_map(es).insert(es[i].0, v));
}

/// Inserting a value at its place keeps a strictly increasing sequence so,
/// and adds exactly that value.
proof fn lemma_sorted_insert(s: Seq<u32>, idx: int, v: u32)
    requires
        strictly_increasing(s),
        0 <= idx <= s.len(),
        forall|j: int| 0 <= j < idx ==> s[j] < v,
        forall|j: int| idx <= j < s.len() ==> v < s[j],
    ensures
        strictly_increasing(s.insert(idx, v)),
        forall|x: u32| #[trigger] s.insert(idx, v).contains(x) <==> (x == v || s.contains(x)),
{
    let t = s.insert(idx, v);
    assert forall|p: int, q: int| 0 <= p < q < t.len() implies t[p] < t[q] by {
        if q > idx {
            assert(t[q] == s[q - 1]);
        }
        if p > idx {
            assert(t[p] == s[p - 1]);
        }
    }
    assert forall|x: u32| t.contains(x) <==> (x == v || s.contains(x)) by {
        if s.contains(x) {
            let k = choose|k: int| 0 <= k < s.len() && s[k] == x;
            if k < idx {
                assert(t[k] == x);
            } else {
                assert(t[k + 1] == x);
            }
        }
        if t.contains(x) && x != v {
            let k = choose|k: int| 0 <= k < t.len() && t[k] == x;
            if k < idx {
                assert(s[k] == x);
            } else {
                assert(s[k - 1] == x);
            }
        }
        if x == v {
            assert(t[idx] == x);
        }
    }
}

/// What `str::split_whitespace` makes of a string: its words.
pub uninterp spec fn words_of(s: Seq<char>) -> Seq<Seq<char>>;

/// Relies on `str::split_whitespace`, whose words depend on the string
/// alone.
#[verifier::external_body]
fn split_words(s: &str) -> (r: Vec<String>)
    ensures
        r@.map_values(|w: String| w@) == words_of(s@),
{
    s.split_whitespace().map(String::from).collect()
}

/// What `str::parse::<u32>` makes of a string: the number, or `None` when
/// the string is not one.
pub open spec fn u32_of(s: Seq<char>) -> Option<u32> {
    match unsigned_value(s, u32::MAX as int) {
        Some(v) => Some(v as u32),
        None => None,
    }
}

/// Relies on `str::parse::<u32>`: it accepts an optional `+` followed by one
/// or more ASCII digits whose value fits in `u32`, and nothing else.
#[verifier::external_body]
fn parse_u32(s: &str) -> (r: Option<u32>)
    ensures
        r == u32_of(s@),
{
    s.parse::<u32>().ok()
}

/// The documents that the words after the term denote, if every one of
/// them parses.
pub open spec fn parsed_docs(ids: Seq<Option<u32>>) -> Option<Seq<u32>>
    decreases ids.len(),
{
    if ids.len() == 0 {
        Some(Seq::empty())
    } else {
        match (parsed_docs(ids.drop_last()), ids.last()) {
            (Some(ds), Some(d)) => Some(ds.push(d)),
            _ => None,
        }
    }
}

/// How reading a line of `<term> <doc> <doc> ...` ends: with its term and
/// documents, or with one of the faults 1 (no term), 2 (a document does not
/// parse) and 3 (documents not sorted or not unique).
pub open spec fn read_line(words: Seq<Seq<char>>, ids: Seq<Option<u32>>) -> Result<(Seq<char>, Seq<u32>), int> {
    if words.len() == 0 {
        Err(1)
    } else {
        match parsed_docs(ids) {
            None => Err(2),
            Some(ds) => if strictly_increasing(ds) {
                Ok((words[0], ds))
            } else {
                Err(3)
            },
        }
    }
}

/// How reading a whole line ends.
pub open spec fn line_outcome(line: Seq<char>) -> Result<(Seq<char>, Seq<u32>), int> {
    read_line(words_of(line), words_of(line).drop_first().map_values(|w: Seq<char>| u32_of(w)))
}

/// The index that the lines describe, or the fault of the first line that
/// describes no entry, with that line's position.
pub open spec fn index_of_lines(lines: Seq<Seq<char>>) -> Result<Map<Seq<char>, Seq<u32>>, (int, int)>
    decreases lines.len(),
{
    if lines.len() == 0 {
        Ok(Map::empty())
    } else {
        match index_of_lines(lines.drop_last()) {
            Err(e) => Err(e),
            Ok(m) => match line_outcome(lines.last()) {
                Err(f) => Err((lines.len() - 1, f)),
                Ok((term, docs)) => Ok(m.insert(term, docs)),
            },
        }
    }
}

/// The fault code of a read error.
pub open spec fn fault_code(e: TextReadError) -> int {
    match e {
        TextReadError::Io(_) => 0,
        TextReadError::NoTerm => 1,
        TextReadError::Parse => 2,
        TextReadError::NotSortedOrUnique(_) => 3,
    }
}

/// The documents in decimal, separated by single spaces.
pub open spec fn docs_text(ds: Seq<u32>) -> Seq<char>
    decreases ds.len(),
{
    if ds.len() == 0 {
        Seq::empty()
    } else if ds.len() == 1 {
        decimal(ds[0] as nat)
    } else {
        docs_text(ds.drop_last()) + seq![' '] + decimal(ds.last() as nat)
    }
}

/// One line of text for an entry: the term, a tab, the documents, a newline.
pub open spec fn entry_text(e: (Seq<char>, Seq<u32>)) -> Seq<char> {
    e.0 + seq!['\t'] + docs_text(e.1) + seq!['\n']
}

/// The lines of text for a list of entries.
pub open spec fn index_text(es: Seq<(Seq<char>, Seq<u32>)>) -> Seq<char>
    decreases es.len(),
{
    if es.len() == 0 {
        Seq::empty()
    } else {
        index_text(es.drop_last()) + entry_text(es.last())
    }
}

/// The characters and identifiers of an entry.
pub open spec fn entry_view(e: (String, Vec<u32>)) -> (Seq<char>, Seq<u32>) {
    (e.0@, e.1@)
}

/// In-memory inverted index. The entries are kept in a vector, each term
/// once, in the order in which the terms came; lookups compare terms.
pub struct MemoryIndex {
    terms: Vec<(String, Vec<u32>)>,
}

impl View for MemoryIndex {
    type V = Map<Seq<char>, Seq<u32>>;

    /// The postings list of each term.
    closed spec fn view(&self) -> Map<Seq<char>, Seq<u32>> {
        index_map(self.entries())
    }
}

impl MemoryIndex {
    /// The entries of the index, in the order in which their terms came.
    pub closed spec fn entries(&self) -> Seq<(Seq<char>, Seq<u32>)> {
        self.terms@.map_values(|e: (String, Vec<u32>)| entry_view(e))
    }

    /// Each term occurs once, and each postings list is sorted and unique.
    pub open spec fn wf(&self) -> bool {
        &&& terms_unique(self.entries())
        &&& forall|i: int| 0 <= i < self.entries().len() ==> strictly_increasing(
            #[trigger] self.entries()[i].1,
        )
    }

    /// Construct an empty in-memory inverted index.
    pub fn new() -> (r: MemoryIndex)
        ensures
            r.wf(),
            r@ == Map::<Seq<char>, Seq<u32>>::empty(),
            r.entries().len() == 0,
    {
        let r = MemoryIndex { terms: Vec::new() };
        assert(r.entries() =~= Seq::<(Seq<char>, Seq<u32>)>::empty());
        r
    }

    /// The position of the entry of `term`.
    fn find_term(&self, term: &str) -> (r: Option<usize>)
        ensures
            match r {
                Some(i) => i < self.entries().len() && self.entries()[i as int].0 == term@,
                None => forall|i: int| 0 <= i < self.entries().len() ==> self.entries()[i].0 != term@,
            },
    {
        let mut i: usize = 0;
        while i < self.terms.len()
            invariant
                i <= self.entries().len(),
                self.entries().len() == self.terms@.len(),
                forall|j: int| 0 <= j < i ==> self.entries()[j].0 != term@,
            decreases self.terms@.len() - i,
        {
            assert(self.entries()[i as int].0 == self.terms@[i as int].0@);
            if same_text(self.terms[i].0.as_str(), term) {
                return Some(i);
            }
            i += 1;
        }
        None
    }

    /// Retrieve the postings list for a term.
    pub fn posting(&self, term: &str) -> (r: Option<Posting>)
        requires
            self.wf(),
        ensures
            match r {
                Some(p) => self@.contains_key(term@) && p@ == self@[term@],
                None => !self@.contains_key(term@),
            },
    {
        proof {
            lemma_index_map(self.entries());
        }
        match self.find_term(term) {
            Some(i) => {
                assert(self.entries()[i as int].1 == self.terms@[i as int].1@);
                assert(self@.contains_key(self.entries()[i as int].0));
                Some(posting_from_ref(self.terms[i].1.as_slice()))
            },
            None => {
                assert(!self@.contains_key(term@));
                None
            },
        }
    }

    /// Get the number of terms in the index.
    pub fn len(&self) -> (r: usize)
        requires
            self.wf(),
        ensures
            r == self@.dom().len(),
    {
        proof {
            lemma_index_map(self.entries());
        }
        self.terms.len()
    }

    /// Add a postings list for a term. If the term is already in the index,
    /// its postings list is replaced.
    pub fn add_postings_list(&mut self, term: &str, docs: Vec<u32>)
        requires
            old(self).wf(),
            strictly_increasing(docs@),
        ensures
            final(self).wf(),
            final(self)@ == old(self)@.insert(term@, docs@),
    {
        let ghost es = self.entries();
        match self.find_term(term) {
            Some(i) => {
                let ghost v = docs@;
                self.terms.set(i, (term.to_owned(), docs));
                proof {
                    lemma_index_map_update(es, i as int, v);
                    assert(self.entries() =~= es.update(i as int, (es[i as int].0, v)));
                }
            },
            None => {
                let ghost v = docs@;
                self.terms.push((term.to_owned(), docs));
                proof {
                    assert(self.entries() =~= es.push((term@, v)));
                    assert(self.entries().drop_last() =~= es);
                }
            },
        }
    }

    /// Add a term-document pair: the document joins the term's postings
    /// list, which stays sorted and unique.
    pub fn add_term(&mut self, term: &str, doc: u32)
        requires
            old(self).wf(),
        ensures
            final(self).wf(),
            final(self)@.dom() == old(self)@.dom().insert(term@),
            forall|k: Seq<char>| k != term@ && old(self)@.contains_key(k) ==> final(self)@[k] == old(self)@[k],
            strictly_increasing(final(self)@[term@]),
            forall|x: u32|
                final(self)@[term@].contains(x) <==> (x == doc || (old(self)@.contains_key(term@)
                    && old(self)@[term@].contains(x))),
    {
        proof {
            lemma_index_map(self.entries());
        }
        let old_docs: Vec<u32> = match self.find_term(term) {
            Some(i) => {
                assert(self.entries()[i as int].1 == self.terms@[i as int].1@);
                assert(self@.contains_key(self.entries()[i as int].0));
                vstd::slice::slice_to_vec(self.terms[i].1.as_slice())
            },
            None => {
                assert(!self@.contains_key(term@));
                Vec::new()
            },
        };
        assert(forall|x: u32|
            old_docs@.contains(x) <==> (old(self)@.contains_key(term@) && old(self)@[term@].contains(x)));
        assert(strictly_increasing(old_docs@));
        let mut docs = old_docs;
        let ghost before = docs@;
        match search_sorted(docs.as_slice(), doc) {
            Ok(idx) => {
                assert(docs@.contains(doc)) by {
                    assert(docs@[idx as int] == doc);
                }
                assert(forall|x: u32| #[trigger] docs@.contains(x) <==> (x == doc || before.contains(x)));
            },
            Err(idx) => {
                proof {
                    lemma_sorted_insert(before, idx as int, doc);
                }
                docs.insert(idx, doc);
                assert forall|x: u32| #[trigger] docs@.contains(x) <==> (x == doc || before.contains(x)) by {
                    assert(docs@ == before.insert(idx as int, doc));
                    lemma_sorted_insert(before, idx as int, doc);
                    assert(before.insert(idx as int, doc).contains(x) <==> (x == doc || before.contains(x)));
                }
            },
        }
        let ghost new_docs = docs@;
        assert(forall|x: u32| new_docs.contains(x) <==> (x == doc || before.contains(x)));
        self.add_postings_list(term, docs);
        assert(self@[term@] == new_docs);
        assert forall|x: u32|
            self@[term@].contains(x) <==> (x == doc || (old(self)@.contains_key(term@) && old(self)@[term@].contains(x))) by {
            assert(new_docs.contains(x) <==> (x == doc || before.contains(x)));
            assert(before.contains(x) <==> (old(self)@.contains_key(term@) && old(self)@[term@].contains(x)));
        }
    }

    /// Iterate over the entries of the index, in the order of their terms'
    /// arrival.
    pub fn iter(&self) -> (r: Iter<'_>)
        ensures
            r@ == self.entries(),
    {
        let r = Iter { terms: &self.terms, pos: 0 };
        assert(r@ =~= self.entries());
        r
    }

    /// Consume the index, iterating over its entries in the order of their
    /// terms' arrival.
    pub fn into_iter(self) -> (r: IntoIter)
        ensures
            r@ == self.entries(),
    {
        let ghost es = self.entries();
        let mut terms = self.terms;
        let mut rest: Vec<(String, Vec<u32>)> = Vec::new();
        while terms.len() > 0
            invariant
                es == terms@.map_values(|e: (String, Vec<u32>)| entry_view(e)) + rest@.map_values(
                    |e: (String, Vec<u32>)| entry_view(e),
                ).reverse(),
            decreases terms@.len(),
        {
            let ghost t = terms@;
            let ghost r0 = rest@;
            let e = terms.pop().unwrap();
            proof {
                assert(t == terms@.push(e));
            }
            rest.push(e);
            assert(es =~= terms@.map_values(|e: (String, Vec<u32>)| entry_view(e)) + rest@.map_values(
                |e: (String, Vec<u32>)| entry_view(e),
            ).reverse());
        }
        let r = IntoIter { rest };
        assert(r@ =~= es);
        r
    }
}

/// Iterator over the entries of a `MemoryIndex`.
pub struct Iter<'a> {
    terms: &'a Vec<(String, Vec<u32>)>,
    pos: usize,
}

impl<'a> View for Iter<'a> {
    type V = Seq<(Seq<char>, Seq<u32>)>;

    /// The entries still to come.
    closed spec fn view(&self) -> Seq<(Seq<char>, Seq<u32>)> {
        if self.pos <= self.terms@.len() {
            self.terms@.map_values(|e: (String, Vec<u32>)| entry_view(e)).subrange(
                self.pos as int,
                self.terms@.len() as int,
            )
        } else {
            Seq::empty()
        }
    }
}

impl<'a> Iter<'a> {
    /// The next term with its postings list, or `None` at the end.
    pub fn next(&mut self) -> (r: Option<(&'a str, Posting)>)
        ensures
            old(self)@.len() > 0 ==> (r matches Some((t, p)) && t@ == old(self)@[0].0 && p@ == old(self)@[0].1)
                && final(self)@ == old(self)@.drop_first(),
            old(self)@.len() == 0 ==> r is None && final(self)@ == old(self)@,
    {
        if self.pos >= self.terms.len() {
            return None;
        }
        let i = self.pos;
        let entry = &self.terms[i];
        self.pos = i + 1;
        assert(self@ =~= old(self)@.drop_first());
        Some((entry.0.as_str(), posting_from_ref(entry.1.as_slice())))
    }
}

/// Iterator that consumes a `MemoryIndex`.
pub struct IntoIter {
    rest: Vec<(String, Vec<u32>)>,
}

impl View for IntoIter {
    type V = Seq<(Seq<char>, Seq<u32>)>;

    /// The entries still to come.
    closed spec fn view(&self) -> Seq<(Seq<char>, Seq<u32>)> {
        self.rest@.map_values(|e: (String, Vec<u32>)| entry_view(e)).reverse()
    }
}

impl IntoIter {
    /// The next term with its postings list, or `None` at the end.
    pub fn next(&mut self) -> (r: Option<(String, Posting)>)
        ensures
            old(self)@.len() > 0 ==> (r matches Some((t, p)) && t@ == old(self)@[0].0 && p@ == old(self)@[0].1)
                && final(self)@ == old(self)@.drop_first(),
            old(self)@.len() == 0 ==> r is None && final(self)@ == old(self)@,
    {
        match self.rest.pop() {
            Some((term, docs)) => {
                assert(self@ =~= old(self)@.drop_first());
                Some((term, posting_from_vec(docs)))
            },
            None => None,
        }
    }
}

impl InvertedIndexMut for MemoryIndex {
    open spec fn well_formed(&self) -> bool {
        self.wf()
    }

    open spec fn postings(&self) -> Map<Seq<char>, Seq<u32>> {
        self@
    }

    fn add_term(&mut self, term: &str, doc: u32) {
        MemoryIndex::add_term(self, term, doc)
    }

    fn add_postings_list(&mut self, term: &str, docs: Vec<u32>) {
        MemoryIndex::add_postings_list(self, term, docs)
    }
}

impl InvertedIndex for MemoryIndex {
    open spec fn well_formed(&self) -> bool {
        self.wf()
    }

    open spec fn postings(&self) -> Map<Seq<char>, Seq<u32>> {
        self@
    }

    fn iter(&self) -> (r: Iter<'_>) {
        MemoryIndex::iter(self)
    }

    fn len(&self) -> (r: usize) {
        MemoryIndex::len(self)
    }

    fn posting(&self, term: &str) -> (r: Option<Posting>) {
        MemoryIndex::posting(self, term)
    }
}

impl MemoryIndex {
    /// Read an index from lines. Each line holds a term and its postings
    /// list: the term, then the documents as unsigned integers, all
    /// separated by whitespace; the documents must be sorted and unique.
    pub fn from_text(lines: &Vec<String>) -> (r: Result<MemoryIndex, TextReadError>)
        ensures
            match r {
                Ok(ix) => ix.wf() && index_of_lines(lines@.map_values(|l: String| l@)) == Ok::<
                    Map<Seq<char>, Seq<u32>>,
                    (int, int),
                >(ix@),
                Err(e) => index_of_lines(lines@.map_values(|l: String| l@)) matches Err((k, f)) && f
                    == fault_code(e) && (e matches TextReadError::NotSortedOrUnique(l) ==> l@
                    == lines@[k]@),
            },
    {
        let ghost ls = lines@.map_values(|l: String| l@);
        let mut index = MemoryIndex::new();
        let mut i: usize = 0;
        assert(ls.subrange(0, 0) =~= Seq::<Seq<char>>::empty());
        while i < lines.len()
            invariant
                i <= lines@.len(),
                ls == lines@.map_values(|l: String| l@),
                index.wf(),
                index_of_lines(ls.subrange(0, i as int)) == Ok::<Map<Seq<char>, Seq<u32>>, (int, int)>(
                    index@,
                ),
            decreases lines@.len() - i,
        {
            let ghost prefix = ls.subrange(0, i + 1);
            assert(prefix.drop_last() =~= ls.subrange(0, i as int));
            assert(prefix.last() == lines@[i as int]@);
            match read_entry(lines[i].as_str()) {
                Err(e) => {
                    proof {
                        lemma_index_fault_stays(ls, i as int + 1);
                    }
                    let err = match e {
                        1 => TextReadError::NoTerm,
                        2 => TextReadError::Parse,
                        _ => TextReadError::NotSortedOrUnique(lines[i].clone()),
                    };
                    return Err(err);
                },
                Ok((term, docs)) => {
                    index.add_postings_list(term.as_str(), docs);
                },
            }
            i += 1;
        }
        assert(ls.subrange(0, i as int) =~= ls);
        Ok(index)
    }
}

/// Read one line: its term and documents, or its fault code.
fn read_entry(line: &str) -> (r: Result<(String, Vec<u32>), u8>)
    ensures
        match r {
            Ok((t, ds)) => line_outcome(line@) == Ok::<(Seq<char>, Seq<u32>), int>((t@, ds@)),
            Err(f) => line_outcome(line@) == Err::<(Seq<char>, Seq<u32>), int>(f as int) && 1 <= f <= 3,
        },
{
    let words = split_words(line);
    let ghost ws = words@.map_values(|w: String| w@);
    if words.len() == 0 {
        return Err(1);
    }
    let mut ids: Vec<Option<u32>> = Vec::new();
    let mut k: usize = 1;
    while k < words.len()
        invariant
            1 <= k <= words@.len(),
            ws == words@.map_values(|w: String| w@),
            ids@ == ws.subrange(1, k as int).map_values(|w: Seq<char>| u32_of(w)),
        decreases words@.len() - k,
    {
        ids.push(parse_u32(words[k].as_str()));
        k += 1;
        assert(ids@ =~= ws.subrange(1, k as int).map_values(|w: Seq<char>| u32_of(w)));
    }
    assert(ws.subrange(1, k as int) =~= ws.drop_first());
    entry_from_words(&words, &ids)
}

/// The entry of a line from its words and the parsed documents: the term is
/// the first word.
pub fn entry_from_words(words: &Vec<String>, ids: &Vec<Option<u32>>) -> (r: Result<(String, Vec<u32>), u8>)
    ensures
        match r {
            Ok((t, ds)) => read_line(words@.map_values(|w: String| w@), ids@) == Ok::<
                (Seq<char>, Seq<u32>),
                int,
            >((t@, ds@)),
            Err(f) => read_line(words@.map_values(|w: String| w@), ids@) == Err::<
                (Seq<char>, Seq<u32>),
                int,
            >(f as int) && 1 <= f <= 3,
        },
{
    if words.len() == 0 {
        return Err(1);
    }
    let mut docs: Vec<u32> = Vec::new();
    let mut k: usize = 0;
    while k < ids.len()
        invariant
            words@.len() > 0,
            k <= ids@.len(),
            parsed_docs(ids@.subrange(0, k as int)) == Some(docs@),
        decreases ids@.len() - k,
    {
        assert(ids@.subrange(0, k + 1).drop_last() =~= ids@.subrange(0, k as int));
        assert(ids@.subrange(0, k + 1).last() == ids@[k as int]);
        match ids[k] {
            Some(d) => docs.push(d),
            None => {
                proof {
                    assert(parsed_docs(ids@.subrange(0, k + 1)) is None);
                    lemma_parse_fault_stays(ids@, k as int + 1);
                    assert(words@.map_values(|w: String| w@).len() > 0);
                }
                return Err(2);
            },
        }
        k += 1;
    }
    assert(ids@.subrange(0, k as int) =~= ids@);
    if !is_sorted_uniq(docs.as_slice()) {
        return Err(3);
    }
    let term = words[0].clone();
    Ok((term, docs))
}

proof fn lemma_parse_fault_stays(ids: Seq<Option<u32>>, k: int)
    requires
        0 < k <= ids.len(),
        parsed_docs(ids.subrange(0, k)) is None,
    ensures
        parsed_docs(ids) is None,
    decreases ids.len() - k,
{
    if k < ids.len() {
        assert(ids.subrange(0, k + 1).drop_last() =~= ids.subrange(0, k));
        lemma_parse_fault_stays(ids, k + 1);
    } else {
        assert(ids.subrange(0, k) =~= ids);
    }
}

proof fn lemma_index_fault_stays(ls: Seq<Seq<char>>, k: int)
    requires
        0 < k <= ls.len(),
        index_of_lines(ls.subrange(0, k)) is Err,
    ensures
        index_of_lines(ls) == index_of_lines(ls.subrange(0, k)),
    decreases ls.len() - k,
{
    if k < ls.len() {
        assert(ls.subrange(0, k + 1).drop_last() =~= ls.subrange(0, k));
        lemma_index_fault_stays(ls, k + 1);
    } else {
        assert(ls.subrange(0, k) =~= ls);
    }
}

impl InvertedIndexFromText for MemoryIndex {
    fn from_text(lines: &Vec<String>) -> (r: Result<MemoryIndex, TextReadError>) {
        MemoryIndex::from_text(lines)
    }
}

impl MemoryIndex {
    /// The index as text: a line per term, with the term, a tab and the
    /// documents separated by spaces.
    pub fn to_text(&self) -> (r: String)
        ensures
            r@ == index_text(self.entries()),
    {
        let mut out = String::new();
        let mut i: usize = 0;
        assert(self.entries().subrange(0, 0) =~= Seq::<(Seq<char>, Seq<u32>)>::empty());
        while i < self.terms.len()
            invariant
                i <= self.terms@.len(),
                out@ == index_text(self.entries().subrange(0, i as int)),
            decreases self.terms@.len() - i,
        {
            let ghost before = out@;
            let (term, docs) = &self.terms[i];
            out.append(term.as_str());
            push_char(&mut out, '\t');
            let ghost head = out@;
            let mut k: usize = 0;
            while k < docs.len()
                invariant
                    k <= docs@.len(),
                    out@ == head + docs_text(docs@.subrange(0, k as int)),
                decreases docs@.len() - k,
            {
                if k > 0 {
                    push_char(&mut out, ' ');
                }
                push_decimal(&mut out, docs[k]);
                proof {
                    let sub = docs@.subrange(0, k + 1);
                    assert(sub.drop_last() =~= docs@.subrange(0, k as int));
                    if k == 0 {
                        assert(docs@.subrange(0, 0) =~= Seq::<u32>::empty());
                    }
                }
                k += 1;
                assert(out@ =~= head + docs_text(docs@.subrange(0, k as int)));
            }
            push_char(&mut out, '\n');
            proof {
                assert(docs@.subrange(0, k as int) =~= docs@);
                let sub = self.entries().subrange(0, i + 1);
                assert(sub.drop_last() =~= self.entries().subrange(0, i as int));
                assert(sub.last() == (term@, docs@));
            }
            i += 1;
            assert(out@ =~= index_text(self.entries().subrange(0, i as int)));
        }
        assert(self.entries().subrange(0, i as int) =~= self.entries());
        out
    }
}

impl InvertedIndexToText for MemoryIndex {
    fn to_text(&self) -> String {
        MemoryIndex::to_text(self)
    }
}

} // verus!
