//! The capabilities that a trie offers: membership checks, prefix
//! iteration and insertion.

use crate::ternary::Iter;
use crate::text::same_text;
use vstd::prelude::*;

verus! {

/// The trait `TrieContains` provides membership checks.
pub trait TrieContains {
    /// The trie's structural invariant.
    spec fn well_formed(&self) -> bool;

    /// The set of stored words.
    spec fn words(&self) -> Set<Seq<char>>;

    /// Returns `true` when a non-empty word is in the trie, or `false`
    /// otherwise.
    fn contains(&self, word: &str) -> (r: bool)
        requires
            self.well_formed(),
            word@.len() > 0,
        ensures
            r == self.words().contains(word@),
    ;
}

/// The trait `TriePrefixIter` supports iteration over all words in the trie
/// starting with the given prefix.
pub trait TriePrefixIter {
    /// The trie's structural invariant.
    spec fn well_formed(&self) -> bool;

    /// The set of stored words.
    spec fn words(&self) -> Set<Seq<char>>;

    /// Iterate over the words starting with the given `prefix`, in ascending
    /// lexicographic order.
    fn prefix_iter<'a>(&'a self, prefix: &str) -> (r: Iter<'a>)
        requires
            self.well_formed(),
        ensures
            crate::ternary::strictly_ascending(r@),
            forall|x: Seq<char>|
                r@.contains(x) <==> (self.words().contains(x) && crate::ternary::is_prefix(
                    prefix@,
                    x,
                )),
    ;
}

/// The trait `TrieInsert` provides a method to insert words in the trie.
pub trait TrieInsert {
    /// The trie's structural invariant.
    spec fn well_formed(&self) -> bool;

    /// The set of stored words.
    spec fn words(&self) -> Set<Seq<char>>;

    /// Insert a non-empty word.
    fn insert(&mut self, word: &str)
        requires
            old(self).well_formed(),
            word@.len() > 0,
        ensures
            final(self).well_formed(),
            final(self).words() == old(self).words().insert(word@),
    ;
}

/// A trie that supports insertion and prefix iteration.
pub trait Trie: TriePrefixIter + TrieInsert {

}

/// The kinds of trie that a program can choose from.
#[derive(Clone, Copy, Debug, PartialEq, Eq)]
pub enum TrieType {
    Array,
    Simple,
    Ternary,
}

impl TrieType {
    /// The trie type named `type_str`: "simple", "array" or "ternary".
    pub fn from_str(type_str: &str) -> (r: Option<TrieType>)
        ensures
            r == (if type_str@ == "simple"@ {
                Some(TrieType::Simple)
            } else if type_str@ == "array"@ {
                Some(TrieType::Array)
            } else if type_str@ == "ternary"@ {
                Some(TrieType::Ternary)
            } else {
                None
            }),
    {
        if same_text(type_str, "simple") {
            Some(TrieType::Simple)
        } else if same_text(type_str, "array") {
            Some(TrieType::Array)
        } else if same_text(type_str, "ternary") {
            Some(TrieType::Ternary)
        } else {
            None
        }
    }
}

} // verus!
