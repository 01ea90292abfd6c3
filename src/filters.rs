//! Stopword filters.

use crate::text::{same_text, text_starts_with};
use vstd::prelude::*;

verus! {

/// A `StopwordFilter` filters words based on their lemma and/or tag.
pub trait StopwordFilter {
    /// Which (tag, lemma) pairs the filter drops.
    spec fn drops(&self, tag: Seq<char>, lemma: Seq<char>) -> bool;

    fn is_stopword(&self, tag: &str, lemma: &str) -> (r: bool)
        ensures
            r == self.drops(tag@, lemma@),
    ;
}

/// `p` is a prefix of `s`.
pub open spec fn starts_with(s: Seq<char>, p: Seq<char>) -> bool {
    p.len() <= s.len() && s.subrange(0, p.len() as int) == p
}

/// The PTB tags of open word classes: cardinal numbers, foreign words,
/// adjectives, nouns, proper nouns, adverbs and verbs.
pub open spec fn is_ptb_open_class(tag: Seq<char>) -> bool {
    tag == "CD"@ || tag == "FW"@ || starts_with(tag, "JJ"@) || starts_with(tag, "NN"@)
        || starts_with(tag, "NP"@) || starts_with(tag, "RB"@) || starts_with(tag, "VB"@)
}

/// A filter for stopwords with PTB-style tags from TreeTagger: words of
/// closed classes, and the lemmas "be" and "have".
pub struct PTBStopwordFilter;

impl StopwordFilter for PTBStopwordFilter {
    open spec fn drops(&self, tag: Seq<char>, lemma: Seq<char>) -> bool {
        !is_ptb_open_class(tag) || lemma == "be"@ || lemma == "have"@
    }

    fn is_stopword(&self, tag: &str, lemma: &str) -> (r: bool) {
        if !ptb_open_class(tag) {
            return true;
        }
        if same_text(lemma, "be") || same_text(lemma, "have") {
            return true;
        }
        false
    }
}

fn ptb_open_class(tag: &str) -> (r: bool)
    ensures
        r == is_ptb_open_class(tag@),
{
    same_text(tag, "CD") || same_text(tag, "FW") || text_starts_with(tag, "JJ") || text_starts_with(
        tag,
        "NN",
    ) || text_starts_with(tag, "NP") || text_starts_with(tag, "RB") || text_starts_with(tag, "VB")
}

} // verus!
