//! Information-retrieval data structures and algorithms with machine-checked
//! contracts: a randomized ternary search trie with prefix iteration,
//! wildcard query helpers, posting lists and an in-memory inverted index, a
//! suffix array, a binary max-heap with heapsort, bubble sort, slice sums, a
//! numberer for categorical values, a stopword filter and the reading of
//! document titles.

pub mod bubble;
pub mod docid;
pub mod filters;
pub mod heap;
pub mod index;
pub mod memory;
pub mod numberer;
pub mod postings;
pub mod sarr;
pub mod sum;
pub mod ternary;
pub mod text;
pub mod trie;
pub mod wildcard;

pub use ternary::TernaryTree;
pub use trie::{Trie, TrieContains, TrieInsert, TriePrefixIter, TrieType};
