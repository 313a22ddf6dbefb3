//! An in-memory trigram substring index over short text documents.
//!
//! Documents are split into three-byte windows (trigrams); each trigram maps
//! to the sorted list of documents that contain it. A query returns the
//! candidate documents that hold every trigram of the query text.
mod index;
mod postings;
mod theorems;
mod trigram;

pub use trigram::{
    codes, extract_all_trigrams, extract_trigrams, lemma_unique, pack, trigram_seq, unique, windows, T,
};
pub use index::{
    admits, index_inv, listed, lists_after_insert, lists_after_prune, over, passes, prunable, Index,
};
pub use postings::{is_intersection, lemma_sorted_unique, sorted, DocID};
pub use theorems::{
    lemma_all_docs_ascending, lemma_in_place_intersection, lemma_prune_twice, lemma_prune_widens,
    lemma_query_complete, lemma_query_sound,
};
