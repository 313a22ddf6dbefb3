use vstd::prelude::*;

use crate::index::{admits, lists_after_prune, listed, passes, prunable, Index};
use crate::postings::{is_intersection, lemma_sorted_unique, sorted, DocID};
use crate::trigram::{lemma_unique, trigram_seq, unique, windows, T};

verus! {

/// Soundness: a document that `query` returns for the text with bytes `q`
/// holds every trigram of `q`, provided none of those trigrams is pruned.
pub proof fn lemma_query_sound(idx: &Index, q: Seq<u8>, d: DocID)
    requires
        idx.wf(),
        idx.all_docs().contains(d),
        admits(idx.lists(), unique(trigram_seq(q)), d),
        forall|c: u32|
            windows(q).contains(c) && #[trigger] idx.lists().contains_key(c) ==> idx.lists()[c] is Some,
    ensures
        windows(q).subset_of(idx.contents()[d]),
{
    let ts = trigram_seq(q);
    let u = unique(ts);
    lemma_unique(ts);
    assert forall|c: u32| windows(q).contains(c) implies idx.contents()[d].contains(c) by {
        let k = choose|k: int| 0 <= k < ts.len() && ts[k].0 == c;
        assert(ts.contains(ts[k]));
        assert(u.contains(ts[k]));
        let j = choose|j: int| 0 <= j < u.len() && u[j] == ts[k];
        assert(passes(idx.lists(), u[j].0, d));
        assert(listed(idx.lists(), c, d));
    }
}

/// Completeness: a document that holds every trigram of the text with bytes
/// `q` is returned by `query`. Pruning does not take this away.
pub proof fn lemma_query_complete(idx: &Index, q: Seq<u8>, d: DocID)
    requires
        idx.wf(),
        idx.all_docs().contains(d),
        windows(q).subset_of(idx.contents()[d]),
    ensures
        admits(idx.lists(), unique(trigram_seq(q)), d),
{
    let ts = trigram_seq(q);
    let u = unique(ts);
    lemma_unique(ts);
    assert forall|j: int| 0 <= j < u.len() implies passes(idx.lists(), #[trigger] u[j].0, d) by {
        assert(u.contains(u[j]));
        assert(ts.contains(u[j]));
        let k = choose|k: int| 0 <= k < ts.len() && ts[k] == u[j];
        assert(ts[k].0 == u[j].0);
        assert(windows(q).contains(u[j].0));
        assert(idx.contents()[d].contains(u[j].0));
        if idx.lists()[u[j].0] is Some {
            assert(listed(idx.lists(), u[j].0, d));
        }
    }
}

/// The identifiers of all documents are strictly increasing.
pub proof fn lemma_all_docs_ascending(idx: &Index)
    requires
        idx.wf(),
    ensures
        sorted(idx.all_docs()),
{
}

/// Pruning twice with the same bound prunes nothing the second time.
pub proof fn lemma_prune_twice(idx: &Index, max_documents: usize)
    ensures
        prunable(lists_after_prune(idx.lists(), max_documents), max_documents) == Set::<u32>::empty(),
        prunable(lists_after_prune(idx.lists(), max_documents), max_documents).len() == 0,
{
    assert(prunable(lists_after_prune(idx.lists(), max_documents), max_documents) =~= Set::<u32>::empty());
}

/// Pruning only widens the set of documents that pass the trigrams `ts`.
pub proof fn lemma_prune_widens(idx: &Index, max_documents: usize, ts: Seq<T>, d: DocID)
    requires
        admits(idx.lists(), ts, d),
    ensures
        admits(lists_after_prune(idx.lists(), max_documents), ts, d),
{
    let l = lists_after_prune(idx.lists(), max_documents);
    assert forall|k: int| 0 <= k < ts.len() implies passes(l, #[trigger] ts[k].0, d) by {
        assert(passes(idx.lists(), ts[k].0, d));
    }
}

/// The in-place intersection of `a` with `b` and the intersection written
/// to a separate buffer are the same sequence.
pub proof fn lemma_in_place_intersection(
    a: Seq<DocID>,
    b: Seq<DocID>,
    in_place: Seq<DocID>,
    copied: Seq<DocID>,
)
    requires
        is_intersection(in_place, a, b),
        is_intersection(copied, a, b),
    ensures
        in_place == copied,
{
    lemma_sorted_unique(in_place, copied);
}

} // verus!
