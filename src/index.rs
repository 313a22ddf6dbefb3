use std::collections::HashMap;
use vstd::prelude::*;
use vstd::std_specs::hash::spec_keys_iter;
use vstd::std_specs::iter::IteratorSpec;
use vstd::string::StringSliceAdditionalSpecFns;

use crate::postings::{intersect2, intersect3, sorted, DocID};
use crate::trigram::{
    codes, extract_all_trigrams, extract_trigrams, lemma_codes_take_next, trigram_seq, unique, windows, T,
};

verus! {

broadcast use vstd::std_specs::hash::group_hash_axioms;

/// What the index holds for one trigram.
enum Posting {
    /// The list was dropped to save memory; the trigram no longer narrows a query.
    Pruned,
    /// The documents that contain the trigram, in increasing order.
    List(Vec<DocID>),
}

/// A posting as a mathematical value: `None` for a pruned one.
spec fn model(p: Posting) -> Option<Seq<DocID>> {
    match p {
        Posting::Pruned => None,
        Posting::List(l) => Some(l@),
    }
}

/// A trigram index over a growing set of documents.
pub struct Index {
    postings: HashMap<u32, Posting>,
    all_docs: Vec<DocID>,
    /// The trigrams that each inserted document contributed.
    contents: Ghost<Map<DocID, Set<u32>>>,
}

/// The posting of `t` is a list (not pruned) that holds `d`.
pub open spec fn listed(lists: Map<u32, Option<Seq<DocID>>>, t: u32, d: DocID) -> bool {
    lists.contains_key(t) && lists[t] is Some && lists[t]->Some_0.contains(d)
}

/// The consistency of the postings with the documents they were built from.
pub open spec fn index_inv(
    lists: Map<u32, Option<Seq<DocID>>>,
    all: Seq<DocID>,
    contents: Map<DocID, Set<u32>>,
) -> bool {
    &&& sorted(all)
    &&& forall|k: int| 0 <= k < all.len() ==> all[k].0 >= 0
    &&& forall|d: DocID| #[trigger] contents.contains_key(d) <==> all.contains(d)
    &&& forall|t: u32| #[trigger]
        lists.contains_key(t) && lists[t] is Some ==> sorted(lists[t]->Some_0)
    // every listed document holds the trigram
    &&& forall|t: u32, d: DocID| #[trigger]
        listed(lists, t, d) ==> all.contains(d) && contents[d].contains(t)
    // every trigram of a document has a key, and is listed for it unless pruned
    &&& forall|t: u32, d: DocID|
        all.contains(d) && #[trigger] contents[d].contains(t) ==> lists.contains_key(t) && (
        lists[t] is Some ==> listed(lists, t, d))
    // a key exists only for a trigram that some document holds
    &&& forall|t: u32| #[trigger]
        lists.contains_key(t) ==> exists|d: DocID| all.contains(d) && #[trigger] contents[d].contains(t)
}

/// The postings after document `id`, holding the trigrams `cs`, was inserted:
/// `id` is appended to each list of a trigram in `cs`, a new list is made for
/// a trigram without a key, and pruned postings stay pruned.
pub open spec fn lists_after_insert(
    lists: Map<u32, Option<Seq<DocID>>>,
    cs: Set<u32>,
    id: DocID,
) -> Map<u32, Option<Seq<DocID>>> {
    Map::new(
        |t: u32| lists.contains_key(t) || cs.contains(t),
        |t: u32|
            if !cs.contains(t) {
                lists[t]
            } else if !lists.contains_key(t) {
                Some(seq![id])
            } else {
                match lists[t] {
                    None => None,
                    Some(l) => Some(l.push(id)),
                }
            },
    )
}

proof fn lemma_push_contains(s: Seq<DocID>, v: DocID)
    ensures
        forall|x: DocID| #[trigger] s.push(v).contains(x) <==> (s.contains(x) || x == v),
{
    assert forall|x: DocID| #[trigger] s.push(v).contains(x) <==> (s.contains(x) || x == v) by {
        if s.push(v).contains(x) {
            let k = choose|k: int| 0 <= k < s.push(v).len() && s.push(v)[k] == x;
            if k < s.len() {
                assert(s[k] == x);
            }
        }
        if s.contains(x) {
            let k = choose|k: int| 0 <= k < s.len() && s[k] == x;
            assert(s.push(v)[k] == x);
        }
        if x == v {
            assert(s.push(v)[s.len() as int] == x);
        }
    }
}

/// Inserting a document with an identifier above all others keeps the
/// postings consistent.
proof fn lemma_insert_inv(
    lists: Map<u32, Option<Seq<DocID>>>,
    all: Seq<DocID>,
    contents: Map<DocID, Set<u32>>,
    cs: Set<u32>,
    id: DocID,
)
    requires
        index_inv(lists, all, contents),
        id.0 >= 0,
        forall|k: int| 0 <= k < all.len() ==> all[k].0 < id.0,
    ensures
        index_inv(lists_after_insert(lists, cs, id), all.push(id), contents.insert(id, cs)),
{
    let nl = lists_after_insert(lists, cs, id);
    let na = all.push(id);
    let nc = contents.insert(id, cs);
    lemma_push_contains(all, id);
    assert(!all.contains(id)) by {
        if all.contains(id) {
            let k = choose|k: int| 0 <= k < all.len() && all[k] == id;
        }
    }
    assert forall|t: u32| lists.contains_key(t) && lists[t] is Some implies forall|d: DocID|
        #[trigger] lists[t]->Some_0.contains(d) ==> d.0 < id.0 by {
        assert forall|d: DocID| #[trigger] lists[t]->Some_0.contains(d) implies d.0 < id.0 by {
            assert(listed(lists, t, d));
            let k = choose|k: int| 0 <= k < all.len() && all[k] == d;
        }
    }
    assert(sorted(na));
    assert forall|t: u32| #[trigger] nl.contains_key(t) && nl[t] is Some implies sorted(
        nl[t]->Some_0,
    ) by {
        if cs.contains(t) && lists.contains_key(t) {
            let l = lists[t]->Some_0;
            assert forall|i: int| 0 <= i < l.len() implies l[i].0 < id.0 by {
                assert(l.contains(l[i]));
            }
        }
    }
    assert forall|t: u32, d: DocID| #[trigger] listed(nl, t, d) implies na.contains(d)
        && nc[d].contains(t) by {
        if cs.contains(t) && lists.contains_key(t) {
            lemma_push_contains(lists[t]->Some_0, id);
        }
        if d != id {
            assert(listed(lists, t, d));
        }
    }
    assert forall|t: u32, d: DocID|
        na.contains(d) && #[trigger] nc[d].contains(t) implies nl.contains_key(t) && (
        nl[t] is Some ==> listed(nl, t, d)) by {
        if cs.contains(t) && lists.contains_key(t) && lists[t] is Some {
            lemma_push_contains(lists[t]->Some_0, id);
        }
        if d == id {
            assert(cs.contains(t));
            if !lists.contains_key(t) {
                assert(seq![id][0] == id);
            }
        } else {
            assert(all.contains(d));
            assert(contents[d].contains(t));
            assert(lists.contains_key(t));
            if lists[t] is Some {
                assert(listed(lists, t, d));
            }
        }
    }
    assert forall|t: u32| #[trigger] nl.contains_key(t) implies exists|d: DocID|
        na.contains(d) && #[trigger] nc[d].contains(t) by {
        if cs.contains(t) {
            assert(na.contains(id) && nc[id].contains(t));
        } else {
            let d = choose|d: DocID| all.contains(d) && #[trigger] contents[d].contains(t);
            assert(na.contains(d) && nc[d].contains(t));
        }
    }
    assert forall|d: DocID| #[trigger] nc.contains_key(d) <==> na.contains(d) by {}
}

/// Trigram `t` has a key, and unless pruned its list holds `d`.
pub open spec fn passes(lists: Map<u32, Option<Seq<DocID>>>, t: u32, d: DocID) -> bool {
    lists.contains_key(t) && (lists[t] is Some ==> lists[t]->Some_0.contains(d))
}

/// Document `d` passes every trigram of `ts`: no trigram lacks a key, and
/// each one that is not pruned lists `d`.
pub open spec fn admits(lists: Map<u32, Option<Seq<DocID>>>, ts: Seq<T>, d: DocID) -> bool {
    forall|k: int| 0 <= k < ts.len() ==> passes(lists, #[trigger] ts[k].0, d)
}

proof fn lemma_admits_take_next(lists: Map<u32, Option<Seq<DocID>>>, ts: Seq<T>, k: int)
    requires
        0 <= k < ts.len(),
    ensures
        forall|d: DocID|
            #[trigger] admits(lists, ts.take(k + 1), d) <==> (admits(lists, ts.take(k), d) && passes(
                lists,
                ts[k].0,
                d,
            )),
{
    assert forall|d: DocID|
        #[trigger] admits(lists, ts.take(k + 1), d) <==> (admits(lists, ts.take(k), d) && passes(
            lists,
            ts[k].0,
            d,
        )) by {
        let s1 = ts.take(k + 1);
        let s0 = ts.take(k);
        if admits(lists, s1, d) {
            assert(s1[k] == ts[k]);
            assert forall|j: int| 0 <= j < s0.len() implies passes(lists, #[trigger] s0[j].0, d) by {
                assert(s1[j] == s0[j]);
            }
        }
        if admits(lists, s0, d) && passes(lists, ts[k].0, d) {
            assert forall|j: int| 0 <= j < s1.len() implies passes(lists, #[trigger] s1[j].0, d) by {
                if j < k {
                    assert(s1[j] == s0[j]);
                }
            }
        }
    }
}

/// A query trigram with the length of its list (0 for a pruned one).
#[derive(Clone, Copy)]
struct TermFrequency {
    t: T,
    freq: usize,
}

/// `e` records its trigram's key and the length of its posting.
spec fn entry_ok(lists: Map<u32, Option<Seq<DocID>>>, e: TermFrequency) -> bool {
    &&& lists.contains_key(e.t.0)
    &&& e.freq == match lists[e.t.0] {
        None => 0,
        Some(l) => l.len(),
    }
}

/// Entry `i` of `fs` is for trigram `t`.
spec fn entry_at(fs: Seq<TermFrequency>, t: T, i: int) -> bool {
    0 <= i < fs.len() && fs[i].t == t
}

/// Every trigram of `ts` has an entry in `fs`.
spec fn covers(fs: Seq<TermFrequency>, ts: Seq<T>) -> bool {
    forall|j: int| 0 <= j < ts.len() ==> #[trigger] has_entry(fs, ts[j])
}

/// Some entry of `fs` is for trigram `t`.
spec fn has_entry(fs: Seq<TermFrequency>, t: T) -> bool {
    exists|i: int| entry_at(fs, t, i)
}

proof fn lemma_covers(orig: Seq<TermFrequency>, fs: Seq<TermFrequency>, ts: Seq<T>)
    requires
        orig.len() == ts.len(),
        forall|j: int| 0 <= j < orig.len() ==> (#[trigger] orig[j]).t == ts[j],
        forall|x: TermFrequency| fs.contains(x) <==> orig.contains(x),
    ensures
        covers(fs, ts),
{
    assert forall|j: int| 0 <= j < ts.len() implies #[trigger] has_entry(fs, ts[j]) by {
        assert(orig[j].t == ts[j]);
        assert(orig.contains(orig[j]));
        let i = choose|i: int| 0 <= i < fs.len() && fs[i] == orig[j];
        assert(entry_at(fs, ts[j], i));
    }
}

fn swap_entries(v: &mut Vec<TermFrequency>, i: usize, j: usize)
    requires
        i < old(v)@.len(),
        j < old(v)@.len(),
    ensures
        final(v)@ == old(v)@.update(i as int, old(v)@[j as int]).update(j as int, old(v)@[i as int]),
        forall|x: TermFrequency| final(v)@.contains(x) <==> old(v)@.contains(x),
{
    let a = v[i];
    let b = v[j];
    v.set(i, b);
    v.set(j, a);
    let ghost o = old(v)@;
    let ghost n = v@;
    assert forall|x: TermFrequency| n.contains(x) <==> o.contains(x) by {
        if n.contains(x) {
            let k = choose|k: int| 0 <= k < n.len() && n[k] == x;
            if k == i {
                assert(o[j as int] == x);
            } else if k == j {
                assert(o[i as int] == x);
            } else {
                assert(o[k] == x);
            }
        }
        if o.contains(x) {
            let k = choose|k: int| 0 <= k < o.len() && o[k] == x;
            if k == i {
                assert(n[j as int] == x);
            } else if k == j {
                assert(n[i as int] == x);
            } else {
                assert(n[k] == x);
            }
        }
    }
}

/// Orders the entries by increasing frequency (selection sort).
fn sort_by_frequency(v: &mut Vec<TermFrequency>)
    ensures
        final(v)@.len() == old(v)@.len(),
        forall|x: TermFrequency| final(v)@.contains(x) <==> old(v)@.contains(x),
        forall|a: int, b: int| 0 <= a <= b < final(v)@.len() ==> final(v)@[a].freq <= final(v)@[b].freq,
{
    let n = v.len();
    let mut i: usize = 0;
    while i < n
        invariant
            v@.len() == n,
            i <= n,
            forall|x: TermFrequency| v@.contains(x) <==> old(v)@.contains(x),
            forall|a: int, b: int| 0 <= a <= b < i ==> v@[a].freq <= v@[b].freq,
            forall|a: int, b: int| 0 <= a < i <= b < n ==> v@[a].freq <= v@[b].freq,
        decreases n - i,
    {
        let mut m: usize = i;
        let mut j: usize = i + 1;
        while j < n
            invariant
                v@.len() == n,
                i <= m < n,
                i < j <= n,
                forall|b: int| i <= b < j ==> v@[m as int].freq <= v@[b].freq,
            decreases n - j,
        {
            if v[j].freq < v[m].freq {
                m = j;
            }
            j += 1;
        }
        swap_entries(v, i, m);
        i += 1;
    }
}

fn copy_docs(v: &Vec<DocID>) -> (r: Vec<DocID>)
    ensures
        r@ == v@,
{
    let mut r: Vec<DocID> = Vec::new();
    let mut i: usize = 0;
    while i < v.len()
        invariant
            i <= v@.len(),
            r@ == v@.take(i as int),
        decreases v@.len() - i,
    {
        r.push(v[i]);
        i += 1;
        assert(r@ =~= v@.take(i as int));
    }
    assert(v@.take(i as int) =~= v@);
    r
}

/// A list that the index holds is never empty.
proof fn lemma_list_nonempty(
    lists: Map<u32, Option<Seq<DocID>>>,
    all: Seq<DocID>,
    contents: Map<DocID, Set<u32>>,
    t: u32,
)
    requires
        index_inv(lists, all, contents),
        lists.contains_key(t),
        lists[t] is Some,
    ensures
        lists[t]->Some_0.len() > 0,
{
    let d = choose|d: DocID| all.contains(d) && #[trigger] contents[d].contains(t);
    assert(listed(lists, t, d));
}

/// Intersecting the first list that is not pruned, in frequency order, with
/// the lists of the trigrams after it gives the documents that pass every
/// query trigram.
proof fn lemma_rarest_first(
    lists: Map<u32, Option<Seq<DocID>>>,
    all: Seq<DocID>,
    contents: Map<DocID, Set<u32>>,
    trigrams: Seq<T>,
    fs: Seq<TermFrequency>,
    nonzero: int,
    d0: Seq<DocID>,
    rest: Seq<T>,
)
    requires
        index_inv(lists, all, contents),
        0 <= nonzero < fs.len(),
        forall|i: int| 0 <= i < fs.len() ==> entry_ok(lists, #[trigger] fs[i]) && trigrams.contains(fs[i].t),
        covers(fs, trigrams),
        forall|i: int| 0 <= i < nonzero ==> (#[trigger] fs[i]).freq == 0,
        lists.contains_key(fs[nonzero].t.0),
        lists[fs[nonzero].t.0] == Some(d0),
        rest.len() == fs.len() - nonzero - 1,
        forall|q: int| 0 <= q < rest.len() ==> #[trigger] rest[q] == fs[nonzero + 1 + q].t,
    ensures
        forall|d: DocID| (d0.contains(d) && admits(lists, rest, d)) <==> (all.contains(d) && admits(lists, trigrams, d)),
{
    let first = fs[nonzero].t;
    assert forall|d: DocID| (d0.contains(d) && admits(lists, rest, d)) <==> (all.contains(d) && admits(lists, trigrams, d)) by {
        if d0.contains(d) && admits(lists, rest, d) {
            assert(listed(lists, first.0, d));
            assert forall|jj: int| 0 <= jj < trigrams.len() implies passes(lists, #[trigger] trigrams[jj].0, d) by {
                assert(has_entry(fs, trigrams[jj]));
                let i = choose|i: int| entry_at(fs, trigrams[jj], i);
                assert(entry_ok(lists, fs[i]));
                if lists[fs[i].t.0] is Some {
                    lemma_list_nonempty(lists, all, contents, fs[i].t.0);
                    assert(fs[i].freq > 0);
                    if i > nonzero {
                        assert(rest[i - nonzero - 1] == fs[i].t);
                        assert(passes(lists, rest[i - nonzero - 1].0, d));
                    }
                }
            }
        }
        if all.contains(d) && admits(lists, trigrams, d) {
            assert(trigrams.contains(first));
            let jf = choose|jf: int| 0 <= jf < trigrams.len() && trigrams[jf] == first;
            assert(passes(lists, trigrams[jf].0, d));
            assert forall|q: int| 0 <= q < rest.len() implies passes(lists, #[trigger] rest[q].0, d) by {
                let i = nonzero + 1 + q;
                assert(rest[q] == fs[i].t);
                assert(trigrams.contains(fs[i].t));
                let jq = choose|jq: int| 0 <= jq < trigrams.len() && trigrams[jq] == fs[i].t;
                assert(passes(lists, trigrams[jq].0, d));
            }
        }
    }
}

/// The posting `p` is a list longer than `max_documents`.
pub open spec fn over(p: Option<Seq<DocID>>, max_documents: usize) -> bool {
    p is Some && p->Some_0.len() > max_documents
}

/// The trigrams whose lists are longer than `max_documents`.
pub open spec fn prunable(lists: Map<u32, Option<Seq<DocID>>>, max_documents: usize) -> Set<u32> {
    Set::new(|t: u32| lists.contains_key(t) && over(lists[t], max_documents))
}

/// The postings after pruning: each list longer than `max_documents`
/// becomes pruned; the keys stay.
pub open spec fn lists_after_prune(
    lists: Map<u32, Option<Seq<DocID>>>,
    max_documents: usize,
) -> Map<u32, Option<Seq<DocID>>> {
    Map::new(
        |t: u32| lists.contains_key(t),
        |t: u32|
            if over(lists[t], max_documents) {
                None
            } else {
                lists[t]
            },
    )
}

/// The keys of `postings`, in the order the map walks them, each once.
fn keys_of(postings: &HashMap<u32, Posting>) -> (r: Vec<u32>)
    ensures
        r@.no_duplicates(),
        r@.to_set() == postings@.dom(),
{
    let mut keys: Vec<u32> = Vec::new();
    let ghost all_keys = spec_keys_iter(postings).remaining().unref();
    for k in it: postings.keys()
        invariant
            all_keys == spec_keys_iter(postings).remaining().unref(),
            it.seq().unref() == all_keys,
            keys@ == all_keys.take(it.index()),
    {
        keys.push(*k);
        assert(keys@ =~= all_keys.take(it.index() + 1));
    }
    assert(keys@ =~= all_keys);
    keys
}

/// Pruning keeps the postings consistent with the documents.
proof fn lemma_prune_inv(
    lists: Map<u32, Option<Seq<DocID>>>,
    all: Seq<DocID>,
    contents: Map<DocID, Set<u32>>,
    max_documents: usize,
)
    requires
        index_inv(lists, all, contents),
    ensures
        index_inv(lists_after_prune(lists, max_documents), all, contents),
{
    let nl = lists_after_prune(lists, max_documents);
    assert forall|t: u32, d: DocID| #[trigger] listed(nl, t, d) implies all.contains(d)
        && contents[d].contains(t) by {
        assert(listed(lists, t, d));
    }
    assert forall|t: u32| #[trigger] nl.contains_key(t) implies exists|d: DocID|
        all.contains(d) && #[trigger] contents[d].contains(t) by {
        assert(lists.contains_key(t));
    }
}

impl Index {
    /// The posting of each trigram key.
    pub closed spec fn lists(&self) -> Map<u32, Option<Seq<DocID>>> {
        Map::new(|t: u32| self.postings@.contains_key(t), |t: u32| model(self.postings@[t]))
    }

    /// The identifiers of all documents, in increasing order.
    pub closed spec fn all_docs(&self) -> Seq<DocID> {
        self.all_docs@
    }

    /// The trigrams of each document.
    pub closed spec fn contents(&self) -> Map<DocID, Set<u32>> {
        self.contents@
    }

    /// The postings are consistent with the documents inserted so far.
    pub open spec fn wf(&self) -> bool {
        index_inv(self.lists(), self.all_docs(), self.contents())
    }

    fn empty() -> (r: Index)
        ensures
            r.wf(),
            r.lists() == Map::<u32, Option<Seq<DocID>>>::empty(),
            r.all_docs() == Seq::<DocID>::empty(),
            r.contents() == Map::<DocID, Set<u32>>::empty(),
    {
        let r = Index { postings: HashMap::new(), all_docs: Vec::new(), contents: Ghost(Map::empty()) };
        assert(r.lists() =~= Map::<u32, Option<Seq<DocID>>>::empty());
        r
    }

    fn copy_all_docs(&self) -> (r: Vec<DocID>)
        ensures
            r@ == self.all_docs(),
    {
        copy_docs(&self.all_docs)
    }

    /// Records `id` under trigram `t`: a new list for a trigram without a
    /// key, an append unless `id` is already last, nothing for a pruned one.
    fn post(&mut self, t: u32, id: DocID)
        ensures
            final(self).all_docs() == old(self).all_docs(),
            final(self).contents() == old(self).contents(),
            final(self).lists() == old(self).lists().insert(
                t,
                if !old(self).lists().contains_key(t) {
                    Some(seq![id])
                } else {
                    match old(self).lists()[t] {
                        None => None,
                        Some(l) => if l.len() > 0 && l.last() == id {
                            Some(l)
                        } else {
                            Some(l.push(id))
                        },
                    }
                },
            ),
    {
        let ghost m0 = self.postings@;
        let ghost p = if !old(self).lists().contains_key(t) {
            Some(seq![id])
        } else {
            match old(self).lists()[t] {
                None => None,
                Some(l) => if l.len() > 0 && l.last() == id {
                    Some(l)
                } else {
                    Some(l.push(id))
                },
            }
        };
        match self.postings.remove(&t) {
            None => {
                let v = vec![id];
                assert(v@ =~= seq![id]);
                self.postings.insert(t, Posting::List(v));
            },
            Some(Posting::Pruned) => {
                self.postings.insert(t, Posting::Pruned);
            },
            Some(Posting::List(mut l)) => {
                let n = l.len();
                if n == 0 || l[n - 1].0 != id.0 {
                    l.push(id);
                }
                self.postings.insert(t, Posting::List(l));
            },
        }
        assert(self.postings@ == m0.insert(t, self.postings@[t]));
        assert(model(self.postings@[t]) == p);
        assert(self.lists() =~= old(self).lists().insert(t, p));
    }

    /// Records document `id` as holding the trigrams `ts`.
    pub fn insert_trigrams(&mut self, ts: &Vec<T>, id: DocID)
        requires
            old(self).wf(),
            id.0 >= 0,
            forall|k: int| 0 <= k < old(self).all_docs().len() ==> old(self).all_docs()[k].0 < id.0,
        ensures
            final(self).wf(),
            final(self).all_docs() == old(self).all_docs().push(id),
            final(self).contents() == old(self).contents().insert(id, codes(ts@)),
            final(self).lists() == lists_after_insert(old(self).lists(), codes(ts@), id),
    {
        let ghost l0 = self.lists();
        let mut k: usize = 0;
        while k < ts.len()
            invariant
                index_inv(l0, self.all_docs(), self.contents()),
                self.all_docs() == old(self).all_docs(),
                self.contents() == old(self).contents(),
                l0 == old(self).lists(),
                forall|j: int| 0 <= j < old(self).all_docs().len() ==> old(self).all_docs()[j].0 < id.0,
                k <= ts@.len(),
                self.lists() == lists_after_insert(l0, codes(ts@.take(k as int)), id),
            decreases ts@.len() - k,
        {
            let t = ts[k];
            let ghost before = self.lists();
            let ghost cs = codes(ts@.take(k as int));
            self.post(t.0, id);
            proof {
                let cs1 = codes(ts@.take(k + 1));
                lemma_codes_take_next(ts@, k as int);
                if !cs.contains(t.0) && l0.contains_key(t.0) && l0[t.0] is Some {
                    let l = l0[t.0]->Some_0;
                    if l.len() > 0 {
                        assert(listed(l0, t.0, l.last()));
                        let j = choose|j: int| 0 <= j < self.all_docs().len() && self.all_docs()[j] == l.last();
                    }
                }
                assert(self.lists() =~= lists_after_insert(l0, cs1, id));
            }
            k += 1;
        }
        assert(ts@.take(k as int) =~= ts@);
        self.all_docs.push(id);
        proof {
            lemma_insert_inv(l0, old(self).all_docs(), old(self).contents(), codes(ts@), id);
            self.contents = Ghost(self.contents@.insert(id, codes(ts@)));
        }
    }

    /// Records document `id` as holding the three-byte windows of `s`.
    pub fn insert(&mut self, s: &str, id: DocID)
        requires
            old(self).wf(),
            id.0 >= 0,
            forall|k: int| 0 <= k < old(self).all_docs().len() ==> old(self).all_docs()[k].0 < id.0,
        ensures
            final(self).wf(),
            final(self).all_docs() == old(self).all_docs().push(id),
            final(self).contents() == old(self).contents().insert(id, windows(s.spec_bytes())),
            final(self).lists() == lists_after_insert(
                old(self).lists(),
                windows(s.spec_bytes()),
                id,
            ),
    {
        let mut ts: Vec<T> = Vec::new();
        extract_all_trigrams(s, &mut ts);
        assert(ts@ =~= trigram_seq(s.spec_bytes()));
        self.insert_trigrams(&ts, id);
    }

    /// Adds document `s` under the next identifier, the number of documents
    /// so far, and returns that identifier.
    pub fn add(&mut self, s: &str) -> (r: DocID)
        requires
            old(self).wf(),
            old(self).all_docs().len() <= i32::MAX,
            forall|k: int|
                0 <= k < old(self).all_docs().len() ==> old(self).all_docs()[k].0 < old(
                    self,
                ).all_docs().len(),
        ensures
            r.0 == old(self).all_docs().len(),
            final(self).wf(),
            final(self).all_docs() == old(self).all_docs().push(r),
            final(self).contents() == old(self).contents().insert(r, windows(s.spec_bytes())),
            final(self).lists() == lists_after_insert(old(self).lists(), windows(s.spec_bytes()), r),
    {
        let id = DocID(self.all_docs.len() as i32);
        self.insert(s, id);
        id
    }

    /// Adds a document given by its trigrams under the next identifier, the
    /// number of documents so far, and returns that identifier.
    pub fn add_trigrams(&mut self, ts: &Vec<T>) -> (r: DocID)
        requires
            old(self).wf(),
            old(self).all_docs().len() <= i32::MAX,
            forall|k: int|
                0 <= k < old(self).all_docs().len() ==> old(self).all_docs()[k].0 < old(
                    self,
                ).all_docs().len(),
        ensures
            r.0 == old(self).all_docs().len(),
            final(self).wf(),
            final(self).all_docs() == old(self).all_docs().push(r),
            final(self).contents() == old(self).contents().insert(r, codes(ts@)),
            final(self).lists() == lists_after_insert(old(self).lists(), codes(ts@), r),
    {
        let id = DocID(self.all_docs.len() as i32);
        self.insert_trigrams(ts, id);
        id
    }

    /// An index of `docs`, where `docs[i]` gets the identifier `i`.
    pub fn new_with_documents(docs: Vec<&str>) -> (r: Index)
        requires
            docs@.len() <= i32::MAX + 1,
        ensures
            r.wf(),
            r.all_docs() == Seq::new(docs@.len(), |i: int| DocID(i as i32)),
            r.contents() == Map::new(
                |d: DocID| 0 <= d.0 < docs@.len(),
                |d: DocID| windows(docs@[d.0 as int].spec_bytes()),
            ),
            forall|t: u32| #[trigger] r.lists().contains_key(t) ==> r.lists()[t] is Some,
    {
        let mut idx = Index::empty();
        let mut trigrams: Vec<T> = Vec::new();
        let mut i: usize = 0;
        while i < docs.len()
            invariant
                docs@.len() <= i32::MAX + 1,
                i <= docs@.len(),
                idx.wf(),
                trigrams@ == Seq::<T>::empty(),
                idx.all_docs() == Seq::new(i as nat, |j: int| DocID(j as i32)),
                idx.contents() == Map::new(
                    |d: DocID| 0 <= d.0 < i,
                    |d: DocID| windows(docs@[d.0 as int].spec_bytes()),
                ),
                forall|t: u32| #[trigger] idx.lists().contains_key(t) ==> idx.lists()[t] is Some,
            decreases docs@.len() - i,
        {
            let d: &str = docs[i];
            extract_all_trigrams(d, &mut trigrams);
            assert(trigrams@ =~= trigram_seq(d.spec_bytes()));
            let id = DocID(i as i32);
            let ghost l0 = idx.lists();
            idx.insert_trigrams(&trigrams, id);
            trigrams.clear();
            proof {
                assert(idx.all_docs() =~= Seq::new((i + 1) as nat, |j: int| DocID(j as i32)));
                assert(idx.contents() =~= Map::new(
                    |d: DocID| 0 <= d.0 < i + 1,
                    |d: DocID| windows(docs@[d.0 as int].spec_bytes()),
                ));
                assert forall|t: u32| #[trigger] idx.lists().contains_key(t) implies idx.lists()[t] is Some by {
                    if l0.contains_key(t) {
                        assert(l0[t] is Some);
                    }
                }
            }
            i += 1;
        }
        idx
    }

    /// The documents of `docs` that pass every trigram of `ts`: pruned
    /// trigrams are skipped, a trigram without a key leaves nothing.
    pub fn filter(&self, docs: &Vec<DocID>, ts: Vec<T>) -> (r: Vec<DocID>)
        requires
            self.wf(),
            sorted(docs@),
        ensures
            sorted(r@),
            forall|d: DocID| r@.contains(d) <==> (docs@.contains(d) && admits(self.lists(), ts@, d)),
            ts@.len() == 0 ==> r@ == docs@,
    {
        if ts.len() == 0 {
            return copy_docs(docs);
        }
        let ghost lists = self.lists();
        let mut result: Vec<DocID> = vec![DocID(0); docs.len()];
        let mut first = true;
        let mut k: usize = 0;
        while k < ts.len()
            invariant
                self.wf(),
                lists == self.lists(),
                sorted(docs@),
                k <= ts@.len(),
                first ==> result@.len() == docs@.len(),
                first ==> forall|j: int| 0 <= j < k ==> lists.contains_key(#[trigger] ts@[j].0)
                    && lists[ts@[j].0] is None,
                !first ==> sorted(result@),
                !first ==> forall|d: DocID|
                    result@.contains(d) <==> (docs@.contains(d) && admits(lists, ts@.take(k as int), d)),
            decreases ts@.len() - k,
        {
            let t = ts[k];
            proof {
                lemma_admits_take_next(lists, ts@, k as int);
            }
            match self.postings.get(&t.0) {
                None => {
                    let r: Vec<DocID> = Vec::new();
                    assert forall|d: DocID| !admits(lists, ts@, d) by {
                        assert(!passes(lists, ts@[k as int].0, d));
                    }
                    return r;
                },
                Some(Posting::Pruned) => {
                    if first {
                        assert(lists[t.0] is None);
                    } else {
                        assert forall|d: DocID| passes(lists, ts@[k as int].0, d) by {}
                    }
                },
                Some(Posting::List(l)) => {
                    proof {
                        assert(lists.contains_key(t.0) && lists[t.0] == Some(l@));
                        assert(sorted(lists[t.0]->Some_0));
                    }
                    if first {
                        intersect3(&mut result, docs, l);
                        first = false;
                        proof {
                            assert forall|d: DocID| docs@.contains(d) implies admits(lists, ts@.take(k as int), d) by {
                                assert forall|j: int| 0 <= j < k implies passes(lists, #[trigger] ts@.take(k as int)[j].0, d) by {
                                    assert(ts@.take(k as int)[j] == ts@[j]);
                                }
                            }
                        }
                    } else {
                        intersect2(&mut result, l);
                    }
                },
            }
            k += 1;
        }
        if first {
            proof {
                assert forall|d: DocID| admits(lists, ts@, d) by {
                    assert forall|j: int| 0 <= j < ts@.len() implies passes(lists, #[trigger] ts@[j].0, d) by {}
                }
            }
            return copy_docs(docs);
        }
        assert(ts@.take(k as int) =~= ts@);
        result
    }

    /// The documents that pass every trigram of `trigrams`; all documents
    /// when `trigrams` is empty. The lists are intersected rarest first.
    pub fn query_trigrams(&self, trigrams: Vec<T>) -> (r: Vec<DocID>)
        requires
            self.wf(),
        ensures
            sorted(r@),
            forall|d: DocID|
                r@.contains(d) <==> (self.all_docs().contains(d) && admits(self.lists(), trigrams@, d)),
            trigrams@.len() == 0 ==> r@ == self.all_docs(),
    {
        let ghost lists = self.lists();
        let ghost tq = trigrams@;
        let ghost all = self.all_docs();
        if trigrams.len() == 0 {
            let r = self.copy_all_docs();
            assert forall|d: DocID| admits(lists, tq, d) by {}
            return r;
        }
        let mut freqs: Vec<TermFrequency> = Vec::new();
        let mut k: usize = 0;
        while k < trigrams.len()
            invariant
                tq == trigrams@,
                all == self.all_docs(),
                self.wf(),
                lists == self.lists(),
                k <= tq.len(),
                freqs@.len() == k,
                forall|j: int| 0 <= j < k ==> (#[trigger] freqs@[j]).t == tq[j],
                forall|j: int| 0 <= j < k ==> entry_ok(lists, #[trigger] freqs@[j]),
            decreases tq.len() - k,
        {
            let t = trigrams[k];
            match self.postings.get(&t.0) {
                None => {
                    assert forall|d: DocID| !admits(lists, tq, d) by {
                        assert(!passes(lists, tq[k as int].0, d));
                    }
                    return Vec::new();
                },
                Some(Posting::Pruned) => {
                    freqs.push(TermFrequency { t, freq: 0 });
                },
                Some(Posting::List(l)) => {
                    freqs.push(TermFrequency { t, freq: l.len() });
                },
            }
            k += 1;
        }
        let ghost orig = freqs@;
        sort_by_frequency(&mut freqs);
        let ghost fs = freqs@;
        assert forall|i: int| 0 <= i < fs.len() implies entry_ok(lists, #[trigger] fs[i])
            && tq.contains(fs[i].t) by {
            assert(fs.contains(fs[i]));
            let j = choose|j: int| 0 <= j < orig.len() && orig[j] == fs[i];
        }
        proof {
            lemma_covers(orig, fs, tq);
        }
        let mut nonzero: usize = 0;
        while nonzero < freqs.len() && freqs[nonzero].freq == 0
            invariant
                tq == trigrams@,
                all == self.all_docs(),
                freqs@ == fs,
                self.wf(),
                lists == self.lists(),
                forall|i: int| 0 <= i < fs.len() ==> entry_ok(lists, #[trigger] fs[i]) && tq.contains(fs[i].t),
                covers(fs, tq),
                nonzero <= fs.len(),
                forall|i: int| 0 <= i < nonzero ==> (#[trigger] fs[i]).freq == 0,
            decreases fs.len() - nonzero,
        {
            nonzero += 1;
        }
        if nonzero == freqs.len() {
            assert forall|d: DocID| admits(lists, tq, d) by {
                assert forall|j: int| 0 <= j < tq.len() implies passes(lists, #[trigger] tq[j].0, d) by {
                    assert(has_entry(fs, tq[j]));
                    let i = choose|i: int| entry_at(fs, tq[j], i);
                    assert(entry_ok(lists, fs[i]));
                }
            }
            return self.copy_all_docs();
        }
        let mut rest: Vec<T> = Vec::new();
        let mut j: usize = nonzero + 1;
        while j < freqs.len()
            invariant
                tq == trigrams@,
                all == self.all_docs(),
                freqs@ == fs,
                self.wf(),
                lists == self.lists(),
                forall|i: int| 0 <= i < fs.len() ==> entry_ok(lists, #[trigger] fs[i]) && tq.contains(fs[i].t),
                covers(fs, tq),
                forall|i: int| 0 <= i < nonzero ==> (#[trigger] fs[i]).freq == 0,
                nonzero < j <= fs.len(),
                rest@.len() == j - nonzero - 1,
                forall|q: int| 0 <= q < rest@.len() ==> #[trigger] rest@[q] == fs[nonzero + 1 + q].t,
            decreases fs.len() - j,
        {
            rest.push(freqs[j].t);
            j += 1;
        }
        let first = freqs[nonzero].t;
        assert(entry_ok(lists, fs[nonzero as int]));
        match self.postings.get(&first.0) {
            Some(Posting::List(d0)) => {
                proof {
                    assert(lists.contains_key(first.0) && lists[first.0] == Some(d0@));
                    assert(sorted(lists[first.0]->Some_0));
                }
                proof {
                    lemma_rarest_first(lists, all, self.contents(), tq, fs, nonzero as int, d0@, rest@);
                }
                let r = self.filter(d0, rest);
                r
            },
            _ => {
                assert(false);
                Vec::new()
            },
        }
    }

    /// The candidate documents for the text `s`: those that pass every
    /// distinct trigram of `s`; all documents when `s` is shorter than
    /// three bytes.
    pub fn query(&self, s: &str) -> (r: Vec<DocID>)
        requires
            self.wf(),
        ensures
            sorted(r@),
            forall|d: DocID|
                r@.contains(d) <==> (self.all_docs().contains(d) && admits(
                    self.lists(),
                    unique(trigram_seq(s.spec_bytes())),
                    d,
                )),
            s.spec_bytes().len() < 3 ==> r@ == self.all_docs(),
    {
        let ts = extract_trigrams(s);
        self.query_trigrams(ts)
    }

    /// Prunes every list longer than `max_documents`; returns how many
    /// lists were pruned. Pruned postings stay pruned.
    pub fn prune(&mut self, max_documents: usize) -> (r: usize)
        requires
            old(self).wf(),
        ensures
            final(self).wf(),
            final(self).all_docs() == old(self).all_docs(),
            final(self).contents() == old(self).contents(),
            final(self).lists() == lists_after_prune(old(self).lists(), max_documents),
            r == prunable(old(self).lists(), max_documents).len(),
    {
        let ghost l0 = self.lists();
        let keys = keys_of(&self.postings);
        let ghost mut done: Set<u32> = Set::empty();
        let mut pruned: usize = 0;
        let mut i: usize = 0;
        while i < keys.len()
            invariant
                keys@.no_duplicates(),
                keys@.to_set() == l0.dom(),
                l0 == old(self).lists(),
                self.all_docs() == old(self).all_docs(),
                self.contents() == old(self).contents(),
                i <= keys@.len(),
                done.finite(),
                pruned == done.len(),
                pruned <= i,
                forall|t: u32| #[trigger] done.contains(t) <==> (keys@.take(i as int).contains(t)
                    && l0.contains_key(t) && over(l0[t], max_documents)),
                self.lists() == Map::new(
                    |t: u32| l0.contains_key(t),
                    |t: u32|
                        if done.contains(t) {
                            None
                        } else {
                            l0[t]
                        },
                ),
            decreases keys@.len() - i,
        {
            let t = keys[i];
            proof {
                assert(keys@.to_set().contains(t));
                assert(!keys@.take(i as int).contains(t)) by {
                    if keys@.take(i as int).contains(t) {
                        let j = choose|j: int| 0 <= j < i && keys@.take(i as int)[j] == t;
                        assert(keys@[j] == keys@[i as int]);
                    }
                }
                assert(keys@.take(i + 1) =~= keys@.take(i as int).push(t));
                assert forall|u: u32| keys@.take(i as int).push(t).contains(u) <==> (keys@.take(i as int).contains(u) || u == t) by {
                    let s0 = keys@.take(i as int);
                    if s0.push(t).contains(u) {
                        let j = choose|j: int| 0 <= j < s0.push(t).len() && s0.push(t)[j] == u;
                        if j < s0.len() {
                            assert(s0[j] == u);
                        }
                    }
                    if s0.contains(u) {
                        let j = choose|j: int| 0 <= j < s0.len() && s0[j] == u;
                        assert(s0.push(t)[j] == u);
                    }
                    if u == t {
                        assert(s0.push(t)[i as int] == u);
                    }
                }
            }
            assert(!done.contains(t) && l0.contains_key(t));
            assert(self.lists()[t] == l0[t]);
            let is_over = match self.postings.get(&t) {
                Some(Posting::List(l)) => {
                    assert(self.lists()[t] == Some(l@));
                    let b = l.len() > max_documents;
                    assert(b == over(l0[t], max_documents));
                    b
                },
                Some(Posting::Pruned) => {
                    assert(self.lists()[t] is None);
                    assert(!over(l0[t], max_documents));
                    false
                },
                None => {
                    assert(self.lists().contains_key(t));
                    false
                },
            };
            assert(is_over <==> over(l0[t], max_documents));
            let ghost before = self.lists();
            if is_over {
                self.postings.insert(t, Posting::Pruned);
                assert(self.lists() =~= before.insert(t, None));
                proof {
                    done = done.insert(t);
                }
                pruned += 1;
            }
            proof {
                assert(self.lists() =~= Map::new(
                    |u: u32| l0.contains_key(u),
                    |u: u32|
                        if done.contains(u) {
                            None
                        } else {
                            l0[u]
                        },
                ));
            }
            i += 1;
        }
        proof {
            assert(keys@.take(i as int) =~= keys@);
            assert forall|t: u32| keys@.contains(t) <==> l0.contains_key(t) by {
                assert(keys@.to_set().contains(t) <==> keys@.contains(t));
            }
            assert(done =~= prunable(l0, max_documents));
            assert(self.lists() =~= lists_after_prune(l0, max_documents));
            lemma_prune_inv(l0, self.all_docs(), self.contents(), max_documents);
        }
        pruned
    }
}

} // verus!
