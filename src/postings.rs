use vstd::prelude::*;

verus! {

/// A document identifier: a non-negative number assigned in order of
/// insertion, starting at 0.
#[derive(Clone, Copy, PartialEq, Eq, Structural, Debug)]
pub struct DocID(pub i32);

impl DocID {
    /// The identifier with number `id`.
    pub fn from_i32(id: i32) -> (r: DocID)
        ensures
            r.0 == id,
    {
        DocID(id)
    }

    /// The identifier as an index into the list of documents.
    pub fn as_usize(&self) -> (r: usize)
        requires
            self.0 >= 0,
        ensures
            r == self.0,
    {
        self.0 as usize
    }
}

/// `s` is strictly increasing.
pub open spec fn sorted(s: Seq<DocID>) -> bool {
    forall|i: int, j: int| 0 <= i < j < s.len() ==> s[i].0 < s[j].0
}

/// `r` is the sorted intersection of `a` and `b`.
pub open spec fn is_intersection(r: Seq<DocID>, a: Seq<DocID>, b: Seq<DocID>) -> bool {
    &&& sorted(r)
    &&& forall|x: DocID| r.contains(x) <==> (a.contains(x) && b.contains(x))
}

proof fn lemma_take_next(s: Seq<DocID>, n: int)
    requires
        0 <= n < s.len(),
    ensures
        s.take(n + 1) == s.take(n).push(s[n]),
        forall|x: DocID| #[trigger]
            s.take(n + 1).contains(x) <==> (s.take(n).contains(x) || x == s[n]),
{
    let t1 = s.take(n + 1);
    let t0 = s.take(n);
    assert(t1 =~= t0.push(s[n]));
    assert forall|x: DocID| t1.contains(x) <==> (t0.contains(x) || x == s[n]) by {
        if t1.contains(x) {
            let k = choose|k: int| 0 <= k < t1.len() && t1[k] == x;
            if k < n {
                assert(t0[k] == x);
            }
        }
        if t0.contains(x) {
            let k = choose|k: int| 0 <= k < t0.len() && t0[k] == x;
            assert(t1[k] == x);
        }
        if x == s[n] {
            assert(t1[n] == x);
        }
    }
}

/// Two strictly increasing sequences with the same elements are equal.
pub proof fn lemma_sorted_unique(s1: Seq<DocID>, s2: Seq<DocID>)
    requires
        sorted(s1),
        sorted(s2),
        forall|x: DocID| s1.contains(x) <==> s2.contains(x),
    ensures
        s1 == s2,
    decreases s1.len(),
{
    if s1.len() == 0 {
        if s2.len() > 0 {
            assert(s2.contains(s2[0]));
        }
        assert(s1 =~= s2);
    } else {
        assert(s1.contains(s1[0]));
        let j = choose|j: int| 0 <= j < s2.len() && s2[j] == s1[0];
        assert(s2.contains(s2[0]));
        let i = choose|i: int| 0 <= i < s1.len() && s1[i] == s2[0];
        assert(s1[0] == s2[0]);
        let t1 = s1.drop_first();
        let t2 = s2.drop_first();
        assert forall|x: DocID| t1.contains(x) <==> t2.contains(x) by {
            if t1.contains(x) {
                let k = choose|k: int| 0 <= k < t1.len() && t1[k] == x;
                assert(s1[k + 1] == x);
                assert(s2.contains(x));
                let m = choose|m: int| 0 <= m < s2.len() && s2[m] == x;
                assert(m != 0);
                assert(t2[m - 1] == x);
            }
            if t2.contains(x) {
                let k = choose|k: int| 0 <= k < t2.len() && t2[k] == x;
                assert(s2[k + 1] == x);
                assert(s1.contains(x));
                let m = choose|m: int| 0 <= m < s1.len() && s1[m] == x;
                assert(m != 0);
                assert(t1[m - 1] == x);
            }
        }
        lemma_sorted_unique(t1, t2);
        assert forall|k: int| 0 < k < s1.len() implies s1[k] == s2[k] by {
            assert(t1[k - 1] == t2[k - 1]);
        }
        assert(s1 =~= s2);
    }
}

/// Writes the intersection of `a` and `b` to the front of `result` and
/// truncates `result` to it; `a` is left untouched. A buffer as long as the
/// shorter input is enough: each write lands at or before both read positions.
pub(crate) fn intersect3(result: &mut Vec<DocID>, a: &Vec<DocID>, b: &Vec<DocID>)
    requires
        old(result)@.len() >= a@.len() || old(result)@.len() >= b@.len(),
        sorted(a@),
        sorted(b@),
    ensures
        is_intersection(final(result)@, a@, b@),
{
    let ghost len = result@.len();
    let mut aidx: usize = 0;
    let mut bidx: usize = 0;
    let mut ridx: usize = 0;
    while aidx < a.len() && bidx < b.len()
        invariant
            sorted(a@),
            sorted(b@),
            result@.len() == len,
            len >= a@.len() || len >= b@.len(),
            aidx <= a@.len(),
            bidx <= b@.len(),
            ridx <= aidx,
            ridx <= bidx,
            sorted(result@.take(ridx as int)),
            forall|x: DocID|
                result@.take(ridx as int).contains(x) <==> (a@.take(aidx as int).contains(x)
                    && b@.take(bidx as int).contains(x)),
            forall|i: int, j: int| 0 <= i < aidx && bidx <= j < b@.len() ==> a@[i].0 < b@[j].0,
            forall|i: int, j: int| aidx <= i < a@.len() && 0 <= j < bidx ==> b@[j].0 < a@[i].0,
        decreases a@.len() - aidx + b@.len() - bidx,
    {
        let x = a[aidx];
        let y = b[bidx];
        let ghost prev = result@.take(ridx as int);
        if x.0 == y.0 {
            proof {
                lemma_advance_both(a@, b@, aidx as int, bidx as int, prev);
            }
            result.set(ridx, x);
            assert(result@.take(ridx + 1) =~= prev.push(x));
            ridx += 1;
            aidx += 1;
            bidx += 1;
        } else if x.0 < y.0 {
            proof {
                lemma_advance_a(a@, b@, aidx as int, bidx as int, prev);
            }
            aidx += 1;
        } else {
            proof {
                lemma_advance_b(a@, b@, aidx as int, bidx as int, prev);
            }
            bidx += 1;
        }
    }
    proof {
        lemma_exhausted(a@, b@, aidx as int, bidx as int, result@.take(ridx as int));
    }
    let ghost pre = result@;
    result.truncate(ridx);
    assert(result@ =~= pre.take(ridx as int));
}

/// Replaces `a` by its intersection with `b`, in place: each write lands at
/// or before the position that is read next, so no unread element is lost.
pub(crate) fn intersect2(a: &mut Vec<DocID>, b: &Vec<DocID>)
    requires
        sorted(old(a)@),
        sorted(b@),
    ensures
        is_intersection(final(a)@, old(a)@, b@),
{
    let ghost a0 = a@;
    let mut aidx: usize = 0;
    let mut bidx: usize = 0;
    let mut ridx: usize = 0;
    while aidx < a.len() && bidx < b.len()
        invariant
            sorted(a0),
            a0 == old(a)@,
            sorted(b@),
            a@.len() == a0.len(),
            forall|k: int| aidx <= k < a0.len() ==> a@[k] == a0[k],
            aidx <= a0.len(),
            bidx <= b@.len(),
            ridx <= aidx,
            sorted(a@.take(ridx as int)),
            forall|x: DocID|
                a@.take(ridx as int).contains(x) <==> (a0.take(aidx as int).contains(x)
                    && b@.take(bidx as int).contains(x)),
            forall|i: int, j: int| 0 <= i < aidx && bidx <= j < b@.len() ==> a0[i].0 < b@[j].0,
            forall|i: int, j: int| aidx <= i < a0.len() && 0 <= j < bidx ==> b@[j].0 < a0[i].0,
        decreases a0.len() - aidx + b@.len() - bidx,
    {
        let x = a[aidx];
        let y = b[bidx];
        let ghost prev = a@.take(ridx as int);
        assert(sorted(prev));
        assert(forall|v: DocID|
            prev.contains(v) <==> (a0.take(aidx as int).contains(v) && b@.take(bidx as int).contains(v)));
        if x.0 == y.0 {
            proof {
                lemma_advance_both(a0, b@, aidx as int, bidx as int, prev);
            }
            a.set(ridx, x);
            assert(a@.take(ridx + 1) =~= prev.push(x));
            ridx += 1;
            aidx += 1;
            bidx += 1;
        } else if x.0 < y.0 {
            proof {
                lemma_advance_a(a0, b@, aidx as int, bidx as int, prev);
            }
            aidx += 1;
        } else {
            proof {
                lemma_advance_b(a0, b@, aidx as int, bidx as int, prev);
            }
            bidx += 1;
        }
    }
    proof {
        lemma_exhausted(a0, b@, aidx as int, bidx as int, a@.take(ridx as int));
    }
    let ghost pre = a@;
    a.truncate(ridx);
    assert(a@ =~= pre.take(ridx as int));
}

/// Skipping `a[aidx]`, which is smaller than every element of `b` not yet
/// consumed, keeps `out` the intersection of the consumed prefixes.
proof fn lemma_advance_a(a: Seq<DocID>, b: Seq<DocID>, aidx: int, bidx: int, out: Seq<DocID>)
    requires
        0 <= aidx < a.len(),
        0 <= bidx < b.len(),
        a[aidx].0 < b[bidx].0,
        forall|i: int, j: int| aidx <= i < a.len() && 0 <= j < bidx ==> b[j].0 < a[i].0,
        forall|x: DocID| out.contains(x) <==> (a.take(aidx).contains(x) && b.take(bidx).contains(x)),
    ensures
        forall|x: DocID|
            out.contains(x) <==> (a.take(aidx + 1).contains(x) && b.take(bidx).contains(x)),
{
    lemma_take_next(a, aidx);
    assert forall|x: DocID|
        out.contains(x) <==> (a.take(aidx + 1).contains(x) && b.take(bidx).contains(x)) by {
        if x == a[aidx] && b.take(bidx).contains(x) {
            let k = choose|k: int| 0 <= k < bidx && b.take(bidx)[k] == x;
            assert(b[k] == x);
        }
    }
}

/// Skipping `b[bidx]`, which is smaller than every element of `a` not yet
/// consumed, keeps `out` the intersection of the consumed prefixes.
proof fn lemma_advance_b(a: Seq<DocID>, b: Seq<DocID>, aidx: int, bidx: int, out: Seq<DocID>)
    requires
        0 <= aidx < a.len(),
        0 <= bidx < b.len(),
        forall|i: int, j: int| 0 <= i < aidx && bidx <= j < b.len() ==> a[i].0 < b[j].0,
        forall|x: DocID| out.contains(x) <==> (a.take(aidx).contains(x) && b.take(bidx).contains(x)),
    ensures
        forall|x: DocID|
            out.contains(x) <==> (a.take(aidx).contains(x) && b.take(bidx + 1).contains(x)),
{
    lemma_take_next(b, bidx);
    assert forall|x: DocID|
        out.contains(x) <==> (a.take(aidx).contains(x) && b.take(bidx + 1).contains(x)) by {
        if x == b[bidx] && a.take(aidx).contains(x) {
            let k = choose|k: int| 0 <= k < aidx && a.take(aidx)[k] == x;
            assert(a[k] == x);
        }
    }
}

/// Once one side of the merge is used up, the intersection of the consumed
/// prefixes is the intersection of the whole sequences.
proof fn lemma_exhausted(a: Seq<DocID>, b: Seq<DocID>, aidx: int, bidx: int, out: Seq<DocID>)
    requires
        0 <= aidx <= a.len(),
        0 <= bidx <= b.len(),
        aidx == a.len() || bidx == b.len(),
        forall|i: int, j: int| 0 <= i < aidx && bidx <= j < b.len() ==> a[i].0 < b[j].0,
        forall|i: int, j: int| aidx <= i < a.len() && 0 <= j < bidx ==> b[j].0 < a[i].0,
        forall|x: DocID| out.contains(x) <==> (a.take(aidx).contains(x) && b.take(bidx).contains(x)),
    ensures
        forall|x: DocID| out.contains(x) <==> (a.contains(x) && b.contains(x)),
{
    assert forall|x: DocID| out.contains(x) <==> (a.contains(x) && b.contains(x)) by {
        if a.contains(x) && b.contains(x) {
            let i = choose|i: int| 0 <= i < a.len() && a[i] == x;
            let j = choose|j: int| 0 <= j < b.len() && b[j] == x;
            assert(i < aidx && j < bidx);
            assert(a.take(aidx)[i] == x);
            assert(b.take(bidx)[j] == x);
        }
        if a.take(aidx).contains(x) && b.take(bidx).contains(x) {
            let i = choose|i: int| 0 <= i < aidx && a.take(aidx)[i] == x;
            let j = choose|j: int| 0 <= j < bidx && b.take(bidx)[j] == x;
            assert(a[i] == x);
            assert(b[j] == x);
        }
    }
}

/// Taking the common element `a[aidx] == b[bidx]` into `out` keeps `out`
/// sorted and the intersection of the consumed prefixes.
proof fn lemma_advance_both(
    a: Seq<DocID>,
    b: Seq<DocID>,
    aidx: int,
    bidx: int,
    out: Seq<DocID>,
)
    requires
        0 <= aidx < a.len(),
        0 <= bidx < b.len(),
        a[aidx] == b[bidx],
        sorted(a),
        sorted(out),
        forall|i: int, j: int| 0 <= i < aidx && bidx <= j < b.len() ==> a[i].0 < b[j].0,
        forall|i: int, j: int| aidx <= i < a.len() && 0 <= j < bidx ==> b[j].0 < a[i].0,
        forall|x: DocID| out.contains(x) <==> (a.take(aidx).contains(x) && b.take(bidx).contains(x)),
    ensures
        sorted(out.push(a[aidx])),
        forall|x: DocID|
            out.push(a[aidx]).contains(x) <==> (a.take(aidx + 1).contains(x) && b.take(
                bidx + 1,
            ).contains(x)),
{
    let v = a[aidx];
    let nxt = out.push(v);
    let at = a.take(aidx);
    let bt = b.take(bidx);
    lemma_take_next(a, aidx);
    lemma_take_next(b, bidx);
    assert forall|w: DocID| out.contains(w) implies w.0 < v.0 by {
        assert(at.contains(w));
        let k = choose|k: int| 0 <= k < at.len() && at[k] == w;
        assert(a[k] == w);
    }
    assert forall|i: int, j: int| 0 <= i < j < nxt.len() implies nxt[i].0 < nxt[j].0 by {
        if j == out.len() {
            assert(out.contains(out[i]));
        }
    }
    assert forall|w: DocID| nxt.contains(w) <==> (a.take(aidx + 1).contains(w) && b.take(
        bidx + 1,
    ).contains(w)) by {
        if nxt.contains(w) {
            let k = choose|k: int| 0 <= k < nxt.len() && nxt[k] == w;
            if k < out.len() {
                assert(out.contains(w));
            }
        }
        if out.contains(w) {
            let k = choose|k: int| 0 <= k < out.len() && out[k] == w;
            assert(nxt[k] == w);
        }
        if w == v {
            assert(nxt[out.len() as int] == w);
        }
        if at.contains(w) && w == v {
            let k = choose|k: int| 0 <= k < aidx && at[k] == w;
            assert(a[k] == w);
        }
        if bt.contains(w) && w == v {
            let k = choose|k: int| 0 <= k < bidx && bt[k] == w;
            assert(b[k] == w);
        }
    }
}

} // verus!
