use vstd::prelude::*;
use vstd::string::StringSliceAdditionalSpecFns;

verus! {

/// A trigram: three consecutive bytes packed into the low 24 bits of a `u32`.
#[derive(Clone, Copy, PartialEq, Eq, Structural, Hash, Debug)]
pub struct T(pub u32);

impl T {
    /// The three bytes of the trigram, first byte first.
    pub fn bytes(&self) -> (r: (u8, u8, u8))
        ensures
            r.0 == (self.0 >> 16) as u8,
            r.1 == (self.0 >> 8) as u8,
            r.2 == self.0 as u8,
    {
        ((self.0 >> 16) as u8, (self.0 >> 8) as u8, self.0 as u8)
    }
}

/// The packed value of the window `b0 b1 b2`.
pub open spec fn pack(b0: u8, b1: u8, b2: u8) -> u32 {
    ((b0 as u32) << 16u32) | ((b1 as u32) << 8u32) | (b2 as u32)
}

/// Every three-byte window of `b`, in order of position, duplicates kept.
pub open spec fn trigram_seq(b: Seq<u8>) -> Seq<T> {
    if b.len() < 3 {
        Seq::empty()
    } else {
        Seq::new((b.len() - 2) as nat, |i: int| T(pack(b[i], b[i + 1], b[i + 2])))
    }
}

/// The distinct elements of `s`, each at the place of its first occurrence.
pub open spec fn unique(s: Seq<T>) -> Seq<T>
    decreases s.len(),
{
    if s.len() == 0 {
        Seq::empty()
    } else {
        let p = unique(s.drop_last());
        if p.contains(s.last()) {
            p
        } else {
            p.push(s.last())
        }
    }
}

/// The packed values of the trigrams in `ts`.
pub open spec fn codes(ts: Seq<T>) -> Set<u32> {
    Set::new(|c: u32| exists|k: int| 0 <= k < ts.len() && ts[k].0 == c)
}

/// The set of packed windows that occur in `b`.
pub open spec fn windows(b: Seq<u8>) -> Set<u32> {
    codes(trigram_seq(b))
}

/// `unique` keeps exactly the elements of its argument, each once.
pub proof fn lemma_unique(s: Seq<T>)
    ensures
        forall|x: T| unique(s).contains(x) <==> s.contains(x),
        unique(s).no_duplicates(),
    decreases s.len(),
{
    if s.len() > 0 {
        let d = s.drop_last();
        lemma_unique(d);
        assert forall|x: T| s.contains(x) <==> (d.contains(x) || x == s.last()) by {
            if s.contains(x) {
                let k = choose|k: int| 0 <= k < s.len() && s[k] == x;
                if k < s.len() - 1 {
                    assert(d[k] == x);
                }
            }
            if d.contains(x) {
                let k = choose|k: int| 0 <= k < d.len() && d[k] == x;
                assert(s[k] == x);
            }
            if x == s.last() {
                assert(s[s.len() - 1] == x);
            }
        }
        let p = unique(d);
        let l = s.last();
        if !p.contains(l) {
            assert forall|x: T| p.push(l).contains(x) <==> (p.contains(x) || x == l) by {
                if p.push(l).contains(x) {
                    let k = choose|k: int| 0 <= k < p.push(l).len() && p.push(l)[k] == x;
                    if k < p.len() {
                        assert(p[k] == x);
                    }
                }
                if p.contains(x) {
                    let k = choose|k: int| 0 <= k < p.len() && p[k] == x;
                    assert(p.push(l)[k] == x);
                }
                if x == l {
                    assert(p.push(l)[p.len() as int] == x);
                }
            }
        }
    }
}

/// Taking one more trigram adds its value to the set of values.
pub proof fn lemma_codes_take_next(ts: Seq<T>, k: int)
    requires
        0 <= k < ts.len(),
    ensures
        codes(ts.take(k + 1)) == codes(ts.take(k)).insert(ts[k].0),
{
    let s1 = ts.take(k + 1);
    let s0 = ts.take(k);
    assert forall|c: u32| codes(s1).contains(c) implies codes(s0).insert(ts[k].0).contains(c) by {
        let j = choose|j: int| 0 <= j < s1.len() && s1[j].0 == c;
        if j < k {
            assert(s0[j].0 == c);
        }
    }
    assert forall|c: u32| codes(s0).insert(ts[k].0).contains(c) implies codes(s1).contains(c) by {
        if c == ts[k].0 {
            assert(s1[k].0 == c);
        } else {
            let j = choose|j: int| 0 <= j < s0.len() && s0[j].0 == c;
            assert(s1[j].0 == c);
        }
    }
    assert(codes(s1) =~= codes(s0).insert(ts[k].0));
}

fn window_at(bytes: &[u8], i: usize) -> (t: T)
    requires
        i + 2 < bytes@.len(),
    ensures
        t == T(pack(bytes@[i as int], bytes@[i + 1], bytes@[i + 2])),
{
    T((bytes[i] as u32) << 16u32 | (bytes[i + 1] as u32) << 8u32 | bytes[i + 2] as u32)
}

fn append_if_unique(mut trigrams: Vec<T>, t: T) -> (r: Vec<T>)
    ensures
        r@ == if trigrams@.contains(t) {
            trigrams@
        } else {
            trigrams@.push(t)
        },
{
    let mut j: usize = 0;
    while j < trigrams.len()
        invariant
            j <= trigrams@.len(),
            forall|k: int| 0 <= k < j ==> trigrams@[k] != t,
        decreases trigrams@.len() - j,
    {
        if trigrams[j].0 == t.0 {
            assert(trigrams@[j as int] == t);
            return trigrams;
        }
        j += 1;
    }
    trigrams.push(t);
    trigrams
}

/// The distinct trigrams of `s`, in order of first occurrence; empty when
/// `s` is shorter than three bytes.
pub fn extract_trigrams(s: &str) -> (r: Vec<T>)
    ensures
        r@ == unique(trigram_seq(s.spec_bytes())),
{
    let mut trigrams: Vec<T> = Vec::new();
    let bytes = s.as_bytes();
    let n = bytes.len();
    if n < 3 {
        return trigrams;
    }
    let ghost all = trigram_seq(bytes@);
    let mut i: usize = 0;
    while i + 2 < n
        invariant
            n == bytes@.len(),
            bytes@ == s.spec_bytes(),
            all == trigram_seq(bytes@),
            n >= 3,
            i <= n - 2,
            trigrams@ == unique(all.take(i as int)),
        decreases n - i,
    {
        let t = window_at(bytes, i);
        proof {
            assert(all.take(i + 1).drop_last() =~= all.take(i as int));
            assert(all.take(i + 1).last() == t);
        }
        trigrams = append_if_unique(trigrams, t);
        i += 1;
    }
    assert(all.take(i as int) =~= all);
    trigrams
}

/// Appends every three-byte window of `s` to `trigrams`, in order of
/// position and with duplicates; appends nothing when `s` is shorter than
/// three bytes.
pub fn extract_all_trigrams(s: &str, trigrams: &mut Vec<T>)
    ensures
        final(trigrams)@ == old(trigrams)@ + trigram_seq(s.spec_bytes()),
{
    let bytes = s.as_bytes();
    let n = bytes.len();
    if n < 3 {
        assert(old(trigrams)@ + trigram_seq(s.spec_bytes()) =~= old(trigrams)@);
        return;
    }
    let ghost start = trigrams@;
    let ghost all = trigram_seq(bytes@);
    let mut i: usize = 0;
    while i + 2 < n
        invariant
            n == bytes@.len(),
            bytes@ == s.spec_bytes(),
            all == trigram_seq(bytes@),
            start == old(trigrams)@,
            n >= 3,
            i <= n - 2,
            trigrams@ == start + all.take(i as int),
        decreases n - i,
    {
        let t = window_at(bytes, i);
        trigrams.push(t);
        assert(start + all.take(i + 1) =~= (start + all.take(i as int)).push(t));
        i += 1;
    }
    assert(all.take(i as int) =~= all);
}

} // verus!
