//! The compiled multi-pattern automaton.  Its states are the prefixes of
//! the needle patterns; one precomputed transition per (state, byte) moves
//! to the longest pattern-prefix suffix of the text read so far, so the
//! matching pass makes one table lookup per haystack byte, with the work
//! per byte independent of how many needles there are.

use vstd::prelude::*;

use crate::matcher::{
    is_match_at, lemma_match_seq_characterizes, lemma_match_seq_distinct,
    lemma_match_seq_strictly_ordered, match_seq, pattern_views, patterns_nonempty, valid_entry,
};

verus! {

/// True when `p` is a prefix of `s`.
pub open spec fn is_prefix_of(p: Seq<u8>, s: Seq<u8>) -> bool {
    p.len() <= s.len() && s.take(p.len() as int) == p
}

/// True when `p` is a suffix of `s`.
pub open spec fn is_suffix_of(p: Seq<u8>, s: Seq<u8>) -> bool {
    p.len() <= s.len() && s.skip(s.len() - p.len()) == p
}

/// True when `s` is a prefix of some pattern: the automaton's state set.
pub open spec fn in_prefix_set(pats: Seq<Seq<u8>>, s: Seq<u8>) -> bool {
    exists|j: int| 0 <= j < pats.len() && is_prefix_of(s, #[trigger] pats[j])
}

/// The longest suffix of `s` that is a pattern prefix (empty when none
/// is): the semantic meaning of the automaton's state after reading `s`.
pub open spec fn lsp(pats: Seq<Seq<u8>>, s: Seq<u8>) -> Seq<u8>
    decreases s.len(),
{
    if s.len() == 0 {
        Seq::empty()
    } else if in_prefix_set(pats, s) {
        s
    } else {
        lsp(pats, s.skip(1))
    }
}

proof fn lemma_suffix_trans(a: Seq<u8>, b: Seq<u8>, c: Seq<u8>)
    requires
        is_suffix_of(a, b),
        is_suffix_of(b, c),
    ensures
        is_suffix_of(a, c),
{
    assert forall|i: int| 0 <= i < a.len() implies c.skip(c.len() - a.len())[i] == a[i] by {
        assert(a[i] == b.skip(b.len() - a.len())[i]);
        assert(b[b.len() - a.len() + i] == c.skip(c.len() - b.len())[b.len() - a.len() + i]);
    }
    assert(c.skip(c.len() - a.len()) =~= a);
}

proof fn lemma_suffix_same_len(a: Seq<u8>, b: Seq<u8>, s: Seq<u8>)
    requires
        is_suffix_of(a, s),
        is_suffix_of(b, s),
        a.len() == b.len(),
    ensures
        a == b,
{
    assert(a =~= b);
}

proof fn lemma_shorter_suffix(a: Seq<u8>, b: Seq<u8>, s: Seq<u8>)
    requires
        is_suffix_of(a, s),
        is_suffix_of(b, s),
        a.len() <= b.len(),
    ensures
        is_suffix_of(a, b),
{
    assert forall|i: int| 0 <= i < a.len() implies b.skip(b.len() - a.len())[i] == a[i] by {
        assert(b[b.len() - a.len() + i] == s.skip(s.len() - b.len())[b.len() - a.len() + i]);
        assert(a[i] == s.skip(s.len() - a.len())[i]);
    }
    assert(b.skip(b.len() - a.len()) =~= a);
}

proof fn lemma_suffix_push(a: Seq<u8>, s: Seq<u8>, b: u8)
    requires
        is_suffix_of(a, s),
    ensures
        is_suffix_of(a.push(b), s.push(b)),
{
    let t = s.push(b);
    assert forall|i: int| 0 <= i < a.len() + 1 implies t.skip(t.len() - (a.len() + 1))[i]
        == a.push(b)[i] by {
        if i < a.len() {
            assert(a[i] == s.skip(s.len() - a.len())[i]);
        }
    }
    assert(t.skip(t.len() - a.push(b).len()) =~= a.push(b));
}

proof fn lemma_suffix_pop(v: Seq<u8>, s: Seq<u8>, b: u8)
    requires
        is_suffix_of(v, s.push(b)),
        v.len() >= 1,
    ensures
        v.last() == b,
        is_suffix_of(v.drop_last(), s),
        v == v.drop_last().push(b),
{
    let t = s.push(b);
    assert(v[v.len() - 1] == t.skip(t.len() - v.len())[v.len() - 1]);
    assert forall|i: int| 0 <= i < v.len() - 1 implies s.skip(s.len() - (v.len() - 1))[i]
        == v.drop_last()[i] by {
        assert(v[i] == t.skip(t.len() - v.len())[i]);
    }
    assert(s.skip(s.len() - v.drop_last().len()) =~= v.drop_last());
    assert(v =~= v.drop_last().push(b));
}

proof fn lemma_prefix_set_closed(pats: Seq<Seq<u8>>, s: Seq<u8>, l: int)
    requires
        in_prefix_set(pats, s),
        0 <= l <= s.len(),
    ensures
        in_prefix_set(pats, s.take(l)),
{
    let j = choose|j: int| 0 <= j < pats.len() && is_prefix_of(s, #[trigger] pats[j]);
    assert(pats[j].take(l) =~= s.take(l));
    assert(is_prefix_of(s.take(l), pats[j]));
}

proof fn lemma_lsp_props(pats: Seq<Seq<u8>>, s: Seq<u8>)
    ensures
        is_suffix_of(lsp(pats, s), s),
        lsp(pats, s).len() == 0 || in_prefix_set(pats, lsp(pats, s)),
        forall|v: Seq<u8>|
            #![trigger is_suffix_of(v, s), in_prefix_set(pats, v)]
            is_suffix_of(v, s) && in_prefix_set(pats, v) ==> v.len() <= lsp(pats, s).len(),
    decreases s.len(),
{
    if s.len() == 0 {
        assert(s.skip(0) =~= lsp(pats, s));
    } else if in_prefix_set(pats, s) {
        assert(s.skip(0) =~= s);
    } else {
        let s1 = s.skip(1);
        lemma_lsp_props(pats, s1);
        assert(is_suffix_of(s1, s)) by {
            assert(s.skip(s.len() - s1.len()) =~= s1);
        }
        lemma_suffix_trans(lsp(pats, s1), s1, s);
        assert forall|v: Seq<u8>|
            is_suffix_of(v, s) && in_prefix_set(pats, v) implies v.len() <= lsp(pats, s).len() by {
            assert(v.len() < s.len()) by {
                if v.len() == s.len() {
                    assert(v =~= s);
                }
            }
            lemma_shorter_suffix(v, s1, s);
        }
    }
}

proof fn lemma_lsp_step(pats: Seq<Seq<u8>>, s: Seq<u8>, b: u8)
    ensures
        lsp(pats, s.push(b)) == lsp(pats, lsp(pats, s).push(b)),
{
    let u = lsp(pats, s);
    let t = s.push(b);
    let w = lsp(pats, t);
    let z = lsp(pats, u.push(b));
    lemma_lsp_props(pats, s);
    lemma_lsp_props(pats, t);
    lemma_lsp_props(pats, u.push(b));
    lemma_suffix_push(u, s, b);
    if z.len() > 0 {
        lemma_suffix_trans(z, u.push(b), t);
        assert(z.len() <= w.len());
    }
    if w.len() > 0 {
        lemma_suffix_pop(w, s, b);
        let w1 = w.drop_last();
        assert(w.take(w.len() - 1) =~= w1);
        lemma_prefix_set_closed(pats, w, w.len() - 1);
        lemma_shorter_suffix(w1, u, s);
        lemma_suffix_push(w1, u, b);
        assert(is_suffix_of(w, u.push(b)));
        assert(w.len() <= z.len());
    }
    if w.len() == 0 && z.len() == 0 {
        assert(w =~= z);
    } else {
        assert(w.len() == z.len());
        lemma_suffix_trans(z, u.push(b), t);
        lemma_suffix_same_len(w, z, t);
    }
}

proof fn lemma_suffix_via_lsp(pats: Seq<Seq<u8>>, s: Seq<u8>, j: int)
    requires
        0 <= j < pats.len(),
        pats[j].len() >= 1,
    ensures
        is_suffix_of(pats[j], s) <==> is_suffix_of(pats[j], lsp(pats, s)),
{
    lemma_lsp_props(pats, s);
    if is_suffix_of(pats[j], s) {
        assert(is_prefix_of(pats[j], pats[j])) by {
            assert(pats[j].take(pats[j].len() as int) =~= pats[j]);
        }
        assert(in_prefix_set(pats, pats[j]));
        lemma_shorter_suffix(pats[j], lsp(pats, s), s);
    }
    if is_suffix_of(pats[j], lsp(pats, s)) {
        lemma_suffix_trans(pats[j], lsp(pats, s), s);
    }
}

proof fn lemma_match_iff_suffix(h: Seq<u8>, p: Seq<u8>, o: int, e: int)
    requires
        0 <= e <= h.len(),
        o == e - p.len(),
    ensures
        is_match_at(h, p, o) <==> (0 <= o && is_suffix_of(p, h.take(e))),
{
    if 0 <= o {
        assert(h.take(e).skip(e - p.len()) =~= h.subrange(o, o + p.len() as int));
    }
}

/// Strict order on (pattern index, start offset) pairs: by start offset,
/// then by pattern index — the order `match_seq` lists occurrences in.
pub open spec fn pair_lt(e1: (usize, usize), e2: (usize, usize)) -> bool {
    e1.1 < e2.1 || (e1.1 == e2.1 && e1.0 < e2.0)
}

/// True when every earlier entry is strictly before every later one.
pub open spec fn pairs_strictly_sorted(s: Seq<(usize, usize)>) -> bool {
    forall|k1: int, k2: int| 0 <= k1 < k2 < s.len() ==> pair_lt(#[trigger] s[k1], #[trigger] s[k2])
}

proof fn lemma_contains_concat<A>(a: Seq<A>, b: Seq<A>, e: A)
    ensures
        (a + b).contains(e) <==> a.contains(e) || b.contains(e),
{
    if (a + b).contains(e) {
        let k = choose|k: int| 0 <= k < (a + b).len() && (a + b)[k] == e;
        if k < a.len() {
            assert(a[k] == e);
        } else {
            assert(b[k - a.len()] == e);
        }
    }
    if a.contains(e) {
        let k = choose|k: int| 0 <= k < a.len() && a[k] == e;
        assert((a + b)[k] == e);
    }
    if b.contains(e) {
        let k = choose|k: int| 0 <= k < b.len() && b[k] == e;
        assert((a + b)[a.len() + k] == e);
    }
}

proof fn lemma_sorted_unique_eq(a: Seq<(usize, usize)>, b: Seq<(usize, usize)>)
    requires
        pairs_strictly_sorted(a),
        pairs_strictly_sorted(b),
        forall|e: (usize, usize)| #[trigger] a.contains(e) <==> #[trigger] b.contains(e),
    ensures
        a == b,
    decreases a.len(),
{
    if a.len() == 0 {
        if b.len() > 0 {
            assert(b.contains(b[0]));
            assert(a.contains(b[0]));
        }
        assert(a =~= b);
    } else {
        assert(a.contains(a[0]));
        assert(b.contains(a[0]));
        assert(b.len() > 0);
        assert(b.contains(b[0]));
        assert(a.contains(b[0]));
        let k = choose|k: int| 0 <= k < b.len() && b[k] == a[0];
        let t = choose|t: int| 0 <= t < a.len() && a[t] == b[0];
        if k > 0 && t > 0 {
            assert(pair_lt(b[0], b[k]));
            assert(pair_lt(a[0], a[t]));
        }
        assert(a[0] == b[0]);
        let a1 = a.skip(1);
        let b1 = b.skip(1);
        assert forall|k1: int, k2: int|
            0 <= k1 < k2 < a1.len() implies pair_lt(#[trigger] a1[k1], #[trigger] a1[k2]) by {
            assert(a1[k1] == a[k1 + 1]);
            assert(a1[k2] == a[k2 + 1]);
        }
        assert forall|k1: int, k2: int|
            0 <= k1 < k2 < b1.len() implies pair_lt(#[trigger] b1[k1], #[trigger] b1[k2]) by {
            assert(b1[k1] == b[k1 + 1]);
            assert(b1[k2] == b[k2 + 1]);
        }
        assert forall|e: (usize, usize)| #[trigger] a1.contains(e) <==> #[trigger] b1.contains(
            e,
        ) by {
            if a1.contains(e) {
                let k2 = choose|k2: int| 0 <= k2 < a1.len() && a1[k2] == e;
                assert(a[k2 + 1] == e);
                assert(a.contains(e));
                assert(pair_lt(a[0], a[k2 + 1]));
                assert(e != b[0]);
                assert(b.contains(e));
                let k3 = choose|k3: int| 0 <= k3 < b.len() && b[k3] == e;
                assert(k3 != 0);
                assert(b1[k3 - 1] == e);
                assert(b1.contains(e));
            }
            if b1.contains(e) {
                let k2 = choose|k2: int| 0 <= k2 < b1.len() && b1[k2] == e;
                assert(b[k2 + 1] == e);
                assert(b.contains(e));
                assert(pair_lt(b[0], b[k2 + 1]));
                assert(e != a[0]);
                assert(a.contains(e));
                let k3 = choose|k3: int| 0 <= k3 < a.len() && a[k3] == e;
                assert(k3 != 0);
                assert(a1[k3 - 1] == e);
                assert(a1.contains(e));
            }
        }
        lemma_sorted_unique_eq(a1, b1);
        assert(a.len() == b.len());
        assert forall|i: int| 0 <= i < a.len() implies a[i] == b[i] by {
            if i > 0 {
                assert(a1[i - 1] == a[i]);
                assert(b1[i - 1] == b[i]);
            }
        }
        assert(a =~= b);
    }
}

fn vecs_equal(a: &Vec<u8>, b: &Vec<u8>) -> (r: bool)
    ensures
        r == (a@ == b@),
{
    let n = a.len();
    if n != b.len() {
        proof {
            assert(a@ != b@);
        }
        return false;
    }
    let mut i: usize = 0;
    while i < n
        invariant
            i <= n,
            n == a@.len(),
            n == b@.len(),
            forall|t: int| 0 <= t < i ==> a@[t] == b@[t],
        decreases n - i,
    {
        if a[i] != b[i] {
            return false;
        }
        i += 1;
    }
    proof {
        assert(a@ =~= b@);
    }
    true
}

fn vec_is_suffix(p: &Vec<u8>, s: &Vec<u8>) -> (r: bool)
    ensures
        r == is_suffix_of(p@, s@),
{
    let n = p.len();
    let m = s.len();
    if n > m {
        return false;
    }
    let off = m - n;
    let mut i: usize = 0;
    while i < n
        invariant
            i <= n,
            n == p@.len(),
            m == s@.len(),
            n <= m,
            off == m - n,
            forall|t: int| 0 <= t < i ==> s@[off + t] == p@[t],
        decreases n - i,
    {
        if s[off + i] != p[i] {
            proof {
                assert(s@.skip(off as int)[i as int] == s@[off + i]);
            }
            return false;
        }
        i += 1;
    }
    proof {
        assert(s@.skip(off as int) =~= p@);
    }
    true
}

fn copy_byte_vec(v: &Vec<u8>, upto: usize) -> (r: Vec<u8>)
    requires
        upto <= v@.len(),
    ensures
        r@ == v@.take(upto as int),
{
    let mut r: Vec<u8> = Vec::new();
    let mut i: usize = 0;
    while i < upto
        invariant
            i <= upto,
            upto <= v@.len(),
            r@ == v@.take(i as int),
        decreases upto - i,
    {
        let b = v[i];
        r.push(b);
        proof {
            assert(r@ =~= v@.take(i + 1));
        }
        i += 1;
    }
    r
}

fn contains_word(words: &Vec<Vec<u8>>, w: &Vec<u8>) -> (r: bool)
    ensures
        r == (exists|q: int| 0 <= q < words@.len() && (#[trigger] words@[q])@ == w@),
{
    let n = words.len();
    let mut q: usize = 0;
    while q < n
        invariant
            q <= n,
            n == words@.len(),
            forall|t: int| 0 <= t < q ==> (#[trigger] words@[t])@ != w@,
        decreases n - q,
    {
        if vecs_equal(&words[q], w) {
            assert(words@[q as int]@ == w@);
            return true;
        }
        q += 1;
    }
    false
}

/// The compiled form of a needle set: one state per distinct pattern
/// prefix, a full transition table, and per-state output lists.
pub struct Automaton {
    pub patterns: Vec<Vec<u8>>,
    /// state q's word: the pattern prefix it stands for; state 0 is the
    /// empty word
    pub words: Vec<Vec<u8>>,
    /// delta[q][b]: the state whose word is the longest pattern-prefix
    /// suffix of word(q) + b
    pub delta: Vec<Vec<usize>>,
    /// outputs[q]: the (pattern index, pattern length) of every pattern
    /// that is a suffix of word(q)
    pub outputs: Vec<Vec<(usize, usize)>>,
}

impl Automaton {
    /// The patterns the automaton was compiled from.
    pub open spec fn pats(self) -> Seq<Seq<u8>> {
        pattern_views(self.patterns@)
    }

    /// True when a state carries the given word.
    pub open spec fn word_present(self, s: Seq<u8>) -> bool {
        exists|q: int| 0 <= q < self.words@.len() && (#[trigger] self.words@[q])@ == s
    }

    /// Well-formedness: the states are exactly the pattern prefixes, the
    /// transition table realizes the longest-suffix semantics, and the
    /// output lists name exactly the patterns ending at each state.
    pub open spec fn wf(self) -> bool {
        let pats = self.pats();
        let n = self.words@.len();
        &&& patterns_nonempty(pats)
        &&& pats.len() <= usize::MAX
        &&& n >= 1
        &&& self.words@[0]@ == Seq::<u8>::empty()
        &&& (forall|q: int| 1 <= q < n ==> in_prefix_set(pats, (#[trigger] self.words@[q])@))
        &&& (forall|j: int, l: int|
            0 <= j < pats.len() && 0 <= l <= pats[j].len() ==> self.word_present(
                #[trigger] pats[j].take(l),
            ))
        &&& self.delta@.len() == n
        &&& (forall|q: int| 0 <= q < n ==> (#[trigger] self.delta@[q])@.len() == 256)
        &&& (forall|q: int, b: int|
            0 <= q < n && 0 <= b < 256 ==> {
                let d = #[trigger] self.delta@[q]@[b];
                &&& (d as int) < n
                &&& self.words@[d as int]@ == lsp(self.pats(), self.words@[q]@.push(b as u8))
            })
        &&& self.outputs@.len() == n
        &&& (forall|q: int, t: int|
            0 <= q < n && 0 <= t < self.outputs@[q]@.len() ==> {
                let e = #[trigger] self.outputs@[q]@[t];
                &&& (e.0 as int) < pats.len()
                &&& e.1 == pats[e.0 as int].len()
                &&& is_suffix_of(pats[e.0 as int], self.words@[q]@)
            })
        &&& (forall|q: int, j: int|
            0 <= q < n && 0 <= j < pats.len() && is_suffix_of(
                #[trigger] pats[j],
                (#[trigger] self.words@[q])@,
            ) ==> self.outputs@[q]@.contains((j as usize, pats[j].len() as usize)))
        &&& (forall|q: int, t1: int, t2: int|
            0 <= q < n && 0 <= t1 < t2 < self.outputs@[q]@.len()
                ==> (#[trigger] self.outputs@[q]@[t1]).0 < (#[trigger] self.outputs@[q]@[t2]).0)
    }
}


/// The state-word list is well-formed: state 0 is the empty word, every
/// other word is a pattern prefix, and no word repeats.
pub open spec fn words_ok(pats: Seq<Seq<u8>>, words: Seq<Vec<u8>>) -> bool {
    &&& words.len() >= 1
    &&& words[0]@ == Seq::<u8>::empty()
    &&& (forall|q: int| 1 <= q < words.len() ==> in_prefix_set(pats, (#[trigger] words[q])@))
    &&& (forall|q1: int, q2: int|
        0 <= q1 < q2 < words.len() ==> (#[trigger] words[q1])@ != (#[trigger] words[q2])@)
}

/// Every prefix of every pattern up to index `jb` has a state.
pub open spec fn words_complete_upto(pats: Seq<Seq<u8>>, words: Seq<Vec<u8>>, jb: int) -> bool {
    forall|j: int, l: int|
        0 <= j < jb && 0 <= l <= pats[j].len() ==> exists|q: int|
            0 <= q < words.len() && (#[trigger] words[q])@ == #[trigger] pats[j].take(l)
}

fn copy_patterns(ps: &Vec<Vec<u8>>) -> (r: Vec<Vec<u8>>)
    ensures
        pattern_views(r@) == pattern_views(ps@),
{
    let np = ps.len();
    let mut r: Vec<Vec<u8>> = Vec::new();
    let mut j: usize = 0;
    while j < np
        invariant
            j <= np,
            np == ps@.len(),
            r@.len() == j,
            forall|t: int| 0 <= t < j ==> (#[trigger] r@[t])@ == ps@[t]@,
        decreases np - j,
    {
        let p = copy_byte_vec(&ps[j], ps[j].len());
        proof {
            assert(p@ =~= ps@[j as int]@);
        }
        r.push(p);
        j += 1;
    }
    proof {
        assert forall|t: int| 0 <= t < np implies pattern_views(r@)[t] == pattern_views(ps@)[t] by {
            assert(pattern_views(r@)[t] == r@[t]@);
            assert(pattern_views(ps@)[t] == ps@[t]@);
        }
        assert(pattern_views(r@) =~= pattern_views(ps@));
    }
    r
}

fn insert_prefix(
    words: &mut Vec<Vec<u8>>,
    pat: &Vec<u8>,
    l: usize,
    Ghost(pats): Ghost<Seq<Seq<u8>>>,
    Ghost(jj): Ghost<int>,
)
    requires
        l <= pat@.len(),
        0 <= jj < pats.len(),
        pats[jj] == pat@,
        words_ok(pats, old(words)@),
    ensures
        words_ok(pats, final(words)@),
        final(words)@.len() >= old(words)@.len(),
        forall|q: int| 0 <= q < old(words)@.len() ==> final(words)@[q] == old(words)@[q],
        exists|q: int|
            0 <= q < final(words)@.len() && (#[trigger] final(words)@[q])@ == pats[jj].take(
                l as int,
            ),
{
    let w = copy_byte_vec(pat, l);
    proof {
        assert(w@ == pats[jj].take(l as int));
    }
    if !contains_word(words, &w) {
        let ghost words0 = words@;
        words.push(w);
        proof {
            assert(words@ =~= words0.push(w));
            assert(is_prefix_of(w@, pats[jj]));
            assert(in_prefix_set(pats, w@));
            assert forall|q1: int, q2: int|
                0 <= q1 < q2 < words@.len() implies (#[trigger] words@[q1])@ != (
            #[trigger] words@[q2])@ by {
                if q2 == words@.len() - 1 {
                    assert(words@[q1] == words0[q1]);
                    assert(words@[q2] == w);
                } else {
                    assert(words@[q1] == words0[q1]);
                    assert(words@[q2] == words0[q2]);
                }
            }
            assert(words@[0] == words0[0]);
            assert forall|q: int|
                1 <= q < words@.len() implies in_prefix_set(pats, (#[trigger] words@[q])@) by {
                if q < words@.len() - 1 {
                    assert(words@[q] == words0[q]);
                }
            }
            assert(words@[words@.len() - 1]@ == pats[jj].take(l as int));
        }
    }
}

impl Automaton {
    /// Compiles the automaton from the needle patterns: one state per
    /// distinct pattern prefix, the full transition table, and the output
    /// lists.  Built once per needle set.
    #[verifier::rlimit(60)]
    #[verifier::spinoff_prover]
    pub fn build(patterns: &Vec<Vec<u8>>) -> (a: Automaton)
        requires
            patterns_nonempty(pattern_views(patterns@)),
        ensures
            a.wf(),
            a.pats() == pattern_views(patterns@),
    {
        let ghost pats = pattern_views(patterns@);
        let np = patterns.len();
        proof {
            assert(pats.len() == np);
        }

        // the state words: the empty word, then every pattern prefix once
        let mut words: Vec<Vec<u8>> = Vec::new();
        words.push(Vec::new());
        proof {
            assert(words@[0]@ =~= Seq::<u8>::empty());
        }
        let mut j: usize = 0;
        while j < np
            invariant
                j <= np,
                np == patterns@.len(),
                pats == pattern_views(patterns@),
                words_ok(pats, words@),
                words_complete_upto(pats, words@, j as int),
            decreases np - j,
        {
            proof {
                assert(pats[j as int] == patterns@[j as int]@);
            }
            let plen = patterns[j].len();
            let mut l: usize = 0;
            while l < plen
                invariant
                    l <= plen,
                    j < np,
                    np == patterns@.len(),
                    pats == pattern_views(patterns@),
                    pats[j as int] == patterns@[j as int]@,
                    plen == patterns@[j as int]@.len(),
                    words_ok(pats, words@),
                    words_complete_upto(pats, words@, j as int),
                    forall|l2: int|
                        0 <= l2 < l ==> exists|q: int|
                            0 <= q < words@.len() && (#[trigger] words@[q])@ == #[trigger] pats[j as int].take(l2),
                decreases plen - l,
            {
                let ghost words0 = words@;
                insert_prefix(&mut words, &patterns[j], l, Ghost(pats), Ghost(j as int));
                proof {
                    assert forall|l2: int|
                        0 <= l2 < l + 1 implies exists|q: int|
                        0 <= q < words@.len() && (#[trigger] words@[q])@ == #[trigger] pats[j as int].take(l2) by {
                        if l2 < l {
                            let q0 = choose|q0: int|
                                0 <= q0 < words0.len() && (#[trigger] words0[q0])@ == pats[j as int].take(l2);
                            assert(words@[q0]@ == pats[j as int].take(l2));
                        }
                    }
                    assert forall|j2: int, l2: int|
                        0 <= j2 < j && 0 <= l2 <= pats[j2].len() implies exists|q: int|
                        0 <= q < words@.len() && (#[trigger] words@[q])@ == #[trigger] pats[j2].take(l2) by {
                        let q0 = choose|q0: int|
                            0 <= q0 < words0.len() && (#[trigger] words0[q0])@ == pats[j2].take(l2);
                        assert(words@[q0]@ == pats[j2].take(l2));
                    }
                }
                l += 1;
            }
            let ghost words1 = words@;
            insert_prefix(&mut words, &patterns[j], plen, Ghost(pats), Ghost(j as int));
            proof {
                assert forall|j2: int, l2: int|
                    0 <= j2 < j + 1 && 0 <= l2 <= pats[j2].len() implies exists|q: int|
                    0 <= q < words@.len() && (#[trigger] words@[q])@ == #[trigger] pats[j2].take(l2) by {
                    if j2 < j || l2 < plen {
                        let q0 = choose|q0: int|
                            0 <= q0 < words1.len() && (#[trigger] words1[q0])@ == pats[j2].take(l2);
                        assert(words@[q0]@ == pats[j2].take(l2));
                    }
                }
            }
            j += 1;
        }
        let n = words.len();

        // the transition table: delta[q][b] names the state whose word is
        // the longest pattern-prefix suffix of word(q) + b
        let mut delta: Vec<Vec<usize>> = Vec::new();
        let mut q: usize = 0;
        while q < n
            invariant
                q <= n,
                n == words@.len(),
                np == patterns@.len(),
                pats == pattern_views(patterns@),
                words_ok(pats, words@),
                words_complete_upto(pats, words@, np as int),
                delta@.len() == q,
                forall|q2: int| 0 <= q2 < q ==> (#[trigger] delta@[q2])@.len() == 256,
                forall|q2: int, b: int|
                    0 <= q2 < q && 0 <= b < 256 ==> {
                        let d = #[trigger] delta@[q2]@[b];
                        &&& (d as int) < n
                        &&& words@[d as int]@ == lsp(pats, words@[q2]@.push(b as u8))
                    },
            decreases n - q,
        {
            let mut row: Vec<usize> = Vec::new();
            let mut b: usize = 0;
            while b < 256
                invariant
                    b <= 256,
                    q < n,
                    n == words@.len(),
                    np == patterns@.len(),
                    pats == pattern_views(patterns@),
                    words_ok(pats, words@),
                    words_complete_upto(pats, words@, np as int),
                    row@.len() == b,
                    forall|b2: int|
                        0 <= b2 < b ==> {
                            let d = #[trigger] row@[b2];
                            &&& (d as int) < n
                            &&& words@[d as int]@ == lsp(pats, words@[q as int]@.push(b2 as u8))
                        },
                decreases 256 - b,
            {
                let mut t = copy_byte_vec(&words[q], words[q].len());
                t.push(b as u8);
                proof {
                    assert(words@[q as int]@.take(words@[q as int]@.len() as int) =~= words@[q as int]@);
                    assert(t@ =~= words@[q as int]@.push(b as u8));
                }
                let mut best: usize = 0;
                proof {
                    assert(is_suffix_of(words@[0]@, t@)) by {
                        assert(t@.skip(t@.len() as int) =~= Seq::<u8>::empty());
                    }
                }
                let mut s: usize = 0;
                while s < n
                    invariant
                        s <= n,
                        n == words@.len(),
                        q < n,
                        pats == pattern_views(patterns@),
                        words_ok(pats, words@),
                        best < n,
                        t@ == words@[q as int]@.push(b as u8),
                        is_suffix_of(words@[best as int]@, t@),
                        forall|s2: int|
                            0 <= s2 < s ==> (is_suffix_of((#[trigger] words@[s2])@, t@)
                                ==> words@[s2]@.len() <= words@[best as int]@.len()),
                    decreases n - s,
                {
                    if words[s].len() > words[best].len() {
                        if vec_is_suffix(&words[s], &t) {
                            best = s;
                        }
                    }
                    s += 1;
                }
                proof {
                    lemma_lsp_props(pats, t@);
                    let z = lsp(pats, t@);
                    // the chosen word is no longer than the longest
                    // pattern-prefix suffix
                    if best >= 1 {
                        assert(in_prefix_set(pats, words@[best as int]@));
                        assert(words@[best as int]@.len() <= z.len());
                    }
                    // and no shorter: the longest one is itself a state
                    if z.len() == 0 {
                        assert(words@[best as int]@.len() == 0);
                        assert(words@[best as int]@ =~= z);
                    } else {
                        let j2 = choose|j2: int|
                            0 <= j2 < pats.len() && is_prefix_of(z, #[trigger] pats[j2]);
                        assert(pats[j2].take(z.len() as int) == z);
                        let q2 = choose|q2: int|
                            0 <= q2 < words@.len() && (#[trigger] words@[q2])@ == pats[j2].take(z.len() as int);
                        assert(is_suffix_of(words@[q2]@, t@));
                        assert(z.len() <= words@[best as int]@.len());
                        lemma_suffix_same_len(words@[best as int]@, z, t@);
                    }
                    assert(words@[best as int]@ == lsp(pats, words@[q as int]@.push(b as u8)));
                }
                row.push(best);
                b += 1;
            }
            delta.push(row);
            q += 1;
        }

        // the output lists: every pattern that is a suffix of each
        // state's word, in pattern order
        let mut outputs: Vec<Vec<(usize, usize)>> = Vec::new();
        let mut q3: usize = 0;
        while q3 < n
            invariant
                q3 <= n,
                n == words@.len(),
                np == patterns@.len(),
                pats == pattern_views(patterns@),
                outputs@.len() == q3,
                forall|q2: int, t: int|
                    0 <= q2 < q3 && 0 <= t < outputs@[q2]@.len() ==> {
                        let e = #[trigger] outputs@[q2]@[t];
                        &&& (e.0 as int) < pats.len()
                        &&& e.1 == pats[e.0 as int].len()
                        &&& is_suffix_of(pats[e.0 as int], words@[q2]@)
                    },
                forall|q2: int, j2: int|
                    0 <= q2 < q3 && 0 <= j2 < pats.len() && is_suffix_of(
                        #[trigger] pats[j2],
                        (#[trigger] words@[q2])@,
                    ) ==> outputs@[q2]@.contains((j2 as usize, pats[j2].len() as usize)),
                forall|q2: int, t1: int, t2: int|
                    0 <= q2 < q3 && 0 <= t1 < t2 < outputs@[q2]@.len() ==> (
                    #[trigger] outputs@[q2]@[t1]).0 < (#[trigger] outputs@[q2]@[t2]).0,
            decreases n - q3,
        {
            let mut row: Vec<(usize, usize)> = Vec::new();
            let mut j4: usize = 0;
            while j4 < np
                invariant
                    j4 <= np,
                    q3 < n,
                    n == words@.len(),
                    np == patterns@.len(),
                    pats == pattern_views(patterns@),
                    forall|t: int|
                        0 <= t < row@.len() ==> {
                            let e = #[trigger] row@[t];
                            &&& (e.0 as int) < j4
                            &&& e.1 == pats[e.0 as int].len()
                            &&& is_suffix_of(pats[e.0 as int], words@[q3 as int]@)
                        },
                    forall|j2: int|
                        0 <= j2 < j4 && is_suffix_of(#[trigger] pats[j2], words@[q3 as int]@)
                            ==> row@.contains((j2 as usize, pats[j2].len() as usize)),
                    forall|t1: int, t2: int|
                        0 <= t1 < t2 < row@.len() ==> (#[trigger] row@[t1]).0 < (
                        #[trigger] row@[t2]).0,
                decreases np - j4,
            {
                proof {
                    assert(pats[j4 as int] == patterns@[j4 as int]@);
                }
                if vec_is_suffix(&patterns[j4], &words[q3]) {
                    let ghost row0 = row@;
                    let e = (j4, patterns[j4].len());
                    row.push(e);
                    proof {
                        assert(row@ =~= row0.push(e));
                        assert forall|j2: int|
                            0 <= j2 < j4 + 1 && is_suffix_of(
                                #[trigger] pats[j2],
                                words@[q3 as int]@,
                            ) implies row@.contains((j2 as usize, pats[j2].len() as usize)) by {
                            if j2 < j4 {
                                let t0 = choose|t0: int|
                                    0 <= t0 < row0.len() && row0[t0] == (
                                    j2 as usize,
                                    pats[j2].len() as usize,
                                );
                                assert(row@[t0] == (j2 as usize, pats[j2].len() as usize));
                            } else {
                                assert(row@[row@.len() - 1] == (
                                    j2 as usize,
                                    pats[j2].len() as usize,
                                ));
                            }
                        }
                    }
                }
                j4 += 1;
            }
            outputs.push(row);
            q3 += 1;
        }

        let a = Automaton { patterns: copy_patterns(patterns), words, delta, outputs };
        proof {
            assert(a.pats() == pats);
            assert forall|j2: int, l: int|
                0 <= j2 < pats.len() && 0 <= l <= pats[j2].len() implies a.word_present(
                #[trigger] pats[j2].take(l),
            ) by {
                assert(words_complete_upto(pats, a.words@, np as int));
            }
            assert(a.wf());
        }
        a
    }
}


proof fn lemma_insert_pair_sorted(r0: Seq<(usize, usize)>, e: (usize, usize), p: int)
    requires
        pairs_strictly_sorted(r0),
        0 <= p <= r0.len(),
        forall|t: int| 0 <= t < p ==> pair_lt(#[trigger] r0[t], e),
        p < r0.len() ==> pair_lt(e, r0[p]),
    ensures
        pairs_strictly_sorted(r0.insert(p, e)),
        forall|k: int|
            0 <= k < r0.insert(p, e).len() ==> (#[trigger] r0.insert(p, e)[k] == (if k < p {
                r0[k]
            } else if k == p {
                e
            } else {
                r0[k - 1]
            })),
{
    let cur = r0.insert(p, e);
    r0.insert_ensures(p, e);
    assert forall|k1: int, k2: int|
        0 <= k1 < k2 < cur.len() implies pair_lt(#[trigger] cur[k1], #[trigger] cur[k2]) by {
        if k2 < p {
            assert(cur[k1] == r0[k1]);
            assert(cur[k2] == r0[k2]);
        } else if k2 == p {
            assert(cur[k1] == r0[k1]);
            assert(cur[k2] == e);
        } else if k1 == p {
            assert(cur[k1] == e);
            assert(cur[k2] == r0[k2 - 1]);
            assert(pair_lt(e, r0[p]));
            if k2 - 1 > p {
                assert(pair_lt(r0[p], r0[k2 - 1]));
            }
        } else if k1 < p {
            assert(cur[k1] == r0[k1]);
            assert(cur[k2] == r0[k2 - 1]);
            if k1 < k2 - 1 {
                assert(pair_lt(r0[k1], r0[k2 - 1]));
            }
        } else {
            assert(cur[k1] == r0[k1 - 1]);
            assert(cur[k2] == r0[k2 - 1]);
        }
    }
}

#[verifier::rlimit(60)]
#[verifier::spinoff_prover]
fn sort_pairs(v: Vec<(usize, usize)>) -> (r: Vec<(usize, usize)>)
    requires
        forall|k1: int, k2: int| 0 <= k1 < k2 < v@.len() ==> v@[k1] != v@[k2],
    ensures
        pairs_strictly_sorted(r@),
        forall|e: (usize, usize)| #[trigger] r@.contains(e) <==> #[trigger] v@.contains(e),
{
    let vn = v.len();
    let mut r: Vec<(usize, usize)> = Vec::new();
    let mut g: usize = 0;
    while g < vn
        invariant
            g <= vn,
            vn == v@.len(),
            forall|k1: int, k2: int| 0 <= k1 < k2 < v@.len() ==> v@[k1] != v@[k2],
            pairs_strictly_sorted(r@),
            r@.len() == g,
            forall|k: int|
                0 <= k < r@.len() ==> exists|j: int| 0 <= j < g && #[trigger] r@[k] == v@[j],
            forall|j: int|
                0 <= j < g ==> exists|k: int| 0 <= k < r@.len() && r@[k] == #[trigger] v@[j],
        decreases vn - g,
    {
        let e = v[g];
        let rlen = r.len();
        let mut p: usize = 0;
        let mut searching = true;
        while searching && p < rlen
            invariant
                p <= rlen,
                rlen == r@.len(),
                e == v@[g as int],
                forall|t: int| 0 <= t < p ==> !pair_lt(e, #[trigger] r@[t]),
                !searching ==> (p < rlen && pair_lt(e, r@[p as int])),
            decreases rlen - p + (if searching {
                1int
            } else {
                0int
            }),
        {
            let c = r[p];
            if c.1 > e.1 || (c.1 == e.1 && c.0 > e.0) {
                searching = false;
            } else {
                p += 1;
            }
        }
        let ghost r0 = r@;
        proof {
            assert forall|t: int| 0 <= t < p implies pair_lt(#[trigger] r0[t], e) by {
                let j2 = choose|j2: int| 0 <= j2 < g && r0[t] == v@[j2];
                assert(v@[j2] != v@[g as int]);
            }
        }
        r.insert(p, e);
        proof {
            assert(r@ == r0.insert(p as int, e));
            lemma_insert_pair_sorted(r0, e, p as int);
            assert forall|k: int|
                0 <= k < r@.len() implies exists|j: int| 0 <= j < g + 1 && #[trigger] r@[k]
                == v@[j] by {
                if k < p {
                    assert(r@[k] == r0[k]);
                    let j2 = choose|j2: int| 0 <= j2 < g && r0[k] == v@[j2];
                    assert(r@[k] == v@[j2]);
                } else if k == p {
                    assert(r@[k] == v@[g as int]);
                } else {
                    assert(r@[k] == r0[k - 1]);
                    let j2 = choose|j2: int| 0 <= j2 < g && r0[k - 1] == v@[j2];
                    assert(r@[k] == v@[j2]);
                }
            }
            assert forall|j: int|
                0 <= j < g + 1 implies exists|k: int| 0 <= k < r@.len() && r@[k]
                == #[trigger] v@[j] by {
                if j < g {
                    let k0 = choose|k0: int| 0 <= k0 < r0.len() && r0[k0] == v@[j];
                    if k0 < p {
                        assert(r@[k0] == v@[j]);
                    } else {
                        assert(r@[k0 + 1] == v@[j]);
                    }
                } else {
                    assert(r@[p as int] == v@[j]);
                }
            }
        }
        g += 1;
    }
    proof {
        assert forall|e: (usize, usize)| #[trigger] r@.contains(e) <==> #[trigger] v@.contains(
            e,
        ) by {
            if r@.contains(e) {
                let k = choose|k: int| 0 <= k < r@.len() && r@[k] == e;
                let j = choose|j: int| 0 <= j < vn && r@[k] == v@[j];
                assert(v@[j] == e);
            }
            if v@.contains(e) {
                let j = choose|j: int| 0 <= j < v@.len() && v@[j] == e;
                let k = choose|k: int| 0 <= k < r@.len() && r@[k] == v@[j];
                assert(r@[k] == e);
            }
        }
    }
    r
}

impl Automaton {
    /// Runs the automaton over a buffer: one table transition per byte,
    /// collecting the patterns that end at each position, then orders the
    /// occurrences by start offset and pattern index.  Reports every
    /// occurrence of every pattern, each exactly once.
    #[verifier::rlimit(60)]
    #[verifier::spinoff_prover]
    pub fn scan(&self, hay: &[u8]) -> (r: Vec<(usize, usize)>)
        requires
            self.wf(),
        ensures
            r@ == match_seq(self.pats(), hay@),
    {
        let ghost pats = self.pats();
        let hn = hay.len();
        let mut collected: Vec<(usize, usize)> = Vec::new();
        let mut q: usize = 0;
        let mut i: usize = 0;
        proof {
            assert(hay@.take(0) =~= Seq::<u8>::empty());
            assert(self.words@[0]@ == lsp(pats, hay@.take(0)));
            assert forall|e: (usize, usize)| #[trigger] collected@.contains(e) <==> ((e.0 as int)
                < pats.len() && is_match_at(hay@, pats[e.0 as int], e.1 as int) && e.1 + pats[e.0 as int].len() <= 0) by {
                assert(!collected@.contains(e));
                if (e.0 as int) < pats.len() {
                    assert(pats[e.0 as int].len() >= 1);
                }
            }
        }
        while i < hn
            invariant
                self.wf(),
                pats == self.pats(),
                i <= hn,
                hn == hay@.len(),
                (q as int) < self.words@.len(),
                self.words@[q as int]@ == lsp(pats, hay@.take(i as int)),
                forall|e: (usize, usize)| #[trigger]
                    collected@.contains(e) <==> ((e.0 as int) < pats.len() && is_match_at(
                        hay@,
                        pats[e.0 as int],
                        e.1 as int,
                    ) && e.1 + pats[e.0 as int].len() <= i),
                forall|k1: int, k2: int|
                    0 <= k1 < k2 < collected@.len() ==> collected@[k1] != collected@[k2],
            decreases hn - i,
        {
            let b = hay[i];
            let row = &self.delta[q];
            let q2 = row[b as usize];
            proof {
                assert(self.delta@[q as int]@[b as int] == q2);
                lemma_lsp_step(pats, hay@.take(i as int), b);
                assert(hay@.take(i as int).push(b) =~= hay@.take(i + 1));
                assert(self.words@[q2 as int]@ == lsp(pats, hay@.take(i + 1)));
            }
            let outs = &self.outputs[q2];
            let m = outs.len();
            let ghost col0 = collected@;
            let mut t: usize = 0;
            while t < m
                invariant
                    self.wf(),
                    pats == self.pats(),
                    i < hn,
                    hn == hay@.len(),
                    (q2 as int) < self.words@.len(),
                    self.words@[q2 as int]@ == lsp(pats, hay@.take(i + 1)),
                    outs@ == self.outputs@[q2 as int]@,
                    m == outs@.len(),
                    t <= m,
                    collected@.len() == col0.len() + t,
                    forall|k: int| 0 <= k < col0.len() ==> #[trigger] collected@[k] == col0[k],
                    forall|t2: int|
                        0 <= t2 < t ==> #[trigger] collected@[col0.len() + t2] == ((outs@[t2]).0, (
                        i + 1 - outs@[t2].1) as usize),
                decreases m - t,
            {
                let e0 = outs[t];
                proof {
                    assert(self.outputs@[q2 as int]@[t as int] == e0);
                    lemma_lsp_props(pats, hay@.take(i + 1));
                    assert(is_suffix_of(pats[e0.0 as int], self.words@[q2 as int]@));
                    assert(pats[e0.0 as int].len() <= i + 1);
                }
                let start = i + 1 - e0.1;
                let ghost colp = collected@;
                collected.push((e0.0, start));
                proof {
                    assert forall|k: int| 0 <= k < col0.len() implies #[trigger] collected@[k]
                        == col0[k] by {
                        assert(collected@[k] == colp[k]);
                    }
                    assert forall|t2: int|
                        0 <= t2 < t + 1 implies #[trigger] collected@[col0.len() + t2] == ((outs@[
                        t2]).0, (i + 1 - outs@[t2].1) as usize) by {
                        if t2 < t {
                            assert(collected@[col0.len() + t2] == colp[col0.len() + t2]);
                        } else {
                            assert(collected@[col0.len() + t2] == (e0.0, start));
                        }
                    }
                }
                t += 1;
            }
            proof {
                lemma_lsp_props(pats, hay@.take(i + 1));
                // every collected pair is an occurrence ending by i + 1,
                // and every such occurrence is collected
                assert forall|e: (usize, usize)| #[trigger]
                    collected@.contains(e) <==> ((e.0 as int) < pats.len() && is_match_at(
                        hay@,
                        pats[e.0 as int],
                        e.1 as int,
                    ) && e.1 + pats[e.0 as int].len() <= i + 1) by {
                    if collected@.contains(e) {
                        let k = choose|k: int| 0 <= k < collected@.len() && collected@[k] == e;
                        if k < col0.len() {
                            assert(col0[k] == e);
                            assert(col0.contains(e));
                        } else {
                            let t2 = k - col0.len();
                            assert(collected@[col0.len() + t2] == e);
                            let eo = outs@[t2];
                            assert((eo.0 as int) < pats.len());
                            assert(eo.1 == pats[eo.0 as int].len());
                            assert(is_suffix_of(pats[eo.0 as int], self.words@[q2 as int]@));
                            assert(pats[eo.0 as int].len() <= i + 1);
                            lemma_suffix_via_lsp(pats, hay@.take(i + 1), eo.0 as int);
                            lemma_match_iff_suffix(
                                hay@,
                                pats[eo.0 as int],
                                i + 1 - eo.1,
                                i + 1,
                            );
                            assert(e == (eo.0, (i + 1 - eo.1) as usize));
                        }
                    }
                    if (e.0 as int) < pats.len() && is_match_at(hay@, pats[e.0 as int], e.1 as int)
                        && e.1 + pats[e.0 as int].len() <= i + 1 {
                        if e.1 + pats[e.0 as int].len() <= i {
                            assert(col0.contains(e));
                            let k = choose|k: int| 0 <= k < col0.len() && col0[k] == e;
                            assert(collected@[k] == e);
                            assert(collected@.contains(e));
                        } else {
                            assert(e.1 + pats[e.0 as int].len() == i + 1);
                            lemma_match_iff_suffix(hay@, pats[e.0 as int], e.1 as int, i + 1);
                            lemma_suffix_via_lsp(pats, hay@.take(i + 1), e.0 as int);
                            assert(is_suffix_of(pats[e.0 as int], self.words@[q2 as int]@));
                            assert(self.outputs@[q2 as int]@.contains((
                                e.0,
                                pats[e.0 as int].len() as usize,
                            )));
                            let t2 = choose|t2: int|
                                0 <= t2 < outs@.len() && outs@[t2] == (
                                e.0,
                                pats[e.0 as int].len() as usize,
                            );
                            assert(collected@[col0.len() + t2] == ((outs@[t2]).0, (i + 1 - outs@[
                                t2].1) as usize));
                            assert(collected@[col0.len() + t2] == e);
                            assert(collected@.contains(e));
                        }
                    }
                }
                assert forall|k1: int, k2: int|
                    0 <= k1 < k2 < collected@.len() implies collected@[k1] != collected@[k2] by {
                    if k2 < col0.len() {
                        assert(collected@[k1] == col0[k1]);
                        assert(collected@[k2] == col0[k2]);
                    } else if k1 < col0.len() {
                        let e1 = col0[k1];
                        assert(collected@[k1] == e1);
                        assert(col0.contains(e1));
                        assert(e1.1 + pats[e1.0 as int].len() <= i);
                        let t2 = k2 - col0.len();
                        let eo = outs@[t2];
                        assert(collected@[col0.len() + t2] == ((outs@[t2]).0, (i + 1 - outs@[
                            t2].1) as usize));
                        assert(collected@[k2] == ((eo.0), (i + 1 - eo.1) as usize));
                        assert(eo.1 == pats[eo.0 as int].len());
                        assert(is_suffix_of(pats[eo.0 as int], self.words@[q2 as int]@));
                        assert(pats[eo.0 as int].len() <= i + 1);
                        if collected@[k1] == collected@[k2] {
                            assert(e1.1 + pats[e1.0 as int].len() == i + 1);
                        }
                    } else {
                        let t1 = k1 - col0.len();
                        let t2 = k2 - col0.len();
                        assert(collected@[col0.len() + t1] == ((outs@[t1]).0, (i + 1 - outs@[
                            t1].1) as usize));
                        assert(collected@[col0.len() + t2] == ((outs@[t2]).0, (i + 1 - outs@[
                            t2].1) as usize));
                        assert(collected@[k1] == ((outs@[t1]).0, (i + 1 - outs@[t1].1) as usize));
                        assert(collected@[k2] == ((outs@[t2]).0, (i + 1 - outs@[t2].1) as usize));
                        assert((outs@[t1]).0 < (outs@[t2]).0);
                    }
                }
            }
            q = q2;
            i += 1;
        }
        proof {
            assert(hay@.take(hn as int) =~= hay@);
        }
        let r = sort_pairs(collected);

        proof {
            lemma_match_seq_characterizes(pats, hay@);
            lemma_match_seq_distinct(pats, hay@);
            lemma_match_seq_strictly_ordered(pats, hay@);
            let ms = match_seq(pats, hay@);
            assert forall|k1: int, k2: int|
                0 <= k1 < k2 < ms.len() implies pair_lt(#[trigger] ms[k1], #[trigger] ms[k2]) by {}
            assert forall|e: (usize, usize)| #[trigger] r@.contains(e) <==> #[trigger] ms.contains(
                e,
            ) by {
                assert(r@.contains(e) <==> collected@.contains(e));
                assert(ms.contains(e) <==> valid_entry(pats, hay@, e));
            }
            lemma_sorted_unique_eq(r@, ms);
        }
        r
    }
}

}
