//! The matching engine: one pass over a buffer that reports every
//! occurrence of every needle pattern, in non-decreasing start-offset
//! order, together with the lemmas that justify skipping a uniform chunk.

use vstd::prelude::*;

verus! {

/// The views of a list of byte patterns.
pub open spec fn pattern_views(ps: Seq<Vec<u8>>) -> Seq<Seq<u8>> {
    ps.map_values(|p: Vec<u8>| p@)
}

/// True when `pat` occurs in `h` starting at offset `o`.
pub open spec fn is_match_at(h: Seq<u8>, pat: Seq<u8>, o: int) -> bool {
    &&& 0 <= o
    &&& o + pat.len() <= h.len()
    &&& h.subrange(o, o + pat.len() as int) == pat
}

/// True when `e` names a real occurrence: a pattern index in range and an
/// offset where that pattern occurs in `h`.
pub open spec fn valid_entry(pats: Seq<Seq<u8>>, h: Seq<u8>, e: (usize, usize)) -> bool {
    &&& (e.0 as int) < pats.len()
    &&& is_match_at(h, pats[e.0 as int], e.1 as int)
}

/// The occurrences that start at offset `o`, among the patterns with index
/// below `i`, in increasing pattern order.
pub open spec fn pos_matches_to(pats: Seq<Seq<u8>>, h: Seq<u8>, o: int, i: int) -> Seq<
    (usize, usize),
>
    decreases i,
{
    if i <= 0 {
        Seq::empty()
    } else {
        pos_matches_to(pats, h, o, i - 1) + (if 0 <= i - 1 < pats.len() && is_match_at(
            h,
            pats[i - 1],
            o,
        ) {
            seq![((i - 1) as usize, o as usize)]
        } else {
            Seq::empty()
        })
    }
}

/// The occurrences whose start offset is below `o`, ordered by start offset
/// and, within one offset, by pattern index.
pub open spec fn match_upto(pats: Seq<Seq<u8>>, h: Seq<u8>, o: int) -> Seq<(usize, usize)>
    decreases o,
{
    if o <= 0 {
        Seq::empty()
    } else {
        match_upto(pats, h, o - 1) + pos_matches_to(pats, h, o - 1, pats.len() as int)
    }
}

/// Every occurrence of every pattern in `h`: the buffer-scan contract.
pub open spec fn match_seq(pats: Seq<Seq<u8>>, h: Seq<u8>) -> Seq<(usize, usize)> {
    match_upto(pats, h, h.len() as int)
}

proof fn lemma_pos_matches_to_props(pats: Seq<Seq<u8>>, h: Seq<u8>, o: int, i: int)
    requires
        0 <= o <= usize::MAX,
        0 <= i <= pats.len(),
        pats.len() <= usize::MAX,
    ensures
        forall|k: int|
            0 <= k < pos_matches_to(pats, h, o, i).len() ==> {
                let e = #[trigger] pos_matches_to(pats, h, o, i)[k];
                &&& valid_entry(pats, h, e)
                &&& e.1 == o
                &&& (e.0 as int) < i
            },
        forall|j: int|
            0 <= j < i && is_match_at(h, pats[j], o) ==> pos_matches_to(pats, h, o, i).contains(
                ((j as usize), (o as usize)),
            ),
        forall|k1: int, k2: int|
            0 <= k1 < k2 < pos_matches_to(pats, h, o, i).len() ==> pos_matches_to(
                pats,
                h,
                o,
                i,
            )[k1].0 < pos_matches_to(pats, h, o, i)[k2].0,
    decreases i,
{
    if i > 0 {
        lemma_pos_matches_to_props(pats, h, o, i - 1);
        let prev = pos_matches_to(pats, h, o, i - 1);
        let cur = pos_matches_to(pats, h, o, i);
        if 0 <= i - 1 < pats.len() && is_match_at(h, pats[i - 1], o) {
            assert(cur == prev + seq![(((i - 1) as usize), (o as usize))]);
            assert forall|j: int|
                0 <= j < i && is_match_at(h, pats[j], o) implies cur.contains(
                ((j as usize), (o as usize)),
            ) by {
                if j < i - 1 {
                    let k = choose|k: int|
                        0 <= k < prev.len() && prev[k] == ((j as usize), (o as usize));
                    assert(cur[k] == ((j as usize), (o as usize)));
                } else {
                    assert(cur[cur.len() - 1] == ((j as usize), (o as usize)));
                }
            }
        } else {
            assert(cur =~= prev);
            assert forall|j: int|
                0 <= j < i && is_match_at(h, pats[j], o) implies cur.contains(
                ((j as usize), (o as usize)),
            ) by {
                assert(j != i - 1);
            }
        }
    }
}

proof fn lemma_match_upto_props(pats: Seq<Seq<u8>>, h: Seq<u8>, o: int)
    requires
        0 <= o <= usize::MAX,
        pats.len() <= usize::MAX,
    ensures
        forall|k: int|
            0 <= k < match_upto(pats, h, o).len() ==> {
                let e = #[trigger] match_upto(pats, h, o)[k];
                &&& valid_entry(pats, h, e)
                &&& (e.1 as int) < o
            },
        forall|j: int, p: int|
            0 <= j < pats.len() && 0 <= p < o && is_match_at(h, pats[j], p) ==> match_upto(
                pats,
                h,
                o,
            ).contains(((j as usize), (p as usize))),
        forall|k1: int, k2: int|
            0 <= k1 < k2 < match_upto(pats, h, o).len() ==> (match_upto(pats, h, o)[k1].1
                < match_upto(pats, h, o)[k2].1 || (match_upto(pats, h, o)[k1].1 == match_upto(
                pats,
                h,
                o,
            )[k2].1 && match_upto(pats, h, o)[k1].0 < match_upto(pats, h, o)[k2].0)),
    decreases o,
{
    if o > 0 {
        lemma_match_upto_props(pats, h, o - 1);
        lemma_pos_matches_to_props(pats, h, o - 1, pats.len() as int);
        let prev = match_upto(pats, h, o - 1);
        let tail = pos_matches_to(pats, h, o - 1, pats.len() as int);
        let cur = match_upto(pats, h, o);
        assert(cur == prev + tail);
        assert forall|j: int, p: int|
            0 <= j < pats.len() && 0 <= p < o && is_match_at(h, pats[j], p) implies cur.contains(
            ((j as usize), (p as usize)),
        ) by {
            if p < o - 1 {
                let k = choose|k: int| 0 <= k < prev.len() && prev[k] == ((j as usize), (p as usize));
                assert(cur[k] == ((j as usize), (p as usize)));
            } else {
                let k = choose|k: int| 0 <= k < tail.len() && tail[k] == ((j as usize), (p as usize));
                assert(cur[prev.len() + k] == ((j as usize), (p as usize)));
            }
        }
    }
}

/// True when every pattern in the set is non-empty, the needle-set
/// invariant that construction enforces.
pub open spec fn patterns_nonempty(pats: Seq<Seq<u8>>) -> bool {
    forall|j: int| 0 <= j < pats.len() ==> #[trigger] pats[j].len() >= 1
}

/// Soundness and completeness of `match_seq`: it holds an entry for a
/// pattern index and offset exactly when the pattern occurs there.
pub proof fn lemma_match_seq_characterizes(pats: Seq<Seq<u8>>, h: Seq<u8>)
    requires
        h.len() <= usize::MAX,
        pats.len() <= usize::MAX,
        patterns_nonempty(pats),
    ensures
        forall|e: (usize, usize)| #[trigger]
            match_seq(pats, h).contains(e) <==> valid_entry(pats, h, e),
{
    lemma_match_upto_props(pats, h, h.len() as int);
    assert forall|e: (usize, usize)|
        #[trigger] match_seq(pats, h).contains(e) <==> valid_entry(pats, h, e) by {
        if match_seq(pats, h).contains(e) {
            let k = choose|k: int| 0 <= k < match_seq(pats, h).len() && match_seq(pats, h)[k] == e;
            assert(valid_entry(pats, h, match_seq(pats, h)[k]));
        }
        if valid_entry(pats, h, e) {
            assert(pats[e.0 as int].len() >= 1);
            assert((e.1 as int) + pats[e.0 as int].len() <= h.len());
            assert((e.1 as int) < h.len());
            assert(match_seq(pats, h).contains((e.0, e.1)));
        }
    }
}

/// The entries of `match_seq` are pairwise distinct: an occurrence is
/// listed once and only once.
pub proof fn lemma_match_seq_distinct(pats: Seq<Seq<u8>>, h: Seq<u8>)
    requires
        h.len() <= usize::MAX,
        pats.len() <= usize::MAX,
    ensures
        forall|k1: int, k2: int|
            0 <= k1 < k2 < match_seq(pats, h).len() ==> #[trigger] match_seq(pats, h)[k1]
                != #[trigger] match_seq(pats, h)[k2],
{
    lemma_match_upto_props(pats, h, h.len() as int);
}

/// The entries of `match_seq` come in strictly increasing
/// (start offset, pattern index) order.
pub proof fn lemma_match_seq_strictly_ordered(pats: Seq<Seq<u8>>, h: Seq<u8>)
    requires
        h.len() <= usize::MAX,
        pats.len() <= usize::MAX,
    ensures
        forall|k1: int, k2: int|
            0 <= k1 < k2 < match_seq(pats, h).len() ==> ((#[trigger] match_seq(pats, h)[k1]).1
                < (#[trigger] match_seq(pats, h)[k2]).1 || (match_seq(pats, h)[k1].1 == match_seq(
                pats,
                h,
            )[k2].1 && match_seq(pats, h)[k1].0 < match_seq(pats, h)[k2].0)),
{
    lemma_match_upto_props(pats, h, h.len() as int);
}

/// True when every byte of `h` equals `v`.
pub open spec fn all_bytes_eq(h: Seq<u8>, v: u8) -> bool {
    forall|i: int| 0 <= i < h.len() ==> #[trigger] h[i] == v
}

/// True when `p` holds at least one byte different from `v`.
pub open spec fn has_byte_other_than(p: Seq<u8>, v: u8) -> bool {
    exists|i: int| 0 <= i < p.len() && #[trigger] p[i] != v
}

/// Skipping a uniform chunk is safe: when every byte of the buffer equals
/// `v` and every pattern holds some byte different from `v`, the buffer
/// holds no occurrence at all.
pub proof fn lemma_uniform_chunk_skip_safe(pats: Seq<Seq<u8>>, h: Seq<u8>, v: u8)
    requires
        h.len() <= usize::MAX,
        pats.len() <= usize::MAX,
        all_bytes_eq(h, v),
        forall|j: int| 0 <= j < pats.len() ==> has_byte_other_than(#[trigger] pats[j], v),
    ensures
        match_seq(pats, h) == Seq::<(usize, usize)>::empty(),
{
    lemma_match_upto_props(pats, h, h.len() as int);
    assert forall|j: int, o: int|
        0 <= j < pats.len() && 0 <= o implies !is_match_at(h, pats[j], o) by {
        if is_match_at(h, pats[j], o) {
            let i = choose|i: int| 0 <= i < pats[j].len() && pats[j][i] != v;
            assert(h.subrange(o, o + pats[j].len() as int)[i] == h[o + i]);
            assert(h[o + i] == v);
        }
    }
    if match_seq(pats, h).len() > 0 {
        assert(valid_entry(pats, h, match_seq(pats, h)[0]));
    }
    assert(match_seq(pats, h) =~= Seq::<(usize, usize)>::empty());
}

/// A uniform pattern is found at every offset of a uniform chunk of the
/// same byte value where it fits; in particular a length-1 pattern equal
/// to the chunk's byte is detected at every position.
pub proof fn lemma_uniform_needle_matches_everywhere(pats: Seq<Seq<u8>>, h: Seq<u8>, v: u8, j: int)
    requires
        h.len() <= usize::MAX,
        pats.len() <= usize::MAX,
        patterns_nonempty(pats),
        all_bytes_eq(h, v),
        0 <= j < pats.len(),
        all_bytes_eq(pats[j], v),
    ensures
        forall|o: usize|
            o + pats[j].len() <= h.len() ==> #[trigger] match_seq(pats, h).contains(
                ((j as usize), o),
            ),
{
    lemma_match_seq_characterizes(pats, h);
    assert forall|o: usize| o + pats[j].len() <= h.len() implies #[trigger] match_seq(
        pats,
        h,
    ).contains(((j as usize), o)) by {
        let p = pats[j];
        assert forall|t: int| 0 <= t < p.len() implies h.subrange(
            o as int,
            o + p.len() as int,
        )[t] == p[t] by {
            assert(h[o + t] == v);
            assert(p[t] == v);
        }
        assert(h.subrange(o as int, o + p.len() as int) =~= p);
        assert(valid_entry(pats, h, ((j as usize), o)));
    }
}

/// Finds every occurrence of every pattern in `hay`, in non-decreasing
/// start-offset order, each exactly once: compiles the automaton from the
/// patterns and runs its single pass over the buffer.
pub fn find_matches(patterns: &Vec<Vec<u8>>, hay: &[u8]) -> (r: Vec<(usize, usize)>)
    requires
        patterns_nonempty(pattern_views(patterns@)),
    ensures
        r@ == match_seq(pattern_views(patterns@), hay@),
{
    let a = crate::automaton::Automaton::build(patterns);
    a.scan(hay)
}

}