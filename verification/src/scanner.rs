//! The scanner: drives the matching engine over successive chunks of the
//! logical byte stream, carries the tail of each chunk forward so that no
//! boundary-spanning occurrence is missed, translates in-buffer offsets to
//! absolute ones, and deduplicates so that each occurrence is reported
//! exactly once.

use vstd::prelude::*;

use crate::matcher::{
    all_bytes_eq, find_matches, has_byte_other_than, is_match_at, lemma_match_seq_characterizes,
    lemma_match_seq_distinct, lemma_uniform_chunk_skip_safe, match_seq, pattern_views,
    patterns_nonempty, valid_entry,
};
use crate::needle::{needle_pattern_views, needles_fit_carry, needles_wf, Needle};
use crate::record::NeedleValFound;

verus! {

/// The inputs of one scan: where the haystack came from, where results go,
/// and the needle set, packed for easy passage.
pub struct SearchAssignment {
    pub input_file_path: String,
    pub output_dir_path: String,
    pub jsonl_output_log_file_path: String,
    pub needles: Vec<Needle>,
}

/// How many bytes of an already-consumed stream the next window re-shows:
/// the configured carry-forward, or the whole stream while it is shorter.
pub open spec fn carry_now(stream_len: int, k: int) -> int {
    if k <= stream_len {
        k
    } else {
        stream_len
    }
}

/// The absolute offset of the first byte of the window that scans the next
/// chunk: everything before it has already been fully scanned.
pub open spec fn window_start_spec(stream_len: int, k: int) -> int {
    stream_len - carry_now(stream_len, k)
}

/// The buffer contents for the chunk `d` appended to the stream `s`: the
/// carried tail of `s` followed by `d`.
pub open spec fn window_spec(s: Seq<u8>, k: int, d: Seq<u8>) -> Seq<u8> {
    (s + d).skip(window_start_spec(s.len() as int, k))
}

/// In-buffer occurrences translated to absolute offsets.
pub open spec fn lift_pairs(ms: Seq<(usize, usize)>, ws: int) -> Seq<(usize, u64)> {
    ms.map_values(|m: (usize, usize)| (m.0, (ws + m.1) as u64))
}

/// The subsequence of `lifted` whose entries are not in `seen`: the
/// occurrences that survive deduplication, in discovery order.
pub open spec fn dedup_new(lifted: Seq<(usize, u64)>, seen: Seq<(usize, u64)>) -> Seq<(usize, u64)>
    decreases lifted.len(),
{
    if lifted.len() == 0 {
        Seq::empty()
    } else {
        dedup_new(lifted.drop_last(), seen) + (if seen.contains(lifted.last()) {
            Seq::empty()
        } else {
            seq![lifted.last()]
        })
    }
}

/// The occurrences that one more chunk `d` adds to a scan that has already
/// consumed `s`, deduplicated against the occurrences already reported.
pub open spec fn new_pairs_spec(
    pats: Seq<Seq<u8>>,
    s: Seq<u8>,
    k: int,
    d: Seq<u8>,
    seen: Seq<(usize, u64)>,
) -> Seq<(usize, u64)> {
    dedup_new(
        lift_pairs(match_seq(pats, window_spec(s, k, d)), window_start_spec(s.len() as int, k)),
        seen,
    )
}

/// True when no two entries are equal: each occurrence is listed once.
pub open spec fn pairs_distinct(ps: Seq<(usize, u64)>) -> bool {
    forall|k1: int, k2: int| 0 <= k1 < k2 < ps.len() ==> ps[k1] != ps[k2]
}

proof fn lemma_contains_add<A>(a: Seq<A>, b: Seq<A>, e: A)
    ensures
        (a + b).contains(e) <==> a.contains(e) || b.contains(e),
{
    if (a + b).contains(e) {
        let k = choose|k: int| 0 <= k < (a + b).len() && (a + b)[k] == e;
        if k < a.len() {
            assert(a[k] == e);
        } else {
            assert(b[k - a.len()] == e);
        }
    }
    if a.contains(e) {
        let k = choose|k: int| 0 <= k < a.len() && a[k] == e;
        assert((a + b)[k] == e);
    }
    if b.contains(e) {
        let k = choose|k: int| 0 <= k < b.len() && b[k] == e;
        assert((a + b)[a.len() + k] == e);
    }
}

proof fn lemma_dedup_new_char(lifted: Seq<(usize, u64)>, seen: Seq<(usize, u64)>)
    ensures
        forall|e: (usize, u64)| #[trigger]
            dedup_new(lifted, seen).contains(e) <==> (lifted.contains(e) && !seen.contains(e)),
    decreases lifted.len(),
{
    if lifted.len() == 0 {
        assert forall|e: (usize, u64)| #[trigger]
            dedup_new(lifted, seen).contains(e) <==> (lifted.contains(e) && !seen.contains(
                e,
            )) by {
            assert(!lifted.contains(e));
            assert(!dedup_new(lifted, seen).contains(e));
        }
    } else {
        let dl = lifted.drop_last();
        let last = lifted.last();
        lemma_dedup_new_char(dl, seen);
        assert(lifted =~= dl + seq![last]);
        assert forall|e: (usize, u64)| #[trigger]
            dedup_new(lifted, seen).contains(e) <==> (lifted.contains(e) && !seen.contains(
                e,
            )) by {
            lemma_contains_add(dl, seq![last], e);
            lemma_contains_add(
                dedup_new(dl, seen),
                if seen.contains(last) {
                    Seq::empty()
                } else {
                    seq![last]
                },
                e,
            );
            assert(seq![last].contains(e) <==> e == last);
            if !seen.contains(last) {
                assert(dedup_new(lifted, seen) == dedup_new(dl, seen) + seq![last]);
            }
        }
    }
}

proof fn lemma_dedup_new_distinct(lifted: Seq<(usize, u64)>, seen: Seq<(usize, u64)>)
    requires
        pairs_distinct(lifted),
    ensures
        pairs_distinct(dedup_new(lifted, seen)),
    decreases lifted.len(),
{
    if lifted.len() > 0 {
        let dl = lifted.drop_last();
        let last = lifted.last();
        assert forall|k1: int, k2: int| 0 <= k1 < k2 < dl.len() implies dl[k1] != dl[k2] by {
            assert(lifted[k1] == dl[k1]);
            assert(lifted[k2] == dl[k2]);
        }
        lemma_dedup_new_distinct(dl, seen);
        lemma_dedup_new_char(dl, seen);
        if !seen.contains(last) {
            let cur = dedup_new(lifted, seen);
            let prev = dedup_new(dl, seen);
            assert(cur == prev + seq![last]);
            assert forall|k1: int, k2: int| 0 <= k1 < k2 < cur.len() implies cur[k1] != cur[k2] by {
                if k2 == cur.len() - 1 {
                    assert(cur[k2] == last);
                    assert(cur[k1] == prev[k1]);
                    assert(prev.contains(prev[k1]));
                    assert(dl.contains(prev[k1]));
                    if prev[k1] == last {
                        let t = choose|t: int| 0 <= t < dl.len() && dl[t] == last;
                        assert(lifted[t] == last);
                        assert(lifted[lifted.len() - 1] == last);
                    }
                } else {
                    assert(cur[k1] == prev[k1]);
                    assert(cur[k2] == prev[k2]);
                }
            }
        }
    }
}

/// Extending the scanned stream by one chunk: an occurrence in the
/// extended stream is either an occurrence in the old stream or an
/// occurrence inside the new window, provided every pattern fits in the
/// carry-forward plus one byte.  This is the boundary-coverage fact that
/// makes chunked scanning equivalent to whole-buffer scanning.
pub proof fn lemma_stream_extension(pats: Seq<Seq<u8>>, s: Seq<u8>, d: Seq<u8>, k: int)
    requires
        forall|j: int| 0 <= j < pats.len() ==> (#[trigger] pats[j]).len() <= k + 1,
        0 <= k,
    ensures
        forall|j: int, o: int|
            0 <= j < pats.len() ==> (#[trigger] is_match_at(s + d, pats[j], o) <==> (is_match_at(
                s,
                pats[j],
                o,
            ) || (window_start_spec(s.len() as int, k) <= o && is_match_at(
                window_spec(s, k, d),
                pats[j],
                o - window_start_spec(s.len() as int, k),
            )))),
{
    let ws = window_start_spec(s.len() as int, k);
    let w = window_spec(s, k, d);
    assert(w.len() == s.len() + d.len() - ws);
    assert forall|j: int, o: int| 0 <= j < pats.len() implies (#[trigger] is_match_at(
        s + d,
        pats[j],
        o,
    ) <==> (is_match_at(s, pats[j], o) || (ws <= o && is_match_at(w, pats[j], o - ws)))) by {
        let p = pats[j];
        if is_match_at(s, p, o) {
            assert((s + d).subrange(o, o + p.len() as int) =~= s.subrange(o, o + p.len() as int));
            assert(is_match_at(s + d, p, o));
        }
        if ws <= o && is_match_at(w, p, o - ws) {
            let q = o - ws;
            assert forall|t: int| 0 <= t < p.len() implies (s + d).subrange(
                o,
                o + p.len() as int,
            )[t] == p[t] by {
                assert(w.subrange(q, q + p.len() as int)[t] == p[t]);
                assert(w[q + t] == (s + d)[ws + q + t]);
            }
            assert((s + d).subrange(o, o + p.len() as int) =~= p);
            assert(is_match_at(s + d, p, o));
        }
        if is_match_at(s + d, p, o) {
            if o + p.len() <= s.len() {
                assert(s.subrange(o, o + p.len() as int) =~= (s + d).subrange(
                    o,
                    o + p.len() as int,
                ));
                assert(is_match_at(s, p, o));
            } else {
                assert(o > s.len() - p.len());
                assert(o >= s.len() - k);
                assert(ws <= o);
                let q = o - ws;
                assert(q + p.len() <= w.len());
                assert forall|t: int| 0 <= t < p.len() implies w.subrange(
                    q,
                    q + p.len() as int,
                )[t] == p[t] by {
                    assert(w[q + t] == (s + d)[ws + q + t]);
                    assert((s + d).subrange(o, o + p.len() as int)[t] == p[t]);
                }
                assert(w.subrange(q, q + p.len() as int) =~= p);
                assert(is_match_at(w, p, q));
            }
        }
    }
}

proof fn lemma_lifted_char(pats: Seq<Seq<u8>>, w: Seq<u8>, ws: int)
    requires
        0 <= ws,
        ws + w.len() <= u64::MAX,
        w.len() <= usize::MAX,
        pats.len() <= usize::MAX,
        patterns_nonempty(pats),
    ensures
        forall|e: (usize, u64)| #[trigger]
            lift_pairs(match_seq(pats, w), ws).contains(e) <==> ((e.0 as int) < pats.len() && ws
                <= e.1 && is_match_at(w, pats[e.0 as int], e.1 - ws)),
        pairs_distinct(lift_pairs(match_seq(pats, w), ws)),
{
    let ms = match_seq(pats, w);
    let lifted = lift_pairs(ms, ws);
    lemma_match_seq_characterizes(pats, w);
    lemma_match_seq_distinct(pats, w);
    assert forall|k: int| 0 <= k < ms.len() implies valid_entry(pats, w, ms[k]) && (ms[k].1 as int)
        <= w.len() by {
        assert(ms.contains(ms[k]));
    }
    assert forall|e: (usize, u64)| #[trigger] lifted.contains(e) <==> ((e.0 as int) < pats.len()
        && ws <= e.1 && is_match_at(w, pats[e.0 as int], e.1 - ws)) by {
        if lifted.contains(e) {
            let k = choose|k: int| 0 <= k < lifted.len() && lifted[k] == e;
            assert(lifted[k] == (ms[k].0, (ws + ms[k].1) as u64));
            assert(ws + ms[k].1 <= u64::MAX);
            assert(e.1 as int == ws + ms[k].1);
            assert(is_match_at(w, pats[e.0 as int], e.1 - ws));
        }
        if (e.0 as int) < pats.len() && ws <= e.1 && is_match_at(w, pats[e.0 as int], e.1 - ws) {
            let q = e.1 - ws;
            assert(q + pats[e.0 as int].len() <= w.len());
            assert(0 <= q <= w.len());
            let qe = ((e.0, (q as usize)));
            assert(valid_entry(pats, w, qe));
            assert(ms.contains(qe));
            let k = choose|k: int| 0 <= k < ms.len() && ms[k] == qe;
            assert(lifted[k] == (qe.0, (ws + qe.1) as u64));
            assert((ws + qe.1) as u64 == e.1);
            assert(lifted[k] == e);
        }
    }
    assert forall|k1: int, k2: int|
        0 <= k1 < k2 < lifted.len() implies lifted[k1] != lifted[k2] by {
        assert(ms[k1] != ms[k2]);
        assert(lifted[k1] == (ms[k1].0, (ws + ms[k1].1) as u64));
        assert(lifted[k2] == (ms[k2].0, (ws + ms[k2].1) as u64));
        assert(ws + ms[k1].1 <= u64::MAX);
        assert(ws + ms[k2].1 <= u64::MAX);
    }
}

/// The running state of one scan: the current window buffer, progress
/// counters, and every occurrence reported so far.
pub struct ProcessDataState {
    /// the current window: the carried tail of the previous chunk followed
    /// by the newest chunk's bytes
    pub haystack_chunk_buffer: Vec<u8>,
    /// logical (uncompressed) bytes consumed so far
    pub total_haystack_bytes_read: u64,
    pub chunk_count: u64,
    pub partial_chunk_read_count: u32,
    /// the structured records built for the reported occurrences
    pub needle_vals_found: Vec<NeedleValFound>,
    /// each reported occurrence as (needle index, absolute offset); the
    /// deduplication key set
    pub found_pairs: Vec<(usize, u64)>,
    /// carry-forward length in bytes
    pub carry_len: usize,
    /// the whole logical stream consumed so far
    pub stream: Ghost<Seq<u8>>,
}

impl ProcessDataState {
    /// The absolute offset of the first byte of the current window.
    pub open spec fn window_start(self) -> int {
        self.total_haystack_bytes_read - self.haystack_chunk_buffer@.len()
    }

    /// Well-formedness: the buffer is the stream's tail, counters agree
    /// with the stream, and the reported occurrences are exactly the
    /// occurrences of the needle patterns in the stream, each once.
    pub open spec fn wf(self, needles: Seq<Needle>) -> bool {
        let s = self.stream@;
        let pats = needle_pattern_views(needles);
        &&& needles_wf(needles)
        &&& needles.len() <= usize::MAX
        &&& s.len() == self.total_haystack_bytes_read as int
        &&& self.haystack_chunk_buffer@.len() <= s.len()
        &&& self.haystack_chunk_buffer@ == s.skip(s.len() - self.haystack_chunk_buffer@.len())
        &&& self.haystack_chunk_buffer@.len() >= carry_now(s.len() as int, self.carry_len as int)
        &&& self.chunk_count as int <= s.len()
        &&& pairs_distinct(self.found_pairs@)
        &&& forall|e: (usize, u64)| #[trigger]
            self.found_pairs@.contains(e) <==> ((e.0 as int) < needles.len() && is_match_at(
                s,
                pats[e.0 as int],
                e.1 as int,
            ))
    }

    /// A fresh scan state with nothing consumed and nothing reported.
    pub fn new(carry_len_bytes: usize) -> (st: ProcessDataState)
        ensures
            st.carry_len == carry_len_bytes,
            st.stream@ == Seq::<u8>::empty(),
            st.total_haystack_bytes_read == 0,
            st.chunk_count == 0,
            st.partial_chunk_read_count == 0,
            st.found_pairs@ == Seq::<(usize, u64)>::empty(),
            st.needle_vals_found@.len() == 0,
            st.haystack_chunk_buffer@ == Seq::<u8>::empty(),
            forall|ns: Seq<Needle>|
                needles_wf(ns) && ns.len() <= usize::MAX ==> #[trigger] st.wf(ns),
    {
        let st = ProcessDataState {
            haystack_chunk_buffer: Vec::new(),
            total_haystack_bytes_read: 0,
            chunk_count: 0,
            partial_chunk_read_count: 0,
            needle_vals_found: Vec::new(),
            found_pairs: Vec::new(),
            carry_len: carry_len_bytes,
            stream: Ghost(Seq::empty()),
        };
        proof {
            assert forall|ns: Seq<Needle>|
                needles_wf(ns) && ns.len() <= usize::MAX implies #[trigger] st.wf(ns) by {
                let pats = needle_pattern_views(ns);
                assert(st.haystack_chunk_buffer@ =~= st.stream@.skip(0));
                assert forall|e: (usize, u64)| #[trigger]
                    st.found_pairs@.contains(e) <==> ((e.0 as int) < ns.len() && is_match_at(
                        st.stream@,
                        pats[e.0 as int],
                        e.1 as int,
                    )) by {
                    assert(!st.found_pairs@.contains(e));
                    if (e.0 as int) < ns.len() {
                        assert(pats[e.0 as int].len() >= 1);
                        assert(!is_match_at(st.stream@, pats[e.0 as int], e.1 as int));
                    }
                }
            }
        }
        st
    }

    /// Scans one more chunk of the stream.  Assembles the window from the
    /// carried tail and `data`, finds every occurrence in it (skipping the
    /// pass when the window is uniform and no needle could match),
    /// translates offsets to absolute ones and reports each occurrence the
    /// first time it is observed; re-observations through the carried tail
    /// are discarded.  Returns the newly reported (needle index, absolute
    /// offset) pairs in discovery order.
    pub fn do_search(&mut self, needles: &Vec<Needle>, data: &[u8]) -> (new_matches: Vec<
        (usize, u64),
    >)
        requires
            old(self).wf(needles@),
            needles_fit_carry(needles@, old(self).carry_len as int),
            data@.len() >= 1,
            old(self).total_haystack_bytes_read + data@.len() <= u64::MAX,
            old(self).haystack_chunk_buffer@.len() + data@.len() <= usize::MAX,
        ensures
            final(self).wf(needles@),
            final(self).stream@ == old(self).stream@ + data@,
            final(self).carry_len == old(self).carry_len,
            final(self).total_haystack_bytes_read == old(self).total_haystack_bytes_read
                + data@.len(),
            final(self).chunk_count == old(self).chunk_count + 1,
            final(self).partial_chunk_read_count == old(self).partial_chunk_read_count,
            final(self).needle_vals_found == old(self).needle_vals_found,
            final(self).found_pairs@ == old(self).found_pairs@ + new_matches@,
            new_matches@ == new_pairs_spec(
                needle_pattern_views(needles@),
                old(self).stream@,
                old(self).carry_len as int,
                data@,
                old(self).found_pairs@,
            ),
            final(self).haystack_chunk_buffer@ == window_spec(
                old(self).stream@,
                old(self).carry_len as int,
                data@,
            ),
    {
        let ghost s0 = self.stream@;
        let ghost pats = needle_pattern_views(needles@);
        let ghost kk = self.carry_len as int;
        let dlen = data.len();

        // assemble the window: carried tail of the previous window + data
        let blen = self.haystack_chunk_buffer.len();
        let c: usize = if self.carry_len <= blen {
            self.carry_len
        } else {
            blen
        };
        proof {
            assert(c as int == carry_now(s0.len() as int, kk));
        }
        let start = blen - c;
        let mut w: Vec<u8> = Vec::new();
        let mut t: usize = start;
        while t < blen
            invariant
                start <= t <= blen,
                blen == self.haystack_chunk_buffer@.len(),
                w@ == self.haystack_chunk_buffer@.subrange(start as int, t as int),
            decreases blen - t,
        {
            let b = self.haystack_chunk_buffer[t];
            w.push(b);
            proof {
                assert(w@ =~= self.haystack_chunk_buffer@.subrange(start as int, t + 1));
            }
            t += 1;
        }
        let mut t2: usize = 0;
        while t2 < dlen
            invariant
                t2 <= dlen,
                dlen == data@.len(),
                blen == self.haystack_chunk_buffer@.len(),
                start + c == blen,
                w@ == self.haystack_chunk_buffer@.subrange(start as int, blen as int)
                    + data@.take(t2 as int),
                w@.len() == c + t2,
            decreases dlen - t2,
        {
            let b = data[t2];
            w.push(b);
            proof {
                assert(w@ =~= self.haystack_chunk_buffer@.subrange(start as int, blen as int)
                    + data@.take(t2 + 1));
            }
            t2 += 1;
        }
        proof {
            assert(data@.take(dlen as int) =~= data@);
            let sd = s0 + data@;
            let wsp = window_start_spec(s0.len() as int, kk);
            assert(self.haystack_chunk_buffer@ == s0.skip(s0.len() - blen));
            assert forall|i: int| 0 <= i < c + dlen implies w@[i] == window_spec(
                s0,
                kk,
                data@,
            )[i] by {
                if i < c {
                    assert(w@[i] == self.haystack_chunk_buffer@[start + i]);
                    assert(self.haystack_chunk_buffer@[start + i] == s0[s0.len() - blen + start
                        + i]);
                    assert(sd[wsp + i] == s0[wsp + i]);
                } else {
                    assert(w@[i] == data@[i - c]);
                    assert(sd[wsp + i] == data@[wsp + i - s0.len()]);
                }
            }
            assert(w@ =~= window_spec(s0, kk, data@));
        }
        let ws: u64 = self.total_haystack_bytes_read - (c as u64);
        proof {
            assert(ws as int == window_start_spec(s0.len() as int, kk));
        }

        // uniform-window skip: safe only when every needle holds a byte
        // that differs from the window's repeated value; in particular a
        // uniform needle (such as a single-byte pattern of that value) is
        // never skipped over
        let mut matches: Vec<(usize, usize)> = Vec::new();
        let mut skipped = true;
        let v0 = w[0];
        if vec_all_eq(&w, v0) && all_needles_have_other_byte(needles, v0) {
            proof {
                lemma_uniform_chunk_skip_safe(pats, w@, v0);
                assert(matches@ =~= match_seq(pats, w@));
            }
        } else {
            skipped = false;
        }
        if !skipped {
            let pvec = needle_patterns(needles);
            proof {
                assert forall|t: int|
                    0 <= t < pats.len() implies (#[trigger] pats[t]).len() >= 1 by {
                    assert(pats[t] == needles@[t].val@);
                }
            }
            matches = find_matches(&pvec, w.as_slice());
        }

        // translate to absolute offsets and deduplicate: an occurrence is
        // reported only the first time its (needle, offset) pair is seen
        let ghost seen0 = self.found_pairs@;
        let ghost lifted = lift_pairs(matches@, ws as int);
        proof {
            lemma_lifted_char(pats, w@, ws as int);
            lemma_match_seq_characterizes(pats, w@);
        }
        let mut new_matches: Vec<(usize, u64)> = Vec::new();
        let mut idx: usize = 0;
        proof {
            assert(new_matches@ =~= dedup_new(lifted.take(0), seen0));
        }
        while idx < matches.len()
            invariant
                idx <= matches@.len(),
                matches@ == match_seq(pats, w@),
                lifted == lift_pairs(matches@, ws as int),
                seen0 == self.found_pairs@,
                new_matches@ == dedup_new(lifted.take(idx as int), seen0),
                ws + w@.len() <= u64::MAX,
                w@.len() <= usize::MAX,
                pats.len() <= usize::MAX,
                patterns_nonempty(pats),
            decreases matches@.len() - idx,
        {
            let pair = matches[idx];
            proof {
                lemma_match_seq_characterizes(pats, w@);
                assert(matches@.contains(matches@[idx as int]));
                assert(valid_entry(pats, w@, matches@[idx as int]));
                assert(pair.1 + pats[pair.0 as int].len() <= w@.len());
            }
            let abs: u64 = ws + (pair.1 as u64);
            let e = (pair.0, abs);
            proof {
                assert(lifted[idx as int] == (matches@[idx as int].0, (ws + matches@[idx as int].1)
                    as u64));
                assert(lifted[idx as int] == e);
                assert(lifted.take(idx + 1).drop_last() =~= lifted.take(idx as int));
                assert(lifted.take(idx + 1).last() == e);
            }
            if !contains_pair(&self.found_pairs, e) {
                new_matches.push(e);
                proof {
                    assert(dedup_new(lifted.take(idx + 1), seen0) == dedup_new(
                        lifted.take(idx as int),
                        seen0,
                    ) + seq![e]);
                    assert(new_matches@ =~= dedup_new(lifted.take(idx as int), seen0) + seq![e]);
                }
            } else {
                proof {
                    assert(dedup_new(lifted.take(idx + 1), seen0) == dedup_new(
                        lifted.take(idx as int),
                        seen0,
                    ) + Seq::<(usize, u64)>::empty());
                    assert(new_matches@ =~= dedup_new(lifted.take(idx as int), seen0)
                        + Seq::<(usize, u64)>::empty());
                }
            }
            idx += 1;
        }
        proof {
            assert(lifted.take(matches@.len() as int) =~= lifted);
            assert(new_matches@ == dedup_new(lifted, seen0));
        }

        // commit: extend the reported set, replace the window, advance the
        // stream and the counters
        let ghost pre = *self;
        let nlen = new_matches.len();
        let mut t3: usize = 0;
        while t3 < nlen
            invariant
                t3 <= nlen,
                nlen == new_matches@.len(),
                self.found_pairs@ == seen0 + new_matches@.take(t3 as int),
                self.haystack_chunk_buffer == pre.haystack_chunk_buffer,
                self.total_haystack_bytes_read == pre.total_haystack_bytes_read,
                self.chunk_count == pre.chunk_count,
                self.partial_chunk_read_count == pre.partial_chunk_read_count,
                self.needle_vals_found == pre.needle_vals_found,
                self.carry_len == pre.carry_len,
                self.stream == pre.stream,
                seen0 == pre.found_pairs@,
            decreases nlen - t3,
        {
            let e = new_matches[t3];
            self.found_pairs.push(e);
            proof {
                assert(self.found_pairs@ =~= seen0 + new_matches@.take(t3 + 1));
            }
            t3 += 1;
        }
        proof {
            assert(new_matches@.take(nlen as int) =~= new_matches@);
        }
        self.haystack_chunk_buffer = w;
        self.total_haystack_bytes_read = self.total_haystack_bytes_read + (dlen as u64);
        proof {
            assert(self.chunk_count as int <= s0.len());
        }
        self.chunk_count = self.chunk_count + 1;
        self.stream = Ghost(s0 + data@);

        // the reported set now characterizes exactly the occurrences of
        // the extended stream
        proof {
            let s1 = self.stream@;
            let wv = self.haystack_chunk_buffer@;
            lemma_stream_extension(pats, s0, data@, kk);
            lemma_dedup_new_char(lifted, seen0);
            lemma_dedup_new_distinct(lifted, seen0);
            assert(wv == s1.skip(s1.len() - wv.len()));
            assert forall|e: (usize, u64)| #[trigger]
                self.found_pairs@.contains(e) <==> ((e.0 as int) < needles@.len() && is_match_at(
                    s1,
                    pats[e.0 as int],
                    e.1 as int,
                )) by {
                lemma_contains_add(seen0, new_matches@, e);
                if (e.0 as int) < needles@.len() {
                    assert(is_match_at(s0 + data@, pats[e.0 as int], e.1 as int) <==> (is_match_at(
                        s0,
                        pats[e.0 as int],
                        e.1 as int,
                    ) || (ws <= e.1 && is_match_at(w@, pats[e.0 as int], e.1 - ws))));
                }
            }
            assert forall|k1: int, k2: int|
                0 <= k1 < k2 < self.found_pairs@.len() implies self.found_pairs@[k1]
                != self.found_pairs@[k2] by {
                let fp = self.found_pairs@;
                if k2 >= seen0.len() {
                    let e2 = new_matches@[k2 - seen0.len()];
                    assert(fp[k2] == e2);
                    assert(new_matches@.contains(e2));
                    assert(!seen0.contains(e2));
                    if k1 < seen0.len() {
                        assert(fp[k1] == seen0[k1]);
                        if fp[k1] == e2 {
                            assert(seen0.contains(seen0[k1]));
                        }
                    } else {
                        assert(fp[k1] == new_matches@[k1 - seen0.len()]);
                    }
                } else {
                    assert(fp[k1] == seen0[k1]);
                    assert(fp[k2] == seen0[k2]);
                }
            }
        }
        new_matches
    }

    /// Notes one short read.  At most one is expected per scan; the result
    /// says whether one had already happened (a protocol-violation
    /// warning, not fatal).
    pub fn record_partial_read(&mut self) -> (already: bool)
        requires
            old(self).partial_chunk_read_count < u32::MAX,
        ensures
            final(self).partial_chunk_read_count == old(self).partial_chunk_read_count + 1,
            already == (old(self).partial_chunk_read_count > 0),
            final(self).haystack_chunk_buffer == old(self).haystack_chunk_buffer,
            final(self).total_haystack_bytes_read == old(self).total_haystack_bytes_read,
            final(self).chunk_count == old(self).chunk_count,
            final(self).needle_vals_found == old(self).needle_vals_found,
            final(self).found_pairs == old(self).found_pairs,
            final(self).carry_len == old(self).carry_len,
            final(self).stream == old(self).stream,
    {
        let already = self.partial_chunk_read_count > 0;
        self.partial_chunk_read_count = self.partial_chunk_read_count + 1;
        already
    }

    /// Appends one built record to the accumulated list.
    pub fn push_found_record(&mut self, record: NeedleValFound)
        ensures
            final(self).needle_vals_found@ == old(self).needle_vals_found@.push(record),
            final(self).haystack_chunk_buffer == old(self).haystack_chunk_buffer,
            final(self).total_haystack_bytes_read == old(self).total_haystack_bytes_read,
            final(self).chunk_count == old(self).chunk_count,
            final(self).partial_chunk_read_count == old(self).partial_chunk_read_count,
            final(self).found_pairs == old(self).found_pairs,
            final(self).carry_len == old(self).carry_len,
            final(self).stream == old(self).stream,
    {
        self.needle_vals_found.push(record);
    }

    /// Translates an absolute offset inside the current window back to an
    /// in-buffer position.
    pub fn pos_in_buffer(&self, abs: u64) -> (pos: usize)
        requires
            self.haystack_chunk_buffer@.len() <= self.total_haystack_bytes_read,
            self.window_start() <= abs < self.total_haystack_bytes_read,
        ensures
            pos as int == abs - self.window_start(),
            pos < self.haystack_chunk_buffer@.len(),
    {
        let blen = self.haystack_chunk_buffer.len();
        let wstart = self.total_haystack_bytes_read - (blen as u64);
        (abs - wstart) as usize
    }
}

/// Reports whether `ps` already holds the pair `e`.
fn contains_pair(ps: &Vec<(usize, u64)>, e: (usize, u64)) -> (r: bool)
    ensures
        r == ps@.contains(e),
{
    let n = ps.len();
    let mut i: usize = 0;
    while i < n
        invariant
            i <= n,
            n == ps@.len(),
            forall|t: int| 0 <= t < i ==> ps@[t] != e,
        decreases n - i,
    {
        let p = ps[i];
        if p.0 == e.0 && p.1 == e.1 {
            assert(ps@[i as int] == e);
            return true;
        }
        i += 1;
    }
    assert(!ps@.contains(e));
    false
}

/// Reports whether every byte of `w` equals `v`.
fn vec_all_eq(w: &Vec<u8>, v: u8) -> (r: bool)
    ensures
        r == all_bytes_eq(w@, v),
{
    let n = w.len();
    let mut i: usize = 0;
    while i < n
        invariant
            i <= n,
            n == w@.len(),
            forall|t: int| 0 <= t < i ==> #[trigger] w@[t] == v,
        decreases n - i,
    {
        if w[i] != v {
            return false;
        }
        i += 1;
    }
    true
}

/// Reports whether every needle's pattern holds at least one byte that
/// differs from `v`: the condition under which a uniform window of `v`
/// bytes can be skipped without missing an occurrence.
fn all_needles_have_other_byte(needles: &Vec<Needle>, v: u8) -> (r: bool)
    ensures
        r == (forall|j: int|
            0 <= j < needles@.len() ==> has_byte_other_than(
                #[trigger] needle_pattern_views(needles@)[j],
                v,
            )),
{
    let n = needles.len();
    let mut j: usize = 0;
    while j < n
        invariant
            j <= n,
            n == needles@.len(),
            forall|t: int|
                0 <= t < j ==> has_byte_other_than(#[trigger] needle_pattern_views(needles@)[t], v),
        decreases n - j,
    {
        if !vec_has_byte_other(&needles[j].val, v) {
            proof {
                assert(needle_pattern_views(needles@)[j as int] == needles@[j as int].val@);
            }
            return false;
        }
        proof {
            assert(needle_pattern_views(needles@)[j as int] == needles@[j as int].val@);
        }
        j += 1;
    }
    true
}

/// Reports whether `p` holds at least one byte different from `v`.
fn vec_has_byte_other(p: &Vec<u8>, v: u8) -> (r: bool)
    ensures
        r == has_byte_other_than(p@, v),
{
    let n = p.len();
    let mut i: usize = 0;
    while i < n
        invariant
            i <= n,
            n == p@.len(),
            forall|t: int| 0 <= t < i ==> #[trigger] p@[t] == v,
        decreases n - i,
    {
        if p[i] != v {
            assert(p@[i as int] != v);
            return true;
        }
        i += 1;
    }
    false
}

/// The byte patterns of the needle list, copied into their own vector for
/// the matching pass.
fn needle_patterns(needles: &Vec<Needle>) -> (r: Vec<Vec<u8>>)
    ensures
        pattern_views(r@) == needle_pattern_views(needles@),
{
    let n = needles.len();
    let mut r: Vec<Vec<u8>> = Vec::new();
    let mut j: usize = 0;
    while j < n
        invariant
            j <= n,
            n == needles@.len(),
            r@.len() == j,
            forall|t: int| 0 <= t < j ==> (#[trigger] r@[t])@ == needles@[t].val@,
        decreases n - j,
    {
        let src = &needles[j].val;
        let m = src.len();
        let mut p: Vec<u8> = Vec::new();
        let mut i: usize = 0;
        while i < m
            invariant
                i <= m,
                m == src@.len(),
                p@ == src@.take(i as int),
            decreases m - i,
        {
            let b = src[i];
            p.push(b);
            proof {
                assert(p@ =~= src@.take(i + 1));
            }
            i += 1;
        }
        proof {
            assert(p@ =~= src@);
        }
        r.push(p);
        j += 1;
    }
    proof {
        assert forall|t: int| 0 <= t < n implies pattern_views(r@)[t] == needle_pattern_views(
            needles@,
        )[t] by {
            assert(pattern_views(r@)[t] == r@[t]@);
            assert(needle_pattern_views(needles@)[t] == needles@[t].val@);
        }
        assert(pattern_views(r@) =~= needle_pattern_views(needles@));
    }
    r
}

/// The canonical result of a chunked scan: starting at position `i` of
/// `h` with the occurrences `acc` already reported, consume reads of
/// `rs` bytes (the last one shorter) and accumulate what each window
/// adds.  A function of its arguments alone: re-running a scan with the
/// same inputs and parameters yields exactly this sequence.
pub open spec fn scan_pairs_from(
    pats: Seq<Seq<u8>>,
    h: Seq<u8>,
    rs: int,
    k: int,
    i: int,
    acc: Seq<(usize, u64)>,
) -> Seq<(usize, u64)>
    decreases h.len() - i,
{
    if i < 0 || i >= h.len() || rs < 1 {
        acc
    } else {
        let e = if i + rs <= h.len() {
            i + rs
        } else {
            h.len() as int
        };
        scan_pairs_from(pats, h, rs, k, e, acc + new_pairs_spec(pats, h.take(i), k, h.subrange(i, e), acc))
    }
}

/// The full canonical result of scanning `h` in reads of `rs` bytes with
/// carry-forward `k`.
pub open spec fn scan_pairs_spec(pats: Seq<Seq<u8>>, h: Seq<u8>, rs: int, k: int) -> Seq<
    (usize, u64),
> {
    scan_pairs_from(pats, h, rs, k, 0, Seq::empty())
}

/// Scans a whole in-memory haystack through fixed-size reads with
/// carry-forward, exactly as a sequential byte source is scanned.  The
/// result state reports each occurrence of each needle in the haystack
/// exactly once (the boundary-equivalence guarantee, stated by `wf`), in
/// the canonical order `scan_pairs_spec` (the idempotent-re-run
/// guarantee).
pub fn run_scan_chunked(needles: &Vec<Needle>, haystack: &[u8], read_size: usize, carry_len: usize) -> (st:
    ProcessDataState)
    requires
        needles_wf(needles@),
        needles@.len() <= usize::MAX,
        needles_fit_carry(needles@, carry_len as int),
        read_size >= 1,
        haystack@.len() <= u64::MAX,
        carry_len + read_size + read_size <= usize::MAX,
    ensures
        st.wf(needles@),
        st.stream@ == haystack@,
        st.carry_len == carry_len,
        st.found_pairs@ == scan_pairs_spec(
            needle_pattern_views(needles@),
            haystack@,
            read_size as int,
            carry_len as int,
        ),
        st.partial_chunk_read_count == 0,
{
    let ghost pats = needle_pattern_views(needles@);
    let ghost h = haystack@;
    let hlen = haystack.len();
    let mut st = ProcessDataState::new(carry_len);
    let mut i: usize = 0;
    proof {
        assert(st.stream@ =~= h.take(0));
    }
    while i < hlen
        invariant
            i <= hlen,
            hlen == h.len(),
            h == haystack@,
            pats == needle_pattern_views(needles@),
            needles_wf(needles@),
            needles@.len() <= usize::MAX,
            needles_fit_carry(needles@, carry_len as int),
            read_size >= 1,
            h.len() <= u64::MAX,
            carry_len + read_size + read_size <= usize::MAX,
            st.wf(needles@),
            st.carry_len == carry_len,
            st.partial_chunk_read_count == 0,
            st.haystack_chunk_buffer@.len() <= carry_len + read_size,
            st.stream@ == h.take(i as int),
            scan_pairs_spec(pats, h, read_size as int, carry_len as int) == scan_pairs_from(
                pats,
                h,
                read_size as int,
                carry_len as int,
                i as int,
                st.found_pairs@,
            ),
        decreases hlen - i,
    {
        let e = if hlen - i <= read_size {
            hlen
        } else {
            i + read_size
        };
        let data = vstd::slice::slice_subrange(haystack, i, e);
        proof {
            assert(data@ == h.subrange(i as int, e as int));
            assert(st.total_haystack_bytes_read as int == i as int);
            assert(st.total_haystack_bytes_read + data@.len() <= u64::MAX);
            assert(st.haystack_chunk_buffer@.len() <= carry_len + read_size);
        }
        let ghost acc0 = st.found_pairs@;
        let ghost s_before = st.stream@;
        let new_matches = st.do_search(needles, data);
        proof {
            assert(st.haystack_chunk_buffer@ == window_spec(
                s_before,
                carry_len as int,
                data@,
            ));
            assert(st.haystack_chunk_buffer@.len() <= carry_len + read_size);
            assert(st.stream@ =~= h.take(e as int));
            assert(h.take(i as int) == (h.take(e as int)).take(i as int));
            assert(scan_pairs_from(pats, h, read_size as int, carry_len as int, i as int, acc0)
                == scan_pairs_from(
                pats,
                h,
                read_size as int,
                carry_len as int,
                e as int,
                acc0 + new_pairs_spec(
                    pats,
                    h.take(i as int),
                    carry_len as int,
                    h.subrange(i as int, e as int),
                    acc0,
                ),
            ));
        }
        i = e;
    }
    proof {
        assert(h.take(hlen as int) =~= h);
        assert(scan_pairs_from(pats, h, read_size as int, carry_len as int, hlen as int, st.found_pairs@)
            == st.found_pairs@);
    }
    st
}

/// Scans a whole buffer in one pass, as a random-access byte source is
/// scanned: one window equal to the entire haystack, offsets absolute.
/// Reports each occurrence exactly once, in non-decreasing offset order.
pub fn scan_buffer(needles: &Vec<Needle>, hay: &[u8]) -> (r: Vec<(usize, u64)>)
    requires
        needles_wf(needles@),
        needles@.len() <= usize::MAX,
        hay@.len() <= u64::MAX,
    ensures
        r@ == lift_pairs(match_seq(needle_pattern_views(needles@), hay@), 0),
        pairs_distinct(r@),
        forall|e: (usize, u64)| #[trigger]
            r@.contains(e) <==> ((e.0 as int) < needles@.len() && is_match_at(
                hay@,
                needle_pattern_views(needles@)[e.0 as int],
                e.1 as int,
            )),
{
    let ghost pats = needle_pattern_views(needles@);
    let pvec = needle_patterns(needles);
    let hlen = hay.len();
    proof {
        assert forall|j: int| 0 <= j < pats.len() implies (#[trigger] pats[j]).len() >= 1 by {
            assert(pats[j] == needles@[j].val@);
        }
    }
    let matches = find_matches(&pvec, hay);
    let ghost lifted = lift_pairs(matches@, 0);
    proof {
        lemma_lifted_char(pats, hay@, 0);
        lemma_match_seq_characterizes(pats, hay@);
    }
    let mut r: Vec<(usize, u64)> = Vec::new();
    let mut idx: usize = 0;
    proof {
        assert(r@ =~= lifted.take(0));
    }
    while idx < matches.len()
        invariant
            idx <= matches@.len(),
            matches@ == match_seq(pats, hay@),
            lifted == lift_pairs(matches@, 0),
            hay@.len() <= u64::MAX,
            hay@.len() <= usize::MAX,
            pats.len() <= usize::MAX,
            patterns_nonempty(pats),
            r@ == lifted.take(idx as int),
        decreases matches@.len() - idx,
    {
        let pair = matches[idx];
        proof {
            lemma_match_seq_characterizes(pats, hay@);
            assert(matches@.contains(matches@[idx as int]));
            assert(valid_entry(pats, hay@, matches@[idx as int]));
            assert(pair.1 + pats[pair.0 as int].len() <= hay@.len());
            assert(lifted[idx as int] == (matches@[idx as int].0, (0 + matches@[idx as int].1)
                as u64));
        }
        r.push((pair.0, pair.1 as u64));
        proof {
            assert(r@ =~= lifted.take(idx + 1));
        }
        idx += 1;
    }
    proof {
        assert(lifted.take(matches@.len() as int) =~= lifted);
        lemma_lifted_char(pats, hay@, 0);
        assert forall|e: (usize, u64)| #[trigger]
            r@.contains(e) <==> ((e.0 as int) < needles@.len() && is_match_at(
                hay@,
                pats[e.0 as int],
                e.1 as int,
            )) by {
            assert(r@.contains(e) <==> lifted.contains(e));
        }
    }
    r
}

/// Boundary equivalence: scanning via fixed-size chunks with a large
/// enough carry-forward reports the same set of (needle, absolute offset)
/// pairs as scanning the whole buffer at once.  The two hypotheses are
/// exactly what `run_scan_chunked` (through `wf` with `stream == h`) and
/// `scan_buffer` ensure.
pub proof fn lemma_boundary_equivalence(
    needles: Seq<Needle>,
    h: Seq<u8>,
    chunked: Seq<(usize, u64)>,
    whole: Seq<(usize, u64)>,
)
    requires
        forall|e: (usize, u64)| #[trigger]
            chunked.contains(e) <==> ((e.0 as int) < needles.len() && is_match_at(
                h,
                needle_pattern_views(needles)[e.0 as int],
                e.1 as int,
            )),
        forall|e: (usize, u64)| #[trigger]
            whole.contains(e) <==> ((e.0 as int) < needles.len() && is_match_at(
                h,
                needle_pattern_views(needles)[e.0 as int],
                e.1 as int,
            )),
    ensures
        forall|e: (usize, u64)| chunked.contains(e) <==> whole.contains(e),
{
}

/// Idempotent re-run: two chunked scans over the same haystack with the
/// same needle set and the same chunk and carry parameters report exactly
/// the same occurrence sequence.  The hypotheses are what
/// `run_scan_chunked` ensures of each run.
pub proof fn lemma_rerun_identical(
    needles: Seq<Needle>,
    h: Seq<u8>,
    rs: int,
    k: int,
    first: Seq<(usize, u64)>,
    second: Seq<(usize, u64)>,
)
    requires
        first == scan_pairs_spec(needle_pattern_views(needles), h, rs, k),
        second == scan_pairs_spec(needle_pattern_views(needles), h, rs, k),
    ensures
        first == second,
{
}

}
