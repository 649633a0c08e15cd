//! The periodic summary over the structured records: per-needle match
//! count and maximum offset, grouped by needle name and ordered by
//! happiness level (descending), count (descending) and name (ascending).

use vstd::prelude::*;
use vstd::string::*;

use crate::record::NeedleValFound;

verus! {

/// One needle's row in the summary.
pub struct NeedleSummary {
    pub name: String,
    pub happiness_level: u8,
    pub count: u64,
    pub latest_global_offset: u64,
    pub description_notes: String,
}

/// How many records carry the given needle name.
pub open spec fn count_name(rs: Seq<NeedleValFound>, name: Seq<char>) -> nat
    decreases rs.len(),
{
    if rs.len() == 0 {
        0
    } else {
        count_name(rs.drop_last(), name) + (if rs.last().name@ == name {
            1nat
        } else {
            0nat
        })
    }
}

/// The largest match offset among the records with the given name, zero
/// when there is none.
pub open spec fn max_offset_name(rs: Seq<NeedleValFound>, name: Seq<char>) -> u64
    decreases rs.len(),
{
    if rs.len() == 0 {
        0
    } else {
        let m = max_offset_name(rs.drop_last(), name);
        if rs.last().name@ == name && rs.last().match_start_global_offset > m {
            rs.last().match_start_global_offset
        } else {
            m
        }
    }
}

/// The index of the first record with the given name.
pub open spec fn first_idx_name(rs: Seq<NeedleValFound>, name: Seq<char>) -> int
    decreases rs.len(),
{
    if rs.len() == 0 {
        0
    } else if rs[0].name@ == name {
        0
    } else {
        1 + first_idx_name(rs.skip(1), name)
    }
}

/// True when some record carries the given name.
pub open spec fn has_name(rs: Seq<NeedleValFound>, name: Seq<char>) -> bool {
    exists|i: int| 0 <= i < rs.len() && #[trigger] rs[i].name@ == name
}

/// True when the summary row `e` states exactly what the records say of
/// its needle: its count, its maximum offset, and the happiness level and
/// description of the first record with that name.
pub open spec fn entry_ok(rs: Seq<NeedleValFound>, e: NeedleSummary) -> bool {
    &&& has_name(rs, e.name@)
    &&& e.count == count_name(rs, e.name@)
    &&& e.latest_global_offset == max_offset_name(rs, e.name@)
    &&& 0 <= first_idx_name(rs, e.name@) < rs.len()
    &&& e.happiness_level == rs[first_idx_name(rs, e.name@)].happiness_level
    &&& e.description_notes@ == rs[first_idx_name(rs, e.name@)].description_notes@
}

/// Lexicographic order on names.
pub open spec fn str_lt(a: Seq<char>, b: Seq<char>) -> bool
    decreases a.len(),
{
    if b.len() == 0 {
        false
    } else if a.len() == 0 {
        true
    } else if a[0] != b[0] {
        a[0] < b[0]
    } else {
        str_lt(a.skip(1), b.skip(1))
    }
}

/// The summary order: happiness level descending, then count descending,
/// then name ascending.
pub open spec fn summary_before(a: NeedleSummary, b: NeedleSummary) -> bool {
    ||| a.happiness_level > b.happiness_level
    ||| (a.happiness_level == b.happiness_level && a.count > b.count)
    ||| (a.happiness_level == b.happiness_level && a.count == b.count && str_lt(a.name@, b.name@))
}

/// True when each row stands before the next in the summary order.
pub open spec fn summaries_sorted(out: Seq<NeedleSummary>) -> bool {
    forall|k: int| 0 <= k < out.len() - 1 ==> summary_before(#[trigger] out[k], out[k + 1])
}


/// True when some row of `gs` carries the given needle name.
pub open spec fn name_covered(gs: Seq<NeedleSummary>, name: Seq<char>) -> bool {
    exists|k: int| 0 <= k < gs.len() && (#[trigger] gs[k]).name@ == name
}

/// True when `e` is one of the rows of `gs`.
pub open spec fn row_of(gs: Seq<NeedleSummary>, e: NeedleSummary) -> bool {
    exists|j: int| 0 <= j < gs.len() && #[trigger] gs[j] == e
}

proof fn lemma_count_props(rs: Seq<NeedleValFound>, name: Seq<char>)
    ensures
        count_name(rs, name) <= rs.len(),
        count_name(rs, name) == 0 <==> !has_name(rs, name),
    decreases rs.len(),
{
    if rs.len() > 0 {
        lemma_count_props(rs.drop_last(), name);
        let dl = rs.drop_last();
        if count_name(rs, name) == 0 {
            assert(!has_name(dl, name));
            assert forall|i: int| 0 <= i < rs.len() implies #[trigger] rs[i].name@ != name by {
                if i < rs.len() - 1 {
                    assert(dl[i] == rs[i]);
                }
            }
        }
        if !has_name(rs, name) {
            assert forall|i: int| 0 <= i < dl.len() implies #[trigger] dl[i].name@ != name by {
                assert(dl[i] == rs[i]);
            }
            assert(!has_name(dl, name));
        }
        if has_name(rs, name) && count_name(dl, name) == 0 {
            let i = choose|i: int| 0 <= i < rs.len() && #[trigger] rs[i].name@ == name;
            if i < rs.len() - 1 {
                assert(dl[i] == rs[i]);
                assert(has_name(dl, name));
            }
        }
    }
}

proof fn lemma_max_none(rs: Seq<NeedleValFound>, name: Seq<char>)
    requires
        !has_name(rs, name),
    ensures
        max_offset_name(rs, name) == 0,
    decreases rs.len(),
{
    if rs.len() > 0 {
        let dl = rs.drop_last();
        assert forall|i: int| 0 <= i < dl.len() implies #[trigger] dl[i].name@ != name by {
            assert(dl[i] == rs[i]);
        }
        lemma_max_none(dl, name);
        assert(rs.last().name@ != name);
    }
}

proof fn lemma_first_idx_push(rs: Seq<NeedleValFound>, e: NeedleValFound, name: Seq<char>)
    ensures
        has_name(rs, name) ==> first_idx_name(rs.push(e), name) == first_idx_name(rs, name),
        (!has_name(rs, name) && e.name@ == name) ==> first_idx_name(rs.push(e), name) == rs.len(),
        has_name(rs, name) ==> (0 <= first_idx_name(rs, name) < rs.len() && rs[first_idx_name(
            rs,
            name,
        )].name@ == name),
    decreases rs.len(),
{
    let p = rs.push(e);
    if rs.len() == 0 {
        if e.name@ == name {
            assert(p[0] == e);
            assert(first_idx_name(p, name) == 0);
        }
    } else {
        assert(p[0] == rs[0]);
        if rs[0].name@ == name {
            assert(has_name(rs, name));
            assert(first_idx_name(p, name) == 0);
            assert(first_idx_name(rs, name) == 0);
        } else {
            let rt = rs.skip(1);
            assert(p.skip(1) =~= rt.push(e));
            lemma_first_idx_push(rt, e, name);
            if has_name(rs, name) {
                let i = choose|i: int| 0 <= i < rs.len() && #[trigger] rs[i].name@ == name;
                assert(i >= 1);
                assert(rt[i - 1] == rs[i]);
                assert(has_name(rt, name));
                assert(rs[1 + first_idx_name(rt, name)] == rt[first_idx_name(rt, name)]);
            } else {
                assert forall|i: int| 0 <= i < rt.len() implies #[trigger] rt[i].name@ != name by {
                    assert(rt[i] == rs[i + 1]);
                }
                assert(!has_name(rt, name));
            }
        }
    }
}

proof fn lemma_str_lt_total(a: Seq<char>, b: Seq<char>)
    requires
        a != b,
    ensures
        str_lt(a, b) || str_lt(b, a),
    decreases a.len(),
{
    if a.len() == 0 && b.len() == 0 {
        assert(a =~= b);
    } else if b.len() == 0 {
        assert(str_lt(b, a));
    } else if a.len() == 0 {
    } else if a[0] != b[0] {
    } else {
        assert(a.skip(1).len() == a.len() - 1);
        assert(b.skip(1).len() == b.len() - 1);
        if a.skip(1) == b.skip(1) {
            assert(a.len() == b.len());
            assert forall|i: int| 0 <= i < a.len() implies a[i] == b[i] by {
                if i > 0 {
                    assert(a.skip(1)[i - 1] == a[i]);
                    assert(b.skip(1)[i - 1] == b[i]);
                }
            }
            assert(a =~= b);
        }
        lemma_str_lt_total(a.skip(1), b.skip(1));
    }
}

proof fn lemma_summary_before_total(a: NeedleSummary, b: NeedleSummary)
    requires
        a.name@ != b.name@,
    ensures
        summary_before(a, b) || summary_before(b, a),
{
    if a.happiness_level == b.happiness_level && a.count == b.count {
        lemma_str_lt_total(a.name@, b.name@);
    }
}

/// Compares two names lexicographically.
fn str_lt_exec(a: &str, b: &str) -> (r: bool)
    ensures
        r == str_lt(a@, b@),
{
    let n = a.unicode_len();
    let m = b.unicode_len();
    let lim = if n <= m {
        n
    } else {
        m
    };
    let mut i: usize = 0;
    proof {
        assert(a@.skip(0) =~= a@);
        assert(b@.skip(0) =~= b@);
    }
    while i < lim
        invariant
            i <= lim,
            n == a@.len(),
            m == b@.len(),
            lim == (if n <= m {
                n
            } else {
                m
            }),
            str_lt(a@, b@) == str_lt(a@.skip(i as int), b@.skip(i as int)),
        decreases lim - i,
    {
        let x = a.get_char(i);
        let y = b.get_char(i);
        proof {
            assert(a@.skip(i as int)[0] == a@[i as int]);
            assert(b@.skip(i as int)[0] == b@[i as int]);
            assert(a@.skip(i as int).skip(1) =~= a@.skip(i + 1));
            assert(b@.skip(i as int).skip(1) =~= b@.skip(i + 1));
        }
        if x != y {
            return x < y;
        }
        i += 1;
    }
    proof {
        assert(a@.skip(i as int).len() == n - i);
        assert(b@.skip(i as int).len() == m - i);
    }
    n < m
}

fn summary_before_exec(a: &NeedleSummary, b: &NeedleSummary) -> (r: bool)
    ensures
        r == summary_before(*a, *b),
{
    if a.happiness_level > b.happiness_level {
        true
    } else if a.happiness_level == b.happiness_level && a.count > b.count {
        true
    } else if a.happiness_level == b.happiness_level && a.count == b.count {
        str_lt_exec(a.name.as_str(), b.name.as_str())
    } else {
        false
    }
}

fn find_group(groups: &Vec<NeedleSummary>, name: &String) -> (r: Option<usize>)
    ensures
        r matches Some(k) ==> (k < groups@.len() && groups@[k as int].name@ == name@),
        r is None ==> forall|k: int| 0 <= k < groups@.len() ==> (#[trigger] groups@[k]).name@
            != name@,
{
    let n = groups.len();
    let mut k: usize = 0;
    while k < n
        invariant
            k <= n,
            n == groups@.len(),
            forall|t: int| 0 <= t < k ==> (#[trigger] groups@[t]).name@ != name@,
        decreases n - k,
    {
        if groups[k].name.eq(name) {
            return Some(k);
        }
        k += 1;
    }
    None
}

/// Builds one unsorted row per distinct needle name.
#[verifier::rlimit(60)]
fn group_records(records: &Vec<NeedleValFound>) -> (groups: Vec<NeedleSummary>)
    requires
        records@.len() <= u64::MAX,
    ensures
        forall|k: int| 0 <= k < groups@.len() ==> entry_ok(records@, #[trigger] groups@[k]),
        forall|k1: int, k2: int|
            0 <= k1 < k2 < groups@.len() ==> (#[trigger] groups@[k1]).name@
                != (#[trigger] groups@[k2]).name@,
        forall|i: int|
            0 <= i < records@.len() ==> name_covered(groups@, (#[trigger] records@[i]).name@),
{
    let n = records.len();
    let mut groups: Vec<NeedleSummary> = Vec::new();
    let mut i: usize = 0;
    proof {
        assert(records@.take(0) =~= Seq::<NeedleValFound>::empty());
    }
    while i < n
        invariant
            i <= n,
            n == records@.len(),
            n <= u64::MAX,
            forall|k: int|
                0 <= k < groups@.len() ==> entry_ok(records@.take(i as int), #[trigger] groups@[k]),
            forall|k1: int, k2: int|
                0 <= k1 < k2 < groups@.len() ==> (#[trigger] groups@[k1]).name@
                    != (#[trigger] groups@[k2]).name@,
            forall|t: int|
                0 <= t < i ==> name_covered(groups@, (#[trigger] records@[t]).name@),
        decreases n - i,
    {
        let rec = &records[i];
        let ghost pre = records@.take(i as int);
        let ghost cur = records@.take(i + 1);
        let ghost groups0 = groups@;
        proof {
            assert(cur.drop_last() =~= pre);
            assert(cur.last() == records@[i as int]);
        }
        match find_group(&groups, &rec.name) {
            Some(k) => {
                let old_count = groups[k].count;
                let old_max = groups[k].latest_global_offset;
                let off = rec.match_start_global_offset;
                let new_max = if off > old_max {
                    off
                } else {
                    old_max
                };
                proof {
                    lemma_count_props(pre, groups@[k as int].name@);
                    assert(old_count < u64::MAX);
                }
                let updated = NeedleSummary {
                    name: groups[k].name.clone(),
                    happiness_level: groups[k].happiness_level,
                    count: old_count + 1,
                    latest_global_offset: new_max,
                    description_notes: groups[k].description_notes.clone(),
                };
                groups[k] = updated;
                proof {
                    assert(groups@ =~= groups0.update(k as int, updated));
                    assert(updated.name@ == groups0[k as int].name@);
                    assert forall|t: int|
                        0 <= t < groups@.len() implies entry_ok(cur, #[trigger] groups@[t]) by {
                        let e = groups@[t];
                        let name = e.name@;
                        assert(entry_ok(pre, groups0[t]));
                        lemma_first_idx_push(pre, records@[i as int], name);
                        assert(cur =~= pre.push(records@[i as int]));
                        if t != k {
                            assert(e == groups0[t]);
                            assert(records@[i as int].name@ != name);
                        }
                        if first_idx_name(pre, name) < pre.len() {
                            assert(cur[first_idx_name(pre, name)] == pre[first_idx_name(
                                pre,
                                name,
                            )]);
                        }
                    }
                    assert forall|t: int|
                        0 <= t < i + 1 implies name_covered(
                        groups@,
                        (#[trigger] records@[t]).name@,
                    ) by {
                        if t < i {
                            let k0 = choose|k0: int|
                                0 <= k0 < groups0.len() && (#[trigger] groups0[k0]).name@
                                    == records@[t].name@;
                            assert(groups@[k0].name@ == records@[t].name@);
                        } else {
                            assert(groups@[k as int].name@ == records@[i as int].name@);
                        }
                    }
                }
            },
            None => {
                let fresh = NeedleSummary {
                    name: rec.name.clone(),
                    happiness_level: rec.happiness_level,
                    count: 1,
                    latest_global_offset: rec.match_start_global_offset,
                    description_notes: rec.description_notes.clone(),
                };
                groups.push(fresh);
                proof {
                    let name = records@[i as int].name@;
                    assert(!has_name(pre, name)) by {
                        if has_name(pre, name) {
                            let t = choose|t: int|
                                0 <= t < pre.len() && #[trigger] pre[t].name@ == name;
                            assert(pre[t] == records@[t]);
                            assert(name_covered(groups0, records@[t].name@));
                            let k0 = choose|k0: int|
                                0 <= k0 < groups0.len() && (#[trigger] groups0[k0]).name@
                                    == records@[t].name@;
                        }
                    }
                    lemma_count_props(pre, name);
                    lemma_max_none(pre, name);
                    lemma_first_idx_push(pre, records@[i as int], name);
                    assert(cur =~= pre.push(records@[i as int]));
                    assert(cur[pre.len() as int] == records@[i as int]);
                    assert forall|t: int|
                        0 <= t < groups@.len() implies entry_ok(cur, #[trigger] groups@[t]) by {
                        let e = groups@[t];
                        let ename = e.name@;
                        lemma_first_idx_push(pre, records@[i as int], ename);
                        if t < groups@.len() - 1 {
                            assert(e == groups0[t]);
                            assert(entry_ok(pre, e));
                            assert(ename != name);
                            if first_idx_name(pre, ename) < pre.len() {
                                assert(cur[first_idx_name(pre, ename)] == pre[first_idx_name(
                                    pre,
                                    ename,
                                )]);
                            }
                        } else {
                            assert(e == fresh);
                            assert(ename == name);
                        }
                    }
                    assert forall|t: int|
                        0 <= t < i + 1 implies name_covered(
                        groups@,
                        (#[trigger] records@[t]).name@,
                    ) by {
                        if t < i {
                            let k0 = choose|k0: int|
                                0 <= k0 < groups0.len() && (#[trigger] groups0[k0]).name@
                                    == records@[t].name@;
                            assert(groups@[k0].name@ == records@[t].name@);
                        } else {
                            assert(groups@[groups@.len() - 1].name@ == records@[i as int].name@);
                        }
                    }
                    assert forall|k1: int, k2: int|
                        0 <= k1 < k2 < groups@.len() implies (#[trigger] groups@[k1]).name@
                        != (#[trigger] groups@[k2]).name@ by {
                        if k2 == groups@.len() - 1 {
                            assert(groups@[k1] == groups0[k1]);
                            assert(entry_ok(pre, groups0[k1]));
                            assert(groups@[k2].name@ == name);
                            if groups0[k1].name@ == name {
                                assert(has_name(pre, name));
                            }
                        } else {
                            assert(groups@[k1] == groups0[k1]);
                            assert(groups@[k2] == groups0[k2]);
                        }
                    }
                }
            },
        }
        i += 1;
    }
    proof {
        assert(records@.take(n as int) =~= records@);
    }
    groups
}

proof fn lemma_insert_ordered(out0: Seq<NeedleSummary>, e: NeedleSummary, p: int)
    requires
        summaries_sorted(out0),
        0 <= p <= out0.len(),
        forall|t: int| 0 <= t < p ==> summary_before(#[trigger] out0[t], e),
        p < out0.len() ==> summary_before(e, out0[p]),
    ensures
        summaries_sorted(out0.insert(p, e)),
        forall|k: int|
            0 <= k < out0.insert(p, e).len() ==> (#[trigger] out0.insert(p, e)[k] == (if k < p {
                out0[k]
            } else if k == p {
                e
            } else {
                out0[k - 1]
            })),
{
    let cur = out0.insert(p, e);
    out0.insert_ensures(p, e);
    assert forall|k: int|
        0 <= k < cur.len() - 1 implies summary_before(#[trigger] cur[k], cur[k + 1]) by {
        if k + 1 < p {
            assert(cur[k] == out0[k]);
            assert(cur[k + 1] == out0[k + 1]);
        } else if k + 1 == p {
            assert(cur[k] == out0[k]);
            assert(cur[k + 1] == e);
        } else if k == p {
            assert(cur[k] == e);
            assert(cur[k + 1] == out0[k]);
        } else {
            assert(cur[k] == out0[k - 1]);
            assert(cur[k + 1] == out0[k]);
        }
    }
}

/// Orders the rows by happiness level descending, count descending, name
/// ascending.
#[verifier::rlimit(60)]
fn sort_summaries(groups: &Vec<NeedleSummary>) -> (out: Vec<NeedleSummary>)
    requires
        forall|k1: int, k2: int|
            0 <= k1 < k2 < groups@.len() ==> (#[trigger] groups@[k1]).name@
                != (#[trigger] groups@[k2]).name@,
    ensures
        forall|k: int| 0 <= k < out@.len() ==> row_of(groups@, #[trigger] out@[k]),
        forall|j: int| 0 <= j < groups@.len() ==> row_of(out@, #[trigger] groups@[j]),
        summaries_sorted(out@),
{
    let gn = groups.len();
    let mut out: Vec<NeedleSummary> = Vec::new();
    let mut g: usize = 0;
    while g < gn
        invariant
            g <= gn,
            gn == groups@.len(),
            forall|k1: int, k2: int|
                0 <= k1 < k2 < groups@.len() ==> (#[trigger] groups@[k1]).name@
                    != (#[trigger] groups@[k2]).name@,
            out@.len() == g,
            forall|k: int| 0 <= k < out@.len() ==> row_of(groups@.take(g as int), #[trigger] out@[k]),
            forall|j: int| 0 <= j < g ==> row_of(out@, #[trigger] groups@[j]),
            summaries_sorted(out@),
        decreases gn - g,
    {
        let entry = NeedleSummary {
            name: groups[g].name.clone(),
            happiness_level: groups[g].happiness_level,
            count: groups[g].count,
            latest_global_offset: groups[g].latest_global_offset,
            description_notes: groups[g].description_notes.clone(),
        };
        proof {
            assert(entry == groups@[g as int]);
        }
        let olen = out.len();
        let mut p: usize = 0;
        let mut searching = true;
        while searching && p < olen
            invariant
                p <= olen,
                olen == out@.len(),
                forall|t: int| 0 <= t < p ==> !summary_before(entry, #[trigger] out@[t]),
                !searching ==> (p < olen && summary_before(entry, out@[p as int])),
            decreases olen - p + (if searching {
                1int
            } else {
                0int
            }),
        {
            if summary_before_exec(&entry, &out[p]) {
                searching = false;
            } else {
                p += 1;
            }
        }
        let ghost out0 = out@;
        proof {
            assert forall|t: int| 0 <= t < p implies summary_before(#[trigger] out0[t], entry) by {
                assert(row_of(groups@.take(g as int), out0[t]));
                let j = choose|j: int|
                    0 <= j < groups@.take(g as int).len() && #[trigger] groups@.take(
                        g as int,
                    )[j] == out0[t];
                assert(groups@[j] == out0[t]);
                assert(groups@[j].name@ != groups@[g as int].name@);
                lemma_summary_before_total(out0[t], entry);
            }
        }
        out.insert(p, entry);
        proof {
            lemma_insert_ordered(out0, entry, p as int);
            assert(out@ == out0.insert(p as int, entry));
            assert forall|k: int|
                0 <= k < out@.len() implies row_of(groups@.take(g + 1), #[trigger] out@[k]) by {
                if k < p {
                    assert(out@[k] == out0[k]);
                    let j = choose|j: int|
                        0 <= j < groups@.take(g as int).len() && #[trigger] groups@.take(
                            g as int,
                        )[j] == out0[k];
                    assert(groups@.take(g + 1)[j] == out@[k]);
                } else if k == p {
                    assert(out@[k] == entry);
                    assert(groups@.take(g + 1)[g as int] == out@[k]);
                } else {
                    assert(out@[k] == out0[k - 1]);
                    let j = choose|j: int|
                        0 <= j < groups@.take(g as int).len() && #[trigger] groups@.take(
                            g as int,
                        )[j] == out0[k - 1];
                    assert(groups@.take(g + 1)[j] == out@[k]);
                }
            }
            assert forall|j: int| 0 <= j < g + 1 implies row_of(out@, #[trigger] groups@[j]) by {
                if j < g {
                    let k0 = choose|k0: int| 0 <= k0 < out0.len() && #[trigger] out0[k0] == groups@[j];
                    if k0 < p {
                        assert(out@[k0] == groups@[j]);
                    } else {
                        assert(out@[k0 + 1] == groups@[j]);
                    }
                } else {
                    assert(out@[p as int] == groups@[j]);
                }
            }
        }
        g += 1;
    }
    proof {
        assert forall|k: int| 0 <= k < out@.len() implies row_of(groups@, #[trigger] out@[k]) by {
            assert(row_of(groups@.take(gn as int), out@[k]));
            let j = choose|j: int|
                0 <= j < groups@.take(gn as int).len() && #[trigger] groups@.take(
                    gn as int,
                )[j] == out@[k];
            assert(groups@[j] == out@[k]);
        }
    }
    out
}

/// Groups the records by needle name and computes each needle's match
/// count, maximum offset, and first-seen happiness level and description;
/// the rows come ordered by happiness level descending, then count
/// descending, then name ascending.  This is the summary the scan-wide
/// record log is kept stable for.
pub fn summarize_records(records: &Vec<NeedleValFound>) -> (out: Vec<NeedleSummary>)
    requires
        records@.len() <= u64::MAX,
    ensures
        forall|k: int| 0 <= k < out@.len() ==> entry_ok(records@, #[trigger] out@[k]),
        forall|k1: int, k2: int|
            0 <= k1 < k2 < out@.len() ==> (#[trigger] out@[k1]).name@ != (#[trigger] out@[k2]).name@,
        forall|i: int|
            0 <= i < records@.len() ==> name_covered(out@, (#[trigger] records@[i]).name@),
        summaries_sorted(out@),
{
    let groups = group_records(records);
    let out = sort_summaries(&groups);
    proof {
        let gn = groups@.len();
        assert forall|k: int| 0 <= k < out@.len() implies entry_ok(records@, #[trigger] out@[k]) by {
            let j = choose|j: int| 0 <= j < gn && #[trigger] groups@[j] == out@[k];
            assert(entry_ok(records@, groups@[j]));
        }
        assert forall|k1: int, k2: int|
            0 <= k1 < k2 < out@.len() implies (#[trigger] out@[k1]).name@
            != (#[trigger] out@[k2]).name@ by {
            if out@[k1].name@ == out@[k2].name@ {
                // rows with one name carry the same keys, so the strict
                // order between their positions would need a name below
                // itself
                assert(entry_ok(records@, out@[k1]));
                assert(entry_ok(records@, out@[k2]));
                lemma_sorted_chain(out@, k1, k2);
                assert(str_lt(out@[k1].name@, out@[k2].name@));
                lemma_str_lt_irrefl(out@[k1].name@);
            }
        }
        assert forall|i2: int|
            0 <= i2 < records@.len() implies name_covered(
            out@,
            (#[trigger] records@[i2]).name@,
        ) by {
            let kg = choose|kg: int|
                0 <= kg < groups@.len() && (#[trigger] groups@[kg]).name@ == records@[i2].name@;
            assert(row_of(out@, groups@[kg]));
            let k = choose|k: int| 0 <= k < out@.len() && #[trigger] out@[k] == groups@[kg];
            assert(out@[k].name@ == records@[i2].name@);
        }
    }
    out
}

proof fn lemma_str_lt_irrefl(a: Seq<char>)
    ensures
        !str_lt(a, a),
    decreases a.len(),
{
    if a.len() > 0 {
        lemma_str_lt_irrefl(a.skip(1));
    }
}

proof fn lemma_str_lt_trans(a: Seq<char>, b: Seq<char>, c: Seq<char>)
    requires
        str_lt(a, b),
        str_lt(b, c),
    ensures
        str_lt(a, c),
    decreases a.len() + b.len() + c.len(),
{
    if c.len() == 0 {
    } else if a.len() == 0 {
    } else {
        assert(b.len() > 0);
        if a[0] == b[0] && b[0] == c[0] {
            lemma_str_lt_trans(a.skip(1), b.skip(1), c.skip(1));
        }
    }
}

proof fn lemma_summary_before_trans(a: NeedleSummary, b: NeedleSummary, c: NeedleSummary)
    requires
        summary_before(a, b),
        summary_before(b, c),
    ensures
        summary_before(a, c),
{
    if a.happiness_level == b.happiness_level && b.happiness_level == c.happiness_level
        && a.count == b.count && b.count == c.count {
        lemma_str_lt_trans(a.name@, b.name@, c.name@);
    }
}

/// Rows of a sorted summary keep the order pairwise, not just between
/// neighbours.
pub proof fn lemma_sorted_chain(out: Seq<NeedleSummary>, k1: int, k2: int)
    requires
        summaries_sorted(out),
        0 <= k1 < k2 < out.len(),
    ensures
        summary_before(out[k1], out[k2]),
    decreases k2 - k1,
{
    if k1 + 1 == k2 {
    } else {
        lemma_sorted_chain(out, k1, k2 - 1);
        lemma_summary_before_trans(out[k1], out[k2 - 1], out[k2]);
    }
}

}
