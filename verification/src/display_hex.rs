//! Fixed-width, grouped-digit hexadecimal rendering of absolute offsets,
//! used for deterministic context file names, and the parser that recovers
//! the offset from such a rendering.

use vstd::prelude::*;
use vstd::string::*;

verus! {

/// The uppercase hexadecimal digit for a value below 16.
pub open spec fn hex_digit_char(d: int) -> char {
    if d == 0 {
        '0'
    } else if d == 1 {
        '1'
    } else if d == 2 {
        '2'
    } else if d == 3 {
        '3'
    } else if d == 4 {
        '4'
    } else if d == 5 {
        '5'
    } else if d == 6 {
        '6'
    } else if d == 7 {
        '7'
    } else if d == 8 {
        '8'
    } else if d == 9 {
        '9'
    } else if d == 10 {
        'A'
    } else if d == 11 {
        'B'
    } else if d == 12 {
        'C'
    } else if d == 13 {
        'D'
    } else if d == 14 {
        'E'
    } else {
        'F'
    }
}

/// The uppercase hexadecimal digits of `v`, most significant first, with
/// no leading zeros (a single `'0'` for zero).
pub open spec fn hex_digits(v: nat) -> Seq<char>
    decreases v,
{
    if v < 16 {
        seq![hex_digit_char(v as int)]
    } else {
        hex_digits(v / 16).push(hex_digit_char((v % 16) as int))
    }
}

/// `s` left-padded with `'0'` to at least `w` characters.
pub open spec fn zero_pad(s: Seq<char>, w: int) -> Seq<char> {
    if s.len() >= w {
        s
    } else {
        Seq::new((w - s.len()) as nat, |i: int| '0') + s
    }
}

/// `s` with a `'_'` separator inserted before every group of four
/// characters counted from the right.
pub open spec fn group_hex(s: Seq<char>) -> Seq<char>
    decreases s.len(),
{
    if s.len() <= 4 {
        s
    } else {
        group_hex(s.take(s.len() - 4)) + seq!['_'] + s.skip(s.len() - 4)
    }
}

/// The rendering of offset `v` at minimum width `w`: uppercase hex digits,
/// zero-filled to `w`, grouped by four from the right with `'_'`.
pub open spec fn hex_offset_display(v: nat, w: int) -> Seq<char> {
    group_hex(zero_pad(hex_digits(v), w))
}

/// True for a hexadecimal digit character, either case.
pub open spec fn is_hex_digit_char(c: char) -> bool {
    ('0' <= c && c <= '9') || ('a' <= c && c <= 'f') || ('A' <= c && c <= 'F')
}

/// The value of a hexadecimal digit character.
pub open spec fn hex_char_val(c: char) -> int {
    if '0' <= c && c <= '9' {
        c as int - '0' as int
    } else if 'a' <= c && c <= 'f' {
        10 + c as int - 'a' as int
    } else if 'A' <= c && c <= 'F' {
        10 + c as int - 'A' as int
    } else {
        0
    }
}

/// The value of a sequence of hexadecimal digit characters.
pub open spec fn hex_value(s: Seq<char>) -> int
    decreases s.len(),
{
    if s.len() == 0 {
        0
    } else {
        hex_value(s.drop_last()) * 16 + hex_char_val(s.last())
    }
}

/// `s` with every `'_'` separator removed.
pub open spec fn strip_separators(s: Seq<char>) -> Seq<char> {
    s.filter(|c: char| c != '_')
}

/// What parsing a grouped hexadecimal rendering yields: the value of its
/// digits with separators ignored, or nothing when no digit is left, a
/// character is not a digit, or the value does not fit in 64 bits.
pub open spec fn parse_hex_offset_spec(s: Seq<char>) -> Option<u64> {
    let ds = strip_separators(s);
    if ds.len() == 0 {
        None
    } else if exists|i: int| 0 <= i < ds.len() && !is_hex_digit_char(#[trigger] ds[i]) {
        None
    } else if hex_value(ds) > u64::MAX {
        None
    } else {
        Some(hex_value(ds) as u64)
    }
}

fn hex_digit_str(d: u64) -> (r: &'static str)
    requires
        d < 16,
    ensures
        r@ == seq![hex_digit_char(d as int)],
{
    if d == 0 {
        proof {
            reveal_strlit("0");
            assert("0"@ =~= seq![hex_digit_char(0)]);
        }
        "0"
    } else if d == 1 {
        proof {
            reveal_strlit("1");
            assert("1"@ =~= seq![hex_digit_char(1)]);
        }
        "1"
    } else if d == 2 {
        proof {
            reveal_strlit("2");
            assert("2"@ =~= seq![hex_digit_char(2)]);
        }
        "2"
    } else if d == 3 {
        proof {
            reveal_strlit("3");
            assert("3"@ =~= seq![hex_digit_char(3)]);
        }
        "3"
    } else if d == 4 {
        proof {
            reveal_strlit("4");
            assert("4"@ =~= seq![hex_digit_char(4)]);
        }
        "4"
    } else if d == 5 {
        proof {
            reveal_strlit("5");
            assert("5"@ =~= seq![hex_digit_char(5)]);
        }
        "5"
    } else if d == 6 {
        proof {
            reveal_strlit("6");
            assert("6"@ =~= seq![hex_digit_char(6)]);
        }
        "6"
    } else if d == 7 {
        proof {
            reveal_strlit("7");
            assert("7"@ =~= seq![hex_digit_char(7)]);
        }
        "7"
    } else if d == 8 {
        proof {
            reveal_strlit("8");
            assert("8"@ =~= seq![hex_digit_char(8)]);
        }
        "8"
    } else if d == 9 {
        proof {
            reveal_strlit("9");
            assert("9"@ =~= seq![hex_digit_char(9)]);
        }
        "9"
    } else if d == 10 {
        proof {
            reveal_strlit("A");
            assert("A"@ =~= seq![hex_digit_char(10)]);
        }
        "A"
    } else if d == 11 {
        proof {
            reveal_strlit("B");
            assert("B"@ =~= seq![hex_digit_char(11)]);
        }
        "B"
    } else if d == 12 {
        proof {
            reveal_strlit("C");
            assert("C"@ =~= seq![hex_digit_char(12)]);
        }
        "C"
    } else if d == 13 {
        proof {
            reveal_strlit("D");
            assert("D"@ =~= seq![hex_digit_char(13)]);
        }
        "D"
    } else if d == 14 {
        proof {
            reveal_strlit("E");
            assert("E"@ =~= seq![hex_digit_char(14)]);
        }
        "E"
    } else {
        proof {
            reveal_strlit("F");
            assert("F"@ =~= seq![hex_digit_char(15)]);
        }
        "F"
    }
}

/// The uppercase hexadecimal digits of `v`, most significant first.
pub fn u64_hex_digits(v: u64) -> (r: String)
    ensures
        r@ == hex_digits(v as nat),
    decreases v,
{
    if v < 16 {
        String::from_str(hex_digit_str(v))
    } else {
        let mut s = u64_hex_digits(v / 16);
        s.append(hex_digit_str(v % 16));
        proof {
            assert(s@ =~= hex_digits((v / 16) as nat).push(hex_digit_char((v % 16) as int)));
        }
        s
    }
}

/// Every character of `hex_digits(v)` is an uppercase hexadecimal digit
/// (never a separator), and there is at least one.
pub proof fn lemma_hex_digits_wf(v: nat)
    ensures
        hex_digits(v).len() >= 1,
        forall|i: int|
            0 <= i < hex_digits(v).len() ==> is_hex_digit_char(#[trigger] hex_digits(v)[i])
                && hex_digits(v)[i] != '_' && '0' <= hex_digits(v)[i] <= 'F',
    decreases v,
{
    if v >= 16 {
        lemma_hex_digits_wf(v / 16);
        assert forall|i: int|
            0 <= i < hex_digits(v).len() implies is_hex_digit_char(#[trigger] hex_digits(v)[i])
            && hex_digits(v)[i] != '_' && '0' <= hex_digits(v)[i] <= 'F' by {
            if i < hex_digits(v).len() - 1 {
                assert(hex_digits(v)[i] == hex_digits(v / 16)[i]);
            }
        }
    }
}

/// The digits of `v` evaluate back to `v`.
pub proof fn lemma_hex_digits_value(v: nat)
    ensures
        hex_value(hex_digits(v)) == v,
    decreases v,
{
    if v < 16 {
        let s = hex_digits(v);
        assert(s.len() == 1);
        assert(s.drop_last() =~= Seq::<char>::empty());
        assert(hex_value(s.drop_last()) == 0);
        assert(s.last() == hex_digit_char(v as int));
        assert(hex_char_val(hex_digit_char(v as int)) == v);
        assert(hex_value(s) == hex_value(s.drop_last()) * 16 + hex_char_val(s.last()));
    } else {
        lemma_hex_digits_value(v / 16);
        assert(hex_digits(v).drop_last() =~= hex_digits(v / 16));
        assert(hex_digits(v).last() == hex_digit_char((v % 16) as int));
        assert(hex_char_val(hex_digit_char((v % 16) as int)) == v % 16);
        assert(hex_value(hex_digits(v)) == (v / 16) * 16 + v % 16);
    }
}

fn grouped_tail(s: &str, n: usize) -> (r: String)
    requires
        n <= s@.len(),
        vstd::string::is_ascii(s),
        s@.len() <= usize::MAX,
    ensures
        r@ == group_hex(s@.take(n as int)),
    decreases n,
{
    if n <= 4 {
        let sub = s.substring_ascii(0, n);
        proof {
            assert(sub@ =~= s@.take(n as int));
        }
        String::from_str(sub)
    } else {
        let mut r = grouped_tail(s, n - 4);
        r.append("_");
        let tail = s.substring_ascii(n - 4, n);
        r.append(tail);
        proof {
            reveal_strlit("_");
            let sn = s@.take(n as int);
            assert(sn.take(sn.len() - 4) =~= s@.take(n - 4));
            assert("_"@ =~= seq!['_']);
            assert(sn.skip(sn.len() - 4) =~= tail@);
            assert(r@ =~= group_hex(sn.take(sn.len() - 4)) + seq!['_'] + sn.skip(sn.len() - 4));
        }
        r
    }
}

/// Renders the offset `v` as uppercase hexadecimal, zero-filled to at
/// least `width` digits, with a `'_'` separator every four digits counted
/// from the right.
pub fn display_hex_offset(offset: u64, width: usize) -> (r: String)
    ensures
        r@ == hex_offset_display(offset as nat, width as int),
{
    let digits = u64_hex_digits(offset);
    proof {
        lemma_hex_digits_wf(offset as nat);
    }
    let dlen = digits.as_str().unicode_len();
    let padded: String = if dlen >= width {
        digits
    } else {
        let mut p = String::new();
        let mut i: usize = 0;
        proof {
            assert(p@ =~= Seq::new(0, |j: int| '0'));
        }
        while i < width - dlen
            invariant
                i <= width - dlen,
                dlen < width,
                p@ == Seq::new(i as nat, |j: int| '0'),
            decreases width - dlen - i,
        {
            p.append("0");
            proof {
                reveal_strlit("0");
                assert(p@ =~= Seq::new((i + 1) as nat, |j: int| '0'));
            }
            i += 1;
        }
        p.append(digits.as_str());
        p
    };
    proof {
        assert(padded@ == zero_pad(hex_digits(offset as nat), width as int));
        assert(vstd::utf8::is_ascii_chars(padded@)) by {
            assert forall|i: int| 0 <= i < padded@.len() implies '\0' <= #[trigger] padded@[i]
                <= '\u{7f}' by {
                let ds = hex_digits(offset as nat);
                if padded@.len() > ds.len() {
                    if i >= padded@.len() - ds.len() {
                        assert(padded@[i] == ds[i - (padded@.len() - ds.len())]);
                    }
                }
            }
        }
    }
    let plen = padded.as_str().unicode_len();
    let r = grouped_tail(padded.as_str(), plen);
    proof {
        assert(padded@.take(plen as int) =~= padded@);
    }
    r
}

proof fn lemma_strip_singleton(c: char)
    ensures
        strip_separators(seq![c]) == (if c != '_' {
            seq![c]
        } else {
            Seq::<char>::empty()
        }),
{
    reveal_with_fuel(Seq::<char>::filter, 2);
    assert(seq![c].drop_last() =~= Seq::<char>::empty());
    assert(Seq::<char>::empty().filter(|c: char| c != '_') =~= Seq::<char>::empty());
    if c != '_' {
        assert(strip_separators(seq![c]) =~= seq![c]);
    } else {
        assert(strip_separators(seq![c]) =~= Seq::<char>::empty());
    }
}

proof fn lemma_strip_add(a: Seq<char>, b: Seq<char>)
    ensures
        strip_separators(a + b) == strip_separators(a) + strip_separators(b),
{
    Seq::<char>::filter_distributes_over_add(a, b, |c: char| c != '_');
}

proof fn lemma_strip_id(s: Seq<char>)
    requires
        forall|i: int| 0 <= i < s.len() ==> #[trigger] s[i] != '_',
    ensures
        strip_separators(s) == s,
    decreases s.len(),
{
    reveal_with_fuel(Seq::<char>::filter, 1);
    if s.len() == 0 {
        assert(strip_separators(s) =~= s);
    } else {
        let dl = s.drop_last();
        assert forall|i: int| 0 <= i < dl.len() implies #[trigger] dl[i] != '_' by {
            assert(dl[i] == s[i]);
        }
        lemma_strip_id(dl);
        assert(s.last() != '_');
        assert(strip_separators(s) =~= s);
    }
}

proof fn lemma_strip_group(s: Seq<char>)
    requires
        forall|i: int| 0 <= i < s.len() ==> #[trigger] s[i] != '_',
    ensures
        strip_separators(group_hex(s)) == s,
    decreases s.len(),
{
    if s.len() <= 4 {
        lemma_strip_id(s);
    } else {
        let head = s.take(s.len() - 4);
        let tail = s.skip(s.len() - 4);
        assert forall|i: int| 0 <= i < head.len() implies #[trigger] head[i] != '_' by {
            assert(head[i] == s[i]);
        }
        assert forall|i: int| 0 <= i < tail.len() implies #[trigger] tail[i] != '_' by {
            assert(tail[i] == s[s.len() - 4 + i]);
        }
        lemma_strip_group(head);
        lemma_strip_id(tail);
        lemma_strip_add(group_hex(head) + seq!['_'], tail);
        lemma_strip_add(group_hex(head), seq!['_']);
        lemma_strip_singleton('_');
        assert(strip_separators(group_hex(s)) =~= s);
    }
}

/// The value of a digit sequence is never negative.
pub proof fn lemma_hex_value_nonneg(s: Seq<char>)
    ensures
        hex_value(s) >= 0,
    decreases s.len(),
{
    if s.len() > 0 {
        lemma_hex_value_nonneg(s.drop_last());
    }
}

proof fn lemma_hex_value_prepend_zero(s: Seq<char>)
    ensures
        hex_value(seq!['0'] + s) == hex_value(s),
    decreases s.len(),
{
    let t = seq!['0'] + s;
    if s.len() == 0 {
        assert(t =~= seq!['0']);
        assert(t.len() == 1);
        assert(t.last() == '0');
        assert(t.drop_last() =~= Seq::<char>::empty());
        assert(hex_char_val('0') == 0);
        assert(hex_value(t) == hex_value(t.drop_last()) * 16 + hex_char_val(t.last()));
    } else {
        lemma_hex_value_prepend_zero(s.drop_last());
        assert(t.drop_last() =~= seq!['0'] + s.drop_last());
        assert(t.last() == s.last());
        assert(hex_value(t) == hex_value(t.drop_last()) * 16 + hex_char_val(t.last()));
        assert(hex_value(s) == hex_value(s.drop_last()) * 16 + hex_char_val(s.last()));
    }
}

proof fn lemma_hex_value_zero_pad(s: Seq<char>, w: int)
    ensures
        hex_value(zero_pad(s, w)) == hex_value(s),
    decreases w,
{
    if s.len() < w {
        let n = w - s.len();
        if n == 1 {
            assert(zero_pad(s, w) =~= seq!['0'] + s);
            lemma_hex_value_prepend_zero(s);
        } else {
            lemma_hex_value_zero_pad(s, w - 1);
            lemma_hex_value_prepend_zero(zero_pad(s, w - 1));
            assert(zero_pad(s, w) =~= seq!['0'] + zero_pad(s, w - 1));
        }
    }
}

/// Round trip: parsing the grouped, zero-filled hexadecimal rendering of
/// any offset, at any width, recovers the offset exactly.
pub proof fn lemma_hex_offset_round_trip(v: u64, w: int)
    ensures
        parse_hex_offset_spec(hex_offset_display(v as nat, w)) == Some(v),
{
    let ds = hex_digits(v as nat);
    let padded = zero_pad(ds, w);
    lemma_hex_digits_wf(v as nat);
    assert forall|i: int| 0 <= i < padded.len() implies #[trigger] padded[i] != '_'
        && is_hex_digit_char(padded[i]) by {
        if padded.len() > ds.len() {
            if i >= padded.len() - ds.len() {
                assert(padded[i] == ds[i - (padded.len() - ds.len())]);
            } else {
                assert(padded[i] == '0');
            }
        }
    }
    lemma_strip_group(padded);
    lemma_hex_value_zero_pad(ds, w);
    lemma_hex_digits_value(v as nat);
    assert(strip_separators(hex_offset_display(v as nat, w)) == padded);
    assert(padded.len() >= 1);
    assert(hex_value(padded) == v);
}

/// Parses a (possibly grouped) hexadecimal rendering back to the offset,
/// ignoring `'_'` separators; `None` when no digit is present, a
/// character is not a hexadecimal digit, or the value overflows 64 bits.
#[verifier::rlimit(60)]
pub fn parse_hex_offset(s: &str) -> (r: Option<u64>)
    ensures
        r == parse_hex_offset_spec(s@),
{
    let n = s.unicode_len();
    let mut acc: u64 = 0;
    let mut digits_seen: bool = false;
    let mut i: usize = 0;
    proof {
        assert(s@.take(0) =~= Seq::<char>::empty());
        reveal_with_fuel(Seq::<char>::filter, 1);
        assert(strip_separators(s@.take(0)) =~= Seq::<char>::empty());
    }
    while i < n
        invariant
            i <= n,
            n == s@.len(),
            digits_seen == (strip_separators(s@.take(i as int)).len() > 0),
            forall|t: int|
                0 <= t < strip_separators(s@.take(i as int)).len() ==> is_hex_digit_char(
                    #[trigger] strip_separators(s@.take(i as int))[t],
                ),
            acc as int == hex_value(strip_separators(s@.take(i as int))),
        decreases n - i,
    {
        let c = s.get_char(i);
        let ghost pre = strip_separators(s@.take(i as int));
        proof {
            assert(s@.take(i + 1) =~= s@.take(i as int).push(c));
            assert(s@.take(i as int).push(c) =~= s@.take(i as int) + seq![c]);
            lemma_strip_add(s@.take(i as int), seq![c]);
            lemma_strip_singleton(c);
        }
        if c != '_' {
            let d: u64;
            if c >= '0' && c <= '9' {
                d = (c as u64) - ('0' as u64);
            } else if c >= 'a' && c <= 'f' {
                d = 10 + (c as u64) - ('a' as u64);
            } else if c >= 'A' && c <= 'F' {
                d = 10 + (c as u64) - ('A' as u64);
            } else {
                proof {
                    let ds = strip_separators(s@);
                    assert(s@.take(n as int) =~= s@);
                    assert(s@ =~= s@.take(i + 1) + s@.skip(i + 1));
                    lemma_strip_add(s@.take(i + 1), s@.skip(i + 1));
                    let bad = pre.len() as int;
                    assert(ds[bad] == c);
                    assert(!is_hex_digit_char(ds[bad]));
                }
                return None;
            }
            proof {
                assert(d == hex_char_val(c));
                assert(pre + seq![c] == strip_separators(s@.take(i + 1)));
                assert((pre + seq![c]).drop_last() =~= pre);
                assert((pre + seq![c]).last() == c);
                assert(hex_value(strip_separators(s@.take(i + 1))) == acc * 16 + d);
            }
            if acc > (u64::MAX - d) / 16 {
                proof {
                    let ds = strip_separators(s@);
                    assert(s@.take(n as int) =~= s@);
                    assert(s@ =~= s@.take(i + 1) + s@.skip(i + 1));
                    lemma_strip_add(s@.take(i + 1), s@.skip(i + 1));
                    lemma_hex_value_append_ge(strip_separators(s@.take(i + 1)), strip_separators(s@.skip(i + 1)));
                    assert(acc * 16 + d > u64::MAX);
                    assert(hex_value(ds) > u64::MAX);
                }
                return None;
            }
            acc = acc * 16 + d;
            digits_seen = true;
        } else {
            proof {
                assert(strip_separators(s@.take(i + 1)) =~= pre);
            }
        }
        i += 1;
    }
    proof {
        assert(s@.take(n as int) =~= s@);
    }
    if digits_seen {
        Some(acc)
    } else {
        None
    }
}

/// Appending digits never lowers the value.
pub proof fn lemma_hex_value_append_ge(a: Seq<char>, b: Seq<char>)
    ensures
        hex_value(a + b) >= hex_value(a),
    decreases b.len(),
{
    if b.len() == 0 {
        assert(a + b =~= a);
    } else {
        lemma_hex_value_append_ge(a, b.drop_last());
        assert((a + b).drop_last() =~= a + b.drop_last());
        lemma_hex_value_nonneg(a + b.drop_last());
        assert(hex_value(a + b) == hex_value(a + b.drop_last()) * 16 + hex_char_val((a
            + b).last()));
        assert(hex_char_val((a + b).last()) >= 0);
        assert(hex_value(a + b.drop_last()) * 16 >= hex_value(a + b.drop_last()));
    }
}

}
