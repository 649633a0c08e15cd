//! Parsing a needle pattern given as a hexadecimal string: either
//! whitespace-separated byte tokens (each optionally `0x`-prefixed), or one
//! concatenated run of digit pairs.

use vstd::prelude::*;
use vstd::string::*;

use crate::display_hex::{
    hex_char_val, hex_value, is_hex_digit_char, lemma_hex_value_append_ge,
};

verus! {

/// True for the whitespace characters that separate byte tokens: the
/// Unicode White_Space code points.
pub open spec fn is_space(c: char) -> bool {
    ||| (9 <= c as int && c as int <= 13)
    ||| c == ' '
    ||| c as int == 0x85
    ||| c as int == 0xA0
    ||| c as int == 0x1680
    ||| (0x2000 <= c as int && c as int <= 0x200A)
    ||| c as int == 0x2028
    ||| c as int == 0x2029
    ||| c as int == 0x202F
    ||| c as int == 0x205F
    ||| c as int == 0x3000
}

/// Reports whether `c` is a token-separating whitespace character.
fn char_is_space(c: char) -> (r: bool)
    ensures
        r == is_space(c),
{
    let u = c as u32;
    (9 <= u && u <= 13) || u == 0x20 || u == 0x85 || u == 0xA0 || u == 0x1680 || (0x2000 <= u && u
        <= 0x200A) || u == 0x2028 || u == 0x2029 || u == 0x202F || u == 0x205F || u == 0x3000
}

/// True when `s` holds at least one plain space, the cue that it is a
/// token-separated pattern.
pub open spec fn contains_space(s: Seq<char>) -> bool {
    exists|i: int| 0 <= i < s.len() && #[trigger] s[i] == ' '
}

/// `s` with every leading `"0x"` removed, repeatedly.
pub open spec fn strip0x(s: Seq<char>) -> Seq<char>
    decreases s.len(),
{
    if s.len() >= 2 && s[0] == '0' && s[1] == 'x' {
        strip0x(s.skip(2))
    } else {
        s
    }
}

/// What one whitespace-separated token contributes: nothing when it is
/// empty after `0x`-stripping, one byte when its digits (after one
/// optional leading `'+'`) form a value up to 255, an error otherwise.
pub open spec fn token_bytes(t: Seq<char>) -> Result<Seq<u8>, ()> {
    let u = strip0x(t);
    if u.len() == 0 {
        Ok(Seq::empty())
    } else {
        let v = token_digits(u);
        if v.len() >= 1 && (forall|i: int| 0 <= i < v.len() ==> is_hex_digit_char(#[trigger] v[i]))
            && hex_value(v) <= 255 {
            Ok(seq![hex_value(v) as u8])
        } else {
            Err(())
        }
    }
}

/// A token's digit characters: what stands after one optional leading
/// `'+'` sign.
pub open spec fn token_digits(u: Seq<char>) -> Seq<char> {
    if u.len() >= 1 && u[0] == '+' {
        u.skip(1)
    } else {
        u
    }
}

/// Parses the whitespace-separated token form: `cur` is the token read so
/// far; every token contributes its bytes, and any bad token fails the
/// whole parse.
pub open spec fn parse_hex_tokens(s: Seq<char>, cur: Seq<char>) -> Result<Seq<u8>, ()>
    decreases s.len(),
{
    if s.len() == 0 {
        token_bytes(cur)
    } else if is_space(s[0]) {
        match (token_bytes(cur), parse_hex_tokens(s.skip(1), Seq::empty())) {
            (Ok(a), Ok(b)) => Ok(a + b),
            _ => Err(()),
        }
    } else {
        parse_hex_tokens(s.skip(1), cur.push(s[0]))
    }
}

/// The bytes of a concatenated run of hexadecimal digit pairs.
pub open spec fn hex_pairs(t: Seq<char>) -> Seq<u8>
    decreases t.len(),
{
    if t.len() < 2 {
        Seq::empty()
    } else {
        seq![(hex_char_val(t[0]) * 16 + hex_char_val(t[1])) as u8] + hex_pairs(t.skip(2))
    }
}

/// What parsing a hexadecimal pattern string yields.  A string holding a
/// space, or of one single character, is read as whitespace-separated
/// byte tokens; anything else is read (after `0x`-stripping) as one run
/// of digit pairs, which fails on an odd count or a non-digit character.
pub open spec fn parse_hex_string_spec(s: Seq<char>) -> Result<Seq<u8>, ()> {
    if contains_space(s) || s.len() == 1 {
        parse_hex_tokens(s, Seq::empty())
    } else {
        let t = strip0x(s);
        if t.len() % 2 == 0 && (forall|i: int|
            0 <= i < t.len() ==> is_hex_digit_char(#[trigger] t[i])) {
            Ok(hex_pairs(t))
        } else {
            Err(())
        }
    }
}

/// Relies on hex::decode (hex 0.4): it succeeds exactly on an even number
/// of hexadecimal digit characters, either case, and yields one byte per
/// digit pair; it fails on an odd count or any other character.
#[verifier::external_body]
fn hex_decode(s: &str) -> (r: Option<Vec<u8>>)
    ensures
        r is Some <==> (s@.len() % 2 == 0 && (forall|i: int|
            0 <= i < s@.len() ==> is_hex_digit_char(#[trigger] s@[i]))),
        r matches Some(v) ==> v@ == hex_pairs(s@),
{
    hex::decode(s).ok()
}

/// The index after the `"0x"` prefixes of `s`, stripped repeatedly.
fn strip_hex_prefix_len(s: &str) -> (j: usize)
    ensures
        j <= s@.len(),
        strip0x(s@) == s@.skip(j as int),
{
    let n = s.unicode_len();
    let mut j: usize = 0;
    let mut more: usize = 1;
    proof {
        assert(s@.skip(0) =~= s@);
    }
    while more == 1
        invariant
            j <= n,
            n == s@.len(),
            more <= 1,
            strip0x(s@) == strip0x(s@.skip(j as int)),
            more == 0 ==> strip0x(s@.skip(j as int)) == s@.skip(j as int),
        decreases n - j + more,
    {
        let ghost suf = s@.skip(j as int);
        if n - j >= 2 {
            let a = s.get_char(j);
            let b = s.get_char(j + 1);
            proof {
                assert(suf[0] == s@[j as int]);
                assert(suf[1] == s@[j + 1]);
            }
            if a == '0' && b == 'x' {
                proof {
                    assert(suf.skip(2) =~= s@.skip(j + 2));
                }
                j += 2;
            } else {
                more = 0;
            }
        } else {
            more = 0;
        }
    }
    j
}

/// Parses one whitespace-separated token: `Ok(None)` when it is empty
/// after `0x`-stripping, `Ok(Some(b))` for a byte value, `Err` otherwise.
fn process_token(tok: &str) -> (r: Result<Option<u8>, ()>)
    ensures
        token_bytes(tok@) == (match r {
            Err(_) => Err::<Seq<u8>, ()>(()),
            Ok(None) => Ok::<Seq<u8>, ()>(Seq::empty()),
            Ok(Some(b)) => Ok::<Seq<u8>, ()>(seq![b]),
        }),
{
    let n = tok.unicode_len();
    let j = strip_hex_prefix_len(tok);
    let ghost u = strip0x(tok@);
    if j == n {
        proof {
            assert(u =~= Seq::<char>::empty());
        }
        return Ok(None);
    }
    // one optional leading sign, as a plain byte token may carry
    let j2: usize = if tok.get_char(j) == '+' {
        j + 1
    } else {
        j
    };
    let ghost v = token_digits(u);
    proof {
        assert(u[0] == tok@[j as int]);
        if u[0] == '+' {
            assert(u.skip(1) =~= tok@.skip(j + 1));
        }
        assert(v == tok@.skip(j2 as int));
    }
    if j2 == n {
        proof {
            assert(v.len() == 0);
            assert(token_bytes(tok@) is Err);
        }
        return Err(());
    }
    let mut acc: u64 = 0;
    let mut m: usize = j2;
    proof {
        assert(v.take(0) =~= Seq::<char>::empty());
    }
    while m < n
        invariant
            j2 <= m <= n,
            n == tok@.len(),
            j2 < n,
            u == strip0x(tok@),
            v == token_digits(u),
            u.len() >= 1,
            v == tok@.skip(j2 as int),
            acc as int == hex_value(v.take(m - j2)),
            acc <= 255,
            forall|t: int| 0 <= t < m - j2 ==> is_hex_digit_char(#[trigger] v[t]),
        decreases n - m,
    {
        let c = tok.get_char(m);
        proof {
            assert(v[m - j2] == tok@[m as int]);
        }
        let d: u64;
        if c >= '0' && c <= '9' {
            d = (c as u64) - ('0' as u64);
        } else if c >= 'a' && c <= 'f' {
            d = 10 + (c as u64) - ('a' as u64);
        } else if c >= 'A' && c <= 'F' {
            d = 10 + (c as u64) - ('A' as u64);
        } else {
            proof {
                assert(!is_hex_digit_char(v[m - j2]));
                assert(token_bytes(tok@) is Err);
            }
            return Err(());
        }
        proof {
            assert(d == hex_char_val(c));
            assert(v.take(m - j2 + 1).drop_last() =~= v.take(m - j2));
            assert(v.take(m - j2 + 1).last() == v[m - j2]);
            assert(hex_value(v.take(m - j2 + 1)) == acc * 16 + d);
        }
        acc = acc * 16 + d;
        if acc > 255 {
            proof {
                let pre = v.take(m - j2 + 1);
                assert(v =~= pre + v.skip(m - j2 + 1));
                lemma_hex_value_append_ge(pre, v.skip(m - j2 + 1));
                assert(hex_value(v) > 255);
                assert(token_bytes(tok@) is Err);
            }
            return Err(());
        }
        m += 1;
    }
    proof {
        assert(v.take(n - j2) =~= v);
        assert forall|t: int| 0 <= t < v.len() implies is_hex_digit_char(#[trigger] v[t]) by {}
        assert(v.len() >= 1);
        assert(token_bytes(tok@) == Ok::<Seq<u8>, ()>(seq![hex_value(v) as u8]));
    }
    Ok(Some(acc as u8))
}

spec fn compose_tokens(acc: Seq<u8>, rest: Result<Seq<u8>, ()>) -> Result<Seq<u8>, ()> {
    match rest {
        Ok(b) => Ok(acc + b),
        Err(e) => Err(e),
    }
}

fn str_contains_space(s: &str) -> (r: bool)
    ensures
        r == contains_space(s@),
{
    let n = s.unicode_len();
    let mut i: usize = 0;
    while i < n
        invariant
            i <= n,
            n == s@.len(),
            forall|t: int| 0 <= t < i ==> #[trigger] s@[t] != ' ',
        decreases n - i,
    {
        if s.get_char(i) == ' ' {
            assert(s@[i as int] == ' ');
            return true;
        }
        i += 1;
    }
    false
}

/// Parses a needle pattern given in hexadecimal: whitespace-separated
/// byte tokens (`"72 65 6c"`, `"0x72 0x65"`, a single digit or pair), or
/// one concatenated run of digit pairs (`"72656c"`), `0x` prefixes
/// stripped.  Fails exactly when a token is not a byte value or the run
/// is odd or holds a non-digit.
#[verifier::rlimit(60)]
pub fn parse_hex_string(hex_str: &str) -> (r: Result<Vec<u8>, ()>)
    ensures
        r is Ok <==> parse_hex_string_spec(hex_str@) is Ok,
        r matches Ok(v) ==> (parse_hex_string_spec(hex_str@) matches Ok(b) && v@ == b),
{
    let n = hex_str.unicode_len();
    let has_space = str_contains_space(hex_str);
    if has_space || n == 1 {
        let mut acc: Vec<u8> = Vec::new();
        let mut cur = String::new();
        let mut i: usize = 0;
        proof {
            assert(hex_str@.skip(0) =~= hex_str@);
            match parse_hex_tokens(hex_str@, Seq::empty()) {
                Ok(b) => {
                    assert(acc@ + b =~= b);
                },
                Err(_) => {},
            }
        }
        while i < n
            invariant
                i <= n,
                n == hex_str@.len(),
                contains_space(hex_str@) || hex_str@.len() == 1,
                compose_tokens(acc@, parse_hex_tokens(hex_str@.skip(i as int), cur@))
                    == parse_hex_tokens(hex_str@, Seq::empty()),
            decreases n - i,
        {
            let c = hex_str.get_char(i);
            let ghost suf = hex_str@.skip(i as int);
            proof {
                assert(suf[0] == hex_str@[i as int]);
                assert(suf.skip(1) =~= hex_str@.skip(i + 1));
            }
            if char_is_space(c) {
                let tb = process_token(cur.as_str());
                match tb {
                    Err(_) => {
                        proof {
                            assert(parse_hex_tokens(suf, cur@) is Err);
                        }
                        return Err(());
                    },
                    Ok(opt) => {
                        proof {
                            let a = (match token_bytes(cur@) {
                                Ok(a) => a,
                                Err(_) => Seq::empty(),
                            });
                            match parse_hex_tokens(hex_str@.skip(i + 1), Seq::<char>::empty()) {
                                Ok(b) => {
                                    assert(acc@ + (a + b) =~= (acc@ + a) + b);
                                },
                                Err(_) => {},
                            }
                        }
                        match opt {
                            Some(b) => {
                                let ghost acc0 = acc@;
                                acc.push(b);
                                proof {
                                    let a = (match token_bytes(cur@) {
                                        Ok(a) => a,
                                        Err(_) => Seq::<u8>::empty(),
                                    });
                                    assert(a =~= seq![b]);
                                    assert(acc@ =~= acc0 + a);
                                }
                            },
                            None => {
                                proof {
                                    let a = (match token_bytes(cur@) {
                                        Ok(a) => a,
                                        Err(_) => Seq::<u8>::empty(),
                                    });
                                    assert(acc@ + a =~= acc@);
                                }
                            },
                        }
                        cur = String::new();
                    },
                }
            } else {
                crate::text::push_char(&mut cur, c);
            }
            i += 1;
        }
        proof {
            assert(hex_str@.skip(n as int) =~= Seq::<char>::empty());
        }
        let tb = process_token(cur.as_str());
        match tb {
            Err(_) => Err(()),
            Ok(opt) => {
                proof {
                    let a = (match token_bytes(cur@) {
                        Ok(a) => a,
                        Err(_) => Seq::<u8>::empty(),
                    });
                    match opt {
                        Some(b) => {
                            assert(acc@ + a =~= acc@.push(b));
                        },
                        None => {
                            assert(acc@ + a =~= acc@);
                        },
                    }
                }
                match opt {
                    Some(b) => {
                        acc.push(b);
                        Ok(acc)
                    },
                    None => Ok(acc),
                }
            },
        }
    } else {
        let j = strip_hex_prefix_len(hex_str);
        let sub = hex_str.substring_char(j, n);
        proof {
            assert(sub@ =~= hex_str@.skip(j as int));
        }
        match hex_decode(sub) {
            Some(v) => Ok(v),
            None => Err(()),
        }
    }
}

}
