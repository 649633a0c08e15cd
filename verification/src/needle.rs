//! The needle data model: a named exact byte pattern with its priority and
//! capture policy, and the raw configuration form it is built from.

use vstd::prelude::*;
use vstd::string::*;

use crate::decimal::{dec_digits, u64_dec_digits};
use crate::hex_parse::{parse_hex_string, parse_hex_string_spec};
use crate::text::{append_bytes_as_chars, bytes_as_chars};

verus! {

/// How many bytes before a match the context window captures by default.
pub const DEFAULT_BYTE_COUNT_BEFORE_MATCH: u64 = 1024;

/// How many bytes after a match the context window captures by default.
pub const DEFAULT_BYTE_COUNT_AFTER_MATCH: u64 = 1024;

/// A named exact byte pattern to search for, immutable once a scan starts.
pub struct Needle {
    pub name: String,
    pub val: Vec<u8>,
    pub description_notes: String,
    /// significance level from 0-9, where 9 is "very happy"
    pub happiness_level: u8,
    pub write_to_file: bool,
    pub byte_count_before_match: u64,
    pub byte_count_after_match: u64,
}

/// The raw configuration form of one needle, as an external loader hands
/// it over: the pattern is still a string in the named format.
pub struct ConfigNeedle {
    pub name: String,
    pub val: String,
    pub val_format: ConfigNeedleValFormat,
    pub description_notes: String,
    pub happiness_level: u8,
    pub write_to_file: bool,
}

/// How the `val` string of a `ConfigNeedle` encodes the byte pattern.
#[derive(Clone, Copy, Debug, PartialEq, Eq, Structural)]
pub enum ConfigNeedleValFormat {
    Hex,
    Ascii,
}

/// The needle-set invariant: every pattern is non-empty.
pub open spec fn needles_wf(ns: Seq<Needle>) -> bool {
    forall|i: int| 0 <= i < ns.len() ==> (#[trigger] ns[i].val)@.len() >= 1
}

/// Every pattern fits inside a carry-forward of `k` bytes plus one byte,
/// the condition under which chunking misses no boundary-spanning match.
pub open spec fn needles_fit_carry(ns: Seq<Needle>, k: int) -> bool {
    forall|i: int| 0 <= i < ns.len() ==> (#[trigger] ns[i].val)@.len() <= k + 1
}

/// The byte patterns of a needle list, in order.
pub open spec fn needle_pattern_views(ns: Seq<Needle>) -> Seq<Seq<u8>> {
    ns.map_values(|n: Needle| n.val@)
}

/// True for a printable (graphic) ASCII byte, `'!'` through `'~'`.
pub open spec fn is_ascii_graphic_byte(b: u8) -> bool {
    0x21 <= b <= 0x7e
}

/// True when every byte of a pattern is printable ASCII.
pub open spec fn val_printable(val: Seq<u8>) -> bool {
    forall|i: int| 0 <= i < val.len() ==> is_ascii_graphic_byte(#[trigger] val[i])
}

/// The rendering "[1, 2, 3]" of a byte sequence, decimal values separated
/// by ", " inside brackets.
pub open spec fn byte_list_debug(bs: Seq<u8>) -> Seq<char>
    decreases bs.len(),
{
    if bs.len() == 0 {
        Seq::empty()
    } else if bs.len() == 1 {
        dec_digits(bs[0] as nat)
    } else {
        byte_list_debug(bs.drop_last()) + ", "@ + dec_digits(bs.last() as nat)
    }
}

/// A byte sequence rendered the way debug output shows it.
pub open spec fn debug_bytes(bs: Seq<u8>) -> Seq<char> {
    "["@ + byte_list_debug(bs) + "]"@
}

/// The human-readable rendering of a pattern: its byte list and, when
/// every byte is printable ASCII, the text it spells.
pub open spec fn val_as_string_spec(val: Seq<u8>) -> Seq<char> {
    if val_printable(val) {
        debug_bytes(val) + " ('"@ + bytes_as_chars(val) + "')"@
    } else {
        debug_bytes(val)
    }
}

/// The emoji that stands for one happiness level.
pub open spec fn happiness_emoji_char(hl: int) -> char {
    if hl == 0 {
        '😶'
    } else if hl == 1 {
        '😐'
    } else if hl == 2 {
        '🙂'
    } else if hl == 3 {
        '🙃'
    } else if hl == 4 {
        '😊'
    } else if hl == 5 {
        '😁'
    } else if hl == 6 {
        '😄'
    } else if hl == 7 {
        '😃'
    } else if hl == 8 {
        '😆'
    } else {
        '😂'
    }
}

/// The rendering of a happiness level: its emoji twice, then the level in
/// parentheses.
pub open spec fn happiness_string_spec(hl: nat) -> Seq<char> {
    seq![happiness_emoji_char(hl as int), happiness_emoji_char(hl as int)] + " ("@ + dec_digits(hl)
        + ")"@
}

fn happiness_emoji_str(hl: u8) -> (r: &'static str)
    requires
        hl <= 9,
    ensures
        r@ == seq![happiness_emoji_char(hl as int)],
{
    if hl == 0 {
        proof {
            reveal_strlit("😶");
            assert("😶"@ =~= seq![happiness_emoji_char(0)]);
        }
        "😶"
    } else if hl == 1 {
        proof {
            reveal_strlit("😐");
            assert("😐"@ =~= seq![happiness_emoji_char(1)]);
        }
        "😐"
    } else if hl == 2 {
        proof {
            reveal_strlit("🙂");
            assert("🙂"@ =~= seq![happiness_emoji_char(2)]);
        }
        "🙂"
    } else if hl == 3 {
        proof {
            reveal_strlit("🙃");
            assert("🙃"@ =~= seq![happiness_emoji_char(3)]);
        }
        "🙃"
    } else if hl == 4 {
        proof {
            reveal_strlit("😊");
            assert("😊"@ =~= seq![happiness_emoji_char(4)]);
        }
        "😊"
    } else if hl == 5 {
        proof {
            reveal_strlit("😁");
            assert("😁"@ =~= seq![happiness_emoji_char(5)]);
        }
        "😁"
    } else if hl == 6 {
        proof {
            reveal_strlit("😄");
            assert("😄"@ =~= seq![happiness_emoji_char(6)]);
        }
        "😄"
    } else if hl == 7 {
        proof {
            reveal_strlit("😃");
            assert("😃"@ =~= seq![happiness_emoji_char(7)]);
        }
        "😃"
    } else if hl == 8 {
        proof {
            reveal_strlit("😆");
            assert("😆"@ =~= seq![happiness_emoji_char(8)]);
        }
        "😆"
    } else {
        proof {
            reveal_strlit("😂");
            assert("😂"@ =~= seq![happiness_emoji_char(9)]);
        }
        "😂"
    }
}

/// Appends the "[1, 2, 3]" rendering of `bs`.
fn append_debug_bytes(s: &mut String, bs: &Vec<u8>)
    ensures
        final(s)@ == old(s)@ + debug_bytes(bs@),
{
    let ghost s0 = s@;
    s.append("[");
    let n = bs.len();
    let mut i: usize = 0;
    proof {
        assert(byte_list_debug(bs@.take(0)) =~= Seq::<char>::empty());
        assert(s@ =~= s0 + "["@ + byte_list_debug(bs@.take(0)));
    }
    while i < n
        invariant
            i <= n,
            n == bs@.len(),
            s@ == s0 + "["@ + byte_list_debug(bs@.take(i as int)),
        decreases n - i,
    {
        if i > 0 {
            s.append(", ");
        }
        let b = bs[i];
        let d = u64_dec_digits(b as u64);
        s.append(d.as_str());
        proof {
            let pre = bs@.take(i as int);
            let cur = bs@.take(i + 1);
            assert(cur.drop_last() =~= pre);
            assert(cur.last() == bs@[i as int]);
            if i == 0 {
                assert(cur.len() == 1);
                assert(cur[0] == bs@[0]);
                assert(byte_list_debug(cur) == dec_digits(bs@[0] as nat));
                assert(s@ =~= s0 + "["@ + byte_list_debug(cur));
            } else {
                assert(byte_list_debug(cur) == byte_list_debug(pre) + ", "@ + dec_digits(
                    bs@[i as int] as nat,
                ));
                assert(s@ =~= s0 + "["@ + byte_list_debug(cur));
            }
        }
        i += 1;
    }
    s.append("]");
    proof {
        assert(bs@.take(n as int) =~= bs@);
        assert(s@ =~= s0 + debug_bytes(bs@));
    }
}

impl Needle {
    /// Reports whether every byte of the pattern is printable ASCII.
    pub fn is_val_printable(&self) -> (r: bool)
        ensures
            r == val_printable(self.val@),
    {
        let n = self.val.len();
        let mut i: usize = 0;
        while i < n
            invariant
                i <= n,
                n == self.val@.len(),
                forall|t: int| 0 <= t < i ==> is_ascii_graphic_byte(#[trigger] self.val@[t]),
            decreases n - i,
        {
            let b = self.val[i];
            if b < 0x21 || b > 0x7e {
                return false;
            }
            i += 1;
        }
        true
    }

    /// Renders the pattern for humans: the byte list and, when printable,
    /// the text it spells.
    pub fn val_as_string(&self) -> (r: String)
        ensures
            r@ == val_as_string_spec(self.val@),
    {
        let mut s = String::new();
        append_debug_bytes(&mut s, &self.val);
        proof {
            assert(s@ =~= debug_bytes(self.val@));
        }
        if self.is_val_printable() {
            s.append(" ('");
            append_bytes_as_chars(&mut s, &self.val);
            s.append("')");
            proof {
                assert(s@ =~= debug_bytes(self.val@) + " ('"@ + bytes_as_chars(self.val@)
                    + "')"@);
            }
        }
        s
    }

    /// Renders the happiness level: its emoji twice and the level in
    /// parentheses.
    pub fn happiness_level_as_string(&self) -> (r: String)
        requires
            self.happiness_level <= 9,
        ensures
            r@ == happiness_string_spec(self.happiness_level as nat),
    {
        let e = happiness_emoji_str(self.happiness_level);
        let mut s = String::from_str(e);
        s.append(e);
        s.append(" (");
        let d = u64_dec_digits(self.happiness_level as u64);
        s.append(d.as_str());
        s.append(")");
        proof {
            let hl = self.happiness_level as int;
            assert(seq![happiness_emoji_char(hl)] + seq![happiness_emoji_char(hl)] =~= seq![
                happiness_emoji_char(hl),
                happiness_emoji_char(hl),
            ]);
            assert(s@ =~= happiness_string_spec(self.happiness_level as nat));
        }
        s
    }
}

/// The default of the per-needle persist-context flag: context bytes are
/// written unless the configuration says otherwise.
pub fn default_write_to_file() -> (r: bool)
    ensures
        r == true,
{
    true
}

/// True when the two characters are equal up to ASCII case.
pub open spec fn ascii_ic_eq_char(x: char, y: char) -> bool {
    ||| x == y
    ||| (x as int == y as int + 32 && 65 <= y as int <= 90)
    ||| (y as int == x as int + 32 && 65 <= x as int <= 90)
}

/// True when the two strings are equal up to ASCII case.
pub open spec fn str_ic_eq(a: Seq<char>, b: Seq<char>) -> bool {
    a.len() == b.len() && (forall|i: int| 0 <= i < a.len() ==> ascii_ic_eq_char(#[trigger] a[i], b[i]))
}

/// Compares two strings for equality up to ASCII case.
pub fn eq_ignore_ascii_case(s: &str, t: &str) -> (r: bool)
    ensures
        r == str_ic_eq(s@, t@),
{
    let n = s.unicode_len();
    let m = t.unicode_len();
    if n != m {
        return false;
    }
    let mut i: usize = 0;
    while i < n
        invariant
            i <= n,
            n == s@.len(),
            n == t@.len(),
            forall|k: int| 0 <= k < i ==> ascii_ic_eq_char(#[trigger] s@[k], t@[k]),
        decreases n - i,
    {
        let a = s.get_char(i);
        let b = t.get_char(i);
        let ac = a as u32;
        let bc = b as u32;
        let al = if 65 <= ac && ac <= 90 {
            ac + 32
        } else {
            ac
        };
        let bl = if 65 <= bc && bc <= 90 {
            bc + 32
        } else {
            bc
        };
        if al != bl {
            proof {
                assert(!ascii_ic_eq_char(s@[i as int], t@[i as int]));
            }
            return false;
        }
        proof {
            assert(ascii_ic_eq_char(s@[i as int], t@[i as int]));
        }
        i += 1;
    }
    true
}

impl ConfigNeedleValFormat {
    /// Reads a format name, ignoring ASCII case: `"hex"` or `"ascii"`.
    pub fn from_str(s: &str) -> (r: Result<ConfigNeedleValFormat, ()>)
        ensures
            r == (if str_ic_eq(s@, "hex"@) {
                Ok::<ConfigNeedleValFormat, ()>(ConfigNeedleValFormat::Hex)
            } else if str_ic_eq(s@, "ascii"@) {
                Ok::<ConfigNeedleValFormat, ()>(ConfigNeedleValFormat::Ascii)
            } else {
                Err::<ConfigNeedleValFormat, ()>(())
            }),
    {
        if eq_ignore_ascii_case(s, "hex") {
            Ok(ConfigNeedleValFormat::Hex)
        } else if eq_ignore_ascii_case(s, "ascii") {
            Ok(ConfigNeedleValFormat::Ascii)
        } else {
            Err(())
        }
    }
}

/// The byte pattern a configuration entry denotes: its string parsed as
/// hexadecimal, or the UTF-8 bytes of its text.
pub open spec fn config_val_bytes(c: ConfigNeedle) -> Result<Seq<u8>, ()> {
    match c.val_format {
        ConfigNeedleValFormat::Hex => parse_hex_string_spec(c.val@),
        ConfigNeedleValFormat::Ascii => Ok(vstd::utf8::encode_utf8(c.val@)),
    }
}

impl Needle {
    /// Builds a needle from its configuration form; a hexadecimal pattern
    /// that does not parse is rejected, and so is a pattern of zero
    /// length.  The context window sizes take their defaults.
    pub fn try_from_needle_val_config(config_needle_val: &ConfigNeedle) -> (r: Result<Needle, ()>)
        ensures
            r is Ok <==> (config_val_bytes(*config_needle_val) matches Ok(bs) && bs.len() >= 1),
            r matches Ok(n) ==> {
                &&& n.name@ == config_needle_val.name@
                &&& Ok::<Seq<u8>, ()>(n.val@) == config_val_bytes(*config_needle_val)
                &&& n.description_notes@ == config_needle_val.description_notes@
                &&& n.happiness_level == config_needle_val.happiness_level
                &&& n.write_to_file == config_needle_val.write_to_file
                &&& n.byte_count_before_match == DEFAULT_BYTE_COUNT_BEFORE_MATCH
                &&& n.byte_count_after_match == DEFAULT_BYTE_COUNT_AFTER_MATCH
            },
    {
        let val: Vec<u8> = match config_needle_val.val_format {
            ConfigNeedleValFormat::Hex => {
                match parse_hex_string(config_needle_val.val.as_str()) {
                    Ok(v) => v,
                    Err(_) => {
                        return Err(());
                    },
                }
            },
            ConfigNeedleValFormat::Ascii => config_needle_val.val.as_str().as_bytes_vec(),
        };
        if val.len() == 0 {
            // the needle-set invariant: a zero-length pattern is rejected
            // at construction
            return Err(());
        }
        Ok(
            Needle {
                name: config_needle_val.name.clone(),
                val,
                description_notes: config_needle_val.description_notes.clone(),
                happiness_level: config_needle_val.happiness_level,
                write_to_file: config_needle_val.write_to_file,
                byte_count_before_match: DEFAULT_BYTE_COUNT_BEFORE_MATCH,
                byte_count_after_match: DEFAULT_BYTE_COUNT_AFTER_MATCH,
            },
        )
    }

    /// Builds a needle from a configuration entry whose pattern is known
    /// to be well-formed and non-empty.
    pub fn from_needle_val_config(config_needle_val: &ConfigNeedle) -> (r: Needle)
        requires
            config_val_bytes(*config_needle_val) matches Ok(bs) && bs.len() >= 1,
        ensures
            r.name@ == config_needle_val.name@,
            Ok::<Seq<u8>, ()>(r.val@) == config_val_bytes(*config_needle_val),
            r.description_notes@ == config_needle_val.description_notes@,
            r.happiness_level == config_needle_val.happiness_level,
            r.write_to_file == config_needle_val.write_to_file,
            r.byte_count_before_match == DEFAULT_BYTE_COUNT_BEFORE_MATCH,
            r.byte_count_after_match == DEFAULT_BYTE_COUNT_AFTER_MATCH,
    {
        match Self::try_from_needle_val_config(config_needle_val) {
            Ok(n) => n,
            Err(_) => {
                proof {
                    assert(false);
                }
                Needle {
                    name: String::new(),
                    val: Vec::new(),
                    description_notes: String::new(),
                    happiness_level: 0,
                    write_to_file: false,
                    byte_count_before_match: DEFAULT_BYTE_COUNT_BEFORE_MATCH,
                    byte_count_after_match: DEFAULT_BYTE_COUNT_AFTER_MATCH,
                }
            },
        }
    }
}

/// Builds the needle list from its loaded configuration entries, as an
/// external loader hands them over: each entry's pattern is parsed, and
/// one malformed or zero-length pattern rejects the whole set, so a
/// loaded needle list always satisfies the needle-set invariant.
pub fn load_needles_from_file(config_needle_vals: &Vec<ConfigNeedle>) -> (r: Result<
    Vec<Needle>,
    (),
>)
    ensures
        r is Ok <==> (forall|i: int|
            0 <= i < config_needle_vals@.len() ==> (config_val_bytes(
                #[trigger] config_needle_vals@[i],
            ) matches Ok(bs) && bs.len() >= 1)),
        r matches Ok(ns) ==> needles_wf(ns@),
        r matches Ok(ns) ==> {
            &&& ns@.len() == config_needle_vals@.len()
            &&& (forall|i: int|
                0 <= i < ns@.len() ==> {
                    let c = config_needle_vals@[i];
                    let n = #[trigger] ns@[i];
                    &&& n.name@ == c.name@
                    &&& Ok::<Seq<u8>, ()>(n.val@) == config_val_bytes(c)
                    &&& n.description_notes@ == c.description_notes@
                    &&& n.happiness_level == c.happiness_level
                    &&& n.write_to_file == c.write_to_file
                    &&& n.byte_count_before_match == DEFAULT_BYTE_COUNT_BEFORE_MATCH
                    &&& n.byte_count_after_match == DEFAULT_BYTE_COUNT_AFTER_MATCH
                })
        },
{
    let m = config_needle_vals.len();
    let mut ns: Vec<Needle> = Vec::new();
    let mut i: usize = 0;
    while i < m
        invariant
            i <= m,
            m == config_needle_vals@.len(),
            ns@.len() == i,
            forall|t: int|
                0 <= t < i ==> (config_val_bytes(#[trigger] config_needle_vals@[t]) matches Ok(
                    bs,
                ) && bs.len() >= 1),
            forall|t: int|
                0 <= t < i ==> {
                    let c = config_needle_vals@[t];
                    let n = #[trigger] ns@[t];
                    &&& n.name@ == c.name@
                    &&& Ok::<Seq<u8>, ()>(n.val@) == config_val_bytes(c)
                    &&& n.description_notes@ == c.description_notes@
                    &&& n.happiness_level == c.happiness_level
                    &&& n.write_to_file == c.write_to_file
                    &&& n.byte_count_before_match == DEFAULT_BYTE_COUNT_BEFORE_MATCH
                    &&& n.byte_count_after_match == DEFAULT_BYTE_COUNT_AFTER_MATCH
                },
        decreases m - i,
    {
        match Needle::try_from_needle_val_config(&config_needle_vals[i]) {
            Ok(n) => {
                ns.push(n);
            },
            Err(_) => {
                proof {
                    assert(!(config_val_bytes(config_needle_vals@[i as int]) matches Ok(bs)
                        && bs.len() >= 1));
                }
                return Err(());
            },
        }
        i += 1;
    }
    Ok(ns)
}

/// Validates a needle list against the needle-set invariant and the given
/// carry-forward length: every pattern non-empty and short enough to span
/// at most one chunk boundary.
pub fn validate_needles(needles: &Vec<Needle>, carry_len: usize) -> (r: bool)
    ensures
        r == (needles_wf(needles@) && needles_fit_carry(needles@, carry_len as int)),
{
    let n = needles.len();
    let mut i: usize = 0;
    while i < n
        invariant
            i <= n,
            n == needles@.len(),
            forall|t: int| 0 <= t < i ==> (#[trigger] needles@[t].val)@.len() >= 1,
            forall|t: int|
                0 <= t < i ==> (#[trigger] needles@[t].val)@.len() <= carry_len as int + 1,
        decreases n - i,
    {
        let len = needles[i].val.len();
        if len == 0 {
            assert(!needles_wf(needles@));
            return false;
        }
        if len > carry_len && len - carry_len > 1 {
            assert(!needles_fit_carry(needles@, carry_len as int));
            return false;
        }
        i += 1;
    }
    true
}

}
