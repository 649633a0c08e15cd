//! The structured match record: one entry per surviving match, the
//! context-window clipping, the deterministic output names, and the
//! JSON-line rendering that the output logs and the summary collaborator
//! rely on.

use vstd::prelude::*;
use vstd::string::*;

use crate::decimal::{dec_digits, u64_dec_digits};
use crate::display_hex::{display_hex_offset, hex_offset_display};
use crate::needle::{val_as_string_spec, Needle};
use crate::text::{append_json_escaped, json_escape};

verus! {

/// One reported match occurrence, ready to be appended to the structured
/// output logs.
pub struct NeedleValFound {
    pub name: String,
    pub match_start_global_offset: u64,
    pub val: Vec<u8>,
    pub val_as_str: String,
    pub description_notes: String,
    pub happiness_level: u8,
    pub found_timestamp_utc: String,
    pub haystack_written_to_file: bool,
    pub haystack_file_path: Option<String>,
    pub haystack_file_name: Option<String>,
}

/// Where a clipped context window starts: `before` bytes ahead of the
/// match where they exist, never before the buffer's first byte.
pub open spec fn clip_start(pos: int, before: int) -> int {
    if before <= pos {
        pos - before
    } else {
        0
    }
}

/// Where a clipped context window ends: `after` bytes past the match end
/// where they exist, never past the buffer's last byte.
pub open spec fn clip_end(pos: int, match_len: int, after: int, buffer_len: int) -> int {
    if pos + match_len + after <= buffer_len {
        pos + match_len + after
    } else {
        buffer_len
    }
}

/// Clips the requested context window `[pos - before, pos + match_len +
/// after)` to the bytes actually available in the buffer.  Asking for more
/// "before" context than exists yields exactly the bytes from the buffer
/// start: the window never reaches before offset zero.
pub fn context_window(
    pos_in_buffer: usize,
    match_len: usize,
    before: u64,
    after: u64,
    buffer_len: usize,
) -> (w: (usize, usize))
    requires
        pos_in_buffer + match_len <= buffer_len,
    ensures
        w.0 as int == clip_start(pos_in_buffer as int, before as int),
        w.1 as int == clip_end(pos_in_buffer as int, match_len as int, after as int, buffer_len as int),
        w.0 <= pos_in_buffer,
        pos_in_buffer + match_len <= w.1 <= buffer_len,
{
    let start: usize = if before <= (pos_in_buffer as u64) {
        pos_in_buffer - (before as usize)
    } else {
        0
    };
    let rem = buffer_len - (pos_in_buffer + match_len);
    let end: usize = if after <= (rem as u64) {
        pos_in_buffer + match_len + (after as usize)
    } else {
        buffer_len
    };
    (start, end)
}

/// The deterministic context file name derived from the match's absolute
/// offset and the clipped window's absolute start offset.
pub open spec fn context_file_name_spec(global_offset: nat, window_start_abs: nat) -> Seq<char> {
    "found_g_0x"@ + hex_offset_display(global_offset, 20) + "_startat_0x"@ + hex_offset_display(
        window_start_abs,
        1,
    ) + ".bin"@
}

/// Derives the context file name for a match: re-running the scan over
/// identical input reproduces the identical name.
pub fn context_file_name(global_offset: u64, window_start_abs: u64) -> (r: String)
    ensures
        r@ == context_file_name_spec(global_offset as nat, window_start_abs as nat),
{
    let mut s = String::from_str("found_g_0x");
    let g = display_hex_offset(global_offset, 20);
    s.append(g.as_str());
    s.append("_startat_0x");
    let w = display_hex_offset(window_start_abs, 1);
    s.append(w.as_str());
    s.append(".bin");
    s
}

/// The per-needle output directory name, keyed by happiness level and
/// needle name.
pub open spec fn needle_dir_name_spec(hl: nat, name: Seq<char>) -> Seq<char> {
    dec_digits(hl) + "_"@ + name
}

/// Derives the per-needle output directory name.
pub fn needle_dir_name(needle: &Needle) -> (r: String)
    ensures
        r@ == needle_dir_name_spec(needle.happiness_level as nat, needle.name@),
{
    let mut s = u64_dec_digits(needle.happiness_level as u64);
    s.append("_");
    s.append(needle.name.as_str());
    s
}

/// The per-needle record log file name.
pub open spec fn needle_log_name_spec(name: Seq<char>) -> Seq<char> {
    "001_"@ + name + ".jsonl"@
}

/// Derives the per-needle record log file name.
pub fn needle_log_file_name(needle: &Needle) -> (r: String)
    ensures
        r@ == needle_log_name_spec(needle.name@),
{
    let mut s = String::from_str("001_");
    s.append(needle.name.as_str());
    s.append(".jsonl");
    s
}

/// The final component of a path: everything after the last `'/'`.  A
/// path that ends in `'/'` has an empty final component here, unlike
/// std's `Path::file_name`, which looks past trailing separators; such a
/// path never names a readable haystack file.
pub open spec fn file_name_of(p: Seq<char>) -> Seq<char>
    decreases p.len(),
{
    if p.len() == 0 {
        Seq::empty()
    } else if p.last() == '/' {
        Seq::empty()
    } else {
        file_name_of(p.drop_last()).push(p.last())
    }
}

proof fn lemma_file_name_suffix(p: Seq<char>, j: int)
    requires
        0 <= j <= p.len(),
        j > 0 ==> p[j - 1] == '/',
        forall|t: int| j <= t < p.len() ==> p[t] != '/',
    ensures
        file_name_of(p) == p.skip(j),
    decreases p.len() - j,
{
    if p.len() == j {
        if j == 0 {
            assert(p.skip(0) =~= p);
            assert(p.len() == 0);
        } else {
            assert(p.last() == '/');
            assert(p.skip(j) =~= Seq::<char>::empty());
        }
    } else {
        assert(p[p.len() - 1] != '/');
        let dl = p.drop_last();
        assert forall|t: int| j <= t < dl.len() implies dl[t] != '/' by {
            assert(dl[t] == p[t]);
        }
        if j > 0 {
            assert(dl[j - 1] == p[j - 1]);
        }
        lemma_file_name_suffix(dl, j);
        assert(file_name_of(p) == dl.skip(j).push(p.last()));
        assert(dl.skip(j).push(p.last()) =~= p.skip(j));
    }
}

/// The final component of the path `p`: the text after its last `'/'`,
/// or all of `p` when it holds none.
pub fn path_file_name(p: &str) -> (r: String)
    ensures
        r@ == file_name_of(p@),
{
    let n = p.unicode_len();
    let mut j: usize = 0;
    let mut i: usize = 0;
    while i < n
        invariant
            j <= i <= n,
            n == p@.len(),
            j > 0 ==> p@[j - 1] == '/',
            forall|t: int| j <= t < i ==> p@[t] != '/',
        decreases n - i,
    {
        if p.get_char(i) == '/' {
            j = i + 1;
        }
        i += 1;
    }
    proof {
        lemma_file_name_suffix(p@, j as int);
    }
    let suffix = p.substring_char(j, n);
    proof {
        assert(suffix@ =~= p@.skip(j as int));
    }
    String::from_str(suffix)
}

fn copy_bytes(v: &Vec<u8>) -> (r: Vec<u8>)
    ensures
        r@ == v@,
{
    let n = v.len();
    let mut r: Vec<u8> = Vec::new();
    let mut i: usize = 0;
    while i < n
        invariant
            i <= n,
            n == v@.len(),
            r@ == v@.take(i as int),
        decreases n - i,
    {
        let b = v[i];
        r.push(b);
        proof {
            assert(r@ =~= v@.take(i + 1));
        }
        i += 1;
    }
    proof {
        assert(v@.take(n as int) =~= v@);
    }
    r
}

impl NeedleValFound {
    /// Builds the structured record for one surviving match from the
    /// needle, the match's absolute offset, the haystack's path and the
    /// capture timestamp.  Every field except the timestamp is a function
    /// of the scan inputs alone.
    pub fn from_needle_val(
        needle_val: &Needle,
        match_start_global_offset: u64,
        input_file_path: &str,
        found_timestamp_utc: String,
    ) -> (r: NeedleValFound)
        ensures
            r.name@ == needle_val.name@,
            r.match_start_global_offset == match_start_global_offset,
            r.val@ == needle_val.val@,
            r.val_as_str@ == val_as_string_spec(needle_val.val@),
            r.description_notes@ == needle_val.description_notes@,
            r.happiness_level == needle_val.happiness_level,
            r.found_timestamp_utc == found_timestamp_utc,
            r.haystack_written_to_file == needle_val.write_to_file,
            needle_val.write_to_file ==> (r.haystack_file_path matches Some(p) && p@
                == input_file_path@),
            needle_val.write_to_file ==> (r.haystack_file_name matches Some(f) && f@
                == file_name_of(input_file_path@)),
            !needle_val.write_to_file ==> r.haystack_file_path is None && r.haystack_file_name
                is None,
    {
        let haystack_file_path: Option<String> = if needle_val.write_to_file {
            Some(String::from_str(input_file_path))
        } else {
            None
        };
        let haystack_file_name: Option<String> = if needle_val.write_to_file {
            Some(path_file_name(input_file_path))
        } else {
            None
        };
        NeedleValFound {
            name: needle_val.name.clone(),
            match_start_global_offset,
            val: copy_bytes(&needle_val.val),
            val_as_str: needle_val.val_as_string(),
            description_notes: needle_val.description_notes.clone(),
            happiness_level: needle_val.happiness_level,
            found_timestamp_utc,
            haystack_written_to_file: needle_val.write_to_file,
            haystack_file_path,
            haystack_file_name,
        }
    }
}

/// The JSON rendering "[1,2,3]" of a byte array.
pub open spec fn json_byte_list(bs: Seq<u8>) -> Seq<char>
    decreases bs.len(),
{
    if bs.len() == 0 {
        Seq::empty()
    } else if bs.len() == 1 {
        dec_digits(bs[0] as nat)
    } else {
        json_byte_list(bs.drop_last()) + ","@ + dec_digits(bs.last() as nat)
    }
}

/// A byte array as a JSON value.
pub open spec fn json_bytes(bs: Seq<u8>) -> Seq<char> {
    "["@ + json_byte_list(bs) + "]"@
}

/// A string as a JSON value: quoted with its body escaped.
pub open spec fn json_string(s: Seq<char>) -> Seq<char> {
    "\""@ + json_escape(s) + "\""@
}

/// An optional string as a JSON value: the string, or `null`.
pub open spec fn json_opt_string(o: Option<String>) -> Seq<char> {
    match o {
        Some(s) => json_string(s@),
        None => "null"@,
    }
}

/// A boolean as a JSON value.
pub open spec fn json_bool(b: bool) -> Seq<char> {
    if b {
        "true"@
    } else {
        "false"@
    }
}

/// The one-line JSON rendering of a record: the stable schema that the
/// scan-global and per-needle logs hold and the summary collaborator
/// reads, without the trailing newline.
pub open spec fn record_jsonl_spec(r: NeedleValFound) -> Seq<char> {
    "{\"name\":"@ + json_string(r.name@) + ",\"match_start_global_offset\":"@ + dec_digits(
        r.match_start_global_offset as nat,
    ) + ",\"val\":"@ + json_bytes(r.val@) + ",\"val_as_str\":"@ + json_string(r.val_as_str@)
        + ",\"description_notes\":"@ + json_string(r.description_notes@)
        + ",\"happiness_level\":"@ + dec_digits(r.happiness_level as nat)
        + ",\"found_timestamp_utc\":"@ + json_string(r.found_timestamp_utc@)
        + ",\"haystack_written_to_file\":"@ + json_bool(r.haystack_written_to_file)
        + ",\"haystack_file_path\":"@ + json_opt_string(r.haystack_file_path)
        + ",\"haystack_file_name\":"@ + json_opt_string(r.haystack_file_name) + "}"@
}

fn append_json_string(s: &mut String, t: &str)
    ensures
        final(s)@ == old(s)@ + json_string(t@),
{
    s.append("\"");
    append_json_escaped(s, t);
    s.append("\"");
    proof {
        assert(s@ =~= old(s)@ + json_string(t@));
    }
}

fn append_json_opt_string(s: &mut String, t: &Option<String>)
    ensures
        final(s)@ == old(s)@ + json_opt_string(*t),
{
    match t {
        Some(v) => {
            append_json_string(s, v.as_str());
        },
        None => {
            s.append("null");
        },
    }
}

fn append_json_bytes(s: &mut String, bs: &Vec<u8>)
    ensures
        final(s)@ == old(s)@ + json_bytes(bs@),
{
    let ghost s0 = s@;
    s.append("[");
    let n = bs.len();
    let mut i: usize = 0;
    proof {
        assert(json_byte_list(bs@.take(0)) =~= Seq::<char>::empty());
        assert(s@ =~= s0 + "["@ + json_byte_list(bs@.take(0)));
    }
    while i < n
        invariant
            i <= n,
            n == bs@.len(),
            s@ == s0 + "["@ + json_byte_list(bs@.take(i as int)),
        decreases n - i,
    {
        if i > 0 {
            s.append(",");
        }
        let b = bs[i];
        let d = u64_dec_digits(b as u64);
        s.append(d.as_str());
        proof {
            let pre = bs@.take(i as int);
            let cur = bs@.take(i + 1);
            assert(cur.drop_last() =~= pre);
            assert(cur.last() == bs@[i as int]);
            if i == 0 {
                assert(cur.len() == 1);
                assert(cur[0] == bs@[0]);
                assert(json_byte_list(cur) == dec_digits(bs@[0] as nat));
            } else {
                assert(json_byte_list(cur) == json_byte_list(pre) + ","@ + dec_digits(
                    bs@[i as int] as nat,
                ));
            }
            assert(s@ =~= s0 + "["@ + json_byte_list(cur));
        }
        i += 1;
    }
    s.append("]");
    proof {
        assert(bs@.take(n as int) =~= bs@);
        assert(s@ =~= s0 + json_bytes(bs@));
    }
}

impl NeedleValFound {
    /// Renders the record as its one-line JSON form, the schema the
    /// output logs hold.
    pub fn to_jsonl_line(&self) -> (r: String)
        ensures
            r@ == record_jsonl_spec(*self),
    {
        let mut s = String::from_str("{\"name\":");
        append_json_string(&mut s, self.name.as_str());
        s.append(",\"match_start_global_offset\":");
        let off = u64_dec_digits(self.match_start_global_offset);
        s.append(off.as_str());
        s.append(",\"val\":");
        append_json_bytes(&mut s, &self.val);
        s.append(",\"val_as_str\":");
        append_json_string(&mut s, self.val_as_str.as_str());
        s.append(",\"description_notes\":");
        append_json_string(&mut s, self.description_notes.as_str());
        s.append(",\"happiness_level\":");
        let hl = u64_dec_digits(self.happiness_level as u64);
        s.append(hl.as_str());
        s.append(",\"found_timestamp_utc\":");
        append_json_string(&mut s, self.found_timestamp_utc.as_str());
        s.append(",\"haystack_written_to_file\":");
        if self.haystack_written_to_file {
            s.append("true");
        } else {
            s.append("false");
        }
        s.append(",\"haystack_file_path\":");
        append_json_opt_string(&mut s, &self.haystack_file_path);
        s.append(",\"haystack_file_name\":");
        append_json_opt_string(&mut s, &self.haystack_file_name);
        s.append("}");
        proof {
            assert(s@ =~= record_jsonl_spec(*self));
        }
        s
    }
}

}
