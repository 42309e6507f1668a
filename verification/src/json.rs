//! Lightweight extraction and rewriting of string values in single JSON lines.
//!
//! The lookups do not parse JSON: they search for the first occurrence of a
//! quoted key that is followed by a colon and read the value after it. A lookup
//! result is `None` where the scan would slice a string inside a multi-byte
//! character; such inputs are outside the domain of the executable functions.
use vstd::prelude::*;
use crate::text::{
    chars_eq_str, chars_of, extend, find, find_char_in, find_char_in_exec, find_from,
    find_from_exec, is_ws, lemma_find_char_in, lemma_find_char_in_prefix, lemma_trim_start_drop_last, lemma_find_from, lemma_find_from_prefix,
    lemma_find_from_skip, lemma_trim_start_run, lemma_trim_start_suffix,
    lemma_utf8_len_bounds, skip_ws, slice_copy, trim, trim_chars, trim_start, utf8_char_len,
    utf8_char_len_exec, utf8_len, utf8_len_at_most, string_of, join, join_exec,
};

verus! {

// ---------------------------------------------------------------------------
// Models
// ---------------------------------------------------------------------------

/// `"key"`: the key between double quotes.
pub open spec fn key_marker(key: Seq<char>) -> Seq<char> {
    seq!['"'] + key + seq!['"']
}

/// Value of one hexadecimal digit.
pub open spec fn hex_digit_value(c: char) -> Option<nat> {
    if '0' <= c && c <= '9' {
        Some((c as nat - 48) as nat)
    } else if 'a' <= c && c <= 'f' {
        Some((c as nat - 87) as nat)
    } else if 'A' <= c && c <= 'F' {
        Some((c as nat - 55) as nat)
    } else {
        None
    }
}

/// Value of a run of hexadecimal digits.
pub open spec fn hex_digits_value(d: Seq<char>) -> Option<nat>
    decreases d.len(),
{
    if d.len() == 0 {
        Some(0)
    } else {
        match (hex_digits_value(d.drop_last()), hex_digit_value(d.last())) {
            (Some(a), Some(b)) => Some(a * 16 + b),
            _ => None,
        }
    }
}

/// `u16::from_str_radix(h, 16)` for `h` of at most four characters: an optional
/// leading `'+'` followed by at least one hexadecimal digit.
pub open spec fn parse_hex4(h: Seq<char>) -> Option<nat> {
    if h.len() == 0 {
        None
    } else if h[0] == '+' {
        if h.len() == 1 {
            None
        } else {
            hex_digits_value(h.drop_first())
        }
    } else {
        hex_digits_value(h)
    }
}

/// `char::from_u32(v)` is `Some`.
pub open spec fn is_scalar(v: nat) -> bool {
    v < 0xD800 || (0xE000 <= v && v <= 0x10FFFF)
}

/// Number of leading characters of `s` whose UTF-8 encoding has exactly `n`
/// bytes, if `n` falls on a character boundary.
pub open spec fn chars_for_bytes(s: Seq<char>, n: int) -> Option<nat>
    decreases s.len(),
{
    if n == 0 {
        Some(0)
    } else if n < 0 || s.len() == 0 {
        None
    } else {
        match chars_for_bytes(s.drop_first(), n - utf8_char_len(s[0])) {
            Some(k) => Some(k + 1),
            None => None,
        }
    }
}

/// The character that the escape `\e` stands for, for `e != 'u'`.
pub open spec fn escaped_char(e: char) -> char {
    if e == 'b' {
        '\u{8}'
    } else if e == 'f' {
        '\u{c}'
    } else if e == 'n' {
        '\n'
    } else if e == 'r' {
        '\r'
    } else if e == 't' {
        '\t'
    } else {
        e
    }
}

pub proof fn lemma_chars_for_bytes(s: Seq<char>, n: int)
    ensures
        chars_for_bytes(s, n) matches Some(k) ==> k <= s.len() && utf8_len(s.take(k as int))
            == n,
    decreases s.len(),
{
    if n != 0 && n >= 0 && s.len() > 0 {
        lemma_chars_for_bytes(s.drop_first(), n - utf8_char_len(s[0]));
        if let Some(k) = chars_for_bytes(s, n) {
            assert(s.take(k as int).drop_first() =~= s.drop_first().take(k - 1));
        }
    } else if n == 0 {
        assert(s.take(0) =~= Seq::<char>::empty());
    }
}

/// Decoding of the body of a JSON string literal (after its opening quote),
/// appended to `out`: up to the first unescaped `'"'` or the end. Escapes
/// `\"`, `\\`, `\/`, `\b`, `\f`, `\n`, `\r`, `\t` give their character, another
/// `\e` gives `e`, `\uXXXX` gives the character with that code when it is one
/// and nothing otherwise. `None` where four bytes after `\u` end inside a
/// character.
pub open spec fn decode_acc(s: Seq<char>, out: Seq<char>) -> Option<Seq<char>>
    decreases s.len(),
{
    if s.len() == 0 {
        Some(out)
    } else if s[0] == '"' {
        Some(out)
    } else if s[0] == '\\' {
        if s.len() == 1 {
            Some(out)
        } else if s[1] == 'u' {
            let rest = s.skip(2);
            if utf8_len(rest) < 4 {
                decode_acc(rest, out)
            } else {
                match chars_for_bytes(rest, 4) {
                    None => None,
                    Some(k) => {
                        proof {
                            lemma_chars_for_bytes(rest, 4);
                        }
                        decode_acc(
                            rest.skip(k as int),
                            match parse_hex4(rest.take(k as int)) {
                                Some(v) => if is_scalar(v) {
                                    out.push(v as char)
                                } else {
                                    out
                                },
                                None => out,
                            },
                        )
                    },
                }
            }
        } else {
            decode_acc(s.skip(2), out.push(escaped_char(s[1])))
        }
    } else {
        decode_acc(s.drop_first(), out.push(s[0]))
    }
}

/// Decoding of the body of a JSON string literal (`parse_json_string`).
pub open spec fn decode_string(s: Seq<char>) -> Option<Seq<char>> {
    decode_acc(s, seq![])
}

/// Characters that end an unquoted value.
pub open spec fn value_stops() -> Seq<char> {
    seq![',', '}', ']']
}

/// The value at the start of `value` read as a string
/// (`parse_json_value_as_string`): a decoded string literal, or the trimmed
/// text up to the next `,` `}` `]`, absent when that is empty or `null`.
pub open spec fn value_as_string(value: Seq<char>) -> Option<Option<Seq<char>>> {
    if value.len() > 0 && value[0] == '"' {
        match decode_string(value.drop_first()) {
            Some(d) => Some(Some(d)),
            None => None,
        }
    } else {
        let end = match find_char_in(value, value_stops(), 0) {
            Some(e) => e,
            None => value.len() as int,
        };
        let raw = trim(value.take(end));
        if raw.len() == 0 || raw == "null"@ {
            Some(None)
        } else {
            Some(Some(raw))
        }
    }
}

/// The string value of the first occurrence of `marker` in `rest` that is
/// followed, after whitespace, by a colon (`json_get_string`'s scan).
pub open spec fn lookup_from(rest: Seq<char>, marker: Seq<char>) -> Option<Option<Seq<char>>>
    decreases rest.len(),
{
    match find(rest, marker) {
        None => Some(None),
        Some(pos) => {
            let after = trim_start(rest.skip(pos + marker.len()));
            if after.len() > 0 && after[0] == ':' {
                value_as_string(trim_start(after.drop_first()))
            } else if after.len() == 0 {
                Some(None)
            } else if utf8_char_len(after[0]) > 1 {
                None
            } else {
                proof {
                    lemma_find_from(rest, marker, 0);
                    lemma_trim_start_suffix(rest.skip(pos + marker.len()));
                }
                lookup_from(after.drop_first(), marker)
            }
        },
    }
}

/// `json_get_string(src, key)`.
pub open spec fn get_string(src: Seq<char>, key: Seq<char>) -> Option<Option<Seq<char>>> {
    lookup_from(src, key_marker(key))
}

/// `"payload"`.
pub open spec fn payload_marker() -> Seq<char> {
    key_marker("payload"@)
}

/// `json_payload_string(line, key)`: the lookup of `key` from the first
/// `"payload"` on.
pub open spec fn payload_string(line: Seq<char>, key: Seq<char>) -> Option<Option<Seq<char>>> {
    match find(line, payload_marker()) {
        None => Some(None),
        Some(p) => get_string(line.skip(p), key),
    }
}

/// Escaping of one character inside a JSON string literal (`json_quote`).
pub open spec fn json_escape_char(c: char) -> Seq<char> {
    if c == '"' {
        seq!['\\', '"']
    } else if c == '\\' {
        seq!['\\', '\\']
    } else if c == '\n' {
        seq!['\\', 'n']
    } else if c == '\r' {
        seq!['\\', 'r']
    } else if c == '\t' {
        seq!['\\', 't']
    } else {
        seq![c]
    }
}

/// Escaped body of a JSON string literal.
pub open spec fn json_escape(s: Seq<char>) -> Seq<char>
    decreases s.len(),
{
    if s.len() == 0 {
        seq![]
    } else {
        json_escape_char(s[0]) + json_escape(s.drop_first())
    }
}

pub proof fn lemma_json_escape_append(a: Seq<char>, b: Seq<char>)
    ensures
        json_escape(a + b) == json_escape(a) + json_escape(b),
    decreases a.len(),
{
    if a.len() == 0 {
        assert(a + b =~= b);
    } else {
        lemma_json_escape_append(a.drop_first(), b);
        assert((a + b).drop_first() =~= a.drop_first() + b);
    }
}

/// `json_quote(value)`: the JSON string literal for `value`.
pub open spec fn json_quote(s: Seq<char>) -> Seq<char> {
    seq!['"'] + json_escape(s) + seq!['"']
}

/// End of the value starting at `start` (`json_value_end`): after the closing
/// quote of a string literal (absent when unterminated), or at the next `,` `}`
/// `]`, or at the end of the line.
pub open spec fn value_end(line: Seq<char>, start: int) -> Option<int> {
    if start < line.len() && line[start] == '"' {
        match string_close(line, start + 1, false) {
            Some(q) => Some(q + 1),
            None => None,
        }
    } else {
        match find_char_in(line, value_stops(), start) {
            Some(e) => Some(e),
            None => Some(line.len() as int),
        }
    }
}

/// Index of the first unescaped `'"'` at or after `i`, `escaped` telling
/// whether the character at `i` follows a pending backslash.
pub open spec fn string_close(line: Seq<char>, i: int, escaped: bool) -> Option<int>
    decreases line.len() - i,
{
    if i < 0 || i >= line.len() {
        None
    } else if escaped {
        string_close(line, i + 1, false)
    } else if line[i] == '\\' {
        string_close(line, i + 1, true)
    } else if line[i] == '"' {
        Some(i)
    } else {
        string_close(line, i + 1, false)
    }
}

/// Where `replace_json_payload_string` writes: the start and end of the value
/// of the first `"key"` after the first `"payload"`, its colon being the first
/// one after the key.
pub open spec fn payload_value_slot(line: Seq<char>, key: Seq<char>) -> Option<(int, int)> {
    match find(line, payload_marker()) {
        None => None,
        Some(p) => match find_from(line, key_marker(key), p) {
            None => None,
            Some(key_pos) => {
                let after_key = key_pos + key_marker(key).len();
                match find_char_in(line, seq![':'], after_key) {
                    None => None,
                    Some(colon) => {
                        let raw_start = line.len() - trim_start(
                            line.subrange(colon + 1, line.len() as int),
                        ).len();
                        match value_end(line, raw_start) {
                            None => None,
                            Some(raw_end) => Some((raw_start, raw_end)),
                        }
                    },
                }
            },
        },
    }
}

/// The value slot lies within the line, its start before its end.
pub proof fn lemma_payload_value_slot_range(line: Seq<char>, key: Seq<char>)
    ensures
        payload_value_slot(line, key) matches Some((a, b)) ==> 0 <= a <= b <= line.len(),
{
    if let Some(p) = find(line, payload_marker()) {
        lemma_find_from(line, payload_marker(), 0);
        if let Some(key_pos) = find_from(line, key_marker(key), p) {
            lemma_find_from(line, key_marker(key), p);
            let after_key = key_pos + key_marker(key).len();
            lemma_find_char_in(line, seq![':'], after_key);
            if let Some(colon) = find_char_in(line, seq![':'], after_key) {
                let sub = line.subrange(colon + 1, line.len() as int);
                lemma_trim_start_suffix(sub);
                let a = line.len() - trim_start(sub).len();
                lemma_value_end_range(line, a);
            }
        }
    }
}

proof fn lemma_string_close_prefix(s1: Seq<char>, s2: Seq<char>, i: int, escaped: bool, a: int)
    requires
        0 <= i,
        a <= s1.len(),
        a <= s2.len(),
        s1.take(a) == s2.take(a),
        string_close(s1, i, escaped) matches Some(q) && q < a,
    ensures
        string_close(s2, i, escaped) == string_close(s1, i, escaped),
    decreases s1.len() - i,
{
    lemma_string_close_range(s1, i, escaped);
    assert(s1[i] == s1.take(a)[i]);
    assert(s2[i] == s2.take(a)[i]);
    if escaped || s1[i] == '\\' || s1[i] != '"' {
        lemma_string_close_prefix(s1, s2, i + 1, !escaped && s1[i] == '\\', a);
    }
}

/// A final carriage return after the value slot changes neither the slot nor
/// whether the key is followed by its colon.
pub proof fn lemma_payload_value_slot_drop_cr(line: Seq<char>, key: Seq<char>)
    requires
        line.len() > 0,
        line.last() == '\r',
        payload_value_slot(line, key) matches Some((a, b)) && b < line.len(),
    ensures
        payload_value_slot(line.drop_last(), key) == payload_value_slot(line, key),
        payload_key_has_colon(line, key) ==> payload_key_has_colon(line.drop_last(), key),
{
    reveal_strlit("payload");
    let l2 = line.drop_last();
    let n: int = l2.len() as int;
    assert(line.take(n) =~= l2.take(n));
    let pm = payload_marker();
    let km = key_marker(key);
    assert(pm =~= seq!['"', 'p', 'a', 'y', 'l', 'o', 'a', 'd', '"']);
    lemma_find_from(line, pm, 0);
    let p = find(line, pm)->0;
    lemma_find_from(line, km, p);
    let key_pos = find_from(line, km, p)->0;
    let after_key = key_pos + km.len();
    lemma_find_char_in(line, seq![':'], after_key);
    let colon = find_char_in(line, seq![':'], after_key)->0;
    let tail = line.subrange(colon + 1, line.len() as int);
    lemma_trim_start_suffix(tail);
    let a = line.len() - trim_start(tail).len();
    lemma_value_end_range(line, a);
    let b = value_end(line, a)->0;
    assert(payload_value_slot(line, key) == Some((a, b)));
    // the value starts before the final carriage return
    assert(a < n) by {
        if a >= n {
            assert(trim_start(tail).len() <= 1);
            if trim_start(tail).len() == 1 {
                assert(trim_start(tail)[0] == line.last());
                assert(is_ws('\r'));
            }
            assert(a == line.len());
        }
    }
    assert(seq![':'][0] == ':');
    assert(colon >= p + pm.len()) by {
        if colon < p + pm.len() {
            assert(line[colon] == pm[colon - p]);
        }
    }
    lemma_find_from_prefix(line, l2, pm, 0, n);
    lemma_find_from_prefix(line, l2, km, p, n);
    lemma_find_char_in_prefix(line, l2, seq![':'], after_key, n);
    let tail2 = l2.subrange(colon + 1, n as int);
    assert(tail2 =~= tail.drop_last());
    lemma_trim_start_drop_last(tail);
    assert(l2[a] == line[a]);
    if line[a] == '"' {
        lemma_string_close_range(line, a + 1, false);
        lemma_string_close_prefix(line, l2, a + 1, false, n);
    } else {
        lemma_find_char_in(line, value_stops(), a);
        let e = find_char_in(line, value_stops(), a);
        if e is Some {
            assert(e->0 < n) by {
                if e->0 == n {
                    assert(line[n] == '\r');
                    assert(value_stops().contains(line[n]));
                    assert(value_stops() =~= seq![',', '}', ']']);
                    assert(false);
                }
            }
            lemma_find_char_in_prefix(line, l2, value_stops(), a, n);
        }
    }
    assert(payload_value_slot(l2, key) == Some((a, b)));
    if payload_key_has_colon(line, key) {
        let t0 = line.skip(after_key);
        lemma_trim_start_suffix(t0);
        let t = trim_start(t0);
        assert(t[0] == ':');
        // that colon is the one found after the key
        let cpos = line.len() - t.len();
        assert(line[cpos] == ':');
        assert forall|j: int| after_key <= j < cpos implies !seq![':'].contains(#[trigger] line[j]) by {
            assert(is_ws(t0[j - after_key]));
            assert(t0[j - after_key] == line[j]);
            if seq![':'].contains(line[j]) {
                assert(line[j] == ':');
            }
        }
        crate::text::lemma_find_char_in_unique(line, seq![':'], after_key, cpos);
        assert(cpos == colon);
        assert(l2.skip(after_key) =~= t0.drop_last());
        lemma_trim_start_drop_last(t0);
        assert(t.len() >= 2);
    }
}

/// The JSON literal of a text holds no line break.
pub proof fn lemma_json_quote_one_line(v: Seq<char>)
    ensures
        forall|k: int| 0 <= k < json_quote(v).len() ==> #[trigger] json_quote(v)[k] != '\n',
        json_quote(v).len() >= 2,
        json_quote(v).last() == '"',
    decreases v.len(),
{
    if v.len() > 0 {
        lemma_json_quote_one_line(v.drop_first());
        let h = json_escape_char(v[0]);
        let t = json_escape(v.drop_first());
        assert(json_escape(v) == h + t);
        assert forall|k: int| 0 <= k < json_quote(v).len() implies #[trigger] json_quote(v)[k] != '\n' by {
            let q = json_quote(v);
            if 1 <= k < 1 + h.len() {
                assert(q[k] == h[k - 1]);
            } else if 1 + h.len() <= k < q.len() - 1 {
                assert(q[k] == json_quote(v.drop_first())[k - h.len()]);
            }
        }
    }
}

/// `replace_json_payload_string(line, key, value)`: the value in the slot
/// replaced by the JSON literal of `value`; the line unchanged when there is no
/// slot.
pub open spec fn replace_payload_string(line: Seq<char>, key: Seq<char>, value: Seq<char>) -> Seq<
    char,
> {
    match payload_value_slot(line, key) {
        None => line,
        Some((a, b)) => line.take(a) + json_quote(value) + line.skip(b),
    }
}

// ---------------------------------------------------------------------------
// Executable functions
// ---------------------------------------------------------------------------

/// `u16::from_str_radix(h, 16)` for `h` of at most four characters.
fn parse_hex4_exec(h: &[char]) -> (r: Option<u32>)
    requires
        h.len() <= 4,
    ensures
        r matches Some(v) ==> parse_hex4(h@) == Some(v as nat),
        r is None ==> parse_hex4(h@) is None,
{
    if h.len() == 0 {
        return None;
    }
    let mut i: usize = 0;
    if h[0] == '+' {
        if h.len() == 1 {
            return None;
        }
        i = 1;
    }
    let ghost digits = h@.skip(i as int);
    let mut v: u32 = 0;
    let start = i;
    assert(h@.subrange(start as int, start as int) =~= Seq::<char>::empty());
    while i < h.len()
        invariant
            start <= i <= h.len() <= 4,
            start == 0 || start == 1,
            h.len() > 0,
            start == 1 <==> h@[0] == '+',
            digits == h@.skip(start as int),
            hex_digits_value(h@.subrange(start as int, i as int)) == Some(v as nat),
            v < pow16(i - start),
        decreases h.len() - i,
    {
        let c = h[i];
        let d: u32;
        if '0' <= c && c <= '9' {
            d = (c as u32) - 48;
        } else if 'a' <= c && c <= 'f' {
            d = (c as u32) - 87;
        } else if 'A' <= c && c <= 'F' {
            d = (c as u32) - 55;
        } else {
            proof {
                assert(h@.subrange(start as int, i + 1).drop_last() =~= h@.subrange(
                    start as int,
                    i as int,
                ));
                assert(h@.subrange(start as int, i + 1).last() == c);
                assert(hex_digits_value(h@.subrange(start as int, i + 1)) is None);
                assert(h@.subrange(start as int, h.len() as int).take(i - start + 1) =~= h@.subrange(
                    start as int,
                    i + 1,
                ));
                lemma_hex_digits_prefix_none(h@.subrange(start as int, h.len() as int), i - start);
                if start == 1 {
                    assert(h@.subrange(1, h.len() as int) =~= h@.drop_first());
                } else {
                    assert(h@.subrange(0, h.len() as int) =~= h@);
                }
            }
            return None;
        }
        assert(h@.subrange(start as int, i + 1).drop_last() =~= h@.subrange(start as int, i as int));
        proof {
            lemma_pow16_small((i - start) as int);
            let k = (i - start) as int;
            assert(pow16(k + 1) == 16 * pow16(k));
            assert(v * 16 + d < 16 * pow16(k)) by (nonlinear_arith)
                requires
                    v < pow16(k),
                    d < 16,
            ;
        }
        v = v * 16 + d;
        i = i + 1;
    }
    proof {
        if start == 1 {
            assert(h@.subrange(1, h.len() as int) =~= h@.drop_first());
        } else {
            assert(h@.subrange(0, h.len() as int) =~= h@);
        }
    }
    Some(v)
}

spec fn pow16(n: int) -> nat
    decreases n,
{
    if n <= 0 {
        1
    } else {
        16 * pow16(n - 1)
    }
}

proof fn lemma_pow16_small(k: int)
    requires
        0 <= k <= 3,
    ensures
        pow16(k) <= 4096,
{
    reveal_with_fuel(pow16, 4);
}

proof fn lemma_hex_digits_prefix_none(d: Seq<char>, k: int)
    requires
        0 <= k < d.len(),
        hex_digits_value(d.take(k + 1)) is None,
    ensures
        hex_digits_value(d) is None,
    decreases d.len(),
{
    if k + 1 < d.len() {
        assert(d.drop_last().take(k + 1) =~= d.take(k + 1));
        lemma_hex_digits_prefix_none(d.drop_last(), k);
    } else {
        assert(d.take(k + 1) =~= d);
    }
}

/// `char::from_u32`, which the standard library documents as giving the `char`
/// with that code when the code is a Unicode scalar value, and `None` otherwise.
#[verifier::external_body]
fn char_from_u32(v: u32) -> (r: Option<char>)
    ensures
        r matches Some(c) ==> is_scalar(v as nat) && c == v as char,
        r is None ==> !is_scalar(v as nat),
{
    char::from_u32(v)
}

/// Counts the leading characters of `s` whose UTF-8 encoding has `n` bytes.
fn chars_for_bytes_exec(s: &[char], n: usize) -> (r: Option<usize>)
    requires
        n <= 4,
    ensures
        r matches Some(k) ==> chars_for_bytes(s@, n as int) == Some(k as nat),
        r is None ==> chars_for_bytes(s@, n as int) is None,
{
    let mut left: usize = n;
    let mut i: usize = 0;
    assert(s@.subrange(0, s.len() as int) =~= s@);
    while left > 0
        invariant
            i <= s.len(),
            left <= n <= 4,
            chars_for_bytes(s@, n as int) == match chars_for_bytes(
                s@.subrange(i as int, s.len() as int),
                left as int,
            ) {
                Some(k) => Some((k + i) as nat),
                None => None,
            },
        decreases left,
    {
        if i == s.len() {
            assert(s@.subrange(i as int, s.len() as int).len() == 0);
            return None;
        }
        assert(s@.subrange(i as int, s.len() as int).drop_first() =~= s@.subrange(
            i + 1,
            s.len() as int,
        ));
        let b = utf8_char_len_exec(s[i]);
        if b > left {
            assert(chars_for_bytes(s@.subrange(i + 1, s.len() as int), left - b) is None);
            return None;
        }
        left = left - b;
        i = i + 1;
    }
    Some(i)
}

/// Decodes the body of a JSON string literal; `None` where the byte-wise scan
/// of a `\u` escape would slice inside a character.
pub fn decode_string_exec(s: &[char]) -> (r: Option<Vec<char>>)
    ensures
        r matches Some(d) ==> decode_string(s@) == Some(d@),
        r is None ==> decode_string(s@) is None,
{
    let mut out: Vec<char> = Vec::new();
    let mut i: usize = 0;
    assert(s@.subrange(0, s.len() as int) =~= s@);
    while i < s.len()
        invariant
            i <= s.len(),
            decode_string(s@) == decode_acc(s@.subrange(i as int, s.len() as int), out@),
        decreases s.len() - i,
    {
        let ghost rest = s@.subrange(i as int, s.len() as int);
        let c = s[i];
        if c == '"' {
            return Some(out);
        } else if c == '\\' {
            if i + 1 == s.len() {
                return Some(out);
            }
            let e = s[i + 1];
            assert(rest.skip(2) =~= s@.subrange(i + 2, s.len() as int));
            if e == 'u' {
                let tail = &s[i + 2..s.len()];
                if utf8_len_at_most(tail, 3) {
                    i = i + 2;
                } else {
                    match chars_for_bytes_exec(tail, 4) {
                        None => {
                            return None;
                        },
                        Some(k) => {
                            proof {
                                lemma_chars_for_bytes(tail@, 4);
                                lemma_utf8_len_bounds(tail@.take(k as int));
                            }
                            let hex = &tail[0..k];
                            assert(hex@ =~= tail@.take(k as int));
                            match parse_hex4_exec(hex) {
                                Some(v) => {
                                    match char_from_u32(v) {
                                        Some(ch) => {
                                            out.push(ch);
                                        },
                                        None => {},
                                    }
                                },
                                None => {},
                            }
                            assert(tail@.skip(k as int) =~= s@.subrange(
                                i + 2 + k,
                                s.len() as int,
                            ));
                            i = i + 2 + k;
                        },
                    }
                }
            } else {
                let d: char;
                if e == 'b' {
                    d = '\u{8}';
                } else if e == 'f' {
                    d = '\u{c}';
                } else if e == 'n' {
                    d = '\n';
                } else if e == 'r' {
                    d = '\r';
                } else if e == 't' {
                    d = '\t';
                } else {
                    d = e;
                }
                out.push(d);
                i = i + 2;
            }
        } else {
            assert(rest.drop_first() =~= s@.subrange(i + 1, s.len() as int));
            out.push(c);
            i = i + 1;
        }
    }
    Some(out)
}

/// `parse_json_value_as_string`.
pub fn value_as_string_exec(value: &[char]) -> (r: Option<Option<Vec<char>>>)
    ensures
        r matches Some(Some(v)) ==> value_as_string(value@) == Some(Some(v@)),
        r matches Some(None) ==> value_as_string(value@) == Some(None::<Seq<char>>),
        r is None ==> value_as_string(value@) is None,
{
    if value.len() > 0 && value[0] == '"' {
        let body = &value[1..value.len()];
        assert(body@ =~= value@.drop_first());
        match decode_string_exec(body) {
            Some(d) => Some(Some(d)),
            None => None,
        }
    } else {
        let stops = vec![',', '}', ']'];
        assert(stops@ =~= value_stops());
        let end = match find_char_in_exec(value, stops.as_slice(), 0) {
            Some(e) => {
                proof {
                    lemma_find_char_in(value@, value_stops(), 0);
                }
                e
            },
            None => value.len(),
        };
        let head = &value[0..end];
        assert(head@ =~= value@.take(end as int));
        let raw = trim_chars(head);
        if raw.len() == 0 || chars_eq_str(raw.as_slice(), "null") {
            Some(None)
        } else {
            Some(Some(raw))
        }
    }
}

/// The scan of `json_get_string` for `marker` over `rest`.
fn lookup_exec(rest0: &[char], marker: &[char]) -> (r: Option<Option<Vec<char>>>)
    requires
        marker.len() > 0,
    ensures
        r matches Some(Some(v)) ==> lookup_from(rest0@, marker@) == Some(Some(v@)),
        r matches Some(None) ==> lookup_from(rest0@, marker@) == Some(None::<Seq<char>>),
        r is None ==> lookup_from(rest0@, marker@) is None,
{
    let mut rest: Vec<char> = slice_copy(rest0, 0, rest0.len());
    assert(rest0@.subrange(0, rest0.len() as int) =~= rest0@);
    loop
        invariant
            marker.len() > 0,
            lookup_from(rest0@, marker@) == lookup_from(rest@, marker@),
        decreases rest.len(),
    {
        let pos = match find_from_exec(rest.as_slice(), marker, 0) {
            None => {
                return Some(None);
            },
            Some(p) => p,
        };
        proof {
            lemma_find_from(rest@, marker@, 0);
        }
        let ghost tail = rest@.skip(pos + marker.len());
        let k = skip_ws(rest.as_slice(), pos + marker.len());
        assert(rest@.subrange(pos + marker.len(), rest.len() as int) =~= tail);
        let ghost after = trim_start(tail);
        assert(rest@.subrange(k as int, rest.len() as int) == after);
        if k < rest.len() && rest[k] == ':' {
            let v0 = skip_ws(rest.as_slice(), k + 1);
            assert(after.drop_first() =~= rest@.subrange(k + 1, rest.len() as int));
            let value = &rest[v0..rest.len()];
            return value_as_string_exec(value);
        } else if k == rest.len() {
            return Some(None);
        } else if utf8_char_len_exec(rest[k]) > 1 {
            return None;
        } else {
            let next = slice_copy(rest.as_slice(), k + 1, rest.len());
            assert(after.drop_first() =~= next@);
            rest = next;
        }
    }
}

/// `json_get_string(src, key)` on characters; `None` outside its domain.
pub fn get_string_exec(src: &[char], key: &[char]) -> (r: Option<Option<Vec<char>>>)
    ensures
        r matches Some(Some(v)) ==> get_string(src@, key@) == Some(Some(v@)),
        r matches Some(None) ==> get_string(src@, key@) == Some(None::<Seq<char>>),
        r is None ==> get_string(src@, key@) is None,
{
    let mut marker: Vec<char> = Vec::new();
    marker.push('"');
    extend(&mut marker, key);
    marker.push('"');
    assert(marker@ =~= key_marker(key@));
    lookup_exec(src, marker.as_slice())
}

/// `json_payload_string(line, key)` on characters; `None` outside its domain.
pub fn payload_string_exec(line: &[char], key: &[char]) -> (r: Option<Option<Vec<char>>>)
    ensures
        r matches Some(Some(v)) ==> payload_string(line@, key@) == Some(Some(v@)),
        r matches Some(None) ==> payload_string(line@, key@) == Some(None::<Seq<char>>),
        r is None ==> payload_string(line@, key@) is None,
{
    let pm = chars_of("\"payload\"");
    proof {
        reveal_strlit("\"payload\"");
        reveal_strlit("payload");
    }
    assert(pm@ =~= payload_marker());
    match find_from_exec(line, pm.as_slice(), 0) {
        None => Some(None),
        Some(p) => {
            proof {
                lemma_find_from(line@, pm@, 0);
            }
            let tail = &line[p..line.len()];
            assert(tail@ =~= line@.skip(p as int));
            get_string_exec(tail, key)
        },
    }
}

/// The JSON string literal of `value` (`json_quote`).
pub fn json_quote_exec(value: &[char]) -> (r: Vec<char>)
    ensures
        r@ == json_quote(value@),
{
    let mut out: Vec<char> = Vec::new();
    out.push('"');
    let mut i: usize = 0;
    while i < value.len()
        invariant
            i <= value.len(),
            out@ == seq!['"'] + json_escape(value@.take(i as int)),
        decreases value.len() - i,
    {
        let c = value[i];
        proof {
            assert(value@.take(i + 1) =~= value@.take(i as int) + seq![c]);
            lemma_json_escape_append(value@.take(i as int), seq![c]);
            assert(seq![c].drop_first() =~= Seq::<char>::empty());
            assert(json_escape(Seq::<char>::empty()) =~= Seq::<char>::empty());
            assert(json_escape(seq![c]) =~= json_escape_char(c) + json_escape(seq![c].drop_first()));
            assert(json_escape(seq![c]) =~= json_escape_char(c));
        }
        let ghost before = out@;
        if c == '"' {
            out.push('\\');
            out.push('"');
        } else if c == '\\' {
            out.push('\\');
            out.push('\\');
        } else if c == '\n' {
            out.push('\\');
            out.push('n');
        } else if c == '\r' {
            out.push('\\');
            out.push('r');
        } else if c == '\t' {
            out.push('\\');
            out.push('t');
        } else {
            out.push(c);
        }
        assert(out@ =~= before + json_escape_char(c));
        i = i + 1;
    }
    out.push('"');
    assert(value@.take(value.len() as int) =~= value@);
    out
}

/// `json_value_end(line, start)`.
pub(crate) fn value_end_exec(line: &[char], start: usize) -> (r: Option<usize>)
    requires
        start <= line.len(),
    ensures
        r matches Some(e) ==> value_end(line@, start as int) == Some(e as int),
        r is None ==> value_end(line@, start as int) is None,
{
    if start < line.len() && line[start] == '"' {
        let mut escaped = false;
        let mut i: usize = start + 1;
        while i < line.len()
            invariant
                start < i <= line.len(),
                line@[start as int] == '"',
                string_close(line@, start + 1, false) == string_close(line@, i as int, escaped),
            decreases line.len() - i,
        {
            let ch = line[i];
            if escaped {
                escaped = false;
            } else if ch == '\\' {
                escaped = true;
            } else if ch == '"' {
                assert(string_close(line@, i as int, escaped) == Some(i as int));
                assert(string_close(line@, start + 1, false) == Some(i as int));
                assert(line@[start as int] == '"');
                return Some(i + 1);
            }
            i = i + 1;
        }
        None
    } else {
        let stops = vec![',', '}', ']'];
        assert(stops@ =~= value_stops());
        match find_char_in_exec(line, stops.as_slice(), start) {
            Some(e) => Some(e),
            None => Some(line.len()),
        }
    }
}


/// `replace_json_payload_string(line, key, value)` on characters.
pub fn replace_payload_exec(line: &[char], key: &[char], value: &[char]) -> (r: Vec<char>)
    ensures
        r@ == replace_payload_string(line@, key@, value@),
{
    let pm = chars_of("\"payload\"");
    proof {
        reveal_strlit("\"payload\"");
        reveal_strlit("payload");
    }
    assert(pm@ =~= payload_marker());
    let whole = slice_copy(line, 0, line.len());
    assert(line@.subrange(0, line.len() as int) =~= line@);
    let p = match find_from_exec(line, pm.as_slice(), 0) {
        None => {
            return whole;
        },
        Some(p) => p,
    };
    let mut marker: Vec<char> = Vec::new();
    marker.push('"');
    extend(&mut marker, key);
    marker.push('"');
    assert(marker@ =~= key_marker(key@));
    let key_pos = match find_from_exec(line, marker.as_slice(), p) {
        None => {
            return whole;
        },
        Some(k) => k,
    };
    proof {
        lemma_find_from(line@, marker@, p as int);
    }
    let after_key = key_pos + marker.len();
    let colon_set = vec![':'];
    assert(colon_set@ =~= seq![':']);
    let colon = match find_char_in_exec(line, colon_set.as_slice(), after_key) {
        None => {
            return whole;
        },
        Some(c) => c,
    };
    proof {
        lemma_find_char_in(line@, seq![':'], after_key as int);
    }
    let raw_start = skip_ws(line, colon + 1);
    let raw_end = match value_end_exec(line, raw_start) {
        None => {
            return whole;
        },
        Some(e) => e,
    };
    proof {
        lemma_value_end_range(line@, raw_start as int);
    }
    let mut out = slice_copy(line, 0, raw_start);
    let q = json_quote_exec(value);
    extend(&mut out, q.as_slice());
    let tail = &line[raw_end..line.len()];
    extend(&mut out, tail);
    assert(line@.take(raw_start as int) =~= line@.subrange(0, raw_start as int));
    assert(line@.skip(raw_end as int) =~= tail@);
    out
}

// ---------------------------------------------------------------------------
// Laws
// ---------------------------------------------------------------------------

proof fn lemma_string_close_range(line: Seq<char>, i: int, escaped: bool)
    ensures
        string_close(line, i, escaped) matches Some(q) ==> i <= q < line.len(),
    decreases line.len() - i,
{
    if 0 <= i < line.len() {
        lemma_string_close_range(line, i + 1, false);
        lemma_string_close_range(line, i + 1, true);
    }
}

proof fn lemma_value_end_range(line: Seq<char>, start: int)
    requires
        0 <= start <= line.len(),
    ensures
        value_end(line, start) matches Some(e) ==> start <= e <= line.len(),
{
    lemma_string_close_range(line, start + 1, false);
    lemma_find_char_in(line, value_stops(), start);
}

/// Decoding an escaped body stops at the closing quote and gives back the text.
pub proof fn lemma_decode_escaped(v: Seq<char>, rest: Seq<char>, out: Seq<char>)
    ensures
        decode_acc(json_escape(v) + seq!['"'] + rest, out) == Some(out + v),
    decreases v.len(),
{
    let s = json_escape(v) + seq!['"'] + rest;
    if v.len() == 0 {
        assert(json_escape(v) =~= Seq::<char>::empty());
        assert(s[0] == '"');
        assert(out + v =~= out);
    } else {
        let c = v[0];
        let tail = json_escape(v.drop_first()) + seq!['"'] + rest;
        lemma_decode_escaped(v.drop_first(), rest, out.push(c));
        assert(out.push(c) + v.drop_first() =~= out + v);
        if c == '"' || c == '\\' || c == '\n' || c == '\r' || c == '\t' {
            assert(s =~= json_escape_char(c) + tail);
            assert(s.skip(2) =~= tail);
        } else {
            assert(s =~= seq![c] + tail);
            assert(s.drop_first() =~= tail);
        }
    }
}

/// The JSON literal of a text reads back as that text.
pub proof fn law_json_quote_roundtrip(v: Seq<char>, rest: Seq<char>)
    ensures
        value_as_string(json_quote(v) + rest) == Some(Some(v)),
{
    let s = json_quote(v) + rest;
    assert(s.drop_first() =~= json_escape(v) + seq!['"'] + rest);
    lemma_decode_escaped(v, rest, seq![]);
    assert(Seq::<char>::empty() + v =~= v);
}

/// The first `"key"` after the first `"payload"` is followed, after whitespace,
/// by a colon.
pub open spec fn payload_key_has_colon(line: Seq<char>, key: Seq<char>) -> bool {
    match find(line, payload_marker()) {
        None => false,
        Some(p) => match find_from(line, key_marker(key), p) {
            None => false,
            Some(key_pos) => {
                let t = trim_start(line.skip(key_pos + key_marker(key).len()));
                t.len() > 0 && t[0] == ':'
            },
        },
    }
}

/// Writing a provider into a session line and reading it back: where the line
/// has a payload value slot for `key` whose key is followed by its colon,
/// replacing that value with `value` makes the payload lookup of `key` give
/// `value`.
#[verifier::spinoff_prover]
#[verifier::rlimit(40)]
pub proof fn law_payload_write_then_read(line: Seq<char>, key: Seq<char>, value: Seq<char>)
    requires
        payload_value_slot(line, key) is Some,
        payload_key_has_colon(line, key),
    ensures
        payload_string(replace_payload_string(line, key, value), key) == Some(Some(value)),
{
    reveal_strlit("payload");
    let pm = payload_marker();
    let km = key_marker(key);
    assert(pm =~= seq!['"', 'p', 'a', 'y', 'l', 'o', 'a', 'd', '"']);
    lemma_find_from(line, pm, 0);
    let p = find(line, pm)->0;
    lemma_find_from(line, km, p);
    let key_pos = find_from(line, km, p)->0;
    let after_key = key_pos + km.len();
    lemma_find_char_in(line, seq![':'], after_key);
    let colon = find_char_in(line, seq![':'], after_key)->0;
    let tail = line.subrange(colon + 1, line.len() as int);
    let a = line.len() - trim_start(tail).len();
    lemma_trim_start_suffix(tail);
    lemma_value_end_range(line, a);
    let b = value_end(line, a)->0;
    assert(payload_value_slot(line, key) == Some((a, b)));
    let q = json_quote(value);
    let l2 = line.take(a) + q + line.skip(b);
    assert(replace_payload_string(line, key, value) == l2);
    assert(l2.take(a) =~= line.take(a));
    // where the colon stands
    let t0 = line.skip(after_key);
    lemma_trim_start_suffix(t0);
    let c0 = after_key + (t0.len() - trim_start(t0).len());
    assert(trim_start(t0) =~= t0.skip(c0 - after_key));
    assert(line[c0] == ':');
    assert forall|k: int| after_key <= k < c0 implies is_ws(#[trigger] line[k]) by {
        assert(line[k] == t0[k - after_key]);
    }
    assert(colon == c0) by {
        if colon < c0 {
            assert(is_ws(line[colon]));
        }
        if colon > c0 {
            assert(!seq![':'].contains(line[c0]));
        }
    }
    assert forall|k: int| colon + 1 <= k < a implies is_ws(#[trigger] line[k]) by {
        assert(line[k] == tail[k - colon - 1]);
    }
    // the payload marker ends before the rewritten value
    assert(p + pm.len() <= a) by {
        if key_pos < p + 8 {
            assert(line.subrange(p, p + 9) == pm);
            assert(line.subrange(key_pos, key_pos + km.len()) == km);
            assert(km[0] == '"');
            assert(line[key_pos] == line.subrange(key_pos, key_pos + km.len())[0]);
            assert(line[key_pos] == '"');
            if key_pos > p {
                assert(line[key_pos] == line.subrange(p, p + 9)[key_pos - p]);
                assert(line[key_pos] == pm[key_pos - p]);
            } else {
                assert(km[key.len() + 1int] == '"');
                assert(line[p + key.len() + 1] == line.subrange(key_pos, key_pos + km.len())[key.len()
                    + 1int]);
                assert(line[p + key.len() + 1] == km[key.len() + 1int]);
                if key.len() + 1 <= 7 {
                    assert(line[p + key.len() + 1] == line.subrange(p, p + 9)[key.len() + 1int]);
                    assert(line[p + key.len() + 1] == pm[key.len() + 1int]);
                }
            }
        }
    }
    lemma_find_from_prefix(line, l2, pm, 0, a);
    assert(find(l2, pm) == Some(p));
    // the key is found at the same place
    lemma_find_from_prefix(line, l2, km, p, a);
    let r2 = l2.skip(p);
    lemma_find_from_skip(l2, km, p, 0);
    assert(find(r2, km) == Some(key_pos - p));
    assert(r2.skip(key_pos - p + km.len()) =~= l2.skip(after_key));
    assert forall|k: int| after_key <= k < c0 implies is_ws(#[trigger] l2[k]) by {
        assert(l2[k] == line[k]);
    }
    assert(l2[c0] == line[c0]);
    lemma_trim_start_run(l2, after_key, c0);
    let after = trim_start(l2.skip(after_key));
    assert(after[0] == ':');
    assert(after.drop_first() =~= l2.skip(c0 + 1));
    assert forall|k: int| c0 + 1 <= k < a implies is_ws(#[trigger] l2[k]) by {
        assert(l2[k] == line[k]);
    }
    assert(l2[a] == '"');
    lemma_trim_start_run(l2, c0 + 1, a);
    assert(l2.skip(a) =~= q + line.skip(b));
    law_json_quote_roundtrip(value, line.skip(b));
}


// ---------------------------------------------------------------------------
// String-level interface
// ---------------------------------------------------------------------------

/// The view of an optional string.
pub open spec fn opt_view(o: Option<String>) -> Option<Seq<char>> {
    match o {
        Some(s) => Some(s@),
        None => None,
    }
}

/// The view of an optional character vector.
pub open spec fn vec_opt_view(o: Option<Vec<char>>) -> Option<Seq<char>> {
    match o {
        Some(v) => Some(v@),
        None => None,
    }
}

/// The string of an optional character vector.
pub fn opt_string(o: Option<Vec<char>>) -> (r: Option<String>)
    ensures
        opt_view(r) == match o {
            Some(v) => Some(v@),
            None => None::<Seq<char>>,
        },
{
    match o {
        Some(v) => Some(string_of(v.as_slice())),
        None => None,
    }
}

/// `json_get_string(src, key)`: the string value of the first `"key"` that is
/// followed by a colon (a decoded string literal, or the raw text of another
/// value; `None` for `null`, an empty value or no such key).
pub fn json_get_string(src: &str, key: &str) -> (r: Option<String>)
    requires
        get_string(src@, key@) is Some,
    ensures
        get_string(src@, key@) == Some(opt_view(r)),
{
    let s = chars_of(src);
    let k = chars_of(key);
    let r = get_string_exec(s.as_slice(), k.as_slice());
    opt_string(r.unwrap())
}

/// `json_payload_string(line, key)`: `json_get_string` from the first
/// `"payload"` of the line on; `None` when there is no payload.
pub fn json_payload_string(line: &str, key: &str) -> (r: Option<String>)
    requires
        payload_string(line@, key@) is Some,
    ensures
        payload_string(line@, key@) == Some(opt_view(r)),
{
    let s = chars_of(line);
    let k = chars_of(key);
    let r = payload_string_exec(s.as_slice(), k.as_slice());
    opt_string(r.unwrap())
}

/// `parse_json_value_as_string(value)`.
pub fn parse_json_value_as_string(value: &str) -> (r: Option<String>)
    requires
        value_as_string(value@) is Some,
    ensures
        value_as_string(value@) == Some(opt_view(r)),
{
    let s = chars_of(value);
    let r = value_as_string_exec(s.as_slice());
    opt_string(r.unwrap())
}

/// `parse_json_string(s)`: the decoded body of a string literal whose opening
/// quote is already consumed.
pub fn parse_json_string(s: &str) -> (r: String)
    requires
        decode_string(s@) is Some,
    ensures
        decode_string(s@) == Some(r@),
{
    let v = chars_of(s);
    let d = decode_string_exec(v.as_slice());
    let d = d.unwrap();
    string_of(d.as_slice())
}

/// `json_quote(value)`.
pub fn json_quote_string(value: &str) -> (r: String)
    ensures
        r@ == json_quote(value@),
{
    let v = chars_of(value);
    let q = json_quote_exec(v.as_slice());
    string_of(q.as_slice())
}

/// `replace_json_payload_string(line, key, value)`.
pub fn replace_json_payload_string(line: &str, key: &str, value: &str) -> (r: String)
    ensures
        r@ == replace_payload_string(line@, key@, value@),
{
    let l = chars_of(line);
    let k = chars_of(key);
    let v = chars_of(value);
    let r = replace_payload_exec(l.as_slice(), k.as_slice(), v.as_slice());
    string_of(r.as_slice())
}

/// The values present among three lookups, in order.
pub open spec fn present3(a: Option<Seq<char>>, b: Option<Seq<char>>, c: Option<Seq<char>>) -> Seq<
    Seq<char>,
> {
    (if a is Some {
        seq![a->0]
    } else {
        seq![]
    }) + (if b is Some {
        seq![b->0]
    } else {
        seq![]
    }) + (if c is Some {
        seq![c->0]
    } else {
        seq![]
    })
}

/// `json_content_text(line)`: the values of `text`, `content` and `output`
/// that are present, joined by newlines; `None` outside the domain.
pub open spec fn content_text(line: Seq<char>) -> Option<Seq<char>> {
    let a = get_string(line, "text"@);
    let b = get_string(line, "content"@);
    let c = get_string(line, "output"@);
    if a is None || b is None || c is None {
        None
    } else {
        Some(join(present3(a->0, b->0, c->0), "\n"@))
    }
}

/// `json_content_text` on characters.
pub fn content_text_exec(line: &[char]) -> (r: Option<Vec<char>>)
    ensures
        r matches Some(v) ==> content_text(line@) == Some(v@),
        r is None ==> content_text(line@) is None,
{
    let kt = chars_of("text");
    let kc = chars_of("content");
    let ko = chars_of("output");
    let a = get_string_exec(line, kt.as_slice());
    let b = get_string_exec(line, kc.as_slice());
    let c = get_string_exec(line, ko.as_slice());
    if a.is_none() || b.is_none() || c.is_none() {
        return None;
    }
    let a = a.unwrap();
    let b = b.unwrap();
    let c = c.unwrap();
    let ghost av = vec_opt_view(a);
    let ghost bv = vec_opt_view(b);
    let ghost cv = vec_opt_view(c);
    let mut parts: Vec<Vec<char>> = Vec::new();
    match a {
        Some(x) => parts.push(x),
        None => {},
    }
    match b {
        Some(x) => parts.push(x),
        None => {},
    }
    match c {
        Some(x) => parts.push(x),
        None => {},
    }
    assert(parts@.map_values(|w: Vec<char>| w@) =~= present3(av, bv, cv));
    let nl = chars_of("\n");
    Some(join_exec(&parts, nl.as_slice()))
}

/// `json_content_text(line)`.
pub fn json_content_text(line: &str) -> (r: String)
    requires
        content_text(line@) is Some,
    ensures
        content_text(line@) == Some(r@),
{
    let l = chars_of(line);
    let r = content_text_exec(l.as_slice()).unwrap();
    string_of(r.as_slice())
}

} // verus!
