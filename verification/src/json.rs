//! Reading single values out of a line of JSON without parsing the whole of it.
//!
//! A key is looked for as its quoted text, wherever in the line that stands first;
//! the value is what follows the next colon.
use vstd::prelude::*;
use vstd::utf8::*;
use crate::search::{
    find, index_of, is_at, lemma_find, lemma_index_of, position_of, position_of_text, stands_at,
};
use crate::split::{lemma_skip_white, past_white, skip_white};
use crate::text::{
    chars_of, is_white, lemma_encode_concat, lemma_encode_len, lemma_encode_one,
    lemma_encode_subrange, opt_text, string_between,
};

verus! {

// ---------------------------------------------------------------------------
// Finding the value of a key
// ---------------------------------------------------------------------------

/// `key` between double quotes.
pub open spec fn quoted(key: Seq<char>) -> Seq<char> {
    seq!['"'] + key + seq!['"']
}

/// Where the value of `key` begins in `json`: past the first occurrence of the
/// quoted key, past the next colon, and past the white space that follows.
pub open spec fn value_at(json: Seq<char>, key: Seq<char>) -> Option<int> {
    match find(json, quoted(key), 0) {
        Some(p) => match index_of(json, ':', p + quoted(key).len()) {
            Some(k) => Some(skip_white(json, k + 1)),
            None => None,
        },
        None => None,
    }
}

/// A value begins within the line or at its end.
pub proof fn lemma_value_at(json: Seq<char>, key: Seq<char>)
    ensures
        value_at(json, key) matches Some(v) ==> 0 < v <= json.len(),
{
    lemma_find(json, quoted(key), 0);
    if let Some(p) = find(json, quoted(key), 0) {
        lemma_index_of(json, ':', p + quoted(key).len());
        if let Some(k) = index_of(json, ':', p + quoted(key).len()) {
            lemma_skip_white(json, k + 1);
        }
    }
}

/// Where the value of `key` begins in `cs`.
pub fn value_position(cs: &Vec<char>, key: &str) -> (r: Option<usize>)
    ensures
        match r {
            Some(v) => value_at(cs@, key@) == Some(v as int) && v <= cs@.len(),
            None => value_at(cs@, key@) is None,
        },
{
    let mut needle: Vec<char> = Vec::new();
    needle.push('"');
    let mut name = chars_of(key);
    needle.append(&mut name);
    needle.push('"');
    assert(needle@ =~= quoted(key@));
    let p = position_of_text(cs, &needle)?;
    let k = position_of(cs, ':', p + needle.len())?;
    Some(past_white(cs, k + 1))
}

// ---------------------------------------------------------------------------
// Strings
// ---------------------------------------------------------------------------

/// The character that a backslash and `c` stand for, where `c` does not begin a
/// Unicode escape.
pub open spec fn unescaped(c: char) -> char {
    if c == 'n' {
        '\n'
    } else if c == 't' {
        '\t'
    } else if c == 'r' {
        '\r'
    } else if c == 'b' {
        '\u{8}'
    } else if c == 'f' {
        '\u{c}'
    } else {
        c
    }
}

/// The value of a hexadecimal digit, in either case.
pub open spec fn hex_value(c: char) -> Option<int> {
    if '0' <= c <= '9' {
        Some(c as int - '0' as int)
    } else if 'a' <= c <= 'f' {
        Some(c as int - 'a' as int + 10)
    } else if 'A' <= c <= 'F' {
        Some(c as int - 'A' as int + 10)
    } else {
        None
    }
}

/// The UTF-16 code unit that four hexadecimal digits at position `i` of `s` write.
pub open spec fn code_unit(s: Seq<char>, i: int) -> Option<int> {
    if i + 4 > s.len() {
        None
    } else {
        match (hex_value(s[i]), hex_value(s[i + 1]), hex_value(s[i + 2]), hex_value(s[i + 3])) {
            (Some(a), Some(b), Some(c), Some(d)) => Some(4096 * a + 256 * b + 16 * c + d),
            _ => None,
        }
    }
}

/// Whether a code unit is the first half of a surrogate pair.
pub open spec fn is_high_surrogate(u: int) -> bool {
    0xd800 <= u <= 0xdbff
}

/// Whether a code unit is the second half of a surrogate pair.
pub open spec fn is_low_surrogate(u: int) -> bool {
    0xdc00 <= u <= 0xdfff
}

/// The character that a surrogate pair stands for.
pub open spec fn paired(high: int, low: int) -> char {
    (0x10000 + 0x400 * (high - 0xd800) + (low - 0xdc00)) as char
}

/// The character that a Unicode escape writes whose digits begin at position `i` of
/// `s`, and the position past the escape. A surrogate pair is written as two
/// escapes. There is none where digits are missing, or half of a pair.
pub open spec fn unicode_at(s: Seq<char>, i: int) -> Option<(char, int)> {
    match code_unit(s, i) {
        Some(u) => if !is_high_surrogate(u) && !is_low_surrogate(u) {
            Some((u as char, i + 4))
        } else if is_high_surrogate(u) && i + 5 < s.len() && s[i + 4] == '\\' && s[i + 5] == 'u' {
            match code_unit(s, i + 6) {
                Some(low) => if is_low_surrogate(low) {
                    Some((paired(u, low), i + 10))
                } else {
                    None
                },
                None => None,
            }
        } else {
            None
        },
        None => None,
    }
}

/// The character that a backslash before position `i` of `s` and what follows it
/// stand for, and the position past them. Before a character that begins no escape
/// the backslash is dropped.
pub open spec fn escape_at(s: Seq<char>, i: int) -> (char, int) {
    if s[i] == 'u' {
        match unicode_at(s, i + 1) {
            Some(r) => r,
            None => ('u', i + 1),
        }
    } else {
        (unescaped(s[i]), i + 1)
    }
}

/// `c` before an optional text.
pub open spec fn before(c: char, t: Option<Seq<char>>) -> Option<Seq<char>> {
    match t {
        Some(t) => Some(seq![c] + t),
        None => None,
    }
}

/// The string whose body begins at position `i` of `s`: what stands before the
/// next double quote that no backslash escapes, with each escape replaced by the
/// character that it stands for. There is none where `s` ends first.
pub open spec fn string_at(s: Seq<char>, i: int) -> Option<Seq<char>>
    decreases s.len() - i,
{
    if i >= s.len() {
        None
    } else if s[i] == '"' {
        Some(seq![])
    } else if s[i] == '\\' {
        if i + 1 >= s.len() {
            None
        } else {
            before(escape_at(s, i + 1).0, string_at(s, escape_at(s, i + 1).1))
        }
    } else {
        before(s[i], string_at(s, i + 1))
    }
}

/// The position past the double quote that ends the string whose body begins at
/// position `i` of `s`. A backslash passes over the next character. There is none
/// where `s` ends first.
pub open spec fn string_end(s: Seq<char>, i: int) -> Option<int>
    decreases s.len() - i,
{
    if i >= s.len() {
        None
    } else if s[i] == '"' {
        Some(i + 1)
    } else if s[i] == '\\' {
        if i + 1 >= s.len() {
            None
        } else {
            string_end(s, i + 2)
        }
    } else {
        string_end(s, i + 1)
    }
}

/// A string ends within the text, past where its body begins.
pub proof fn lemma_string_end(s: Seq<char>, i: int)
    ensures
        string_end(s, i) matches Some(e) ==> i < e <= s.len(),
    decreases s.len() - i,
{
    if i < s.len() && s[i] != '"' {
        if s[i] == '\\' {
            if i + 1 < s.len() {
                lemma_string_end(s, i + 2);
            }
        } else {
            lemma_string_end(s, i + 1);
        }
    }
}

/// The string value of `key`, where its value is a string.
pub open spec fn str_value(json: Seq<char>, key: Seq<char>) -> Option<Seq<char>> {
    match value_at(json, key) {
        Some(v) => if v < json.len() && json[v] == '"' {
            string_at(json, v + 1)
        } else {
            None
        },
        None => None,
    }
}

/// The hexadecimal digit of a number below sixteen.
pub open spec fn hex_digit(n: int) -> char {
    if n < 10 {
        ('0' as int + n) as char
    } else {
        ('a' as int + n - 10) as char
    }
}

/// A code unit as an escape writes it.
pub open spec fn unit_escaped(u: int) -> Seq<char> {
    seq![
        '\\',
        'u',
        hex_digit(u / 4096),
        hex_digit(u / 256 % 16),
        hex_digit(u / 16 % 16),
        hex_digit(u % 16),
    ]
}

/// A character as Unicode escapes write it: one, or two for a surrogate pair.
pub open spec fn unicode_escaped(c: char) -> Seq<char> {
    let n = c as int;
    if n < 0x10000 {
        unit_escaped(n)
    } else {
        unit_escaped(0xd800 + (n - 0x10000) / 0x400) + unit_escaped(
            0xdc00 + (n - 0x10000) % 0x400,
        )
    }
}

/// A character as it is written between double quotes: with a short escape where
/// there is one, with a Unicode escape where it is another control character, and
/// as itself otherwise.
pub open spec fn escaped_char(c: char) -> Seq<char> {
    if c == '"' || c == '\\' {
        seq!['\\', c]
    } else if c == '\n' {
        seq!['\\', 'n']
    } else if c == '\t' {
        seq!['\\', 't']
    } else if c == '\r' {
        seq!['\\', 'r']
    } else if c == '\u{8}' {
        seq!['\\', 'b']
    } else if c == '\u{c}' {
        seq!['\\', 'f']
    } else if c <= '\u{1f}' {
        unicode_escaped(c)
    } else {
        seq![c]
    }
}

/// `t` as it is written between double quotes.
pub open spec fn escaped(t: Seq<char>) -> Seq<char>
    decreases t.len(),
{
    if t.len() == 0 {
        t
    } else {
        escaped_char(t[0]) + escaped(t.skip(1))
    }
}

/// The value of a hexadecimal digit.
fn read_hex_digit(c: char) -> (r: Option<u32>)
    ensures
        match r {
            Some(n) => hex_value(c) == Some(n as int) && n < 16,
            None => hex_value(c) is None,
        },
{
    if '0' <= c && c <= '9' {
        Some(c as u32 - '0' as u32)
    } else if 'a' <= c && c <= 'f' {
        Some(c as u32 - 'a' as u32 + 10)
    } else if 'A' <= c && c <= 'F' {
        Some(c as u32 - 'A' as u32 + 10)
    } else {
        None
    }
}

/// The code unit that four hexadecimal digits at position `from` of `cs` write.
fn read_code_unit(cs: &Vec<char>, from: usize) -> (r: Option<u32>)
    requires
        from <= cs@.len(),
    ensures
        match r {
            Some(u) => {
                &&& code_unit(cs@, from as int) == Some(u as int)
                &&& u <= 0xffff
                &&& from + 4 <= cs.len()
            },
            None => code_unit(cs@, from as int) is None,
        },
{
    if cs.len() - from < 4 {
        return None;
    }
    let a = read_hex_digit(cs[from])?;
    let b = read_hex_digit(cs[from + 1])?;
    let c = read_hex_digit(cs[from + 2])?;
    let d = read_hex_digit(cs[from + 3])?;
    Some(4096 * a + 256 * b + 16 * c + d)
}

/// The character that a Unicode escape writes whose digits begin at position `from`
/// of `cs`, and the position past the escape.
fn read_unicode(cs: &Vec<char>, from: usize) -> (r: Option<(char, usize)>)
    requires
        from <= cs@.len(),
    ensures
        match r {
            Some((c, e)) => {
                &&& unicode_at(cs@, from as int) == Some((c, e as int))
                &&& from < e <= cs.len()
            },
            None => unicode_at(cs@, from as int) is None,
        },
{
    let u = read_code_unit(cs, from)?;
    if u < 0xd800 || u > 0xdfff {
        let c = char::from_u32(u)?;
        return Some((c, from + 4));
    }
    if u > 0xdbff || cs.len() - from < 6 || cs[from + 4] != '\\' || cs[from + 5] != 'u' {
        return None;
    }
    let low = read_code_unit(cs, from + 6)?;
    if low < 0xdc00 || low > 0xdfff {
        return None;
    }
    let c = char::from_u32(0x10000 + 0x400 * (u - 0xd800) + (low - 0xdc00))?;
    Some((c, from + 10))
}

/// The character that a backslash before position `from` of `cs` and what follows
/// it stand for, and the position past them.
fn read_escape(cs: &Vec<char>, from: usize) -> (r: (char, usize))
    requires
        from < cs.len(),
    ensures
        (r.0, r.1 as int) == escape_at(cs@, from as int),
        from < r.1 <= cs@.len(),
{
    match cs[from] {
        'u' => match read_unicode(cs, from + 1) {
            Some(r) => r,
            None => ('u', from + 1),
        },
        'n' => ('\n', from + 1),
        't' => ('\t', from + 1),
        'r' => ('\r', from + 1),
        'b' => ('\u{8}', from + 1),
        'f' => ('\u{c}', from + 1),
        c => (c, from + 1),
    }
}

/// The string whose body begins at position `from` of `cs`.
pub fn read_string(cs: &Vec<char>, from: usize) -> (r: Option<String>)
    requires
        from <= cs@.len(),
    ensures
        opt_text(r) == string_at(cs@, from as int),
{
    let mut out = String::new();
    let mut i: usize = from;
    while i < cs.len()
        invariant
            from <= i <= cs@.len(),
            match string_at(cs@, i as int) {
                Some(t) => string_at(cs@, from as int) == Some(out@ + t),
                None => string_at(cs@, from as int) is None,
            },
        decreases cs@.len() - i,
    {
        let ghost gathered = out@;
        if cs[i] == '"' {
            assert(out@ + Seq::<char>::empty() =~= out@);
            return Some(out);
        }
        let (c, next) = if cs[i] == '\\' {
            if i + 1 >= cs.len() {
                return None;
            }
            read_escape(cs, i + 1)
        } else {
            (cs[i], i + 1)
        };
        out.push(c);
        proof {
            if let Some(t) = string_at(cs@, next as int) {
                assert(gathered + (seq![c] + t) =~= out@ + t);
            }
        }
        i = next;
    }
    None
}

/// The position past the double quote that ends the string whose body begins at
/// position `from` of `cs`.
fn past_string(cs: &Vec<char>, from: usize) -> (r: Option<usize>)
    requires
        from <= cs@.len(),
    ensures
        match r {
            Some(e) => string_end(cs@, from as int) == Some(e as int) && from < e <= cs@.len(),
            None => string_end(cs@, from as int) is None,
        },
{
    let mut i: usize = from;
    while i < cs.len()
        invariant
            from <= i <= cs@.len(),
            string_end(cs@, from as int) == string_end(cs@, i as int),
        decreases cs@.len() - i,
    {
        if cs[i] == '"' {
            return Some(i + 1);
        }
        if cs[i] == '\\' {
            if i + 1 >= cs.len() {
                return None;
            }
            i = i + 2;
        } else {
            i = i + 1;
        }
    }
    None
}

/// The string whose body `s` begins with: everything before the first double
/// quote that no backslash escapes. The escapes `\n`, `\t`, `\r`, `\b` and `\f`,
/// those of `\u` with four hexadecimal digits, and two of these for a surrogate
/// pair, are replaced by the characters that they stand for. Before any other
/// character the backslash is dropped, so before a `u` that is followed by fewer
/// digits or by half of a pair.
pub fn parse_json_string(s: &str) -> (r: Option<String>)
    ensures
        opt_text(r) == string_at(s@, 0),
{
    read_string(&chars_of(s), 0)
}

/// The string value of `key` in `json`.
pub fn json_str(json: &str, key: &str) -> (r: Option<String>)
    ensures
        opt_text(r) == str_value(json@, key@),
{
    let cs = chars_of(json);
    let v = value_position(&cs, key)?;
    if v < cs.len() && cs[v] == '"' {
        read_string(&cs, v + 1)
    } else {
        None
    }
}

// ---------------------------------------------------------------------------
// Truth values
// ---------------------------------------------------------------------------

/// The truth value of `key`, where its value begins with `true` or `false`.
pub open spec fn bool_value(json: Seq<char>, key: Seq<char>) -> Option<bool> {
    match value_at(json, key) {
        Some(v) => if stands_at(json, "true"@, v) {
            Some(true)
        } else if stands_at(json, "false"@, v) {
            Some(false)
        } else {
            None
        },
        None => None,
    }
}

/// The truth value of `key` in `json`.
pub fn json_bool(json: &str, key: &str) -> (r: Option<bool>)
    ensures
        r == bool_value(json@, key@),
{
    let cs = chars_of(json);
    let v = value_position(&cs, key)?;
    if is_at(&cs, &chars_of("true"), v) {
        Some(true)
    } else if is_at(&cs, &chars_of("false"), v) {
        Some(false)
    } else {
        None
    }
}

// ---------------------------------------------------------------------------
// Integers
// ---------------------------------------------------------------------------

/// Whether `c` is an ASCII digit.
pub open spec fn is_digit(c: char) -> bool {
    '0' <= c <= '9'
}

/// The first position, at least `i`, that holds neither a digit nor a minus sign.
pub open spec fn number_end(s: Seq<char>, i: int) -> int
    decreases s.len() - i,
{
    if i < s.len() && (is_digit(s[i]) || s[i] == '-') {
        number_end(s, i + 1)
    } else {
        i
    }
}

/// Whether `t` is one or more digits.
pub open spec fn all_digits(t: Seq<char>) -> bool {
    t.len() > 0 && forall|i: int| 0 <= i < t.len() ==> is_digit(#[trigger] t[i])
}

/// The number that the digits `t` write in base ten.
pub open spec fn decimal(t: Seq<char>) -> nat
    decreases t.len(),
{
    if t.len() == 0 {
        0
    } else {
        10 * decimal(t.drop_last()) + (t.last() as nat - '0' as nat) as nat
    }
}

/// The integer that `t` writes: digits, with one minus sign before them or none.
pub open spec fn integer(t: Seq<char>) -> Option<int> {
    if t.len() > 0 && t[0] == '-' {
        if all_digits(t.skip(1)) {
            Some(-(decimal(t.skip(1)) as int))
        } else {
            None
        }
    } else if all_digits(t) {
        Some(decimal(t) as int)
    } else {
        None
    }
}

/// The integer that `t` writes, where it is an `i64`.
pub open spec fn integer64(t: Seq<char>) -> Option<i64> {
    match integer(t) {
        Some(n) => if i64::MIN <= n <= i64::MAX {
            Some(n as i64)
        } else {
            None
        },
        None => None,
    }
}

/// The integer value of `key`, where its value begins with an `i64`: the longest
/// stretch of digits and minus signs is all of it.
pub open spec fn int_value(json: Seq<char>, key: Seq<char>) -> Option<i64> {
    match value_at(json, key) {
        Some(v) => integer64(json.subrange(v, number_end(json, v))),
        None => None,
    }
}

/// More digits write no smaller number.
proof fn lemma_decimal_grows(t: Seq<char>, i: int)
    requires
        0 <= i <= t.len(),
    ensures
        decimal(t.take(i)) <= decimal(t),
    decreases t.len() - i,
{
    if i < t.len() {
        lemma_decimal_grows(t, i + 1);
        assert(t.take(i + 1).drop_last() =~= t.take(i));
    } else {
        assert(t.take(i) =~= t);
    }
}

/// The number that the digits of `cs` from `from` to `to` write, where they are
/// one or more digits and the number is at most 2^63.
fn read_digits(cs: &Vec<char>, from: usize, to: usize) -> (r: Option<u64>)
    requires
        from <= to <= cs@.len(),
    ensures
        match r {
            Some(n) => {
                &&& all_digits(cs@.subrange(from as int, to as int))
                &&& n == decimal(cs@.subrange(from as int, to as int))
                &&& n <= 0x8000_0000_0000_0000
            },
            None => all_digits(cs@.subrange(from as int, to as int)) ==> decimal(
                cs@.subrange(from as int, to as int),
            ) > 0x8000_0000_0000_0000,
        },
{
    let ghost t = cs@.subrange(from as int, to as int);
    if from == to {
        return None;
    }
    let mut n: u64 = 0;
    let mut i: usize = from;
    while i < to
        invariant
            from <= i <= to <= cs@.len(),
            t == cs@.subrange(from as int, to as int),
            n <= 0x8000_0000_0000_0000,
            n == decimal(t.take(i - from)),
            forall|j: int| 0 <= j < i - from ==> is_digit(#[trigger] t[j]),
        decreases to - i,
    {
        let c = cs[i];
        assert(t[i - from] == c);
        if c < '0' || c > '9' {
            return None;
        }
        let d: u128 = c as u128 - '0' as u128;
        let next: u128 = 10 * n as u128 + d;
        proof {
            assert(t.take(i - from + 1).drop_last() =~= t.take(i - from));
            lemma_decimal_grows(t, i - from + 1);
        }
        if next > 0x8000_0000_0000_0000 {
            return None;
        }
        n = next as u64;
        i = i + 1;
    }
    assert(t.take(to - from) =~= t);
    Some(n)
}

/// The integer that the characters of `cs` from `from` to `to` write.
fn read_integer(cs: &Vec<char>, from: usize, to: usize) -> (r: Option<i64>)
    requires
        from <= to <= cs@.len(),
    ensures
        r == integer64(cs@.subrange(from as int, to as int)),
{
    let ghost t = cs@.subrange(from as int, to as int);
    if from < to && cs[from] == '-' {
        assert(t.skip(1) =~= cs@.subrange(from + 1, to as int));
        let n = read_digits(cs, from + 1, to)?;
        if n == 0x8000_0000_0000_0000 {
            Some(i64::MIN)
        } else {
            Some(-(n as i64))
        }
    } else {
        let n = read_digits(cs, from, to)?;
        if n == 0x8000_0000_0000_0000 {
            None
        } else {
            Some(n as i64)
        }
    }
}

/// The integer value of `key` in `json`.
pub fn json_int(json: &str, key: &str) -> (r: Option<i64>)
    ensures
        r == int_value(json@, key@),
{
    let cs = chars_of(json);
    let v = value_position(&cs, key)?;
    let mut end: usize = v;
    while end < cs.len() && (('0' <= cs[end] && cs[end] <= '9') || cs[end] == '-')
        invariant
            v <= end <= cs@.len(),
            number_end(cs@, v as int) == number_end(cs@, end as int),
        decreases cs@.len() - end,
    {
        end = end + 1;
    }
    read_integer(&cs, v, end)
}

// ---------------------------------------------------------------------------
// Objects
// ---------------------------------------------------------------------------

/// Past the closing brace that ends the object, seen from position `i` of `s` with
/// `depth` braces open. Strings are passed over. There is none where `s` ends
/// first.
pub open spec fn object_end(s: Seq<char>, i: int, depth: int) -> Option<int>
    decreases s.len() - i,
{
    proof {
        lemma_string_end(s, i + 1);
    }
    if i >= s.len() {
        None
    } else if s[i] == '"' {
        match string_end(s, i + 1) {
            Some(e) => object_end(s, e, depth),
            None => None,
        }
    } else if s[i] == '{' {
        object_end(s, i + 1, depth + 1)
    } else if s[i] == '}' {
        if depth == 1 {
            Some(i + 1)
        } else {
            object_end(s, i + 1, depth - 1)
        }
    } else {
        object_end(s, i + 1, depth)
    }
}

/// Past the closing brace that ends the object, seen from position `i` of `s` with
/// `depth` braces open, where every brace counts, inside strings too. There is none
/// where `s` ends first.
pub open spec fn raw_object_end(s: Seq<char>, i: int, depth: int) -> Option<int>
    decreases s.len() - i,
{
    if i >= s.len() {
        None
    } else if s[i] == '{' {
        raw_object_end(s, i + 1, depth + 1)
    } else if s[i] == '}' {
        if depth == 1 {
            Some(i + 1)
        } else {
            raw_object_end(s, i + 1, depth - 1)
        }
    } else {
        raw_object_end(s, i + 1, depth)
    }
}

/// Past the object that begins at position `v` of `s`. Braces inside strings do not
/// count, unless the object is cut short: where a string in it or the object itself
/// is never closed, every brace counts.
pub open spec fn value_end(s: Seq<char>, v: int) -> Option<int> {
    match object_end(s, v, 0) {
        Some(e) => Some(e),
        None => raw_object_end(s, v, 0),
    }
}

/// The text of the object that is the value of `key`, where its value is an
/// object: from its opening brace to the closing brace that ends it.
pub open spec fn object_value(json: Seq<char>, key: Seq<char>) -> Option<Seq<char>> {
    match value_at(json, key) {
        Some(v) => if v < json.len() && json[v] == '{' {
            match value_end(json, v) {
                Some(e) => Some(json.subrange(v, e)),
                None => None,
            }
        } else {
            None
        },
        None => None,
    }
}

/// The opening braces of `s` from position `i` up to `k` less the closing braces,
/// without those inside strings. A string that does not end before `k` holds all
/// that follows.
pub open spec fn braces_between(s: Seq<char>, i: int, k: int) -> int
    decreases k - i,
{
    proof {
        lemma_string_end(s, i + 1);
    }
    if i >= k {
        0
    } else if s[i] == '"' {
        match string_end(s, i + 1) {
            Some(e) => if e <= k {
                braces_between(s, e, k)
            } else {
                0
            },
            None => 0,
        }
    } else if s[i] == '{' {
        1 + braces_between(s, i + 1, k)
    } else if s[i] == '}' {
        braces_between(s, i + 1, k) - 1
    } else {
        braces_between(s, i + 1, k)
    }
}

/// The opening braces of `t` less its closing braces, without those inside strings.
pub open spec fn open_braces(t: Seq<char>) -> int {
    braces_between(t, 0, t.len() as int)
}

/// The opening braces of `s` from position `i` up to `k` less the closing braces,
/// inside strings too.
pub open spec fn raw_braces_between(s: Seq<char>, i: int, k: int) -> int
    decreases k - i,
{
    if i >= k {
        0
    } else if s[i] == '{' {
        1 + raw_braces_between(s, i + 1, k)
    } else if s[i] == '}' {
        raw_braces_between(s, i + 1, k) - 1
    } else {
        raw_braces_between(s, i + 1, k)
    }
}

/// The opening braces of `t` less its closing braces, inside strings too.
pub open spec fn raw_open_braces(t: Seq<char>) -> int {
    raw_braces_between(t, 0, t.len() as int)
}

/// Past the object that begins at position `v` of `cs`, where braces inside strings
/// do not count.
fn past_object(cs: &Vec<char>, v: usize) -> (r: Option<usize>)
    requires
        v < cs@.len(),
        cs@[v as int] == '{',
    ensures
        match r {
            Some(e) => object_end(cs@, v as int, 0) == Some(e as int) && v < e <= cs@.len(),
            None => object_end(cs@, v as int, 0) is None,
        },
{
    let mut depth: usize = 0;
    let mut i: usize = v;
    while i < cs.len()
        invariant
            v <= i <= cs@.len(),
            v < cs@.len(),
            cs@[v as int] == '{',
            depth <= i - v,
            i > v ==> depth > 0,
            object_end(cs@, v as int, 0) == object_end(cs@, i as int, depth as int),
        decreases cs@.len() - i,
    {
        match cs[i] {
            '"' => {
                i = past_string(cs, i + 1)?;
            },
            '{' => {
                depth = depth + 1;
                i = i + 1;
            },
            '}' => {
                depth = depth - 1;
                i = i + 1;
                if depth == 0 {
                    return Some(i);
                }
            },
            _ => {
                i = i + 1;
            },
        }
    }
    None
}

/// Past the object that begins at position `v` of `cs`, where every brace counts.
fn past_raw_object(cs: &Vec<char>, v: usize) -> (r: Option<usize>)
    requires
        v < cs@.len(),
        cs@[v as int] == '{',
    ensures
        match r {
            Some(e) => raw_object_end(cs@, v as int, 0) == Some(e as int) && v < e <= cs@.len(),
            None => raw_object_end(cs@, v as int, 0) is None,
        },
{
    let mut depth: usize = 0;
    let mut i: usize = v;
    while i < cs.len()
        invariant
            v <= i <= cs@.len(),
            v < cs@.len(),
            cs@[v as int] == '{',
            depth <= i - v,
            i > v ==> depth > 0,
            raw_object_end(cs@, v as int, 0) == raw_object_end(cs@, i as int, depth as int),
        decreases cs@.len() - i,
    {
        match cs[i] {
            '{' => {
                depth = depth + 1;
            },
            '}' => {
                depth = depth - 1;
                if depth == 0 {
                    return Some(i + 1);
                }
            },
            _ => {},
        }
        i = i + 1;
    }
    None
}

/// The text of the object that is the value of `key` in `json`.
pub fn json_object_raw(json: &str, key: &str) -> (r: Option<String>)
    ensures
        opt_text(r) == object_value(json@, key@),
{
    let cs = chars_of(json);
    let v = value_position(&cs, key)?;
    if !(v < cs.len() && cs[v] == '{') {
        return None;
    }
    let end = match past_object(&cs, v) {
        Some(end) => end,
        None => past_raw_object(&cs, v)?,
    };
    Some(string_between(&cs, v, end))
}

// ---------------------------------------------------------------------------
// Laws of strings
// ---------------------------------------------------------------------------

/// A string can be read exactly where it ends.
pub proof fn law_string_is_read_where_it_ends(s: Seq<char>, i: int)
    requires
        0 <= i,
    ensures
        string_at(s, i) is Some <==> string_end(s, i) is Some,
    decreases s.len() - i,
{
    if i < s.len() && s[i] != '"' {
        if s[i] == '\\' {
            if i + 1 < s.len() {
                law_string_is_read_where_it_ends(s, escape_at(s, i + 1).1);
                lemma_string_end_after_escape(s, i + 1);
            }
        } else {
            law_string_is_read_where_it_ends(s, i + 1);
        }
    }
}

/// Nothing that follows the closing quote of a string matters for reading it.
pub proof fn law_nothing_after_a_string_matters(s: Seq<char>, i: int, rest: Seq<char>)
    requires
        0 <= i,
        string_end(s, i) is Some,
    ensures
        string_at(s.take(string_end(s, i)->0) + rest, i) == string_at(s, i),
        string_end(s.take(string_end(s, i)->0) + rest, i) == string_end(s, i),
{
    lemma_string_end(s, i);
    lemma_string_end_of_take(s, string_end(s, i)->0, rest, i);
    lemma_string_at_of_take(s, string_end(s, i)->0, rest, i);
}

proof fn lemma_string_end_of_take(s: Seq<char>, e: int, rest: Seq<char>, i: int)
    requires
        0 <= i,
        e <= s.len(),
        string_end(s, i) matches Some(f) && f <= e,
    ensures
        string_end(s.take(e) + rest, i) == string_end(s, i),
    decreases s.len() - i,
{
    let t = s.take(e) + rest;
    lemma_string_end(s, i);
    assert(t[i] == s[i]);
    if s[i] == '\\' {
        lemma_string_end_of_take(s, e, rest, i + 2);
    } else if s[i] != '"' {
        lemma_string_end_of_take(s, e, rest, i + 1);
    }
}

proof fn lemma_string_at_of_take(s: Seq<char>, e: int, rest: Seq<char>, i: int)
    requires
        0 <= i,
        string_end(s, i) == Some(e),
    ensures
        string_at(s.take(e) + rest, i) == string_at(s, i),
    decreases s.len() - i,
{
    let t = s.take(e) + rest;
    lemma_string_end(s, i);
    lemma_closing_quote(s, i);
    assert(forall|j: int| 0 <= j < e ==> t[j] == #[trigger] s[j]);
    assert(t[i] == s[i]);
    if s[i] == '\\' {
        lemma_string_end(s, i + 2);
        lemma_escape_of_take(s, e, rest, i + 1);
        lemma_string_end_after_escape(s, i + 1);
        lemma_string_at_of_take(s, e, rest, escape_at(s, i + 1).1);
    } else if s[i] != '"' {
        lemma_string_at_of_take(s, e, rest, i + 1);
    }
}

/// A string ends with a double quote.
proof fn lemma_closing_quote(s: Seq<char>, i: int)
    requires
        0 <= i,
    ensures
        string_end(s, i) matches Some(e) ==> i < e <= s.len() && s[e - 1] == '"',
    decreases s.len() - i,
{
    if i < s.len() && s[i] != '"' {
        if s[i] == '\\' {
            if i + 1 < s.len() {
                lemma_closing_quote(s, i + 2);
            }
        } else {
            lemma_closing_quote(s, i + 1);
        }
    }
}

/// The string goes on after an escape.
proof fn lemma_string_end_after_escape(s: Seq<char>, i: int)
    requires
        0 <= i < s.len(),
    ensures
        string_end(s, escape_at(s, i).1) == string_end(s, i + 1),
{
    reveal_with_fuel(string_end, 12);
}

/// An escape does not depend on what follows a double quote after it.
proof fn lemma_escape_of_take(s: Seq<char>, e: int, rest: Seq<char>, i: int)
    requires
        0 <= i,
        i + 1 < e <= s.len(),
        s[e - 1] == '"',
    ensures
        escape_at(s.take(e) + rest, i) == escape_at(s, i),
{
    let t = s.take(e) + rest;
    assert(t[i] == s[i]);
    lemma_code_unit_of_take(s, e, rest, i + 1);
    if code_unit(s, i + 1) is Some {
        if i + 6 < e {
            assert(t[i + 5] == s[i + 5]);
            assert(t[i + 6] == s[i + 6]);
            if i + 7 < e {
                lemma_code_unit_of_take(s, e, rest, i + 7);
            }
        } else {
            assert(t[i + 5] == s[i + 5]);
        }
    }
}

proof fn lemma_code_unit_of_take(s: Seq<char>, e: int, rest: Seq<char>, i: int)
    requires
        0 <= i < e <= s.len(),
        s[e - 1] == '"',
    ensures
        code_unit(s.take(e) + rest, i) == code_unit(s, i),
        code_unit(s, i) is Some ==> i + 4 < e,
{
    let t = s.take(e) + rest;
    assert(forall|j: int| 0 <= j < e ==> t[j] == #[trigger] s[j]);
    assert(t[i] == s[i]);
    assert(t[e - 1] == '"');
    if i + 1 < e {
        assert(t[i + 1] == s[i + 1]);
    }
    if i + 2 < e {
        assert(t[i + 2] == s[i + 2]);
    }
    if i + 3 < e {
        assert(t[i + 3] == s[i + 3]);
    }
}

/// What stands before a string does not matter for reading it.
proof fn lemma_string_at_shift(lead: Seq<char>, s: Seq<char>, i: int)
    requires
        0 <= i,
    ensures
        string_at(lead + s, lead.len() + i) == string_at(s, i),
    decreases s.len() - i,
{
    let t = lead + s;
    let n = lead.len() as int;
    if i < s.len() {
        assert(forall|j: int| i <= j < s.len() ==> t[n + j] == #[trigger] s[j]);
        assert(t[n + i] == s[i]);
        if s[i] == '\\' {
            if i + 1 < s.len() {
                assert(t[n + (i + 1)] == s[i + 1]);
                lemma_code_unit_shift(lead, s, i + 2);
                lemma_code_unit_shift(lead, s, i + 8);
                if i + 7 < s.len() {
                    assert(t[n + (i + 6)] == s[i + 6]);
                    assert(t[n + (i + 7)] == s[i + 7]);
                }
                lemma_string_at_shift(lead, s, escape_at(s, i + 1).1);
            }
        } else {
            lemma_string_at_shift(lead, s, i + 1);
        }
    }
}

proof fn lemma_code_unit_shift(lead: Seq<char>, s: Seq<char>, i: int)
    requires
        0 <= i,
    ensures
        code_unit(lead + s, lead.len() + i) == code_unit(s, i),
{
    let t = lead + s;
    let n = lead.len() as int;
    if i + 4 <= s.len() {
        assert(t[n + i] == s[i]);
        assert(t[n + i + 1] == s[i + 1]);
        assert(t[n + i + 2] == s[i + 2]);
        assert(t[n + i + 3] == s[i + 3]);
    }
}

proof fn lemma_hex_digits(u: int, a: int, b: int, c: int, d: int)
    requires
        0 <= u <= 0xffff,
        a == u / 4096,
        b == u / 256 % 16,
        c == u / 16 % 16,
        d == u % 16,
    ensures
        4096 * a + 256 * b + 16 * c + d == u,
        hex_value(hex_digit(a)) == Some(a),
        hex_value(hex_digit(b)) == Some(b),
        hex_value(hex_digit(c)) == Some(c),
        hex_value(hex_digit(d)) == Some(d),
{
}

proof fn lemma_unit_escaped(s: Seq<char>, i: int, u: int)
    requires
        0 <= i,
        0 <= u <= 0xffff,
        stands_at(s, unit_escaped(u), i),
    ensures
        s[i] == '\\',
        s[i + 1] == 'u',
        code_unit(s, i + 2) == Some(u),
{
    let w = unit_escaped(u);
    assert(s.subrange(i, i + 6) == w);
    assert(s[i] == w[0]);
    assert(s[i + 1] == w[1]);
    assert(s[i + 2] == w[2]);
    assert(s[i + 3] == w[3]);
    assert(s[i + 4] == w[4]);
    assert(s[i + 5] == w[5]);
    lemma_hex_digits(u, u / 4096, u / 256 % 16, u / 16 % 16, u % 16);
}

/// A character that Unicode escapes write reads back, whatever follows.
pub proof fn law_unicode_escape_reads_back(c: char, rest: Seq<char>)
    ensures
        string_at(unicode_escaped(c) + rest, 0) == before(c, string_at(rest, 0)),
{
    let s = unicode_escaped(c) + rest;
    let n = c as int;
    lemma_string_at_shift(unicode_escaped(c), rest, 0);
    if n < 0x10000 {
        assert(s.subrange(0, 6) =~= unit_escaped(n));
        lemma_unit_escaped(s, 0, n);
    } else {
        let high = 0xd800 + (n - 0x10000) / 0x400;
        let low = 0xdc00 + (n - 0x10000) % 0x400;
        assert(s.subrange(0, 6) =~= unit_escaped(high));
        assert(s.subrange(6, 12) =~= unit_escaped(low));
        lemma_unit_escaped(s, 0, high);
        lemma_unit_escaped(s, 6, low);
        assert(paired(high, low) == c);
    }
}

/// A character that is written between double quotes reads back, whatever follows.
pub proof fn law_character_reads_back(c: char, rest: Seq<char>)
    ensures
        string_at(escaped_char(c) + rest, 0) == before(c, string_at(rest, 0)),
{
    let w = escaped_char(c);
    let s = w + rest;
    if c <= '\u{1f}' && w == unicode_escaped(c) {
        law_unicode_escape_reads_back(c, rest);
    } else {
        lemma_string_at_shift(w, rest, 0);
        assert(s[0] == w[0]);
        if w.len() == 2 {
            assert(s[1] == w[1]);
        }
    }
}

/// A text that is written between double quotes reads back, whatever follows the
/// closing quote.
pub proof fn law_string_reads_back(t: Seq<char>, rest: Seq<char>)
    ensures
        string_at(escaped(t) + seq!['"'] + rest, 0) == Some(t),
    decreases t.len(),
{
    let s = escaped(t) + seq!['"'] + rest;
    if t.len() == 0 {
        assert(s[0] == '"');
        assert(t =~= seq![]);
    } else {
        let tail = t.skip(1);
        law_string_reads_back(tail, rest);
        law_character_reads_back(t[0], escaped(tail) + seq!['"'] + rest);
        assert(s =~= escaped_char(t[0]) + (escaped(tail) + seq!['"'] + rest));
        assert(seq![t[0]] + tail =~= t);
    }
}

/// Whether a text holds no double quotes, backslashes and control characters.
pub open spec fn is_plain(t: Seq<char>) -> bool {
    forall|i: int|
        0 <= i < t.len() ==> {
            let c = #[trigger] t[i];
            c >= ' ' && c != '"' && c != '\\'
        }
}

/// A text without double quotes, backslashes and control characters is its own
/// escaped form.
pub proof fn law_plain_text_needs_no_escape(t: Seq<char>)
    requires
        is_plain(t),
    ensures
        escaped(t) == t,
    decreases t.len(),
{
    if t.len() > 0 {
        let rest = t.skip(1);
        assert forall|i: int| 0 <= i < rest.len() implies {
            let c = #[trigger] rest[i];
            c >= ' ' && c != '"' && c != '\\'
        } by {
            assert(rest[i] == t[i + 1]);
        }
        law_plain_text_needs_no_escape(rest);
        assert(t[0] >= ' ');
        assert(seq![t[0]] + rest =~= t);
    }
}

/// A string takes no more bytes than its written form.
pub proof fn law_string_is_no_longer_than_written(s: Seq<char>, i: int)
    requires
        0 <= i <= s.len(),
    ensures
        string_at(s, i) matches Some(t) ==> encode_utf8(t).len() <= encode_utf8(s.skip(i)).len(),
    decreases s.len() - i,
{
    if i < s.len() && s[i] != '"' && !(s[i] == '\\' && i + 1 >= s.len()) {
        let (c, e) = if s[i] == '\\' {
            escape_at(s, i + 1)
        } else {
            (s[i], i + 1)
        };
        law_string_is_no_longer_than_written(s, e);
        let w = s.subrange(i, e);
        assert(s.skip(i) =~= w + s.skip(e));
        lemma_encode_concat(w, s.skip(e));
        if let Some(t) = string_at(s, e) {
            lemma_encode_concat(seq![c], t);
        }
        assert(encode_utf8(seq![c]).len() <= encode_utf8(w).len()) by {
            lemma_encode_len(w);
            lemma_encode_one(c);
            if s[i] != '\\' {
                assert(w =~= seq![c]);
            } else if e == i + 2 && c == s[i + 1] {
                assert(w =~= seq!['\\'] + seq![c]);
                lemma_encode_concat(seq!['\\'], seq![c]);
            }
        }
    }
}

/// A value that is read under a key takes no more bytes than the line.
pub proof fn law_values_are_no_longer_than_the_line(json: Seq<char>, key: Seq<char>)
    ensures
        str_value(json, key) matches Some(t) ==> encode_utf8(t).len() <= encode_utf8(json).len(),
        object_value(json, key) matches Some(t) ==> encode_utf8(t).len() <= encode_utf8(
            json,
        ).len(),
{
    lemma_value_at(json, key);
    if let Some(v) = value_at(json, key) {
        if v < json.len() {
            law_string_is_no_longer_than_written(json, v + 1);
            lemma_encode_subrange(json, v + 1, json.len() as int);
            assert(json.subrange(v + 1, json.len() as int) =~= json.skip(v + 1));
            if json[v] == '{' {
                lemma_object_end(json, v + 1, 1);
                lemma_raw_object_end(json, v + 1, 1);
                if let Some(e) = value_end(json, v) {
                    lemma_encode_subrange(json, v, e);
                }
            }
        }
    }
}

// ---------------------------------------------------------------------------
// Laws of objects
// ---------------------------------------------------------------------------

/// The text that [`object_value`] gives is balanced as a whole, and no shorter
/// beginning of it is. Braces inside strings do not count, unless the object is cut
/// short.
pub proof fn law_object_is_balanced(json: Seq<char>, key: Seq<char>)
    ensures
        object_value(json, key) matches Some(t) ==> {
            &&& t.len() >= 2
            &&& t[0] == '{'
            &&& t.last() == '}'
            &&& if object_end(json, value_at(json, key)->0, 0) is Some {
                &&& open_braces(t) == 0
                &&& forall|k: int| 0 < k < t.len() ==> open_braces(#[trigger] t.take(k)) > 0
            } else {
                &&& raw_open_braces(t) == 0
                &&& forall|k: int| 0 < k < t.len() ==> raw_open_braces(#[trigger] t.take(k)) > 0
            }
        },
{
    lemma_value_at(json, key);
    if let Some(v) = value_at(json, key) {
        if v < json.len() && json[v] == '{' {
            lemma_object_end(json, v + 1, 1);
            lemma_raw_object_end(json, v + 1, 1);
            if let Some(e) = object_end(json, v, 0) {
                let t = json.subrange(v, e);
                lemma_braces_of_subrange(json, v, e, 0);
                assert forall|k: int| 0 < k < t.len() implies open_braces(
                    #[trigger] t.take(k),
                ) > 0 by {
                    assert(t.take(k) =~= json.subrange(v, v + k));
                    lemma_braces_of_subrange(json, v, v + k, 0);
                    assert(braces_between(json, v, v + k) == 1 + braces_between(
                        json,
                        v + 1,
                        v + k,
                    ));
                }
            } else if let Some(e) = raw_object_end(json, v, 0) {
                let t = json.subrange(v, e);
                lemma_raw_braces_of_subrange(json, v, e, 0);
                assert forall|k: int| 0 < k < t.len() implies raw_open_braces(
                    #[trigger] t.take(k),
                ) > 0 by {
                    assert(t.take(k) =~= json.subrange(v, v + k));
                    lemma_raw_braces_of_subrange(json, v, v + k, 0);
                    assert(raw_braces_between(json, v, v + k) == 1 + raw_braces_between(
                        json,
                        v + 1,
                        v + k,
                    ));
                }
            }
        }
    }
}

/// Braces are counted one by one: an opening brace adds one and a closing brace takes
/// one off, a string counts for nothing, whatever it holds, and so does any other
/// character. Where those inside strings count too, so does a double quote.
pub proof fn law_braces_are_counted(c: char, t: Seq<char>, text: Seq<char>)
    ensures
        open_braces(seq![]) == 0,
        open_braces(seq!['{'] + t) == open_braces(t) + 1,
        open_braces(seq!['}'] + t) == open_braces(t) - 1,
        open_braces(seq!['"'] + escaped(text) + seq!['"'] + t) == open_braces(t),
        c != '{' && c != '}' && c != '"' ==> open_braces(seq![c] + t) == open_braces(t),
        raw_open_braces(seq![]) == 0,
        raw_open_braces(seq!['{'] + t) == raw_open_braces(t) + 1,
        raw_open_braces(seq!['}'] + t) == raw_open_braces(t) - 1,
        c != '{' && c != '}' ==> raw_open_braces(seq![c] + t) == raw_open_braces(t),
{
    lemma_brace_counted('{', t);
    lemma_brace_counted('}', t);
    lemma_brace_counted(c, t);
    let front = seq!['"'] + escaped(text) + seq!['"'];
    let s = front + t;
    let (n, e) = (front.len() as int, s.len() as int);
    lemma_string_end_written(seq!['"'], text, t);
    assert(s =~= seq!['"'] + (escaped(text) + seq!['"'] + t));
    assert(s[0] == '"');
    assert(string_end(s, 1) == Some(n));
    assert(s.subrange(n, e) =~= t);
    lemma_braces_of_subrange(s, n, e, 0);
}

proof fn lemma_brace_counted(c: char, t: Seq<char>)
    ensures
        c == '{' ==> open_braces(seq![c] + t) == open_braces(t) + 1,
        c == '}' ==> open_braces(seq![c] + t) == open_braces(t) - 1,
        c != '{' && c != '}' && c != '"' ==> open_braces(seq![c] + t) == open_braces(t),
        c == '{' ==> raw_open_braces(seq![c] + t) == raw_open_braces(t) + 1,
        c == '}' ==> raw_open_braces(seq![c] + t) == raw_open_braces(t) - 1,
        c != '{' && c != '}' ==> raw_open_braces(seq![c] + t) == raw_open_braces(t),
{
    let s = seq![c] + t;
    let e = s.len() as int;
    assert(s[0] == c);
    assert(s.subrange(1, e) =~= t);
    lemma_braces_of_subrange(s, 1, e, 0);
    lemma_raw_braces_of_subrange(s, 1, e, 0);
}

/// A value that opens with a brace gives an object unless every beginning of what
/// follows leaves a brace open, whether or not those inside strings count.
pub proof fn law_object_is_found(json: Seq<char>, key: Seq<char>)
    ensures
        value_at(json, key) matches Some(v) ==> v < json.len() && json[v] == '{'
            && object_value(json, key) is None ==> forall|k: int|
            v < k <= json.len() ==> {
                let t = #[trigger] json.subrange(v, k);
                open_braces(t) > 0 && raw_open_braces(t) > 0
            },
{
    lemma_value_at(json, key);
    if let Some(v) = value_at(json, key) {
        if v < json.len() && json[v] == '{' && object_value(json, key) is None {
            lemma_object_end(json, v + 1, 1);
            lemma_raw_object_end(json, v + 1, 1);
            assert forall|k: int| v < k <= json.len() implies {
                let t = #[trigger] json.subrange(v, k);
                open_braces(t) > 0 && raw_open_braces(t) > 0
            } by {
                lemma_braces_of_subrange(json, v, k, 0);
                assert(braces_between(json, v, k) == 1 + braces_between(json, v + 1, k));
                lemma_raw_braces_of_subrange(json, v, k, 0);
                assert(raw_braces_between(json, v, k) == 1 + raw_braces_between(json, v + 1, k));
            }
        }
    }
}

/// The object that is read does not depend on what follows it, where it is not cut
/// short.
pub proof fn law_nothing_after_an_object_matters(
    json: Seq<char>,
    v: int,
    rest: Seq<char>,
)
    requires
        0 <= v < json.len(),
        json[v] == '{',
        object_end(json, v, 0) is Some,
    ensures
        value_end(json.take(object_end(json, v, 0)->0) + rest, v) == value_end(json, v),
{
    lemma_object_end(json, v + 1, 1);
    lemma_object_end_of_take(json, object_end(json, v, 0)->0, rest, v, 0);
}

proof fn lemma_object_end_of_take(
    s: Seq<char>,
    e: int,
    rest: Seq<char>,
    i: int,
    depth: int,
)
    requires
        0 <= i <= e <= s.len(),
        object_end(s, i, depth) == Some(e),
    ensures
        object_end(s.take(e) + rest, i, depth) == Some(e),
    decreases s.len() - i,
{
    let t = s.take(e) + rest;
    lemma_string_end(s, i + 1);
    lemma_object_end_is_later(s, i, depth);
    assert(t[i] == s[i]);
    if s[i] == '"' {
        let next = string_end(s, i + 1)->0;
        lemma_object_end_is_later(s, next, depth);
        lemma_string_end_of_take(s, e, rest, i + 1);
        lemma_object_end_of_take(s, e, rest, next, depth);
    } else if s[i] == '{' {
        lemma_object_end_is_later(s, i + 1, depth + 1);
        lemma_object_end_of_take(s, e, rest, i + 1, depth + 1);
    } else if s[i] == '}' {
        if depth != 1 {
            lemma_object_end_is_later(s, i + 1, depth - 1);
            lemma_object_end_of_take(s, e, rest, i + 1, depth - 1);
        }
    } else {
        lemma_object_end_is_later(s, i + 1, depth);
        lemma_object_end_of_take(s, e, rest, i + 1, depth);
    }
}

proof fn lemma_object_end_is_later(s: Seq<char>, i: int, depth: int)
    ensures
        object_end(s, i, depth) matches Some(e) ==> i < e,
    decreases s.len() - i,
{
    if i < s.len() {
        lemma_string_end(s, i + 1);
        if s[i] == '"' {
            if let Some(e) = string_end(s, i + 1) {
                lemma_object_end_is_later(s, e, depth);
            }
        } else if s[i] == '{' {
            lemma_object_end_is_later(s, i + 1, depth + 1);
        } else if s[i] == '}' {
            lemma_object_end_is_later(s, i + 1, depth - 1);
        } else {
            lemma_object_end_is_later(s, i + 1, depth);
        }
    }
}

/// An object that is cut short is read by counting every brace, inside strings too.
pub proof fn law_object_that_is_cut_short(json: Seq<char>, key: Seq<char>, v: int, e: int)
    requires
        value_at(json, key) == Some(v),
        v < json.len(),
        json[v] == '{',
        object_end(json, v, 0) is None,
        v < e <= json.len(),
        raw_open_braces(json.subrange(v, e)) == 0,
        forall|k: int| v < k < e ==> raw_open_braces(#[trigger] json.subrange(v, k)) > 0,
    ensures
        object_value(json, key) == Some(json.subrange(v, e)),
{
    lemma_value_at(json, key);
    lemma_raw_object_end(json, v + 1, 1);
    lemma_raw_braces_of_subrange(json, v, e, 0);
    assert(raw_braces_between(json, v, e) == 1 + raw_braces_between(json, v + 1, e));
    if let Some(f) = raw_object_end(json, v, 0) {
        if f < e {
            lemma_raw_braces_of_subrange(json, v, f, 0);
            assert(raw_braces_between(json, v, f) == 1 + raw_braces_between(json, v + 1, f));
            assert(raw_open_braces(json.subrange(v, f)) > 0);
        }
    }
}

/// Up to where an object ends at least one brace is open, and there none is, where
/// every brace counts.
proof fn lemma_raw_object_end(s: Seq<char>, i: int, depth: int)
    requires
        0 <= i <= s.len(),
        depth > 0,
    ensures
        match raw_object_end(s, i, depth) {
            Some(e) => {
                &&& i < e <= s.len()
                &&& s[e - 1] == '}'
                &&& depth + raw_braces_between(s, i, e) == 0
                &&& forall|k: int|
                    i <= k < e ==> depth + #[trigger] raw_braces_between(s, i, k) > 0
            },
            None => forall|k: int|
                i <= k <= s.len() ==> depth + #[trigger] raw_braces_between(s, i, k) > 0,
        },
    decreases s.len() - i,
{
    if i < s.len() {
        let deeper = if s[i] == '{' {
            depth + 1
        } else if s[i] == '}' {
            depth - 1
        } else {
            depth
        };
        if deeper > 0 {
            lemma_raw_object_end(s, i + 1, deeper);
            assert forall|k: int| i + 1 <= k <= s.len() implies #[trigger] raw_braces_between(
                s,
                i,
                k,
            ) == deeper - depth + raw_braces_between(s, i + 1, k) by {}
        } else {
            reveal_with_fuel(raw_braces_between, 2);
        }
    }
}

/// The braces of a stretch of a text are those of the text there, where every brace
/// counts.
proof fn lemma_raw_braces_of_subrange(s: Seq<char>, v: int, w: int, i: int)
    requires
        0 <= v <= w <= s.len(),
        0 <= i,
        v + i <= w,
    ensures
        raw_braces_between(s.subrange(v, w), i, w - v) == raw_braces_between(s, v + i, w),
    decreases w - v - i,
{
    if v + i < w {
        assert(s.subrange(v, w)[i] == s[v + i]);
        lemma_raw_braces_of_subrange(s, v, w, i + 1);
    }
}

/// Up to where an object ends at least one brace is open, and there none is.
proof fn lemma_object_end(s: Seq<char>, i: int, depth: int)
    requires
        0 <= i <= s.len(),
        depth > 0,
    ensures
        match object_end(s, i, depth) {
            Some(e) => {
                &&& i < e <= s.len()
                &&& s[e - 1] == '}'
                &&& depth + braces_between(s, i, e) == 0
                &&& forall|k: int| i <= k < e ==> depth + #[trigger] braces_between(s, i, k) > 0
            },
            None => forall|k: int|
                i <= k <= s.len() ==> depth + #[trigger] braces_between(s, i, k) > 0,
        },
    decreases s.len() - i,
{
    if i < s.len() {
        lemma_string_end(s, i + 1);
        let (next, deeper) = if s[i] == '"' {
            match string_end(s, i + 1) {
                Some(e) => (e, depth),
                None => (s.len() as int, depth),
            }
        } else if s[i] == '{' {
            (i + 1, depth + 1)
        } else if s[i] == '}' {
            (i + 1, depth - 1)
        } else {
            (i + 1, depth)
        };
        if deeper > 0 {
            lemma_object_end(s, next, deeper);
            assert forall|k: int| next <= k <= s.len() && !(s[i] == '"' && string_end(
                s,
                i + 1,
            ) is None) implies #[trigger] braces_between(s, i, k) == deeper - depth
                + braces_between(s, next, k) by {}
        } else {
            reveal_with_fuel(braces_between, 2);
        }
    }
}

/// A string ends in a stretch of a text where it ends in the text, if that lies in
/// the stretch.
proof fn lemma_string_end_of_subrange(s: Seq<char>, v: int, w: int, i: int)
    requires
        0 <= v <= w <= s.len(),
        0 <= i,
        v + i <= w,
    ensures
        string_end(s.subrange(v, w), i) == match string_end(s, v + i) {
            Some(e) => if e <= w {
                Some(e - v)
            } else {
                None
            },
            None => None::<int>,
        },
    decreases w - v - i,
{
    let t = s.subrange(v, w);
    lemma_string_end(s, v + i);
    if v + i < w {
        assert(t[i] == s[v + i]);
        if t[i] == '\\' {
            if v + i + 2 <= w {
                lemma_string_end_of_subrange(s, v, w, i + 2);
            } else {
                lemma_string_end(s, v + i + 2);
            }
        } else if t[i] != '"' {
            lemma_string_end_of_subrange(s, v, w, i + 1);
        }
    }
}

/// The braces of a stretch of a text are those of the text there.
proof fn lemma_braces_of_subrange(s: Seq<char>, v: int, w: int, i: int)
    requires
        0 <= v <= w <= s.len(),
        0 <= i,
        v + i <= w,
    ensures
        braces_between(s.subrange(v, w), i, w - v) == braces_between(s, v + i, w),
    decreases w - v - i,
{
    let t = s.subrange(v, w);
    if v + i < w {
        assert(t[i] == s[v + i]);
        if t[i] == '"' {
            lemma_string_end(s, v + i + 1);
            lemma_string_end_of_subrange(s, v, w, i + 1);
            if let Some(e) = string_end(s, v + i + 1) {
                if e <= w {
                    lemma_braces_of_subrange(s, v, w, e - v);
                }
            }
        } else {
            lemma_braces_of_subrange(s, v, w, i + 1);
        }
    }
}

// ---------------------------------------------------------------------------
// Laws of fields
// ---------------------------------------------------------------------------

/// A line in which `lead` is followed by the key, a colon, white space and `tail`.
pub open spec fn line_with_field(
    lead: Seq<char>,
    key: Seq<char>,
    white: Seq<char>,
    tail: Seq<char>,
) -> Seq<char> {
    lead + quoted(key) + seq![':'] + white + tail
}

/// Whether `white` is white space and the quoted key stands nowhere in the line
/// before the field's own.
pub open spec fn is_first_field(
    lead: Seq<char>,
    key: Seq<char>,
    white: Seq<char>,
    tail: Seq<char>,
) -> bool {
    &&& forall|i: int| 0 <= i < white.len() ==> is_white(#[trigger] white[i])
    &&& forall|j: int|
        0 <= j < lead.len() ==> !#[trigger] stands_at(
            line_with_field(lead, key, white, tail),
            quoted(key),
            j,
        )
}

proof fn lemma_field_value_at(lead: Seq<char>, key: Seq<char>, white: Seq<char>, tail: Seq<char>)
    requires
        is_first_field(lead, key, white, tail),
        tail.len() > 0,
        !is_white(tail[0]),
    ensures
        value_at(line_with_field(lead, key, white, tail), key) == Some(
            (lead + quoted(key) + seq![':'] + white).len() as int,
        ),
{
    let json = line_with_field(lead, key, white, tail);
    let p = lead.len() as int;
    let k = p + quoted(key).len();
    assert(json.subrange(p, k) =~= quoted(key));
    assert(stands_at(json, quoted(key), p));
    lemma_find(json, quoted(key), 0);
    assert(find(json, quoted(key), 0) == Some(p));
    assert(json[k] == ':');
    let v = k + 1 + white.len();
    lemma_skip_white(json, k + 1);
    assert(forall|j: int| k + 1 <= j < v ==> json[j] == white[j - k - 1]);
    assert(json[v] == tail[0]);
    let w = skip_white(json, k + 1);
    if w < v {
        assert(json[w] == white[w - k - 1]);
    }
}

/// A string that is written under a key is read under that key.
pub proof fn law_string_field(
    lead: Seq<char>,
    key: Seq<char>,
    white: Seq<char>,
    t: Seq<char>,
    rest: Seq<char>,
)
    requires
        is_first_field(lead, key, white, seq!['"'] + escaped(t) + seq!['"'] + rest),
    ensures
        str_value(
            line_with_field(lead, key, white, seq!['"'] + escaped(t) + seq!['"'] + rest),
            key,
        ) == Some(t),
{
    let tail = seq!['"'] + escaped(t) + seq!['"'] + rest;
    let json = line_with_field(lead, key, white, tail);
    lemma_field_value_at(lead, key, white, tail);
    let front = lead + quoted(key) + seq![':'] + white;
    law_string_reads_back(t, rest);
    lemma_string_at_shift(front + seq!['"'], escaped(t) + seq!['"'] + rest, 0);
    assert((front + seq!['"']) + (escaped(t) + seq!['"'] + rest) =~= json);
    assert(json[front.len() as int] == '"');
}

/// A truth value that is written under a key is read under that key.
pub proof fn law_bool_field(
    lead: Seq<char>,
    key: Seq<char>,
    white: Seq<char>,
    value: bool,
    rest: Seq<char>,
)
    requires
        is_first_field(
            lead,
            key,
            white,
            (if value {
                "true"@
            } else {
                "false"@
            }) + rest,
        ),
    ensures
        bool_value(
            line_with_field(
                lead,
                key,
                white,
                (if value {
                    "true"@
                } else {
                    "false"@
                }) + rest,
            ),
            key,
        ) == Some(value),
{
    reveal_strlit("true");
    reveal_strlit("false");
    let word = if value {
        "true"@
    } else {
        "false"@
    };
    let json = line_with_field(lead, key, white, word + rest);
    lemma_field_value_at(lead, key, white, word + rest);
    let v = (lead + quoted(key) + seq![':'] + white).len() as int;
    assert(json.subrange(v, v + word.len()) =~= word);
    if !value {
        assert(json[v] == 'f');
        if stands_at(json, "true"@, v) {
            assert(json.subrange(v, v + 4)[0] == 't');
        }
    }
}

/// An object that is written under a key is read under that key, where the braces
/// that it holds outside strings are balanced.
pub proof fn law_object_field(
    lead: Seq<char>,
    key: Seq<char>,
    white: Seq<char>,
    object: Seq<char>,
    rest: Seq<char>,
)
    requires
        is_first_field(lead, key, white, object + rest),
        object.len() > 0,
        object[0] == '{',
        open_braces(object) == 0,
        forall|k: int| 0 < k < object.len() ==> open_braces(#[trigger] object.take(k)) > 0,
    ensures
        object_value(line_with_field(lead, key, white, object + rest), key) == Some(object),
{
    let json = line_with_field(lead, key, white, object + rest);
    lemma_field_value_at(lead, key, white, object + rest);
    let v = (lead + quoted(key) + seq![':'] + white).len() as int;
    let e = v + object.len();
    assert(json[v] == '{');
    assert(json.subrange(v, e) =~= object);
    lemma_braces_of_subrange(json, v, e, 0);
    assert forall|k: int| v < k < e implies #[trigger] braces_between(json, v, k) > 0 by {
        assert(json.subrange(v, k) =~= object.take(k - v));
        lemma_braces_of_subrange(json, v, k, 0);
        assert(open_braces(object.take(k - v)) > 0);
    }
    lemma_object_ends(json, v, e);
}

/// An object ends where its braces are balanced for the first time.
proof fn lemma_object_ends(s: Seq<char>, v: int, e: int)
    requires
        0 <= v < e <= s.len(),
        s[v] == '{',
        braces_between(s, v, e) == 0,
        forall|k: int| v < k < e ==> #[trigger] braces_between(s, v, k) > 0,
    ensures
        object_end(s, v, 0) == Some(e),
{
    lemma_object_end(s, v + 1, 1);
    assert(braces_between(s, v, e) == 1 + braces_between(s, v + 1, e));
    if let Some(f) = object_end(s, v, 0) {
        assert(braces_between(s, v, f) == 1 + braces_between(s, v + 1, f));
    }
}

/// An object with one field, whose value is the string `t`.
pub open spec fn one_string(key: Seq<char>, t: Seq<char>) -> Seq<char> {
    line_with_field(seq!['{'], key, seq![], seq!['"'] + escaped(t) + seq!['"', '}'])
}

/// An object with one string is read whole under its key, and the string under its
/// own, whatever the string holds.
pub proof fn law_object_with_one_string(
    lead: Seq<char>,
    key: Seq<char>,
    white: Seq<char>,
    inner: Seq<char>,
    t: Seq<char>,
    rest: Seq<char>,
)
    requires
        is_first_field(lead, key, white, one_string(inner, t) + rest),
        is_plain(inner),
    ensures
        object_value(line_with_field(lead, key, white, one_string(inner, t) + rest), key) == Some(
            one_string(inner, t),
        ),
        str_value(one_string(inner, t), inner) == Some(t),
{
    let object = one_string(inner, t);
    let json = line_with_field(lead, key, white, object + rest);
    let v = (lead + quoted(key) + seq![':'] + white).len() as int;
    assert(object[0] == '{');
    lemma_field_value_at(lead, key, white, object + rest);
    assert(json.subrange(v, v + object.len()) =~= object);
    assert(json =~= lead + quoted(key) + seq![':'] + white + object + rest);
    lemma_one_string_end(lead + quoted(key) + seq![':'] + white, inner, t, rest);
    let tail = seq!['"'] + escaped(t) + seq!['"'] + seq!['}'];
    assert(tail =~= seq!['"'] + escaped(t) + seq!['"', '}']);
    assert(!stands_at(object, quoted(inner), 0)) by {
        if stands_at(object, quoted(inner), 0) {
            assert(object.subrange(0, quoted(inner).len() as int)[0] == quoted(inner)[0]);
        }
    }
    law_string_field(seq!['{'], inner, seq![], t, seq!['}']);
}

/// An object with one string ends at its last character.
proof fn lemma_one_string_end(lead: Seq<char>, inner: Seq<char>, t: Seq<char>, rest: Seq<char>)
    requires
        is_plain(inner),
    ensures
        object_end(lead + one_string(inner, t) + rest, lead.len() as int, 0) == Some(
            (lead.len() + one_string(inner, t).len()) as int,
        ),
{
    let s = lead + one_string(inner, t) + rest;
    let v = lead.len() as int;
    let value = v + 4 + inner.len();
    let end = value + escaped(t).len() + 2;
    law_plain_text_needs_no_escape(inner);
    let first = lead + seq!['{', '"'];
    let after_first = seq![':', '"'] + escaped(t) + seq!['"', '}'] + rest;
    assert(string_end(s, v + 2) == Some(value - 1)) by {
        lemma_string_end_written(first, inner, after_first);
        assert(s =~= first + (escaped(inner) + seq!['"'] + after_first));
    }
    let second = first + inner + seq!['"', ':', '"'];
    let after_second = seq!['}'] + rest;
    assert(string_end(s, value + 1) == Some(end)) by {
        lemma_string_end_written(second, t, after_second);
        assert(s =~= second + (escaped(t) + seq!['"'] + after_second));
    }
    assert(s[v] == '{');
    assert(s[v + 1] == '"');
    assert(s[value - 1] == ':');
    assert(s[value] == '"');
    assert(s[end] == '}');
    assert(object_end(s, end, 1) == Some(end + 1));
    assert(object_end(s, value, 1) == Some(end + 1));
    assert(object_end(s, value - 1, 1) == Some(end + 1));
    assert(object_end(s, v + 1, 1) == Some(end + 1));
}

/// A text that is written between double quotes ends at the closing quote.
proof fn lemma_string_end_written(lead: Seq<char>, t: Seq<char>, rest: Seq<char>)
    ensures
        string_end(lead + (escaped(t) + seq!['"'] + rest), lead.len() as int) == Some(
            (lead.len() + escaped(t).len() + 1) as int,
        ),
    decreases t.len(),
{
    let s = lead + (escaped(t) + seq!['"'] + rest);
    if t.len() == 0 {
        assert(s[lead.len() as int] == '"');
    } else {
        let w = escaped_char(t[0]);
        let tail = escaped(t.skip(1)) + seq!['"'] + rest;
        lemma_string_end_written(lead + w, t.skip(1), rest);
        lemma_string_end_passes(lead, t[0], tail);
        assert(s =~= (lead + w) + tail);
    }
}

/// No character that is written between double quotes ends the string.
proof fn lemma_string_end_passes(lead: Seq<char>, c: char, tail: Seq<char>)
    ensures
        string_end((lead + escaped_char(c)) + tail, lead.len() as int) == string_end(
            (lead + escaped_char(c)) + tail,
            (lead + escaped_char(c)).len() as int,
        ),
{
    let w = escaped_char(c);
    let s = (lead + w) + tail;
    let n = lead.len() as int;
    assert(s[n] == w[0]);
    if w.len() >= 2 {
        assert(s[n + 1] == w[1]);
    }
    if w.len() == 6 {
        let u = c as int;
        lemma_hex_digits(u, u / 4096, u / 256 % 16, u / 16 % 16, u % 16);
        assert(s[n + 2] == w[2]);
        assert(s[n + 3] == w[3]);
        assert(s[n + 4] == w[4]);
        assert(s[n + 5] == w[5]);
        assert(string_end(s, n + 5) == string_end(s, n + 6));
        assert(string_end(s, n + 4) == string_end(s, n + 5));
        assert(string_end(s, n + 3) == string_end(s, n + 4));
        assert(string_end(s, n + 2) == string_end(s, n + 3));
    }
}

/// The digits of `n` in base ten.
pub open spec fn digits(n: nat) -> Seq<char>
    decreases n,
{
    let last = seq![(('0' as nat) + n % 10) as char];
    if n < 10 {
        last
    } else {
        digits(n / 10) + last
    }
}

/// `n` as it is written in base ten.
pub open spec fn written(n: int) -> Seq<char> {
    if n < 0 {
        seq!['-'] + digits((-n) as nat)
    } else {
        digits(n as nat)
    }
}

proof fn lemma_digits(n: nat)
    ensures
        all_digits(digits(n)),
        decimal(digits(n)) == n,
    decreases n,
{
    let last = seq![(('0' as nat) + n % 10) as char];
    if n < 10 {
        reveal_with_fuel(decimal, 2);
        assert(last.drop_last() =~= seq![]);
    } else {
        lemma_digits(n / 10);
        assert(digits(n).drop_last() =~= digits(n / 10));
        assert(forall|i: int| 0 <= i < digits(n / 10).len() ==> digits(n)[i] == digits(n / 10)[i]);
    }
}

/// An `i64` that is written is read.
pub proof fn law_integer_reads_back(n: i64)
    ensures
        integer64(written(n as int)) == Some(n),
{
    if n < 0 {
        let d = digits((-n) as nat);
        lemma_digits((-n) as nat);
        assert((seq!['-'] + d).skip(1) =~= d);
    } else {
        lemma_digits(n as nat);
        assert(is_digit(digits(n as nat)[0]));
    }
}

proof fn lemma_number_end(s: Seq<char>, i: int, e: int)
    requires
        0 <= i <= e <= s.len(),
        forall|j: int| i <= j < e ==> is_digit(#[trigger] s[j]) || s[j] == '-',
        e < s.len() ==> !is_digit(s[e]) && s[e] != '-',
    ensures
        number_end(s, i) == e,
    decreases e - i,
{
    if i < e {
        assert(is_digit(s[i]) || s[i] == '-');
        lemma_number_end(s, i + 1, e);
    }
}

/// An `i64` that is written under a key is read under that key, where neither a
/// digit nor a minus sign follows.
pub proof fn law_int_field(
    lead: Seq<char>,
    key: Seq<char>,
    white: Seq<char>,
    n: i64,
    rest: Seq<char>,
)
    requires
        is_first_field(lead, key, white, written(n as int) + rest),
        rest.len() > 0 ==> !is_digit(rest[0]) && rest[0] != '-',
    ensures
        int_value(line_with_field(lead, key, white, written(n as int) + rest), key) == Some(n),
{
    let w = written(n as int);
    let json = line_with_field(lead, key, white, w + rest);
    let v = (lead + quoted(key) + seq![':'] + white).len() as int;
    let e = v + w.len();
    law_integer_reads_back(n);
    lemma_digits(
        (if n < 0 {
            -n
        } else {
            n as int
        }) as nat,
    );
    assert(w.len() > 0);
    assert forall|j: int| 0 <= j < w.len() implies is_digit(#[trigger] w[j]) || w[j] == '-' by {
        if n < 0 && j > 0 {
            assert(w[j] == digits((-n) as nat)[j - 1]);
        }
    }
    assert(is_digit(w[0]) || w[0] == '-');
    lemma_field_value_at(lead, key, white, w + rest);
    assert(forall|j: int| v <= j < e ==> json[j] == w[j - v]);
    assert(e < json.len() ==> json[e] == rest[0]);
    assert forall|j: int| v <= j < e implies is_digit(#[trigger] json[j]) || json[j] == '-' by {
        assert(json[j] == w[j - v]);
    }
    lemma_number_end(json, v, e);
    assert(json.subrange(v, e) =~= w);
}

// ---------------------------------------------------------------------------
// Laws of what is found
// ---------------------------------------------------------------------------

/// The value of a key begins past the first place where the key stands between
/// double quotes, past the first colon after that, and past the white space there.
/// There is none where the key stands nowhere, or no colon follows.
pub proof fn law_value_begins(json: Seq<char>, key: Seq<char>)
    ensures
        match value_at(json, key) {
            Some(v) => exists|p: int, k: int|
                {
                    &&& #[trigger] is_key_at(json, key, p)
                    &&& forall|j: int| 0 <= j < p ==> !is_key_at(json, key, j)
                    &&& p + key.len() + 2 <= k < v <= json.len()
                    &&& #[trigger] json[k] == ':'
                    &&& forall|j: int| p + key.len() + 2 <= j < k ==> json[j] != ':'
                    &&& forall|j: int| k < j < v ==> is_white(json[j])
                    &&& v < json.len() ==> !is_white(json[v])
                },
            None => forall|p: int, k: int|
                #[trigger] is_key_at(json, key, p) && (forall|j: int|
                    0 <= j < p ==> !is_key_at(json, key, j)) && p + key.len() + 2 <= k
                    < json.len() ==> #[trigger] json[k] != ':',
        },
{
    let q = quoted(key);
    lemma_find(json, q, 0);
    assert forall|p: int| #[trigger] is_key_at(json, key, p) <==> stands_at(json, q, p) by {
        assert(q.len() == key.len() + 2);
    }
    if let Some(p) = find(json, q, 0) {
        assert(is_key_at(json, key, p));
        lemma_index_of(json, ':', p + q.len());
        match index_of(json, ':', p + q.len()) {
            Some(k) => {
                lemma_skip_white(json, k + 1);
                assert(json[k] == ':');
            },
            None => {
                assert forall|r: int, k: int|
                    #[trigger] is_key_at(json, key, r) && (forall|j: int|
                        0 <= j < r ==> !is_key_at(json, key, j)) && r + key.len() + 2 <= k
                        < json.len() implies #[trigger] json[k] != ':' by {
                    if r < p {
                        assert(stands_at(json, q, r));
                    }
                    if p < r {
                        assert(!is_key_at(json, key, p));
                    }
                }
            },
        }
    }
}

/// Whether `key` stands between double quotes at position `p` of `json`.
pub open spec fn is_key_at(json: Seq<char>, key: Seq<char>, p: int) -> bool {
    0 <= p && p + key.len() + 2 <= json.len() && json.subrange(p, p + key.len() + 2) == seq!['"']
        + key + seq!['"']
}

/// What a value begins with says what can be read of it.
pub proof fn law_kinds_of_values(json: Seq<char>, key: Seq<char>)
    ensures
        match value_at(json, key) {
            Some(v) => {
                &&& v == json.len() || json[v] != '"' ==> str_value(json, key) is None
                &&& v == json.len() || json[v] != '{' ==> object_value(json, key) is None
                &&& v == json.len() || (json[v] != 't' && json[v] != 'f') ==> bool_value(
                    json,
                    key,
                ) is None
                &&& v == json.len() || (json[v] != '-' && (json[v] < '0' || json[v] > '9'))
                    ==> int_value(json, key) is None
            },
            None => {
                &&& str_value(json, key) is None
                &&& object_value(json, key) is None
                &&& bool_value(json, key) is None
                &&& int_value(json, key) is None
            },
        },
{
    lemma_value_at(json, key);
    reveal_strlit("true");
    reveal_strlit("false");
    if let Some(v) = value_at(json, key) {
        if stands_at(json, "true"@, v) {
            assert(json.subrange(v, v + 4)[0] == 't');
        }
        if stands_at(json, "false"@, v) {
            assert(json.subrange(v, v + 5)[0] == 'f');
        }
        if v == json.len() || (json[v] != '-' && (json[v] < '0' || json[v] > '9')) {
            assert(number_end(json, v) == v);
            assert(json.subrange(v, v).len() == 0);
        }
    }
}

/// A truth value is read where the text begins with one of these words.
pub proof fn law_truth_values(json: Seq<char>, key: Seq<char>)
    ensures
        bool_value(json, key) == Some(true) <==> (value_at(json, key) matches Some(v) && v + 4
            <= json.len() && json.subrange(v, v + 4) == seq!['t', 'r', 'u', 'e']),
        bool_value(json, key) == Some(false) <==> (value_at(json, key) matches Some(v) && v + 5
            <= json.len() && json.subrange(v, v + 5) == seq!['f', 'a', 'l', 's', 'e']),
{
    lemma_value_at(json, key);
    reveal_strlit("true");
    reveal_strlit("false");
    assert("true"@ =~= seq!['t', 'r', 'u', 'e']);
    assert("false"@ =~= seq!['f', 'a', 'l', 's', 'e']);
    if let Some(v) = value_at(json, key) {
        if stands_at(json, "true"@, v) && stands_at(json, "false"@, v) {
            assert(json.subrange(v, v + 4)[0] == 't');
            assert(json.subrange(v, v + 5)[0] == 'f');
        }
    }
}

/// Before a character that begins no escape the backslash is dropped.
pub proof fn law_backslash_is_dropped(c: char, rest: Seq<char>)
    requires
        c != 'n',
        c != 't',
        c != 'r',
        c != 'b',
        c != 'f',
        c != 'u',
    ensures
        string_at(seq!['\\', c] + rest, 0) == before(c, string_at(rest, 0)),
{
    let s = seq!['\\', c] + rest;
    lemma_string_at_shift(seq!['\\', c], rest, 0);
    assert(s[0] == '\\');
    assert(s[1] == c);
}

/// The short escapes stand for these characters.
pub proof fn law_short_escapes(rest: Seq<char>)
    ensures
        string_at(seq!['\\', 'n'] + rest, 0) == before('\n', string_at(rest, 0)),
        string_at(seq!['\\', 't'] + rest, 0) == before('\t', string_at(rest, 0)),
        string_at(seq!['\\', 'r'] + rest, 0) == before('\r', string_at(rest, 0)),
        string_at(seq!['\\', 'b'] + rest, 0) == before('\u{8}', string_at(rest, 0)),
        string_at(seq!['\\', 'f'] + rest, 0) == before('\u{c}', string_at(rest, 0)),
{
    lemma_short_escape('n', rest);
    lemma_short_escape('t', rest);
    lemma_short_escape('r', rest);
    lemma_short_escape('b', rest);
    lemma_short_escape('f', rest);
}

proof fn lemma_short_escape(c: char, rest: Seq<char>)
    requires
        c != 'u',
    ensures
        string_at(seq!['\\', c] + rest, 0) == before(unescaped(c), string_at(rest, 0)),
{
    let s = seq!['\\', c] + rest;
    lemma_string_at_shift(seq!['\\', c], rest, 0);
    assert(s[0] == '\\');
    assert(s[1] == c);
}

/// A character that is neither a double quote nor a backslash stands for itself, and
/// a double quote ends the string.
pub proof fn law_plain_characters(c: char, rest: Seq<char>)
    ensures
        c != '"' && c != '\\' ==> string_at(seq![c] + rest, 0) == before(c, string_at(rest, 0)),
        c == '"' ==> string_at(seq![c] + rest, 0) == Some(Seq::<char>::empty()),
        string_at(seq![], 0) is None,
        string_at(seq!['\\'], 0) is None,
{
    let s = seq![c] + rest;
    lemma_string_at_shift(seq![c], rest, 0);
    assert(s[0] == c);
}

/// Whether `c` is a hexadecimal digit, in either case, whose value is `n`.
pub open spec fn writes_digit(c: char, n: int) -> bool {
    ||| 0 <= n < 10 && c as int == 48 + n
    ||| 10 <= n < 16 && c as int == 97 + n - 10
    ||| 10 <= n < 16 && c as int == 65 + n - 10
}

/// Four hexadecimal digits after `\u` write the character with that number, unless
/// it is a surrogate.
pub proof fn law_unicode_digits(
    digits: (char, char, char, char),
    n: (int, int, int, int),
    rest: Seq<char>,
)
    requires
        writes_digit(digits.0, n.0),
        writes_digit(digits.1, n.1),
        writes_digit(digits.2, n.2),
        writes_digit(digits.3, n.3),
        ({
            let u = 4096 * n.0 + 256 * n.1 + 16 * n.2 + n.3;
            u < 0xd800 || 0xdfff < u
        }),
    ensures
        string_at(seq!['\\', 'u', digits.0, digits.1, digits.2, digits.3] + rest, 0) == before(
            (4096 * n.0 + 256 * n.1 + 16 * n.2 + n.3) as char,
            string_at(rest, 0),
        ),
{
    let w = seq!['\\', 'u', digits.0, digits.1, digits.2, digits.3];
    let s = w + rest;
    lemma_string_at_shift(w, rest, 0);
    assert(s[0] == '\\');
    assert(s[1] == 'u');
    assert(s[2] == digits.0);
    assert(s[3] == digits.1);
    assert(s[4] == digits.2);
    assert(s[5] == digits.3);
}

/// After `\u` the backslash is dropped where one of the next four characters is no
/// hexadecimal digit, or the text ends before them.
pub proof fn law_digits_are_needed(s: Seq<char>)
    requires
        s.len() < 4 || exists|k: int|
            {
                let c = #[trigger] s[k];
                &&& 0 <= k < 4
                &&& c < '0' || '9' < c
                &&& c < 'A' || 'F' < c
                &&& c < 'a' || 'f' < c
            },
    ensures
        string_at(seq!['\\', 'u'] + s, 0) == before('u', string_at(s, 0)),
{
    let t = seq!['\\', 'u'] + s;
    lemma_string_at_shift(seq!['\\', 'u'], s, 0);
    lemma_code_unit_shift(seq!['\\', 'u'], s, 0);
    assert(t[0] == '\\');
    assert(t[1] == 'u');
    assert(code_unit(s, 0) is None);
}

/// Half of a surrogate pair alone is no escape either: a first half that no second
/// half follows, and a second half.
pub proof fn law_half_a_pair_is_no_escape(u: int, s: Seq<char>)
    requires
        0xd800 <= u <= 0xdfff,
        u <= 0xdbff ==> !(s.len() >= 2 && s[0] == '\\' && s[1] == 'u' && (code_unit(
            s,
            2,
        ) matches Some(low) && 0xdc00 <= low <= 0xdfff)),
    ensures
        string_at(unit_escaped(u) + s, 0) == before(
            'u',
            string_at(unit_escaped(u).skip(2) + s, 0),
        ),
{
    let w = unit_escaped(u);
    let t = w + s;
    let lead = seq!['\\', 'u'];
    assert(lead + (w.skip(2) + s) =~= t);
    lemma_string_at_shift(lead, w.skip(2) + s, 0);
    assert(t.subrange(0, 6) =~= w);
    lemma_unit_escaped(t, 0, u);
    lemma_code_unit_shift(w, s, 2);
    if t.len() >= 8 {
        assert(t[6] == s[0]);
        assert(t[7] == s[1]);
    }
}

/// An integer is one or more digits, with one minus sign before them or none; each
/// further digit counts ten times what stood before it; and it must be an `i64`.
pub proof fn law_integers(t: Seq<char>, c: char)
    ensures
        integer(t) is Some <==> {
            ||| t.len() > 0 && forall|i: int| 0 <= i < t.len() ==> '0' <= #[trigger] t[i] <= '9'
            ||| t.len() > 1 && t[0] == '-' && forall|i: int|
                1 <= i < t.len() ==> '0' <= #[trigger] t[i] <= '9'
        },
        '0' <= c <= '9' ==> integer(seq![c]) == Some(c as int - 48),
        '0' <= c <= '9' && t.len() > 0 && t[0] != '-' ==> (integer(t) matches Some(n) ==> integer(
            t.push(c),
        ) == Some(10 * n + (c as int - 48))),
        t.len() > 0 && t[0] != '-' ==> (integer(t) matches Some(n) ==> integer(seq!['-'] + t)
            == Some(-n)),
        match integer(t) {
            Some(n) => if -0x8000_0000_0000_0000 <= n <= 0x7fff_ffff_ffff_ffff {
                integer64(t) matches Some(m) && m == n
            } else {
                integer64(t) is None
            },
            None => integer64(t) is None,
        },
{
    if t.len() > 0 && t[0] == '-' {
        let rest = t.skip(1);
        assert(forall|i: int| 0 <= i < rest.len() ==> rest[i] == #[trigger] t[i + 1]);
        if all_digits(rest) {
            assert forall|i: int| 1 <= i < t.len() implies '0' <= #[trigger] t[i] <= '9' by {
                assert(is_digit(rest[i - 1]));
            }
        }
        if t.len() > 1 && forall|i: int| 1 <= i < t.len() ==> '0' <= #[trigger] t[i] <= '9' {
            assert forall|i: int| 0 <= i < rest.len() implies is_digit(#[trigger] rest[i]) by {
                assert('0' <= t[i + 1] <= '9');
            }
        }
        assert(!('0' <= t[0] <= '9'));
    } else if all_digits(t) {
        assert forall|i: int| 0 <= i < t.len() implies '0' <= #[trigger] t[i] <= '9' by {
            assert(is_digit(t[i]));
        }
    }
    if '0' <= c <= '9' {
        let one = seq![c];
        reveal_with_fuel(decimal, 2);
        assert(one.drop_last() =~= seq![]);
        assert(decimal(seq![]) == 0);
        let more = t.push(c);
        assert(more.drop_last() =~= t);
        assert(t.len() > 0 ==> more[0] == t[0]);
    }
    let negative = seq!['-'] + t;
    assert(negative.skip(1) =~= t);
}

/// An integer goes as far as there are digits and minus signs.
pub proof fn law_integer_stretch(json: Seq<char>, key: Seq<char>, v: int, e: int)
    requires
        value_at(json, key) == Some(v),
        v <= e <= json.len(),
        forall|i: int|
            v <= i < e ==> '0' <= #[trigger] json[i] <= '9' || json[i] == '-',
        e < json.len() ==> json[e] != '-' && (json[e] < '0' || json[e] > '9'),
    ensures
        int_value(json, key) == integer64(json.subrange(v, e)),
{
    lemma_value_at(json, key);
    assert forall|j: int| v <= j < e implies is_digit(#[trigger] json[j]) || json[j] == '-' by {
        assert('0' <= json[j] <= '9' || json[j] == '-');
    }
    lemma_number_end(json, v, e);
}

} // verus!
