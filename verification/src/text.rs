//! Text as sequences of characters: what is taken from std, letter case, and the
//! way between strings and characters.
//!
//! A `str` or `String` is modelled by the sequence of its characters, so a
//! position in a text counts characters.
use vstd::prelude::*;
use vstd::slice::slice_subrange;
use vstd::string::*;
use vstd::utf8::*;

verus! {

// ---------------------------------------------------------------------------
// What is taken from std
// ---------------------------------------------------------------------------

/// The characters with the Unicode property White_Space.
pub open spec fn is_white(c: char) -> bool {
    ||| '\u{9}' <= c <= '\u{d}'
    ||| c == '\u{20}'
    ||| c == '\u{85}'
    ||| c == '\u{a0}'
    ||| c == '\u{1680}'
    ||| '\u{2000}' <= c <= '\u{200a}'
    ||| c == '\u{2028}'
    ||| c == '\u{2029}'
    ||| c == '\u{202f}'
    ||| c == '\u{205f}'
    ||| c == '\u{3000}'
}

/// `char::is_whitespace` tells whether a character has the property White_Space,
/// whose members [`is_white`] lists.
pub assume_specification[ char::is_whitespace ](c: char) -> (r: bool)
    ensures
        r == is_white(c),
;

/// `char::from_u32` gives the character whose number is `n`, on exactly the numbers
/// up to 10FFFF that are no surrogates.
pub assume_specification[ char::from_u32 ](n: u32) -> (r: Option<char>)
    ensures
        match r {
            Some(c) => c as int == n,
            None => n > 0x10ffff || (0xd800 <= n && n <= 0xdfff),
        },
;

/// `String::push` appends one character.
pub assume_specification[ String::push ](s: &mut String, c: char)
    ensures
        final(s)@ == old(s)@.push(c),
;

/// The error of `std::str::from_utf8`, of which nothing is read.
#[verifier::external_type_specification]
#[verifier::external_body]
pub struct ExUtf8Error(std::str::Utf8Error);

/// `std::str::from_utf8` succeeds on exactly the byte sequences that are valid
/// UTF-8, and gives the characters that they encode.
pub assume_specification[ std::str::from_utf8 ](v: &[u8]) -> (r: Result<&str, std::str::Utf8Error>)
    ensures
        r is Ok <==> valid_utf8(v@),
        r is Ok ==> r->Ok_0@ == decode_utf8(v@),
;

/// What `str::to_lowercase` gives for a text that is not all ASCII.
pub uninterp spec fn unicode_lowercase(s: Seq<char>) -> Seq<char>;

/// `str::to_lowercase` maps the letters `A` to `Z` of an ASCII text to `a` to `z`
/// and keeps its other characters. On other texts its result is named.
pub assume_specification[ str::to_lowercase ](s: &str) -> (r: String)
    ensures
        is_ascii_chars(s@) ==> r@ == ascii_lowered(s@),
        !is_ascii_chars(s@) ==> r@ == unicode_lowercase(s@),
;

/// What `char::to_uppercase` yields for a character outside ASCII.
pub uninterp spec fn unicode_uppercase(c: char) -> Seq<char>;

/// `char::to_uppercase`, with the characters that it yields put into a `String`.
/// It maps `a` to `z` to `A` to `Z` and yields any other ASCII character itself.
/// Outside ASCII its result is named.
#[verifier::external_body]
fn char_to_uppercase(c: char) -> (r: String)
    ensures
        c <= '\u{7f}' ==> r@ == seq![ascii_upper(c)],
        c > '\u{7f}' ==> r@ == unicode_uppercase(c),
{
    c.to_uppercase().to_string()
}

// ---------------------------------------------------------------------------
// Letter case
// ---------------------------------------------------------------------------

/// The lower-case letter of an ASCII capital, any other character itself.
pub open spec fn ascii_lower(c: char) -> char {
    if 'A' <= c <= 'Z' {
        (c as u32 + 32) as char
    } else {
        c
    }
}

/// The capital of a lower-case ASCII letter, any other character itself.
pub open spec fn ascii_upper(c: char) -> char {
    if 'a' <= c <= 'z' {
        (c as u32 - 32) as char
    } else {
        c
    }
}

/// A text with its ASCII letters in lower case.
pub open spec fn ascii_lowered(s: Seq<char>) -> Seq<char> {
    s.map_values(|c: char| ascii_lower(c))
}

/// A text in lower case.
pub open spec fn lowercase(s: Seq<char>) -> Seq<char> {
    if is_ascii_chars(s) {
        ascii_lowered(s)
    } else {
        unicode_lowercase(s)
    }
}

/// A character in upper case, which can be several characters.
pub open spec fn uppercase(c: char) -> Seq<char> {
    if c <= '\u{7f}' {
        seq![ascii_upper(c)]
    } else {
        unicode_uppercase(c)
    }
}

/// A word with its first character in upper case.
pub open spec fn capitalized(w: Seq<char>) -> Seq<char> {
    if w.len() == 0 {
        w
    } else {
        uppercase(w[0]) + w.skip(1)
    }
}

// ---------------------------------------------------------------------------
// Between strings and characters
// ---------------------------------------------------------------------------

/// The texts of a sequence of strings.
pub open spec fn texts(v: Seq<String>) -> Seq<Seq<char>> {
    v.map_values(|s: String| s@)
}

/// The text of an optional string.
pub open spec fn opt_text(o: Option<String>) -> Option<Seq<char>> {
    match o {
        Some(s) => Some(s@),
        None => None,
    }
}

/// The text of an optional text, empty where there is none.
pub open spec fn or_empty(o: Option<Seq<char>>) -> Seq<char> {
    match o {
        Some(t) => t,
        None => seq![],
    }
}

/// Moving the first text of what is left to the end of what has been gathered
/// keeps the two together.
pub proof fn lemma_texts_push(v: Seq<String>, x: String, rest: Seq<Seq<char>>)
    ensures
        texts(v.push(x)) + rest == texts(v) + (seq![x@] + rest),
{
    assert(texts(v.push(x)) =~= texts(v).push(x@));
    assert(texts(v).push(x@) + rest =~= texts(v) + (seq![x@] + rest));
}

/// The bytes of two texts, one after the other, are the bytes of both.
pub proof fn lemma_encode_concat(a: Seq<char>, b: Seq<char>)
    ensures
        encode_utf8(a + b) == encode_utf8(a) + encode_utf8(b),
    decreases a.len(),
{
    if a.len() == 0 {
        assert(a + b =~= b);
        assert(encode_utf8(a) + encode_utf8(b) =~= encode_utf8(b));
    } else {
        lemma_encode_concat(a.drop_first(), b);
        assert((a + b).drop_first() =~= a.drop_first() + b);
        assert(encode_utf8(a + b) =~= encode_utf8(a) + encode_utf8(b));
    }
}

/// Bytes between two texts are UTF-8 as a whole where they are UTF-8 themselves.
pub proof fn lemma_valid_between(before: Seq<char>, bytes: Seq<u8>, after: Seq<char>)
    ensures
        valid_utf8(encode_utf8(before) + bytes + encode_utf8(after)) <==> valid_utf8(bytes),
{
    let end = encode_utf8(after);
    encode_utf8_valid_utf8(after);
    lemma_valid_after(before, bytes + end);
    assert(encode_utf8(before) + bytes + end =~= encode_utf8(before) + (bytes + end));
    if valid_utf8(bytes) {
        valid_utf8_concat(bytes, end);
    }
    if valid_utf8(bytes + end) {
        let n = bytes.len() as int;
        if end.len() > 0 {
            is_char_boundary_iff_not_is_continuation_byte(end, 0);
            assert((bytes + end)[n] == end[0]);
            is_char_boundary_iff_not_is_continuation_byte(bytes + end, n);
            valid_utf8_split(bytes + end, n);
            assert((bytes + end).subrange(0, n) =~= bytes);
        } else {
            assert(bytes + end =~= bytes);
        }
    }
}

proof fn lemma_valid_after(before: Seq<char>, bytes: Seq<u8>)
    ensures
        valid_utf8(encode_utf8(before) + bytes) <==> valid_utf8(bytes),
    decreases before.len(),
{
    let start = encode_utf8(before);
    if before.len() == 0 {
        assert(start + bytes =~= bytes);
    } else {
        let whole = start + bytes;
        let rest = before.drop_first();
        lemma_valid_after(rest, bytes);
        encode_utf8_first_scalar(before);
        encode_utf8_valid_utf8(before);
        let n = length_of_first_scalar(start);
        assert(whole[0] == start[0]);
        assert(length_of_first_scalar(whole) == n);
        assert(pop_first_scalar(whole) =~= encode_utf8(rest) + bytes);
        if valid_utf8(bytes) {
            valid_utf8_concat(start, bytes);
        }
    }
}

/// A character takes one to four bytes, one where it is ASCII.
pub proof fn lemma_encode_one(c: char)
    ensures
        1 <= encode_utf8(seq![c]).len() <= 4,
        c <= '\u{7f}' ==> encode_utf8(seq![c]).len() == 1,
{
    reveal_with_fuel(encode_utf8, 2);
    assert(seq![c].drop_first() =~= seq![]);
}

/// A text takes at least one byte for each of its characters.
pub proof fn lemma_encode_len(s: Seq<char>)
    ensures
        encode_utf8(s).len() >= s.len(),
    decreases s.len(),
{
    if s.len() > 0 {
        lemma_encode_len(s.drop_first());
    }
}

/// A stretch of a text takes no more bytes than the text.
pub proof fn lemma_encode_subrange(s: Seq<char>, from: int, to: int)
    requires
        0 <= from <= to <= s.len(),
    ensures
        encode_utf8(s.subrange(from, to)).len() <= encode_utf8(s).len(),
{
    let m = s.subrange(from, to);
    assert(s =~= s.take(from) + (m + s.skip(to)));
    lemma_encode_concat(s.take(from), m + s.skip(to));
    lemma_encode_concat(m, s.skip(to));
}

/// The characters of `s`.
pub fn chars_of(s: &str) -> (r: Vec<char>)
    ensures
        r@ == s@,
{
    let mut out: Vec<char> = Vec::new();
    for c in it: s.chars()
        invariant
            out@ == it.seq().take(it.index() as int),
            it.seq() == s@,
    {
        out.push(c);
    }
    out
}

/// The string of the characters `cs`.
pub fn string_of(cs: &[char]) -> (r: String)
    ensures
        r@ == cs@,
{
    let mut out = String::new();
    let mut i: usize = 0;
    while i < cs.len()
        invariant
            i <= cs@.len(),
            out@ == cs@.take(i as int),
        decreases cs@.len() - i,
    {
        out.push(cs[i]);
        i = i + 1;
    }
    assert(cs@.take(cs@.len() as int) == cs@);
    out
}

/// The string of the characters of `cs` from `from` up to `to`.
pub fn string_between(cs: &Vec<char>, from: usize, to: usize) -> (r: String)
    requires
        from <= to <= cs@.len(),
    ensures
        r@ == cs@.subrange(from as int, to as int),
{
    string_of(slice_subrange(cs.as_slice(), from, to))
}

/// Whether two strings hold the same characters.
pub fn same(a: &str, b: &str) -> (r: bool)
    ensures
        r == (a@ == b@),
{
    proof {
        encode_utf8_decode_utf8(a@);
        encode_utf8_decode_utf8(b@);
    }
    let x = a.as_bytes();
    let y = b.as_bytes();
    if x.len() != y.len() {
        return false;
    }
    let mut i: usize = 0;
    while i < x.len()
        invariant
            x@ == encode_utf8(a@),
            y@ == encode_utf8(b@),
            x@.len() == y@.len(),
            i <= x@.len(),
            x@.take(i as int) == y@.take(i as int),
        decreases x@.len() - i,
    {
        if x[i] != y[i] {
            return false;
        }
        assert(x@.take(i + 1) =~= x@.take(i as int).push(x@[i as int]));
        assert(y@.take(i + 1) =~= y@.take(i as int).push(y@[i as int]));
        i = i + 1;
    }
    assert(x@.take(x@.len() as int) == x@);
    assert(y@.take(y@.len() as int) == y@);
    true
}

/// `a` followed by `b`.
pub fn joined(a: &str, b: &str) -> (r: String)
    ensures
        r@ == a@ + b@,
{
    let mut out = a.to_owned();
    out.append(b);
    out
}

/// `w` with its first character in upper case.
pub fn capitalize(w: &str) -> (r: String)
    ensures
        r@ == capitalized(w@),
{
    let cs = chars_of(w);
    if cs.len() == 0 {
        assert(w@ =~= seq![]);
        return String::new();
    }
    let first = char_to_uppercase(cs[0]);
    let rest = string_between(&cs, 1, cs.len());
    assert(rest@ =~= w@.skip(1));
    joined(first.as_str(), rest.as_str())
}

// ---------------------------------------------------------------------------
// Laws
// ---------------------------------------------------------------------------

/// In lower case each capital of an ASCII text is the letter 32 places after it,
/// and every other character stays.
pub proof fn law_lower_case(s: Seq<char>, i: int)
    requires
        is_ascii_chars(s),
        0 <= i < s.len(),
    ensures
        lowercase(s).len() == s.len(),
        'A' <= s[i] <= 'Z' ==> lowercase(s)[i] as int == s[i] as int + 32,
        s[i] < 'A' || s[i] > 'Z' ==> lowercase(s)[i] == s[i],
{
}

/// A word is capitalized by its first character alone: a lower-case ASCII letter is
/// replaced by the one 32 places before it, any other ASCII character stays, and so
/// does all that follows.
pub proof fn law_capitalized(c: char, rest: Seq<char>)
    ensures
        capitalized(seq![]) == Seq::<char>::empty(),
        'a' <= c <= 'z' ==> capitalized(seq![c] + rest) == seq![(c as int - 32) as char] + rest,
        c <= '\u{7f}' && (c < 'a' || c > 'z') ==> capitalized(seq![c] + rest) == seq![c] + rest,
        c > '\u{7f}' ==> capitalized(seq![c] + rest) == unicode_uppercase(c) + rest,
{
    assert((seq![c] + rest).skip(1) =~= rest);
    assert(capitalized(seq![]) =~= seq![]);
}

/// Two tests that agree on every element keep the same elements.
pub proof fn lemma_same_filter(
    s: Seq<Seq<char>>,
    p: spec_fn(Seq<char>) -> bool,
    q: spec_fn(Seq<char>) -> bool,
)
    requires
        forall|i: int| 0 <= i < s.len() ==> p(#[trigger] s[i]) == q(s[i]),
    ensures
        s.filter(p) == s.filter(q),
    decreases s.len(),
{
    reveal(Seq::filter);
    if s.len() > 0 {
        let front = s.drop_last();
        assert forall|i: int| 0 <= i < front.len() implies p(#[trigger] front[i]) == q(
            front[i],
        ) by {
            assert(front[i] == s[i]);
        }
        lemma_same_filter(front, p, q);
        assert(s.last() == s[s.len() - 1]);
    }
}

} // verus!
