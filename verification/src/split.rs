//! Trimming a text and splitting it into words, lines and pieces.
use vstd::prelude::*;
use crate::search::{index_of, lemma_index_of, position_of};
use crate::text::{chars_of, is_white, lemma_texts_push, string_between, texts};

verus! {

// ---------------------------------------------------------------------------
// Trimming
// ---------------------------------------------------------------------------

/// The first position, at least `i`, that holds no white space, the length of `s`
/// where there is none.
pub open spec fn skip_white(s: Seq<char>, i: int) -> int
    decreases s.len() - i,
{
    if i >= s.len() || !is_white(s[i]) {
        i
    } else {
        skip_white(s, i + 1)
    }
}

/// The first position, at least `i`, that holds white space, the length of `s`
/// where there is none.
pub open spec fn skip_word(s: Seq<char>, i: int) -> int
    decreases s.len() - i,
{
    if i >= s.len() || is_white(s[i]) {
        i
    } else {
        skip_word(s, i + 1)
    }
}

/// The end of the last character before `j` that is not white space.
pub open spec fn text_end(s: Seq<char>, j: int) -> int
    decreases j,
{
    if j <= 0 || !is_white(s[j - 1]) {
        j
    } else {
        text_end(s, j - 1)
    }
}

/// `s` without the white space at its start.
pub open spec fn trimmed_start(s: Seq<char>) -> Seq<char> {
    s.skip(skip_white(s, 0))
}

/// `s` without the white space at its end.
pub open spec fn trimmed_end(s: Seq<char>) -> Seq<char> {
    s.take(text_end(s, s.len() as int))
}

/// `s` without the white space at its start and at its end.
pub open spec fn trimmed(s: Seq<char>) -> Seq<char> {
    trimmed_end(trimmed_start(s))
}

/// [`skip_white`] passes over white space only, and stops at no white space.
pub proof fn lemma_skip_white(s: Seq<char>, i: int)
    requires
        0 <= i <= s.len(),
    ensures
        i <= skip_white(s, i) <= s.len(),
        forall|j: int| i <= j < skip_white(s, i) ==> is_white(#[trigger] s[j]),
        skip_white(s, i) < s.len() ==> !is_white(s[skip_white(s, i)]),
    decreases s.len() - i,
{
    if i < s.len() && is_white(s[i]) {
        lemma_skip_white(s, i + 1);
    }
}

/// [`skip_word`] passes over no white space, and stops at white space.
pub proof fn lemma_skip_word(s: Seq<char>, i: int)
    requires
        0 <= i <= s.len(),
    ensures
        i <= skip_word(s, i) <= s.len(),
        forall|j: int| i <= j < skip_word(s, i) ==> !is_white(#[trigger] s[j]),
        skip_word(s, i) < s.len() ==> is_white(s[skip_word(s, i)]),
    decreases s.len() - i,
{
    if i < s.len() && !is_white(s[i]) {
        lemma_skip_word(s, i + 1);
    }
}

/// [`text_end`] passes over white space only, and stops after no white space.
pub proof fn lemma_text_end(s: Seq<char>, j: int)
    requires
        0 <= j <= s.len(),
    ensures
        0 <= text_end(s, j) <= j,
        forall|k: int| text_end(s, j) <= k < j ==> is_white(#[trigger] s[k]),
        text_end(s, j) > 0 ==> !is_white(s[text_end(s, j) - 1]),
    decreases j,
{
    if j > 0 && is_white(s[j - 1]) {
        lemma_text_end(s, j - 1);
    }
}

/// The first position of `cs`, at least `from`, that holds no white space.
pub fn past_white(cs: &Vec<char>, from: usize) -> (r: usize)
    requires
        from <= cs@.len(),
    ensures
        r == skip_white(cs@, from as int),
        from <= r <= cs@.len(),
{
    let mut i: usize = from;
    while i < cs.len() && cs[i].is_whitespace()
        invariant
            from <= i <= cs@.len(),
            skip_white(cs@, from as int) == skip_white(cs@, i as int),
        decreases cs@.len() - i,
    {
        i = i + 1;
    }
    i
}

/// The first position of `cs`, at least `from`, that holds white space.
pub fn past_word(cs: &Vec<char>, from: usize) -> (r: usize)
    requires
        from <= cs@.len(),
    ensures
        r == skip_word(cs@, from as int),
        from <= r <= cs@.len(),
{
    let mut i: usize = from;
    while i < cs.len() && !cs[i].is_whitespace()
        invariant
            from <= i <= cs@.len(),
            skip_word(cs@, from as int) == skip_word(cs@, i as int),
        decreases cs@.len() - i,
    {
        i = i + 1;
    }
    i
}

/// `s` without the white space at its start and at its end.
pub fn trim(s: &str) -> (r: String)
    ensures
        r@ == trimmed(s@),
{
    let cs = chars_of(s);
    let from = past_white(&cs, 0);
    let ghost t = trimmed_start(s@);
    let mut to: usize = cs.len();
    while to > from && cs[to - 1].is_whitespace()
        invariant
            cs@ == s@,
            t == cs@.skip(from as int),
            from <= to <= cs@.len(),
            text_end(t, t.len() as int) == text_end(t, to - from),
        decreases to,
    {
        to = to - 1;
    }
    assert(t.take(to - from) =~= cs@.subrange(from as int, to as int));
    string_between(&cs, from, to)
}

// ---------------------------------------------------------------------------
// Words
// ---------------------------------------------------------------------------

/// The words of `s` from position `i` on: the longest stretches without white
/// space.
pub open spec fn words_from(s: Seq<char>, i: int) -> Seq<Seq<char>>
    decreases s.len() - i,
    when 0 <= i <= s.len()
{
    proof {
        lemma_skip_white(s, i);
        lemma_skip_word(s, skip_white(s, i));
    }
    let a = skip_white(s, i);
    let b = skip_word(s, a);
    if a >= s.len() {
        seq![]
    } else {
        seq![s.subrange(a, b)] + words_from(s, b)
    }
}

/// The words of `s`.
pub open spec fn words(s: Seq<char>) -> Seq<Seq<char>> {
    words_from(s, 0)
}

/// The word of `s` with number `n`, counted from zero; empty where `s` has fewer.
pub open spec fn word(s: Seq<char>, n: int) -> Seq<char> {
    if n < words(s).len() {
        words(s)[n]
    } else {
        seq![]
    }
}

/// The words of `s`, in their order.
pub fn split_words(s: &str) -> (r: Vec<String>)
    ensures
        texts(r@) == words(s@),
{
    let cs = chars_of(s);
    let mut out: Vec<String> = Vec::new();
    let mut a: usize = past_white(&cs, 0);
    proof {
        lemma_skip_white(s@, 0);
    }
    assert(texts(out@) + words(s@) =~= words(s@));
    assert(words(s@) == words_from(s@, a as int));
    while a < cs.len()
        invariant
            cs@ == s@,
            a <= cs@.len(),
            skip_white(s@, a as int) == a,
            texts(out@) + words_from(s@, a as int) == words(s@),
        decreases cs@.len() - a,
    {
        proof {
            lemma_skip_word(s@, a as int);
        }
        let b = past_word(&cs, a);
        let w = string_between(&cs, a, b);
        proof {
            lemma_texts_push(out@, w, words_from(s@, b as int));
            lemma_skip_white(s@, b as int);
        }
        out.push(w);
        a = past_white(&cs, b);
        assert(words_from(s@, b as int) == words_from(s@, a as int));
    }
    out
}

// ---------------------------------------------------------------------------
// Lines
// ---------------------------------------------------------------------------

/// A line without the carriage return at its end.
pub open spec fn without_cr(s: Seq<char>) -> Seq<char> {
    if s.len() > 0 && s.last() == '\r' {
        s.drop_last()
    } else {
        s
    }
}

/// The lines of `s` from position `i` on. A line ends at a line feed, which does
/// not belong to it, nor does a carriage return just before that line feed. What
/// follows the last line feed is a line if it is not empty.
pub open spec fn lines_from(s: Seq<char>, i: int) -> Seq<Seq<char>>
    decreases s.len() - i,
    when 0 <= i <= s.len()
{
    proof {
        lemma_index_of(s, '\n', i);
    }
    match index_of(s, '\n', i) {
        Some(k) => seq![without_cr(s.subrange(i, k))] + lines_from(s, k + 1),
        None => if i < s.len() {
            seq![s.skip(i)]
        } else {
            seq![]
        },
    }
}

/// The lines of `s`.
pub open spec fn lines(s: Seq<char>) -> Seq<Seq<char>> {
    lines_from(s, 0)
}

/// The lines of `s`, in their order.
pub fn split_lines(s: &str) -> (r: Vec<String>)
    ensures
        texts(r@) == lines(s@),
{
    let cs = chars_of(s);
    let mut out: Vec<String> = Vec::new();
    let mut i: usize = 0;
    assert(texts(out@) + lines(s@) =~= lines(s@));
    loop
        invariant
            cs@ == s@,
            i <= cs@.len(),
            texts(out@) + lines_from(s@, i as int) == lines(s@),
        decreases cs@.len() - i,
    {
        match position_of(&cs, '\n', i) {
            Some(k) => {
                let end: usize = if k > i && cs[k - 1] == '\r' {
                    k - 1
                } else {
                    k
                };
                let line = string_between(&cs, i, end);
                assert(line@ =~= without_cr(s@.subrange(i as int, k as int)));
                proof {
                    lemma_texts_push(out@, line, lines_from(s@, k + 1));
                }
                out.push(line);
                i = k + 1;
            },
            None => {
                if i < cs.len() {
                    let line = string_between(&cs, i, cs.len());
                    assert(line@ =~= s@.skip(i as int));
                    out.push(line);
                }
                assert(texts(out@) =~= lines(s@));
                return out;
            },
        }
    }
}

// ---------------------------------------------------------------------------
// Pieces
// ---------------------------------------------------------------------------

/// The pieces of `s` from position `i` on: what stands before, between and after
/// the occurrences of `c`.
pub open spec fn pieces_from(s: Seq<char>, c: char, i: int) -> Seq<Seq<char>>
    decreases s.len() - i,
    when 0 <= i <= s.len()
{
    proof {
        lemma_index_of(s, c, i);
    }
    match index_of(s, c, i) {
        Some(k) => seq![s.subrange(i, k)] + pieces_from(s, c, k + 1),
        None => seq![s.skip(i)],
    }
}

/// The pieces of `s` around the occurrences of `c`; there is one at least.
pub open spec fn pieces(s: Seq<char>, c: char) -> Seq<Seq<char>> {
    pieces_from(s, c, 0)
}

/// The pieces of `s` around the occurrences of `c`, in their order.
pub fn split_at_each(s: &str, c: char) -> (r: Vec<String>)
    ensures
        texts(r@) == pieces(s@, c),
{
    let cs = chars_of(s);
    let mut out: Vec<String> = Vec::new();
    let mut i: usize = 0;
    assert(texts(out@) + pieces(s@, c) =~= pieces(s@, c));
    loop
        invariant
            cs@ == s@,
            i <= cs@.len() == cs.len(),
            texts(out@) + pieces_from(s@, c, i as int) == pieces(s@, c),
        decreases cs@.len() - i,
    {
        match position_of(&cs, c, i) {
            Some(k) => {
                let piece = string_between(&cs, i, k);
                proof {
                    lemma_texts_push(out@, piece, pieces_from(s@, c, k + 1));
                }
                out.push(piece);
                i = k + 1;
            },
            None => {
                let piece = string_between(&cs, i, cs.len());
                assert(piece@ =~= s@.skip(i as int));
                out.push(piece);
                assert(texts(out@) =~= pieces(s@, c));
                return out;
            },
        }
    }
}

// ---------------------------------------------------------------------------
// Laws
// ---------------------------------------------------------------------------

/// A trimmed text is a stretch of the text with nothing but white space around it,
/// and neither begins nor ends with white space.
pub proof fn law_trimmed(s: Seq<char>)
    ensures
        exists|a: int, b: int|
            #![trigger s.subrange(a, b)]
            {
                &&& 0 <= a <= b <= s.len()
                &&& trimmed(s) == s.subrange(a, b)
                &&& forall|i: int| 0 <= i < a || b <= i < s.len() ==> is_white(#[trigger] s[i])
            },
        trimmed(s).len() > 0 ==> !is_white(trimmed(s).first()) && !is_white(trimmed(s).last()),
{
    let a = skip_white(s, 0);
    let t = trimmed_start(s);
    let e = text_end(t, t.len() as int);
    lemma_skip_white(s, 0);
    lemma_text_end(t, t.len() as int);
    assert(trimmed(s) =~= s.subrange(a, a + e));
    assert forall|i: int| 0 <= i < a || a + e <= i < s.len() implies is_white(
        #[trigger] s[i],
    ) by {
        if i >= a + e {
            assert(t[i - a] == s[i]);
        }
    }
    if e > 0 {
        assert(t[0] == s[a]);
    }
}

/// White space around a text changes nothing in the trimmed text.
pub proof fn law_white_space_around_is_trimmed(
    before: Seq<char>,
    s: Seq<char>,
    after: Seq<char>,
)
    requires
        forall|i: int| 0 <= i < before.len() ==> is_white(#[trigger] before[i]),
        forall|i: int| 0 <= i < after.len() ==> is_white(#[trigger] after[i]),
    ensures
        trimmed(before + s + after) == trimmed(s),
{
    let t = before + s + after;
    let n = before.len();
    law_trimmed(s);
    let (a, b) = choose|a: int, b: int|
        #![trigger s.subrange(a, b)]
        {
            &&& 0 <= a <= b <= s.len()
            &&& trimmed(s) == s.subrange(a, b)
            &&& forall|i: int| 0 <= i < a || b <= i < s.len() ==> is_white(#[trigger] s[i])
        };
    assert forall|i: int| 0 <= i < n + a || n + b <= i < t.len() implies is_white(
        #[trigger] t[i],
    ) by {
        if i < n {
            assert(t[i] == before[i]);
        } else if i < n + s.len() {
            assert(t[i] == s[i - n]);
        } else {
            assert(t[i] == after[i - n - s.len()]);
        }
    }
    if a < b {
        assert(trimmed(s).first() == s[a]);
        assert(trimmed(s).last() == s[b - 1]);
        assert(t[n + a] == s[a]);
        assert(t[n + b - 1] == s[b - 1]);
    }
    lemma_trimmed_is(t, n + a, n + b);
    assert(t.subrange(n + a, n + b) =~= s.subrange(a, b));
}

/// The trimmed text is the stretch with nothing but white space around it that
/// neither begins nor ends with white space.
pub proof fn lemma_trimmed_is(s: Seq<char>, a: int, b: int)
    requires
        0 <= a <= b <= s.len(),
        forall|i: int| 0 <= i < a || b <= i < s.len() ==> is_white(#[trigger] s[i]),
        a < b ==> !is_white(s[a]) && !is_white(s[b - 1]),
    ensures
        trimmed(s) == s.subrange(a, b),
{
    let from = skip_white(s, 0);
    let t = trimmed_start(s);
    let e = text_end(t, t.len() as int);
    lemma_skip_white(s, 0);
    lemma_text_end(t, t.len() as int);
    if a < b {
        assert(from == a);
        assert(t[b - a - 1] == s[b - 1]);
        if e > b - a {
            assert(t[e - 1] == s[from + e - 1]);
        }
        assert(e == b - a);
    } else {
        assert(from == s.len());
    }
    assert(trimmed(s) =~= s.subrange(a, b));
}

/// Trimming a trimmed text changes nothing.
pub proof fn law_trimmed_twice(s: Seq<char>)
    ensures
        trimmed(trimmed(s)) == trimmed(s),
{
    law_trimmed(s);
    let t = trimmed(s);
    assert(t.skip(0) =~= t);
    assert(t.take(t.len() as int) =~= t);
}

/// A word is not empty and holds no white space.
pub proof fn law_words(s: Seq<char>, n: int)
    requires
        0 <= n < words(s).len(),
    ensures
        words(s)[n].len() > 0,
        forall|i: int| 0 <= i < words(s)[n].len() ==> !is_white(#[trigger] words(s)[n][i]),
{
    lemma_words_from(s, 0, n);
}

proof fn lemma_words_from(s: Seq<char>, i: int, n: int)
    requires
        0 <= i <= s.len(),
        0 <= n < words_from(s, i).len(),
    ensures
        words_from(s, i)[n].len() > 0,
        forall|j: int|
            0 <= j < words_from(s, i)[n].len() ==> !is_white(#[trigger] words_from(s, i)[n][j]),
    decreases s.len() - i,
{
    let a = skip_white(s, i);
    let b = skip_word(s, a);
    lemma_skip_white(s, i);
    lemma_skip_word(s, a);
    if n > 0 {
        lemma_words_from(s, b, n - 1);
        assert(words_from(s, i)[n] == words_from(s, b)[n - 1]);
    } else {
        assert(words_from(s, i)[0] =~= s.subrange(a, b));
    }
}

/// The word with a number is that of the words, or empty where there are too few.
pub proof fn law_word(s: Seq<char>, n: int)
    requires
        0 <= n,
    ensures
        n < words(s).len() ==> word(s, n) == words(s)[n],
        n >= words(s).len() ==> word(s, n) == Seq::<char>::empty(),
{
}

/// The words of a text are its first stretch without white space and the words of
/// what follows that; white space alone has none.
pub proof fn law_words_one_by_one(white: Seq<char>, w: Seq<char>, c: char, rest: Seq<char>)
    requires
        forall|i: int| 0 <= i < white.len() ==> is_white(#[trigger] white[i]),
        forall|i: int| 0 <= i < w.len() ==> !is_white(#[trigger] w[i]),
        w.len() > 0,
        is_white(c),
    ensures
        words(white) == Seq::<Seq<char>>::empty(),
        words(white + w) == seq![w],
        words(white + w + seq![c] + rest) == seq![w] + words(rest),
{
    let n = white.len() as int;
    let b = n + w.len();
    lemma_skip_white(white, 0);
    assert(words(white) =~= seq![]);
    let s = white + w;
    assert(forall|i: int| 0 <= i < n ==> s[i] == white[i]);
    assert(forall|i: int| n <= i < b ==> s[i] == w[i - n]);
    lemma_first_word(s, n, b);
    assert(s.subrange(n, b) =~= w);
    lemma_skip_white(s, b);
    assert(words_from(s, b) =~= seq![]);
    assert(words(s) =~= seq![w]);
    let t = white + w + seq![c] + rest;
    assert(forall|i: int| 0 <= i < n ==> t[i] == white[i]);
    assert(forall|i: int| n <= i < b ==> t[i] == w[i - n]);
    assert(t[b] == c);
    lemma_first_word(t, n, b);
    assert(t.subrange(n, b) =~= w);
    lemma_skip_white(t, b);
    lemma_skip_white(t, b + 1);
    assert(skip_white(t, b) == skip_white(t, b + 1));
    assert(words_from(t, b) == words_from(t, b + 1));
    lemma_words_shift(white + w + seq![c], rest, 0);
    assert((white + w + seq![c]) + rest =~= t);
}

proof fn lemma_first_word(s: Seq<char>, a: int, b: int)
    requires
        0 <= a < b <= s.len(),
        forall|i: int| 0 <= i < a ==> is_white(#[trigger] s[i]),
        forall|i: int| a <= i < b ==> !is_white(#[trigger] s[i]),
        b < s.len() ==> is_white(s[b]),
    ensures
        words(s) == seq![s.subrange(a, b)] + words_from(s, b),
{
    lemma_skip_white(s, 0);
    lemma_skip_word(s, a);
    assert(skip_white(s, 0) == a) by {
        if skip_white(s, 0) < a {
            assert(is_white(s[skip_white(s, 0)]));
        }
        assert(!is_white(s[a]));
    }
    assert(skip_word(s, a) == b) by {
        if skip_word(s, a) < b {
            assert(!is_white(s[skip_word(s, a)]));
        }
    }
}

proof fn lemma_words_shift(lead: Seq<char>, s: Seq<char>, i: int)
    requires
        0 <= i <= s.len(),
    ensures
        words_from(lead + s, lead.len() + i) == words_from(s, i),
    decreases s.len() - i,
{
    let t = lead + s;
    let n = lead.len() as int;
    let a = skip_white(s, i);
    let b = skip_word(s, a);
    lemma_skip_white(s, i);
    lemma_skip_word(s, a);
    lemma_skip_shift(lead, s, i);
    lemma_skip_shift(lead, s, a);
    if a < s.len() {
        lemma_words_shift(lead, s, b);
        assert(t.subrange(n + a, n + b) =~= s.subrange(a, b));
    }
}

proof fn lemma_skip_shift(lead: Seq<char>, s: Seq<char>, i: int)
    requires
        0 <= i <= s.len(),
    ensures
        skip_white(lead + s, lead.len() + i) == lead.len() + skip_white(s, i),
        skip_word(lead + s, lead.len() + i) == lead.len() + skip_word(s, i),
    decreases s.len() - i,
{
    if i < s.len() {
        assert((lead + s)[lead.len() + i] == s[i]);
        lemma_skip_shift(lead, s, i + 1);
    }
}

/// The characters of `s` from position `i` on that are not white space, in their
/// order.
pub open spec fn inked(s: Seq<char>, i: int) -> Seq<char>
    decreases s.len() - i,
{
    if i >= s.len() {
        seq![]
    } else if is_white(s[i]) {
        inked(s, i + 1)
    } else {
        seq![s[i]] + inked(s, i + 1)
    }
}

/// The texts of `ws` from position `i` on, one after the other.
pub open spec fn run_together(ws: Seq<Seq<char>>, i: int) -> Seq<char>
    decreases ws.len() - i,
{
    if i >= ws.len() {
        seq![]
    } else {
        ws[i] + run_together(ws, i + 1)
    }
}

/// The words of a text, one after the other, are the text without its white space:
/// no character is lost, added or moved.
pub proof fn law_words_keep_every_character(s: Seq<char>)
    ensures
        run_together(words(s), 0) == inked(s, 0),
{
    lemma_run_words(s, 0);
}

proof fn lemma_run_words(s: Seq<char>, i: int)
    requires
        0 <= i <= s.len(),
    ensures
        run_together(words_from(s, i), 0) == inked(s, i),
    decreases s.len() - i,
{
    let a = skip_white(s, i);
    let b = skip_word(s, a);
    lemma_skip_white(s, i);
    lemma_skip_word(s, a);
    lemma_inked_white(s, i, a);
    if a < s.len() {
        lemma_run_words(s, b);
        lemma_inked_word(s, a, b);
        let rest = words_from(s, b);
        let ws = seq![s.subrange(a, b)] + rest;
        assert(ws =~= words_from(s, i));
        lemma_run_shift(s.subrange(a, b), rest, 0);
    }
}

proof fn lemma_inked_white(s: Seq<char>, i: int, a: int)
    requires
        0 <= i <= a <= s.len(),
        forall|j: int| i <= j < a ==> is_white(#[trigger] s[j]),
    ensures
        inked(s, i) == inked(s, a),
    decreases a - i,
{
    if i < a {
        assert(is_white(s[i]));
        lemma_inked_white(s, i + 1, a);
    }
}

proof fn lemma_inked_word(s: Seq<char>, a: int, b: int)
    requires
        0 <= a <= b <= s.len(),
        forall|j: int| a <= j < b ==> !is_white(#[trigger] s[j]),
    ensures
        inked(s, a) == s.subrange(a, b) + inked(s, b),
    decreases b - a,
{
    if a < b {
        assert(!is_white(s[a]));
        lemma_inked_word(s, a + 1, b);
        assert(seq![s[a]] + (s.subrange(a + 1, b) + inked(s, b)) =~= s.subrange(a, b) + inked(s, b));
    } else {
        assert(s.subrange(a, b) + inked(s, b) =~= inked(s, b));
    }
}

proof fn lemma_run_shift(w: Seq<char>, ws: Seq<Seq<char>>, i: int)
    requires
        0 <= i <= ws.len(),
    ensures
        run_together(seq![w] + ws, i + 1) == run_together(ws, i),
    decreases ws.len() - i,
{
    if i < ws.len() {
        lemma_run_shift(w, ws, i + 1);
        assert((seq![w] + ws)[i + 1] == ws[i]);
    }
}

/// A line holds no line feed.
pub proof fn law_lines(s: Seq<char>, n: int)
    requires
        0 <= n < lines(s).len(),
    ensures
        !lines(s)[n].contains('\n'),
{
    lemma_lines_from(s, 0, n);
}

proof fn lemma_lines_from(s: Seq<char>, i: int, n: int)
    requires
        0 <= i <= s.len(),
        0 <= n < lines_from(s, i).len(),
    ensures
        !lines_from(s, i)[n].contains('\n'),
    decreases s.len() - i,
{
    lemma_index_of(s, '\n', i);
    match index_of(s, '\n', i) {
        Some(k) => {
            if n > 0 {
                lemma_lines_from(s, k + 1, n - 1);
                assert(lines_from(s, i)[n] == lines_from(s, k + 1)[n - 1]);
            } else {
                assert(lines_from(s, i)[0] =~= without_cr(s.subrange(i, k)));
            }
        },
        None => {
            assert(lines_from(s, i)[n] =~= s.skip(i));
        },
    }
}

/// The lines of a text are what stands before its first line feed and the lines of
/// what follows that. A carriage return just before the line feed does not belong to
/// the line. A text without a line feed is one line, or none where it is empty.
pub proof fn law_lines_one_by_one(line: Seq<char>, rest: Seq<char>)
    requires
        !line.contains('\n'),
    ensures
        line.len() == 0 || line.last() != '\r' ==> lines(line + seq!['\n'] + rest) == seq![line]
            + lines(rest),
        lines(line + seq!['\r', '\n'] + rest) == seq![line] + lines(rest),
        line.len() > 0 ==> lines(line) == seq![line],
        line.len() == 0 ==> lines(line) == Seq::<Seq<char>>::empty(),
{
    lemma_index_of(line, '\n', 0);
    assert(line.skip(0) =~= line);
    assert(line.len() == 0 ==> lines(line) =~= seq![]);
    let first = line + seq!['\n'];
    assert(first + rest =~= line + seq!['\n'] + rest);
    assert(first.drop_last() =~= line);
    let second = line + seq!['\r', '\n'];
    assert forall|i: int| 0 <= i < second.len() - 1 implies second[i] != '\n' by {
        if i < line.len() {
            assert(line.contains(line[i]));
        }
    }
    assert forall|i: int| 0 <= i < first.len() - 1 implies first[i] != '\n' by {
        assert(line.contains(line[i]));
    }
    lemma_first_line(first, rest);
    lemma_first_line(second, rest);
    assert(second + rest =~= line + seq!['\r', '\n'] + rest);
    assert(second.drop_last().drop_last() =~= line);
    assert(second.drop_last().last() == '\r');
}

proof fn lemma_first_line(first: Seq<char>, rest: Seq<char>)
    requires
        first.len() > 0,
        first.last() == '\n',
    ensures
        (forall|i: int| 0 <= i < first.len() - 1 ==> first[i] != '\n') ==> lines(first + rest)
            == seq![without_cr(first.drop_last())] + lines(rest),
{
    if forall|i: int| 0 <= i < first.len() - 1 ==> first[i] != '\n' {
        let s = first + rest;
        let k = first.len() - 1;
        lemma_index_of(s, '\n', 0);
        assert(s[k] == '\n');
        assert(forall|i: int| 0 <= i < k ==> s[i] == first[i]);
        assert(index_of(s, '\n', 0) == Some(k as int));
        assert(s.subrange(0, k as int) =~= first.drop_last());
        lemma_lines_shift(first, rest, 0);
    }
}

proof fn lemma_lines_shift(lead: Seq<char>, s: Seq<char>, i: int)
    requires
        0 <= i <= s.len(),
    ensures
        lines_from(lead + s, lead.len() + i) == lines_from(s, i),
    decreases s.len() - i,
{
    let t = lead + s;
    let n = lead.len() as int;
    lemma_index_of(s, '\n', i);
    lemma_index_shift(lead, s, '\n', i);
    match index_of(s, '\n', i) {
        Some(k) => {
            lemma_lines_shift(lead, s, k + 1);
            assert(t.subrange(n + i, n + k) =~= s.subrange(i, k));
        },
        None => {
            assert(t.skip(n + i) =~= s.skip(i));
        },
    }
}

proof fn lemma_index_shift(lead: Seq<char>, s: Seq<char>, c: char, i: int)
    requires
        0 <= i,
    ensures
        index_of(lead + s, c, lead.len() + i) == match index_of(s, c, i) {
            Some(k) => Some(lead.len() + k),
            None => None::<int>,
        },
    decreases s.len() - i,
{
    if i < s.len() {
        assert((lead + s)[lead.len() + i] == s[i]);
        lemma_index_shift(lead, s, c, i + 1);
    }
}

/// The pieces of a text are what stands before its first separator and the pieces
/// of what follows that. A text without a separator is one piece.
pub proof fn law_pieces_one_by_one(piece: Seq<char>, c: char, rest: Seq<char>)
    requires
        !piece.contains(c),
    ensures
        pieces(piece, c) == seq![piece],
        pieces(piece + seq![c] + rest, c) == seq![piece] + pieces(rest, c),
{
    let n = piece.len() as int;
    let s = piece + seq![c] + rest;
    lemma_index_of(piece, c, 0);
    assert(piece.skip(0) =~= piece);
    lemma_index_of(s, c, 0);
    assert(s[n] == c);
    assert forall|i: int| 0 <= i < n implies s[i] != c by {
        assert(piece.contains(piece[i]));
        assert(s[i] == piece[i]);
    }
    assert(index_of(s, c, 0) == Some(n));
    assert(s.subrange(0, n) =~= piece);
    lemma_pieces_shift(piece + seq![c], rest, c, 0);
}

proof fn lemma_pieces_shift(lead: Seq<char>, s: Seq<char>, c: char, i: int)
    requires
        0 <= i <= s.len(),
    ensures
        pieces_from(lead + s, c, lead.len() + i) == pieces_from(s, c, i),
    decreases s.len() - i,
{
    let t = lead + s;
    let n = lead.len() as int;
    lemma_index_of(s, c, i);
    lemma_index_shift(lead, s, c, i);
    match index_of(s, c, i) {
        Some(k) => {
            lemma_pieces_shift(lead, s, c, k + 1);
            assert(t.subrange(n + i, n + k) =~= s.subrange(i, k));
        },
        None => {
            assert(t.skip(n + i) =~= s.skip(i));
        },
    }
}

/// The pieces of a text hold no separator.
pub proof fn law_pieces(s: Seq<char>, c: char, n: int)
    requires
        0 <= n < pieces(s, c).len(),
    ensures
        !pieces(s, c)[n].contains(c),
{
    lemma_pieces_from(s, c, 0, n);
}

proof fn lemma_pieces_from(s: Seq<char>, c: char, i: int, n: int)
    requires
        0 <= i <= s.len(),
        0 <= n < pieces_from(s, c, i).len(),
    ensures
        !pieces_from(s, c, i)[n].contains(c),
    decreases s.len() - i,
{
    lemma_index_of(s, c, i);
    match index_of(s, c, i) {
        Some(k) => {
            if n > 0 {
                lemma_pieces_from(s, c, k + 1, n - 1);
                assert(pieces_from(s, c, i)[n] == pieces_from(s, c, k + 1)[n - 1]);
            } else {
                assert(pieces_from(s, c, i)[0] =~= s.subrange(i, k));
            }
        },
        None => {
            assert(pieces_from(s, c, i)[n] =~= s.skip(i));
        },
    }
}

} // verus!
