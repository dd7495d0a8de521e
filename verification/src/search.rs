//! Searching a text for a character or for another text.
//!
//! The spec functions take the position at which to start, or, where they search
//! backwards, the position before which to start.
use vstd::prelude::*;
use crate::text::{chars_of, string_between};

verus! {

/// The first position of `c` in `s` that is at least `i`.
pub open spec fn index_of(s: Seq<char>, c: char, i: int) -> Option<int>
    decreases s.len() - i,
{
    if i >= s.len() {
        None
    } else if s[i] == c {
        Some(i)
    } else {
        index_of(s, c, i + 1)
    }
}

/// The last position of `c` in `s` that is less than `j`.
pub open spec fn last_index_of(s: Seq<char>, c: char, j: int) -> Option<int>
    decreases j,
{
    if j <= 0 {
        None
    } else if s[j - 1] == c {
        Some(j - 1)
    } else {
        last_index_of(s, c, j - 1)
    }
}

/// Whether `p` stands in `s` at position `i`.
pub open spec fn stands_at(s: Seq<char>, p: Seq<char>, i: int) -> bool {
    0 <= i && i + p.len() <= s.len() && s.subrange(i, i + p.len()) == p
}

/// The first position, at least `i`, at which `p` stands in `s`.
pub open spec fn find(s: Seq<char>, p: Seq<char>, i: int) -> Option<int>
    decreases s.len() + 1 - i,
{
    if i + p.len() > s.len() {
        None
    } else if stands_at(s, p, i) {
        Some(i)
    } else {
        find(s, p, i + 1)
    }
}

/// What follows the last `c` in `s`, the whole of `s` where there is none.
pub open spec fn after_last(s: Seq<char>, c: char) -> Seq<char> {
    match last_index_of(s, c, s.len() as int) {
        Some(k) => s.skip(k + 1),
        None => s,
    }
}

/// [`index_of`] finds an occurrence, no earlier one from `i` on, and finds one
/// where there is one.
pub proof fn lemma_index_of(s: Seq<char>, c: char, i: int)
    requires
        0 <= i,
    ensures
        match index_of(s, c, i) {
            Some(k) => {
                &&& i <= k < s.len()
                &&& s[k] == c
                &&& forall|j: int| i <= j < k ==> s[j] != c
            },
            None => forall|j: int| i <= j < s.len() ==> s[j] != c,
        },
    decreases s.len() - i,
{
    if i < s.len() && s[i] != c {
        lemma_index_of(s, c, i + 1);
    }
}

/// [`last_index_of`] finds an occurrence, no later one before `j`, and finds one
/// where there is one.
pub proof fn lemma_last_index_of(s: Seq<char>, c: char, j: int)
    requires
        j <= s.len(),
    ensures
        match last_index_of(s, c, j) {
            Some(k) => {
                &&& 0 <= k < j
                &&& s[k] == c
                &&& forall|i: int| k < i < j ==> s[i] != c
            },
            None => forall|i: int| 0 <= i < j ==> s[i] != c,
        },
    decreases j,
{
    if j > 0 && s[j - 1] != c {
        lemma_last_index_of(s, c, j - 1);
    }
}

/// [`find`] finds an occurrence, no earlier one from `i` on, and finds one where
/// there is one.
pub proof fn lemma_find(s: Seq<char>, p: Seq<char>, i: int)
    requires
        0 <= i,
    ensures
        match find(s, p, i) {
            Some(k) => {
                &&& i <= k
                &&& stands_at(s, p, k)
                &&& forall|j: int| i <= j < k ==> !stands_at(s, p, j)
            },
            None => forall|j: int| i <= j ==> !stands_at(s, p, j),
        },
    decreases s.len() + 1 - i,
{
    if i + p.len() <= s.len() && !stands_at(s, p, i) {
        lemma_find(s, p, i + 1);
    }
}

/// The first position of `c` in `cs` that is at least `from`.
pub fn position_of(cs: &Vec<char>, c: char, from: usize) -> (r: Option<usize>)
    requires
        from <= cs@.len(),
    ensures
        match r {
            Some(k) => index_of(cs@, c, from as int) == Some(k as int) && from <= k < cs.len(),
            None => index_of(cs@, c, from as int) is None,
        },
{
    let mut i: usize = from;
    while i < cs.len()
        invariant
            from <= i <= cs@.len(),
            index_of(cs@, c, from as int) == index_of(cs@, c, i as int),
        decreases cs@.len() - i,
    {
        if cs[i] == c {
            return Some(i);
        }
        i = i + 1;
    }
    None
}

/// The last position of `c` in `cs`.
pub fn last_position_of(cs: &Vec<char>, c: char) -> (r: Option<usize>)
    ensures
        match r {
            Some(k) => last_index_of(cs@, c, cs@.len() as int) == Some(k as int) && k < cs.len(),
            None => last_index_of(cs@, c, cs@.len() as int) is None,
        },
{
    let mut j: usize = cs.len();
    while j > 0
        invariant
            j <= cs@.len(),
            last_index_of(cs@, c, cs@.len() as int) == last_index_of(cs@, c, j as int),
        decreases j,
    {
        if cs[j - 1] == c {
            return Some(j - 1);
        }
        j = j - 1;
    }
    None
}

/// Whether `p` stands in `cs` at position `at`.
pub fn is_at(cs: &Vec<char>, p: &Vec<char>, at: usize) -> (r: bool)
    requires
        at <= cs@.len(),
    ensures
        r == stands_at(cs@, p@, at as int),
{
    if p.len() > cs.len() - at {
        return false;
    }
    let mut k: usize = 0;
    while k < p.len()
        invariant
            at + p@.len() <= cs@.len(),
            cs@.len() == cs.len(),
            k <= p@.len(),
            forall|j: int| 0 <= j < k ==> cs@[at + j] == p@[j],
        decreases p@.len() - k,
    {
        if cs[at + k] != p[k] {
            assert(cs@.subrange(at as int, at + p@.len())[k as int] != p@[k as int]);
            return false;
        }
        k = k + 1;
    }
    assert(cs@.subrange(at as int, at + p@.len()) =~= p@);
    true
}

/// The first position at which `p` stands in `cs`.
pub fn position_of_text(cs: &Vec<char>, p: &Vec<char>) -> (r: Option<usize>)
    ensures
        match r {
            Some(k) => find(cs@, p@, 0) == Some(k as int) && k + p.len() <= cs.len(),
            None => find(cs@, p@, 0) is None,
        },
{
    if p.len() > cs.len() {
        return None;
    }
    let last: usize = cs.len() - p.len();
    let mut i: usize = 0;
    while i < last
        invariant
            last + p@.len() == cs@.len(),
            i <= last,
            find(cs@, p@, 0) == find(cs@, p@, i as int),
        decreases last - i,
    {
        if is_at(cs, p, i) {
            return Some(i);
        }
        i = i + 1;
    }
    proof {
        reveal_with_fuel(find, 2);
    }
    if is_at(cs, p, last) {
        Some(last)
    } else {
        None
    }
}

/// What follows the last `c` in `s`, the whole of `s` where there is none.
pub fn text_after_last(s: &str, c: char) -> (r: String)
    ensures
        r@ == after_last(s@, c),
{
    let cs = chars_of(s);
    match last_position_of(&cs, c) {
        Some(k) => {
            assert(cs@.subrange(k + 1, cs@.len() as int) =~= s@.skip(k + 1));
            string_between(&cs, k + 1, cs.len())
        },
        None => s.to_owned(),
    }
}

/// What follows the last `c` ends the text and holds no `c`, and either a `c` stands
/// just before it or it is the whole text.
pub proof fn law_after_last(s: Seq<char>, c: char)
    ensures
        after_last(s, c).is_suffix_of(s),
        !after_last(s, c).contains(c),
        s.contains(c) ==> after_last(s, c).len() < s.len() && s[s.len() - after_last(s, c).len()
            - 1] == c,
        !s.contains(c) ==> after_last(s, c) == s,
{
    lemma_last_index_of(s, c, s.len() as int);
}

} // verus!
