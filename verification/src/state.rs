//! The parser's state between two lines: the tool calls that are open, and whether
//! an assistant message is.
//!
//! As bytes the state is the number of open calls as a little-endian `u16`; for
//! each of them the length of its id in bytes as a little-endian `u16`, and the
//! id in UTF-8; and one byte that is not zero where a message is open.
use vstd::prelude::*;
use vstd::slice::slice_subrange;
use vstd::utf8::*;
use crate::text::{lemma_encode_len, lemma_texts_push, same, texts};

verus! {

/// The parser's state between two lines.
#[derive(Debug, PartialEq, Eq)]
pub struct ParseState {
    /// The ids of the open tool calls, in the order in which they were opened.
    pub open_calls: Vec<String>,
    /// Whether an assistant message is open.
    pub open_message: bool,
}

/// The model of a [`ParseState`].
pub struct StateView {
    pub open_calls: Seq<Seq<char>>,
    pub open_message: bool,
}

impl View for ParseState {
    type V = StateView;

    open spec fn view(&self) -> StateView {
        StateView { open_calls: texts(self.open_calls@), open_message: self.open_message }
    }
}

/// The largest number that the byte form has room for, both for the number of
/// calls and for the length of an id.
pub const LIMIT: u16 = 0xFFFF;

// ---------------------------------------------------------------------------
// The byte form
// ---------------------------------------------------------------------------

/// `n` as a little-endian `u16`.
pub open spec fn le16(n: int) -> Seq<u8> {
    seq![(n % 256) as u8, (n / 256) as u8]
}

/// The number whose little-endian bytes are `lo` and `hi`.
pub open spec fn from_le16(lo: u8, hi: u8) -> int {
    lo + 256 * hi
}

/// `n`, or the limit where `n` is larger.
pub open spec fn capped(n: int) -> int {
    if n <= LIMIT {
        n
    } else {
        LIMIT as int
    }
}

/// The bytes of the id `k` that are stored.
pub open spec fn stored(k: Seq<char>) -> Seq<u8> {
    encode_utf8(k).take(capped(encode_utf8(k).len() as int))
}

/// The byte form of one id.
pub open spec fn entry_bytes(k: Seq<char>) -> Seq<u8> {
    le16(stored(k).len() as int) + stored(k)
}

/// The byte form of the ids from position `i` on.
pub open spec fn entries_bytes(ks: Seq<Seq<char>>, i: int) -> Seq<u8>
    decreases ks.len() - i,
{
    if i >= ks.len() {
        seq![]
    } else {
        entry_bytes(ks[i]) + entries_bytes(ks, i + 1)
    }
}

/// The ids that are stored: all of them, or as many as there is room for.
pub open spec fn stored_calls(ks: Seq<Seq<char>>) -> Seq<Seq<char>> {
    ks.take(capped(ks.len() as int))
}

/// The byte form of a state.
pub open spec fn state_bytes(st: StateView) -> Seq<u8> {
    let ks = stored_calls(st.open_calls);
    le16(ks.len() as int) + entries_bytes(ks, 0) + seq![
        if st.open_message {
            1u8
        } else {
            0u8
        },
    ]
}

/// The ids that `n` entries from position `cur` of `b` on hold, and the position
/// at which reading stops. Reading stops early before an entry whose length does
/// not fit into `b`, and after the length of one whose id does not. An id that is
/// not UTF-8 is passed over.
pub open spec fn read_entries(b: Seq<u8>, cur: int, n: int) -> (Seq<Seq<char>>, int)
    decreases n,
{
    if n <= 0 || cur + 2 > b.len() {
        (seq![], cur)
    } else {
        let from = cur + 2;
        let to = from + from_le16(b[cur], b[cur + 1]);
        if to > b.len() {
            (seq![], from)
        } else {
            let (ks, end) = read_entries(b, to, n - 1);
            if valid_utf8(b.subrange(from, to)) {
                (seq![decode_utf8(b.subrange(from, to))] + ks, end)
            } else {
                (ks, end)
            }
        }
    }
}

/// The state whose byte form is `b`. Fewer than two bytes stand for the first
/// state, in which nothing is open; a missing last byte for no open message.
pub open spec fn state_of_bytes(b: Seq<u8>) -> StateView {
    if b.len() < 2 {
        StateView { open_calls: seq![], open_message: false }
    } else {
        let (ks, end) = read_entries(b, 2, from_le16(b[0], b[1]));
        StateView { open_calls: ks, open_message: end < b.len() && b[end] != 0 }
    }
}

// ---------------------------------------------------------------------------
// The open calls
// ---------------------------------------------------------------------------

/// `ks` with `id` among them.
pub open spec fn with_call(ks: Seq<Seq<char>>, id: Seq<char>) -> Seq<Seq<char>> {
    if ks.contains(id) {
        ks
    } else {
        ks.push(id)
    }
}

/// The first position, at least `i`, of `id` in `ks`.
pub open spec fn call_index(ks: Seq<Seq<char>>, id: Seq<char>, i: int) -> Option<int>
    decreases ks.len() - i,
{
    if i >= ks.len() {
        None
    } else if ks[i] == id {
        Some(i)
    } else {
        call_index(ks, id, i + 1)
    }
}

/// `ks` without the first `id` among them.
pub open spec fn without_call(ks: Seq<Seq<char>>, id: Seq<char>) -> Seq<Seq<char>> {
    match call_index(ks, id, 0) {
        Some(k) => ks.remove(k),
        None => ks,
    }
}

pub proof fn lemma_call_index(ks: Seq<Seq<char>>, id: Seq<char>, i: int)
    requires
        0 <= i,
    ensures
        match call_index(ks, id, i) {
            Some(k) => {
                &&& i <= k < ks.len()
                &&& ks[k] == id
                &&& forall|j: int| i <= j < k ==> ks[j] != id
            },
            None => forall|j: int| i <= j < ks.len() ==> ks[j] != id,
        },
    decreases ks.len() - i,
{
    if i < ks.len() && ks[i] != id {
        lemma_call_index(ks, id, i + 1);
    }
}

impl ParseState {
    /// Reads a state from its byte form.
    pub fn decode(state: &[u8]) -> (r: ParseState)
        ensures
            r@ == state_of_bytes(state@),
    {
        if state.len() < 2 {
            let calls: Vec<String> = Vec::new();
            assert(texts(calls@) =~= seq![]);
            return ParseState { open_calls: calls, open_message: false };
        }
        let count: usize = state[0] as usize + 256 * state[1] as usize;
        let mut items: Vec<String> = Vec::with_capacity(count);
        let mut cur: usize = 2;
        let mut left: usize = count;
        let ghost all = read_entries(state@, 2, count as int);
        assert(texts(items@) + all.0 =~= all.0);
        while left > 0
            invariant_except_break
                cur <= state@.len(),
                texts(items@) + read_entries(state@, cur as int, left as int).0 == all.0,
                read_entries(state@, cur as int, left as int).1 == all.1,
            ensures
                cur <= state@.len(),
                texts(items@) == all.0,
                cur == all.1,
            decreases left,
        {
            if state.len() - cur < 2 {
                assert(texts(items@) + seq![] =~= texts(items@));
                break;
            }
            let klen: usize = state[cur] as usize + 256 * state[cur + 1] as usize;
            cur = cur + 2;
            if state.len() - cur < klen {
                assert(texts(items@) + seq![] =~= texts(items@));
                break;
            }
            if let Ok(s) = std::str::from_utf8(slice_subrange(state, cur, cur + klen)) {
                let id = s.to_owned();
                proof {
                    lemma_texts_push(
                        items@,
                        id,
                        read_entries(state@, cur + klen, left - 1).0,
                    );
                }
                items.push(id);
            }
            cur = cur + klen;
            left = left - 1;
            assert(left == 0 ==> texts(items@) + seq![] =~= texts(items@));
        }
        let open_message = cur < state.len() && state[cur] != 0;
        ParseState { open_calls: items, open_message }
    }

    /// The byte form of the state.
    pub fn encode(&self) -> (r: Vec<u8>)
        ensures
            r@ == state_bytes(self@),
    {
        let count: usize = if self.open_calls.len() < LIMIT as usize {
            self.open_calls.len()
        } else {
            LIMIT as usize
        };
        let ghost ks = stored_calls(self@.open_calls);
        let mut out: Vec<u8> = Vec::new();
        out.push((count % 256) as u8);
        out.push((count / 256) as u8);
        let ghost whole = le16(count as int) + entries_bytes(ks, 0);
        assert(out@ + entries_bytes(ks, 0) =~= whole);
        let mut i: usize = 0;
        while i < count
            invariant
                i <= count <= self.open_calls@.len(),
                count == ks.len(),
                ks == stored_calls(self@.open_calls),
                out@ + entries_bytes(ks, i as int) == whole,
            decreases count - i,
        {
            let bytes = self.open_calls[i].as_str().as_bytes();
            let klen: usize = if bytes.len() < LIMIT as usize {
                bytes.len()
            } else {
                LIMIT as usize
            };
            let ghost before = out@;
            out.push((klen % 256) as u8);
            out.push((klen / 256) as u8);
            out.extend_from_slice(slice_subrange(bytes, 0, klen));
            assert(ks[i as int] == self.open_calls@[i as int]@);
            assert(bytes@.subrange(0, klen as int) =~= stored(ks[i as int]));
            assert(out@ =~= before + entry_bytes(ks[i as int]));
            assert(out@ + entries_bytes(ks, i + 1) =~= before + (entry_bytes(ks[i as int])
                + entries_bytes(ks, i + 1)));
            i = i + 1;
        }
        assert(out@ =~= whole);
        out.push(if self.open_message { 1u8 } else { 0u8 });
        out
    }

    /// Whether the call `id` is open.
    pub fn contains(&self, id: &str) -> (r: bool)
        ensures
            r == self@.open_calls.contains(id@),
    {
        self.position(id).is_some()
    }

    /// The first position of `id` among the open calls.
    fn position(&self, id: &str) -> (r: Option<usize>)
        ensures
            match r {
                Some(k) => {
                    &&& call_index(self@.open_calls, id@, 0) == Some(k as int)
                    &&& k < self.open_calls@.len()
                },
                None => call_index(self@.open_calls, id@, 0) is None,
            },
            r is Some <==> self@.open_calls.contains(id@),
    {
        let ghost ks = self@.open_calls;
        proof {
            lemma_call_index(ks, id@, 0);
        }
        let mut i: usize = 0;
        while i < self.open_calls.len()
            invariant
                ks == self@.open_calls,
                i <= self.open_calls@.len(),
                call_index(ks, id@, 0) == call_index(ks, id@, i as int),
            decreases self.open_calls@.len() - i,
        {
            assert(ks[i as int] == self.open_calls@[i as int]@);
            if same(self.open_calls[i].as_str(), id) {
                assert(ks[i as int] == id@);
                return Some(i);
            }
            i = i + 1;
        }
        None
    }

    /// Opens the call `id`, unless it is open already.
    pub fn insert(&mut self, id: String)
        ensures
            final(self)@.open_calls == with_call(old(self)@.open_calls, id@),
            final(self)@.open_message == old(self)@.open_message,
    {
        if !self.contains(id.as_str()) {
            let ghost ks = self@.open_calls;
            self.open_calls.push(id);
            assert(self@.open_calls =~= ks.push(id@));
        }
    }

    /// Closes the call `id`, and tells whether it was open.
    pub fn remove(&mut self, id: &str) -> (r: bool)
        ensures
            r == old(self)@.open_calls.contains(id@),
            final(self)@.open_calls == without_call(old(self)@.open_calls, id@),
            final(self)@.open_message == old(self)@.open_message,
    {
        let ghost ks = self@.open_calls;
        match self.position(id) {
            Some(k) => {
                self.open_calls.remove(k);
                assert(self@.open_calls =~= ks.remove(k as int));
                true
            },
            None => false,
        }
    }
}

// ---------------------------------------------------------------------------
// Laws of the byte form
// ---------------------------------------------------------------------------

/// Whether the byte form has room for the whole of `st`.
pub open spec fn fits(st: StateView) -> bool {
    &&& st.open_calls.len() <= LIMIT
    &&& forall|i: int|
        0 <= i < st.open_calls.len() ==> encode_utf8(#[trigger] st.open_calls[i]).len() <= LIMIT
}

/// Whether no open call has an empty id.
pub open spec fn no_id_is_empty(st: StateView) -> bool {
    forall|i: int| 0 <= i < st.open_calls.len() ==> (#[trigger] st.open_calls[i]).len() > 0
}

/// What can be read back of the ids from position `i` on: what is stored of each,
/// unless the limit cuts it inside a character.
pub open spec fn readable(ks: Seq<Seq<char>>, i: int) -> Seq<Seq<char>>
    decreases ks.len() - i,
{
    if i >= ks.len() {
        seq![]
    } else if valid_utf8(stored(ks[i])) {
        seq![decode_utf8(stored(ks[i]))] + readable(ks, i + 1)
    } else {
        readable(ks, i + 1)
    }
}

/// What is written is read back as far as there is room for it: of the calls the
/// stored ones, of each of those what [`readable`] says, and the open message in
/// any case.
pub proof fn law_decode_after_encode(st: StateView)
    ensures
        state_of_bytes(state_bytes(st)).open_calls == readable(stored_calls(st.open_calls), 0),
        state_of_bytes(state_bytes(st)).open_message == st.open_message,
{
    let ks = stored_calls(st.open_calls);
    let lead = le16(ks.len() as int);
    let tail = seq![
        if st.open_message {
            1u8
        } else {
            0u8
        },
    ];
    let b = state_bytes(st);
    assert(from_le16(b[0], b[1]) == ks.len());
    lemma_read_entries(lead, ks, 0, tail);
    assert(b[(lead.len() + entries_bytes(ks, 0).len()) as int] == tail[0]);
}

/// A state that was read from bytes fits into them.
pub proof fn law_decoded_fits(b: Seq<u8>)
    ensures
        fits(state_of_bytes(b)),
{
    if b.len() >= 2 {
        lemma_read_entries_fit(b, 2, from_le16(b[0], b[1]));
    }
}

proof fn lemma_read_entries_fit(b: Seq<u8>, cur: int, n: int)
    requires
        0 <= cur,
        0 <= n,
    ensures
        read_entries(b, cur, n).0.len() <= n,
        forall|i: int|
            0 <= i < read_entries(b, cur, n).0.len() ==> encode_utf8(
                #[trigger] read_entries(b, cur, n).0[i],
            ).len() <= LIMIT,
    decreases n,
{
    if n > 0 && cur + 2 <= b.len() {
        let from = cur + 2;
        let to = from + from_le16(b[cur], b[cur + 1]);
        if to <= b.len() {
            lemma_read_entries_fit(b, to, n - 1);
            let ks = read_entries(b, to, n - 1).0;
            let id = b.subrange(from, to);
            if valid_utf8(id) {
                decode_utf8_encode_utf8(id);
                assert forall|i: int| 0 <= i < ks.len() + 1 implies encode_utf8(
                    #[trigger] (seq![decode_utf8(id)] + ks)[i],
                ).len() <= LIMIT by {
                    if i > 0 {
                        assert((seq![decode_utf8(id)] + ks)[i] == ks[i - 1]);
                    }
                }
            }
        }
    }
}

/// Of a byte form that is cut, the first of the open calls are read.
pub proof fn law_cut_bytes_give_the_first_calls(b: Seq<u8>, k: int)
    requires
        0 <= k <= b.len(),
    ensures
        state_of_bytes(b.take(k)).open_calls.is_prefix_of(state_of_bytes(b).open_calls),
{
    if k >= 2 {
        lemma_read_entries_of_take(b, k, 2, from_le16(b[0], b[1]));
    }
}

proof fn lemma_read_entries_of_take(b: Seq<u8>, k: int, cur: int, n: int)
    requires
        0 <= cur,
        0 <= k <= b.len(),
    ensures
        read_entries(b.take(k), cur, n).0.is_prefix_of(read_entries(b, cur, n).0),
    decreases n,
{
    let c = b.take(k);
    if n > 0 && cur + 2 <= k {
        let from = cur + 2;
        let to = from + from_le16(b[cur], b[cur + 1]);
        assert(c[cur] == b[cur]);
        assert(c[cur + 1] == b[cur + 1]);
        if to <= k {
            lemma_read_entries_of_take(b, k, to, n - 1);
            assert(c.subrange(from, to) =~= b.subrange(from, to));
            let id = seq![decode_utf8(b.subrange(from, to))];
            let (short, long) = (read_entries(c, to, n - 1).0, read_entries(b, to, n - 1).0);
            assert(short =~= long.take(short.len() as int));
            assert(id + short =~= (id + long).take((id + short).len() as int));
        }
    }
}

/// Where no id is empty, none is empty after the state was written and read.
pub proof fn law_ids_stay_nonempty(st: StateView)
    requires
        no_id_is_empty(st),
    ensures
        no_id_is_empty(state_of_bytes(state_bytes(st))),
{
    law_decode_after_encode(st);
    let ks = stored_calls(st.open_calls);
    assert forall|i: int| 0 <= i < ks.len() implies (#[trigger] ks[i]).len() > 0 by {
        assert(ks[i] == st.open_calls[i]);
    }
    lemma_readable_nonempty(ks, 0);
}

proof fn lemma_readable_nonempty(ks: Seq<Seq<char>>, i: int)
    requires
        0 <= i <= ks.len(),
        forall|j: int| 0 <= j < ks.len() ==> (#[trigger] ks[j]).len() > 0,
    ensures
        forall|j: int| 0 <= j < readable(ks, i).len() ==> (#[trigger] readable(ks, i)[j]).len() > 0,
    decreases ks.len() - i,
{
    if i < ks.len() {
        lemma_readable_nonempty(ks, i + 1);
        let id = stored(ks[i]);
        lemma_encode_len(ks[i]);
        assert(id.len() > 0);
        if valid_utf8(id) {
            decode_utf8_encode_utf8(id);
            let (first, rest) = (decode_utf8(id), readable(ks, i + 1));
            assert(first.len() > 0) by {
                if first.len() == 0 {
                    assert(encode_utf8(first).len() == 0);
                }
            }
            assert forall|j: int| 0 <= j < (seq![first] + rest).len() implies (
            #[trigger] (seq![first] + rest)[j]).len() > 0 by {
                if j > 0 {
                    assert((seq![first] + rest)[j] == rest[j - 1]);
                }
            }
        }
    }
}

/// A state survives being written and read exactly where there is room for it.
pub proof fn law_round_trip(st: StateView)
    ensures
        state_of_bytes(state_bytes(st)) == st <==> fits(st),
{
    law_decode_after_encode(st);
    let back = state_of_bytes(state_bytes(st));
    let ks = stored_calls(st.open_calls);
    lemma_readable_len(ks, 0);
    if fits(st) {
        assert(ks =~= st.open_calls);
        lemma_readable_all(ks, 0);
        assert(ks.skip(0) =~= ks);
        assert(back =~= st);
    }
    if back == st {
        assert(ks =~= st.open_calls);
        assert(ks.skip(0) =~= ks);
        lemma_readable_fits(ks, 0);
    }
}

/// Where there is room for each id, the calls that are stored are read back.
pub proof fn law_stored_calls_are_read_back(st: StateView)
    requires
        forall|i: int|
            0 <= i < st.open_calls.len() ==> encode_utf8(#[trigger] st.open_calls[i]).len()
                <= LIMIT,
    ensures
        state_of_bytes(state_bytes(st)).open_calls == stored_calls(st.open_calls),
{
    law_decode_after_encode(st);
    let ks = stored_calls(st.open_calls);
    assert forall|i: int| 0 <= i < ks.len() implies encode_utf8(#[trigger] ks[i]).len()
        <= LIMIT by {
        assert(ks[i] == st.open_calls[i]);
    }
    lemma_readable_all(ks, 0);
    assert(ks.skip(0) =~= ks);
}

proof fn lemma_read_entries(lead: Seq<u8>, ks: Seq<Seq<char>>, i: int, tail: Seq<u8>)
    requires
        0 <= i <= ks.len(),
    ensures
        read_entries(lead + entries_bytes(ks, i) + tail, lead.len() as int, ks.len() - i) == (
            readable(ks, i),
            (lead.len() + entries_bytes(ks, i).len()) as int,
        ),
    decreases ks.len() - i,
{
    if i < ks.len() {
        let b = lead + entries_bytes(ks, i) + tail;
        let cur = lead.len() as int;
        let id = stored(ks[i]);
        let entry = entry_bytes(ks[i]);
        assert(b =~= (lead + entry) + entries_bytes(ks, i + 1) + tail);
        lemma_read_entries(lead + entry, ks, i + 1, tail);
        assert(b[cur] == entry[0]);
        assert(b[cur + 1] == entry[1]);
        assert(from_le16(b[cur], b[cur + 1]) == id.len());
        assert(b.subrange(cur + 2, cur + 2 + id.len()) =~= id);
    }
}

proof fn lemma_readable_len(ks: Seq<Seq<char>>, i: int)
    requires
        0 <= i <= ks.len(),
    ensures
        readable(ks, i).len() <= ks.len() - i,
    decreases ks.len() - i,
{
    if i < ks.len() {
        lemma_readable_len(ks, i + 1);
    }
}

proof fn lemma_readable_all(ks: Seq<Seq<char>>, i: int)
    requires
        0 <= i <= ks.len(),
        forall|j: int| 0 <= j < ks.len() ==> encode_utf8(#[trigger] ks[j]).len() <= LIMIT,
    ensures
        readable(ks, i) == ks.skip(i),
    decreases ks.len() - i,
{
    if i < ks.len() {
        lemma_readable_all(ks, i + 1);
        assert(stored(ks[i]) =~= encode_utf8(ks[i]));
        encode_utf8_valid_utf8(ks[i]);
        encode_utf8_decode_utf8(ks[i]);
        assert(seq![ks[i]] + ks.skip(i + 1) =~= ks.skip(i));
    } else {
        assert(ks.skip(i) =~= seq![]);
    }
}

proof fn lemma_readable_fits(ks: Seq<Seq<char>>, i: int)
    requires
        0 <= i <= ks.len(),
        readable(ks, i) == ks.skip(i),
    ensures
        forall|j: int| i <= j < ks.len() ==> encode_utf8(#[trigger] ks[j]).len() <= LIMIT,
    decreases ks.len() - i,
{
    if i < ks.len() {
        lemma_readable_len(ks, i + 1);
        let t = readable(ks, i + 1);
        let first = decode_utf8(stored(ks[i]));
        assert(valid_utf8(stored(ks[i])));
        decode_utf8_encode_utf8(stored(ks[i]));
        assert(ks.skip(i)[0] == ks[i]);
        assert((seq![first] + t)[0] == first);
        assert((seq![first] + t).skip(1) =~= t);
        assert(ks.skip(i).skip(1) =~= ks.skip(i + 1));
        lemma_readable_fits(ks, i + 1);
    }
}

/// The byte form of a state without open calls is two zeros and a byte for the
/// message. One more open call raises the number in the first two bytes, and adds
/// the length of its id and its id before the last byte. An id is stored with at
/// most 65535 bytes.
pub proof fn law_byte_form(ks: Seq<Seq<char>>, id: Seq<char>, open_message: bool)
    requires
        ks.len() < 65535,
    ensures
        ({
            let flag = if open_message {
                1u8
            } else {
                0u8
            };
            let none = StateView { open_calls: seq![], open_message };
            let less = StateView { open_calls: ks, open_message };
            let more = StateView { open_calls: ks.push(id), open_message };
            let b = state_bytes(less);
            let c = state_bytes(more);
            let n = b.len() - 1;
            let bytes = encode_utf8(id);
            let kept = if bytes.len() <= 65535 {
                bytes
            } else {
                bytes.take(65535)
            };
            &&& state_bytes(none) == seq![0u8, 0u8, flag]
            &&& n >= 2
            &&& b[0] + 256 * b[1] == ks.len()
            &&& b[n] == flag
            &&& c.len() == n + 2 + kept.len() + 1
            &&& c[0] + 256 * c[1] == ks.len() + 1
            &&& c.subrange(2, n) == b.subrange(2, n)
            &&& c[n] + 256 * c[n + 1] == kept.len()
            &&& c.subrange(n + 2, n + 2 + kept.len()) == kept
            &&& c.last() == flag
        }),
{
    let flag = if open_message {
        1u8
    } else {
        0u8
    };
    let none = StateView { open_calls: seq![], open_message };
    let less = StateView { open_calls: ks, open_message };
    let more = StateView { open_calls: ks.push(id), open_message };
    assert(stored_calls(none.open_calls) =~= seq![]);
    assert(entries_bytes(Seq::<Seq<char>>::empty(), 0) =~= seq![]);
    assert(state_bytes(none) =~= seq![0u8, 0u8, flag]);
    assert(stored_calls(ks) =~= ks);
    assert(stored_calls(ks.push(id)) =~= ks.push(id));
    lemma_entries_push(ks, id, 0);
    let (b, c) = (state_bytes(less), state_bytes(more));
    let n = b.len() - 1;
    let bytes = encode_utf8(id);
    let kept = if bytes.len() <= 65535 {
        bytes
    } else {
        bytes.take(65535)
    };
    assert(stored(id) =~= kept);
    let entries = entries_bytes(ks, 0);
    assert(c =~= le16(ks.len() + 1int) + entries + le16(kept.len() as int) + kept + seq![flag]);
    assert(b.subrange(2, n) =~= entries);
    assert(c.subrange(2, n) =~= entries);
    assert(c[n] == le16(kept.len() as int)[0]);
    assert(c[n + 1] == le16(kept.len() as int)[1]);
    assert(c.subrange(n + 2, n + 2 + kept.len()) =~= kept);
}

proof fn lemma_entries_push(ks: Seq<Seq<char>>, id: Seq<char>, i: int)
    requires
        0 <= i <= ks.len(),
    ensures
        entries_bytes(ks.push(id), i) == entries_bytes(ks, i) + entry_bytes(id),
    decreases ks.len() - i,
{
    let more = ks.push(id);
    if i < ks.len() {
        lemma_entries_push(ks, id, i + 1);
        assert(more[i] == ks[i]);
        assert(entries_bytes(more, i) =~= entries_bytes(ks, i) + entry_bytes(id));
    } else {
        assert(more[i] == id);
        assert(entries_bytes(more, i + 1) =~= seq![]);
        assert(entries_bytes(ks, i) =~= seq![]);
        assert(entries_bytes(more, i) =~= entries_bytes(ks, i) + entry_bytes(id));
    }
}

/// Of more than 65535 open calls the first 65535 are stored.
pub proof fn law_first_calls_are_stored(st: StateView)
    requires
        st.open_calls.len() > 65535,
    ensures
        state_bytes(st) == state_bytes(
            StateView { open_calls: st.open_calls.take(65535), open_message: st.open_message },
        ),
{
    let first = st.open_calls.take(65535);
    assert(first.take(65535) =~= first);
}

/// Reading takes the entries one by one. An entry is the length of its id in two
/// bytes and the id, which is passed over where it is not UTF-8.
pub proof fn law_reading_one_entry(
    count: (u8, u8),
    less: (u8, u8),
    len: (u8, u8),
    id: Seq<u8>,
    rest: Seq<u8>,
)
    requires
        count.0 + 256 * count.1 == less.0 + 256 * less.1 + 1,
        len.0 + 256 * len.1 == id.len(),
    ensures
        ({
            let whole = state_of_bytes(seq![count.0, count.1, len.0, len.1] + id + rest);
            let others = state_of_bytes(seq![less.0, less.1] + rest);
            &&& valid_utf8(id) ==> whole.open_calls == seq![decode_utf8(id)] + others.open_calls
            &&& !valid_utf8(id) ==> whole.open_calls == others.open_calls
            &&& whole.open_message == others.open_message
        }),
{
    let lead = seq![count.0, count.1, len.0, len.1] + id;
    let front = seq![less.0, less.1];
    let (b, c) = (lead + rest, front + rest);
    let n = from_le16(less.0, less.1);
    assert(from_le16(b[0], b[1]) == n + 1);
    assert(from_le16(b[2], b[3]) == id.len());
    assert(from_le16(c[0], c[1]) == n);
    assert(b.subrange(4, 4 + id.len() as int) =~= id);
    lemma_read_entries_shift(lead, rest, 0, n);
    lemma_read_entries_shift(front, rest, 0, n);
    lemma_read_entries_end(rest, 0, n);
    let end = read_entries(rest, 0, n).1;
    assert(end < rest.len() ==> b[lead.len() + end] == rest[end]);
    assert(end < rest.len() ==> c[2 + end] == rest[end]);
}

proof fn lemma_read_entries_end(b: Seq<u8>, cur: int, n: int)
    requires
        0 <= cur,
    ensures
        cur <= read_entries(b, cur, n).1,
    decreases n,
{
    if n > 0 && cur + 2 <= b.len() {
        let to = cur + 2 + from_le16(b[cur], b[cur + 1]);
        if to <= b.len() {
            lemma_read_entries_end(b, to, n - 1);
        }
    }
}

proof fn lemma_read_entries_shift(lead: Seq<u8>, b: Seq<u8>, cur: int, n: int)
    requires
        0 <= cur,
    ensures
        read_entries(lead + b, lead.len() + cur, n) == (
            read_entries(b, cur, n).0,
            lead.len() + read_entries(b, cur, n).1,
        ),
    decreases n,
{
    let c = lead + b;
    let m = lead.len();
    if n > 0 && cur + 2 <= b.len() {
        assert(c[m + cur] == b[cur]);
        assert(c[m + cur + 1] == b[cur + 1]);
        let from = cur + 2;
        let to = from + from_le16(b[cur], b[cur + 1]);
        if to <= b.len() {
            lemma_read_entries_shift(lead, b, to, n - 1);
            assert(c.subrange(m + from, m + to) =~= b.subrange(from, to));
        }
    }
}

/// Reading stops where no entry is left to read, before an entry whose length is cut,
/// and after the length of one whose id is cut. The byte there says whether a message
/// is open; where there is none, no message is. Fewer than two bytes hold nothing.
pub proof fn law_where_reading_stops(lo: u8, hi: u8, rest: Seq<u8>, b: Seq<u8>)
    ensures
        ({
            let st = state_of_bytes(seq![lo, hi] + rest);
            let none = lo == 0 && hi == 0;
            let len = rest[0] + 256 * rest[1];
            &&& none || rest.len() < 2 ==> st.open_calls.len() == 0 && st.open_message == (
            rest.len() > 0 && rest[0] != 0)
            &&& !none && rest.len() >= 2 && len > rest.len() - 2 ==> st.open_calls.len() == 0
                && st.open_message == (rest.len() > 2 && rest[2] != 0)
        }),
        b.len() < 2 ==> state_of_bytes(b).open_calls.len() == 0 && !state_of_bytes(b).open_message,
{
    let c = seq![lo, hi] + rest;
    assert(c[0] == lo);
    assert(c[1] == hi);
    if rest.len() > 0 {
        assert(c[2] == rest[0]);
    }
    if rest.len() > 1 {
        assert(c[3] == rest[1]);
    }
    if rest.len() > 2 {
        assert(c[4] == rest[2]);
    }
}

// ---------------------------------------------------------------------------
// Laws of the open calls
// ---------------------------------------------------------------------------

/// A call that was inserted is open, every other call is open as before, and
/// inserting it again changes nothing.
pub proof fn law_insert(ks: Seq<Seq<char>>, id: Seq<char>, other: Seq<char>)
    ensures
        with_call(ks, id).contains(id),
        other != id ==> (with_call(ks, id).contains(other) <==> ks.contains(other)),
        with_call(with_call(ks, id), id) == with_call(ks, id),
{
    if !ks.contains(id) {
        let ls = ks.push(id);
        assert(ls[ks.len() as int] == id);
        if ks.contains(other) {
            let j = choose|j: int| 0 <= j < ks.len() && ks[j] == other;
            assert(ls[j] == other);
        }
    }
}

/// Removing a call that was not open before it was inserted undoes the insertion.
pub proof fn law_remove_undoes_insert(ks: Seq<Seq<char>>, id: Seq<char>)
    requires
        !ks.contains(id),
    ensures
        without_call(with_call(ks, id), id) == ks,
{
    let ls = ks.push(id);
    lemma_call_index(ls, id, 0);
    assert(ls[ks.len() as int] == id);
    assert forall|j: int| 0 <= j < ks.len() implies ls[j] != id by {
        assert(ks.contains(ks[j]));
    }
    assert(call_index(ls, id, 0) == Some(ks.len() as int));
    assert(ls.remove(ks.len() as int) =~= ks);
}

/// Removing a call that is not open changes nothing.
pub proof fn law_remove_absent(ks: Seq<Seq<char>>, id: Seq<char>)
    requires
        !ks.contains(id),
    ensures
        without_call(ks, id) == ks,
{
    lemma_call_index(ks, id, 0);
}

/// Inserting and removing keep the open calls free of repetitions.
pub proof fn law_no_duplicates(ks: Seq<Seq<char>>, id: Seq<char>)
    requires
        ks.no_duplicates(),
    ensures
        with_call(ks, id).no_duplicates(),
        without_call(ks, id).no_duplicates(),
{
    lemma_call_index(ks, id, 0);
}

/// Where no call is open twice, a call that was removed is not open, and every
/// other call is open as before.
pub proof fn law_remove(ks: Seq<Seq<char>>, id: Seq<char>, other: Seq<char>)
    requires
        ks.no_duplicates(),
    ensures
        !without_call(ks, id).contains(id),
        other != id ==> (without_call(ks, id).contains(other) <==> ks.contains(other)),
{
    lemma_call_index(ks, id, 0);
    if let Some(k) = call_index(ks, id, 0) {
        let ls = ks.remove(k);
        assert(forall|j: int| 0 <= j < k ==> ls[j] == ks[j]);
        assert(forall|j: int| k <= j < ls.len() ==> ls[j] == ks[j + 1]);
        if ks.contains(other) && other != id {
            let j = choose|j: int| 0 <= j < ks.len() && ks[j] == other;
            if j < k {
                assert(ls[j] == other);
            } else {
                assert(ls[j - 1] == other);
            }
        }
    }
}

/// A call that is not open is opened behind the others; opening one that is open
/// changes nothing.
pub proof fn law_calls_keep_their_order(ks: Seq<Seq<char>>, id: Seq<char>)
    ensures
        ks.contains(id) ==> with_call(ks, id) == ks,
        !ks.contains(id) ==> with_call(ks, id) == ks + seq![id],
{
    assert(ks.push(id) =~= ks + seq![id]);
}

/// Removing a call takes the first of its kind out and leaves all others in their
/// order.
pub proof fn law_remove_takes_the_first(
    first: Seq<Seq<char>>,
    id: Seq<char>,
    rest: Seq<Seq<char>>,
)
    requires
        !first.contains(id),
    ensures
        without_call(first + seq![id] + rest, id) == first + rest,
        without_call(first, id) == first,
{
    let ks = first + seq![id] + rest;
    let n = first.len() as int;
    lemma_call_index(ks, id, 0);
    assert(ks[n] == id);
    assert forall|j: int| 0 <= j < n implies ks[j] != id by {
        assert(first.contains(first[j]));
    }
    assert(call_index(ks, id, 0) == Some(n));
    assert(ks.remove(n) =~= first + rest);
    law_remove_absent(first, id);
}

} // verus!
