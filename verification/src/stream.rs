//! Finding markers in text that arrives in pieces.
use vstd::prelude::*;
use vstd::string::*;
use vstd::utf8::*;

use crate::markers;
use crate::offsets;
use crate::search;

verus! {

/// What a search of incremental text for a sentinel found.
#[derive(Debug, Clone, PartialEq)]
pub enum SentinelScan {
    /// The whole sentinel stands at byte offset `idx`.
    Found { idx: usize },
    /// The sentinel is not there. The first `flush_len` bytes can be sent on as text. The others
    /// may be the start of a sentinel and have to wait for what comes next.
    Partial { flush_len: usize },
}

/// The last `k` characters of `text` are the first `k` of `sentinel`, and not all of it.
pub open spec fn is_overlap(text: Seq<char>, sentinel: Seq<char>, k: int) -> bool {
    &&& 0 <= k < sentinel.len()
    &&& k <= text.len()
    &&& text.skip(text.len() - k) == sentinel.take(k)
}

/// The largest overlap of at most `k` characters.
pub open spec fn overlap_up_to(text: Seq<char>, sentinel: Seq<char>, k: int) -> int
    decreases k,
{
    if k <= 0 {
        0
    } else if is_overlap(text, sentinel, k) {
        k
    } else {
        overlap_up_to(text, sentinel, k - 1)
    }
}

/// The length of the longest end of `text` that is the start of `sentinel`, and not all of it.
pub open spec fn overlap(text: Seq<char>, sentinel: Seq<char>) -> int {
    overlap_up_to(text, sentinel, sentinel.len() - 1)
}

/// The longest overlap of `text` with any of `sentinels`.
pub open spec fn overlap_any(text: Seq<char>, sentinels: Seq<Seq<char>>) -> int
    decreases sentinels.len(),
{
    if sentinels.len() == 0 {
        0
    } else {
        let others = overlap_any(text, sentinels.drop_last());
        let last = overlap(text, sentinels.last());
        if last > others {
            last
        } else {
            others
        }
    }
}

pub proof fn lemma_overlap_up_to(text: Seq<char>, sentinel: Seq<char>, k: int)
    ensures
        forall|c: int| #[trigger]
            is_overlap(text, sentinel, c) && c <= k ==> c <= overlap_up_to(text, sentinel, k),
        0 <= overlap_up_to(text, sentinel, k),
        overlap_up_to(text, sentinel, k) > 0 ==> is_overlap(
            text,
            sentinel,
            overlap_up_to(text, sentinel, k),
        ),
    decreases k,
{
    if k > 0 && !is_overlap(text, sentinel, k) {
        lemma_overlap_up_to(text, sentinel, k - 1);
    }
}

/// What `overlap` returns: an overlap, and the longest.
pub proof fn lemma_overlap(text: Seq<char>, sentinel: Seq<char>)
    ensures
        forall|c: int| #[trigger]
            is_overlap(text, sentinel, c) ==> c <= overlap(text, sentinel),
        0 <= overlap(text, sentinel) <= text.len(),
        sentinel.len() > 0 ==> is_overlap(text, sentinel, overlap(text, sentinel)),
{
    lemma_overlap_up_to(text, sentinel, sentinel.len() - 1);
    if sentinel.len() > 0 {
        assert(text.skip(text.len() as int) == sentinel.take(0));
    }
}

/// The searches for which every cut of the sentinel falls between two characters. For an ASCII
/// sentinel that is every search.
pub open spec fn can_scan(pending: Seq<char>, sentinel: Seq<char>) -> bool {
    ||| is_ascii_chars(sentinel)
    ||| search::first_of(pending, sentinel) is Some
    ||| forall|j: int|
        0 <= j < pending.len() - overlap(pending, sentinel) && offsets::byte_len(
            #[trigger] pending.skip(j),
        ) < offsets::byte_len(sentinel) ==> exists|m: int|
            offsets::is_offset_of(sentinel, offsets::byte_len(pending.skip(j)) as int, m)
}

/// What a search of `pending` for `sentinel` returns.
pub open spec fn scan_result(pending: Seq<char>, sentinel: Seq<char>, scan: SentinelScan) -> bool {
    match search::first_of(pending, sentinel) {
        Some(i) => scan matches SentinelScan::Found { idx } && offsets::is_offset_of(
            pending,
            idx as int,
            i,
        ),
        None => scan matches SentinelScan::Partial { flush_len } && offsets::is_offset_of(
            pending,
            flush_len as int,
            pending.len() - overlap(pending, sentinel),
        ),
    }
}

proof fn lemma_ascii_offset(chars: Seq<char>, k: int)
    requires
        is_ascii_chars(chars),
        0 <= k <= chars.len(),
    ensures
        offsets::is_offset_of(chars, k, k),
{
    is_ascii_chars_encode_utf8(chars.take(k));
}

/// The number of bytes at the end of `pending` that are the start of `sentinel`.
fn held_bytes(pending: &str, sentinel: &str) -> (held: usize)
    requires
        sentinel@.len() > 0,
        can_scan(pending@, sentinel@),
        search::first_of(pending@, sentinel@) is None,
    ensures
        held <= offsets::byte_len(pending@),
        offsets::is_offset_of(
            pending@,
            offsets::byte_len(pending@) - held,
            pending@.len() - overlap(pending@, sentinel@),
        ),
{
    let ghost p = pending@;
    let ghost s = sentinel@;
    let total: usize = pending.as_bytes().len();
    let length: usize = sentinel.as_bytes().len();
    proof {
        offsets::lemma_byte_len_at_least(s);
        lemma_overlap(p, s);
        assert forall|c: int| #[trigger] is_overlap(p, s, c) implies offsets::byte_len(s.take(c))
            <= total && offsets::byte_len(s.take(c)) < length by {
            offsets::lemma_encode_split(p, p.len() - c);
            offsets::lemma_encode_split(s, c);
            offsets::lemma_byte_len_at_least(s.skip(c));
        }
    }
    let mut k: usize = if total < length - 1 {
        total
    } else {
        length - 1
    };
    while k > 0
        invariant
            p == pending@,
            s == sentinel@,
            s.len() > 0,
            can_scan(p, s),
            search::first_of(p, s) is None,
            total == offsets::byte_len(p),
            length == offsets::byte_len(s),
            k <= total,
            k < length,
            forall|c: int| #[trigger]
                is_overlap(p, s, c) ==> offsets::byte_len(s.take(c)) <= k,
        decreases k,
    {
        if pending.is_char_boundary(total - k) {
            let ghost j = offsets::lemma_boundary_is_offset(p, total - k);
            let ghost m = choose|m: int| offsets::is_offset_of(s, k as int, m);
            proof {
                lemma_overlap(p, s);
                offsets::lemma_encode_split(p, j);
                let o = overlap(p, s);
                offsets::lemma_encode_split(p, p.len() - o);
                if is_ascii_chars(s) {
                    is_ascii_chars_encode_utf8(s);
                    lemma_ascii_offset(s, k as int);
                } else if offsets::byte_len(s.take(o)) == k {
                    assert(offsets::is_offset_of(s, k as int, o));
                } else {
                    if j >= p.len() - o {
                        if j > p.len() - o {
                            offsets::lemma_offset_monotone(p, p.len() - o, j);
                        }
                        assert(false);
                    }
                    assert(offsets::byte_len(p.skip(j)) == k);
                }
            }
            let tail = offsets::cut(pending, total - k).1;
            let head = offsets::cut(sentinel, k).0;
            assert(tail@ == p.skip(j));
            assert(head@ == s.take(m));
            if search::bytes_at(tail.as_bytes(), 0, head.as_bytes()) {
                proof {
                    let t = encode_utf8(tail@);
                    assert(t.skip(0) == t);
                    assert(encode_utf8(head@) =~= t);
                    offsets::lemma_encode_injective(head@, tail@);
                    offsets::lemma_encode_split(s, m);
                    assert(m < s.len());
                    assert(p.len() - j == m);
                    assert(is_overlap(p, s, m));
                    let o = overlap(p, s);
                    if m < o {
                        offsets::lemma_offset_monotone(s, m, o);
                    }
                    assert(o == m);
                }
                return k;
            }
            proof {
                assert forall|c: int| #[trigger] is_overlap(p, s, c) implies offsets::byte_len(
                    s.take(c),
                ) <= k - 1 by {
                    if offsets::byte_len(s.take(c)) == k {
                        offsets::lemma_encode_split(p, p.len() - c);
                        if c < m {
                            offsets::lemma_offset_monotone(s, c, m);
                        } else if m < c {
                            offsets::lemma_offset_monotone(s, m, c);
                        }
                        if j < p.len() - c {
                            offsets::lemma_offset_monotone(p, j, p.len() - c);
                        } else if p.len() - c < j {
                            offsets::lemma_offset_monotone(p, p.len() - c, j);
                        }
                        assert(tail@ == head@);
                        let t = encode_utf8(tail@);
                        assert(t.skip(0) == t);
                        assert(t.is_prefix_of(t));
                    }
                }
            }
        } else {
            proof {
                assert forall|c: int| #[trigger] is_overlap(p, s, c) implies offsets::byte_len(
                    s.take(c),
                ) <= k - 1 by {
                    if offsets::byte_len(s.take(c)) == k {
                        offsets::lemma_encode_split(p, p.len() - c);
                        offsets::lemma_offset_is_boundary(p, p.len() - c);
                    }
                }
            }
        }
        k -= 1;
    }
    proof {
        lemma_overlap(p, s);
        let o = overlap(p, s);
        offsets::lemma_byte_len_at_least(s.take(o));
        assert(o == 0);
        assert(p.take(p.len() as int) == p);
    }
    0
}

/// Looks for `sentinel` in the incremental text `pending`.
///
/// Where the whole sentinel is there, the result is its byte offset. Where it is not, the longest
/// end of `pending` that is a start of `sentinel` has to wait, and the result says how many bytes
/// stand before it. Both offsets fall between two characters.
pub fn scan_for_sentinel(pending: &str, sentinel: &str) -> (scan: SentinelScan)
    requires
        can_scan(pending@, sentinel@),
    ensures
        scan_result(pending@, sentinel@, scan),
{
    if let Some(idx) = search::find(pending, sentinel) {
        return SentinelScan::Found { idx };
    }
    proof {
        if sentinel@.len() == 0 {
            assert(search::occurs_at(pending@, sentinel@, 0));
        }
    }
    let hold: usize = held_bytes(pending, sentinel);
    SentinelScan::Partial { flush_len: pending.as_bytes().len() - hold }
}

/// What `overlap_any` returns: the longest overlap with any sentinel.
pub proof fn lemma_overlap_any(text: Seq<char>, sentinels: Seq<Seq<char>>)
    ensures
        0 <= overlap_any(text, sentinels) <= text.len(),
        forall|k: int, c: int|
            0 <= k < sentinels.len() && #[trigger] is_overlap(text, sentinels[k], c) ==> c
                <= overlap_any(text, sentinels),
        overlap_any(text, sentinels) > 0 ==> exists|k: int|
            0 <= k < sentinels.len() && is_overlap(
                text,
                #[trigger] sentinels[k],
                overlap_any(text, sentinels),
            ),
    decreases sentinels.len(),
{
    if sentinels.len() > 0 {
        let init = sentinels.drop_last();
        lemma_overlap_any(text, init);
        lemma_overlap(text, sentinels.last());
        assert forall|k: int, c: int|
            0 <= k < sentinels.len() && #[trigger] is_overlap(text, sentinels[k], c) implies c
            <= overlap_any(text, sentinels) by {
            if k < init.len() {
                assert(is_overlap(text, init[k], c));
            }
        }
        let o = overlap_any(text, sentinels);
        if o > 0 {
            if overlap_any(text, init) == o {
                let k = choose|k: int| 0 <= k < init.len() && is_overlap(text, #[trigger] init[k], o);
                assert(is_overlap(text, sentinels[k], o));
            } else {
                assert(sentinels.last().len() > 0);
                assert(is_overlap(text, sentinels[sentinels.len() - 1], o));
            }
        }
    }
}

/// What a search of `pending` for any of `sentinels` returns.
pub open spec fn scan_any_result(
    pending: Seq<char>,
    sentinels: Seq<Seq<char>>,
    scan: SentinelScan,
) -> bool {
    match search::first_of_any(pending, sentinels) {
        Some((i, _)) => scan matches SentinelScan::Found { idx } && offsets::is_offset_of(
            pending,
            idx as int,
            i,
        ),
        None => scan matches SentinelScan::Partial { flush_len } && offsets::is_offset_of(
            pending,
            flush_len as int,
            pending.len() - overlap_any(pending, sentinels),
        ),
    }
}

/// Looks for any of `sentinels` in the incremental text `pending`.
///
/// Where some sentinel is there, the result is the byte offset of the earliest. Where none is,
/// what has to wait is the longest end of `pending` that is a start of any sentinel, so that no
/// sentinel that is cut in two by the end of `pending` is missed.
pub fn scan_for_any_sentinel(pending: &str, sentinels: &[&str]) -> (scan: SentinelScan)
    requires
        forall|k: int| 0 <= k < sentinels@.len() ==> is_ascii_chars((#[trigger] sentinels@[k])@),
    ensures
        scan_any_result(pending@, search::views(sentinels@), scan),
{
    let ghost p = pending@;
    let ghost all = search::views(sentinels@);
    if let Some((idx, _)) = search::find_any(pending, sentinels) {
        return SentinelScan::Found { idx };
    }
    proof {
        search::lemma_first_of_any(p, all);
    }
    let total: usize = pending.as_bytes().len();
    let mut hold: usize = 0;
    let mut k: usize = 0;
    assert(p.take(p.len() as int) == p);
    while k < sentinels.len()
        invariant
            k <= sentinels@.len(),
            p == pending@,
            all == search::views(sentinels@),
            total == offsets::byte_len(p),
            hold <= total,
            forall|k: int| 0 <= k < sentinels@.len() ==> is_ascii_chars((#[trigger] sentinels@[k])@),
            forall|j: int| !search::any_occurs_at(p, all, j),
            offsets::is_offset_of(
                p,
                total - hold,
                p.len() - overlap_any(p, all.take(k as int)),
            ),
        decreases sentinels@.len() - k,
    {
        let sentinel: &str = sentinels[k];
        proof {
            assert(all.take(k + 1).drop_last() == all.take(k as int));
            assert(all.take(k + 1).last() == all[k as int]);
            assert(all[k as int] == sentinel@);
            assert forall|j: int| !search::occurs_at(p, sentinel@, j) by {
                if search::occurs_at(p, all[k as int], j) {
                    assert(search::any_occurs_at(p, all, j));
                }
            }
            search::lemma_first_of_none(p, sentinel@);
            if sentinel@.len() == 0 {
                assert(search::occurs_at(p, sentinel@, 0));
            }
        }
        let held: usize = held_bytes(pending, sentinel);
        proof {
            lemma_overlap(p, sentinel@);
            lemma_overlap_any(p, all.take(k as int));
            let a = overlap(p, sentinel@);
            let b = overlap_any(p, all.take(k as int));
            if a > b {
                offsets::lemma_offset_monotone(p, p.len() - a, p.len() - b);
            } else if b > a {
                offsets::lemma_offset_monotone(p, p.len() - b, p.len() - a);
            }
        }
        if held > hold {
            hold = held;
        }
        k += 1;
    }
    assert(all.take(k as int) == all);
    SentinelScan::Partial { flush_len: total - hold }
}

/// The state of a guard: whether it is enabled, whether it has met a marker, and the text that it
/// holds back.
#[verifier::ext_equal]
pub struct GuardState {
    pub enabled: bool,
    pub armed: bool,
    pub hold: Seq<char>,
}

/// The state of a new guard.
pub open spec fn fresh(enabled: bool) -> GuardState {
    GuardState { enabled, armed: false, hold: Seq::empty() }
}

/// What a guard does with one more piece of text: its state afterwards, and what it lets through.
pub open spec fn feed(state: GuardState, content: Seq<char>) -> (GuardState, Seq<char>) {
    let text = state.hold + content;
    if !state.enabled {
        (state, content)
    } else if state.armed {
        (GuardState { hold: text, ..state }, Seq::empty())
    } else {
        match search::first_of_any(text, markers::triggers()) {
            Some((i, _)) => (
                GuardState { armed: true, hold: text.skip(i), ..state },
                text.take(i),
            ),
            None => {
                let flushed = text.len() - overlap_any(text, markers::triggers());
                (GuardState { hold: text.skip(flushed), ..state }, text.take(flushed))
            },
        }
    }
}

/// What taking the buffer does: the state afterwards, and the text that was in the buffer.
pub open spec fn buffer_taken(state: GuardState) -> (GuardState, Seq<char>) {
    (GuardState { hold: Seq::empty(), ..state }, state.hold)
}

/// What taking the text that is still held back does: the state afterwards, and the text. An
/// armed guard keeps its buffer.
pub open spec fn unflushed_taken(state: GuardState) -> (GuardState, Seq<char>) {
    if state.armed {
        (state, Seq::empty())
    } else {
        buffer_taken(state)
    }
}

/// A guard over text that arrives in pieces.
///
/// Ordinary text passes through. Only an end that may be the start of a marker waits for the next
/// piece, so that no marker is missed because a piece ends inside it. The first marker arms the
/// guard: from there on all text goes to the buffer, to be parsed as tool calls at the end.
#[derive(Debug)]
pub struct AntmlStreamGuard {
    enabled: bool,
    armed: bool,
    hold: String,
}

impl View for AntmlStreamGuard {
    type V = GuardState;

    closed spec fn view(&self) -> GuardState {
        GuardState { enabled: self.enabled, armed: self.armed, hold: self.hold@ }
    }
}

proof fn lemma_triggers_ascii()
    ensures
        forall|k: int|
            0 <= k < markers::TRIGGER_MARKERS@.len() ==> is_ascii_chars(
                (#[trigger] markers::TRIGGER_MARKERS@[k])@,
            ),
{
    reveal_strlit("\x3cantml:function_calls");
    reveal_strlit("<function_calls");
    reveal_strlit("\x3cantml:invoke");
    reveal_strlit("<invoke");
}

impl AntmlStreamGuard {
    /// A new guard. A guard that is not enabled lets everything through.
    pub fn new(enabled: bool) -> (guard: Self)
        ensures
            guard@ == fresh(enabled),
    {
        Self { enabled, armed: false, hold: String::new() }
    }

    /// Whether a marker was found, so that text goes to the buffer.
    pub fn is_armed(&self) -> (armed: bool)
        ensures
            armed == self@.armed,
    {
        self.armed
    }

    /// Takes one more piece of text and returns what is to be sent on as text now.
    pub fn feed_text(&mut self, content: &str) -> (out: String)
        ensures
            feed(old(self)@, content@) == (final(self)@, out@),
    {
        if !self.enabled {
            return content.to_owned();
        }
        self.hold.append(content);
        if self.armed {
            return String::new();
        }
        proof {
            lemma_triggers_ascii();
        }
        let ghost text = self.hold@;
        match scan_for_any_sentinel(self.hold.as_str(), &markers::TRIGGER_MARKERS) {
            SentinelScan::Found { idx } => {
                let (prose, rest) = offsets::cut(self.hold.as_str(), idx);
                let prose = prose.to_owned();
                let rest = rest.to_owned();
                self.hold = rest;
                self.armed = true;
                prose
            },
            SentinelScan::Partial { flush_len } => {
                let (flushed, rest) = offsets::cut(self.hold.as_str(), flush_len);
                let flushed = flushed.to_owned();
                let rest = rest.to_owned();
                self.hold = rest;
                flushed
            },
        }
    }

    /// Takes the buffered text, to be parsed. The buffer is empty afterwards.
    pub fn take_buffer(&mut self) -> (buffer: String)
        ensures
            buffer_taken(old(self)@) == (final(self)@, buffer@),
    {
        let mut taken = String::new();
        std::mem::swap(&mut self.hold, &mut taken);
        taken
    }

    /// Takes the text that is still held back where no marker was found: it is ordinary text
    /// after all.
    pub fn take_unflushed_text(&mut self) -> (text: String)
        ensures
            unflushed_taken(old(self)@) == (final(self)@, text@),
    {
        if self.armed {
            String::new()
        } else {
            let mut taken = String::new();
            std::mem::swap(&mut self.hold, &mut taken);
            taken
        }
    }
}

} // verus!
