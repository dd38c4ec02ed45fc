//! Searching text for markers.
use vstd::prelude::*;
use vstd::string::*;
use vstd::utf8::*;

use crate::offsets;

verus! {

/// `needle` stands in `text` at character position `i`.
pub open spec fn occurs_at(text: Seq<char>, needle: Seq<char>, i: int) -> bool {
    0 <= i <= text.len() - needle.len() && needle.is_prefix_of(text.skip(i))
}

/// The first position at or after `from` at which `needle` stands in `text`.
pub open spec fn first_from(text: Seq<char>, needle: Seq<char>, from: int) -> Option<int>
    decreases text.len() + 1 - from,
{
    if from < 0 || text.len() < from {
        None
    } else if occurs_at(text, needle, from) {
        Some(from)
    } else {
        first_from(text, needle, from + 1)
    }
}

/// The first position at which `needle` stands in `text`.
pub open spec fn first_of(text: Seq<char>, needle: Seq<char>) -> Option<int> {
    first_from(text, needle, 0)
}

/// What `first_from` returns: a position of the needle with none before it, or the absence of any.
pub proof fn lemma_first_from(text: Seq<char>, needle: Seq<char>, from: int)
    requires
        0 <= from,
    ensures
        match first_from(text, needle, from) {
            Some(i) => from <= i && occurs_at(text, needle, i) && forall|j: int|
                from <= j < i ==> !occurs_at(text, needle, j),
            None => forall|j: int| from <= j ==> !occurs_at(text, needle, j),
        },
    decreases text.len() + 1 - from,
{
    if from <= text.len() && !occurs_at(text, needle, from) {
        lemma_first_from(text, needle, from + 1);
        assert forall|j: int| from <= j && first_from(text, needle, from) is None implies !occurs_at(
            text,
            needle,
            j,
        ) by {
            if j > from {
                assert(from + 1 <= j);
            }
        }
    }
}

/// A position of the needle with none before it is what `first_of` returns.
pub proof fn lemma_first_of_is(text: Seq<char>, needle: Seq<char>, i: int)
    requires
        occurs_at(text, needle, i),
        forall|j: int| 0 <= j < i ==> !occurs_at(text, needle, j),
    ensures
        first_of(text, needle) == Some(i),
{
    lemma_first_from(text, needle, 0);
}

/// Where the needle stands nowhere, `first_of` returns nothing.
pub proof fn lemma_first_of_none(text: Seq<char>, needle: Seq<char>)
    requires
        forall|j: int| !occurs_at(text, needle, j),
    ensures
        first_of(text, needle) is None,
{
    lemma_first_from(text, needle, 0);
}

/// Whether `bytes` holds `pattern` at `at`.
pub(crate) fn bytes_at(bytes: &[u8], at: usize, pattern: &[u8]) -> (found: bool)
    requires
        at <= bytes@.len(),
    ensures
        found == pattern@.is_prefix_of(bytes@.skip(at as int)),
{
    let total: usize = bytes.len();
    if total - at < pattern.len() {
        return false;
    }
    let mut k: usize = 0;
    while k < pattern.len()
        invariant
            k <= pattern@.len(),
            at + pattern@.len() <= total == bytes@.len(),
            forall|m: int| 0 <= m < k ==> bytes@[at + m] == pattern@[m],
        decreases pattern@.len() - k,
    {
        if bytes[at + k] != pattern[k] {
            assert(bytes@.skip(at as int)[k as int] != pattern@[k as int]);
            return false;
        }
        k += 1;
    }
    assert(pattern@ =~= bytes@.skip(at as int).subrange(0, pattern@.len() as int));
    true
}

/// Whether `text` begins with `prefix`.
pub(crate) fn starts_with(text: &str, prefix: &str) -> (begins: bool)
    ensures
        begins == prefix@.is_prefix_of(text@),
{
    proof {
        offsets::lemma_encode_prefix(prefix@, text@);
        assert(encode_utf8(text@).skip(0) == encode_utf8(text@));
    }
    bytes_at(text.as_bytes(), 0, prefix.as_bytes())
}

/// Whether two texts are the same.
pub(crate) fn same(a: &str, b: &str) -> (equal: bool)
    ensures
        equal == (a@ == b@),
{
    if a.as_bytes().len() != b.as_bytes().len() {
        return false;
    }
    proof {
        if b@.is_prefix_of(a@) {
            offsets::lemma_encode_prefix(b@, a@);
            assert(encode_utf8(b@) =~= encode_utf8(a@));
            offsets::lemma_encode_injective(a@, b@);
        }
        if a@ == b@ {
            assert(b@.is_prefix_of(a@));
        }
    }
    starts_with(a, b)
}

/// The byte offset of the first place at which `needle` stands in `text`. The offset of its end
/// fits in a `usize` too.
pub(crate) fn find(text: &str, needle: &str) -> (found: Option<usize>)
    ensures
        match first_of(text@, needle@) {
            Some(i) => {
                &&& found matches Some(at)
                &&& offsets::is_offset_of(text@, at as int, i)
                &&& at + offsets::byte_len(needle@) <= usize::MAX
            },
            None => found is None,
        },
{
    let bytes = text.as_bytes();
    let pattern = needle.as_bytes();
    let mut at: usize = 0;
    let ghost mut i: int = 0;
    assert(text@.take(0) == Seq::<char>::empty());
    while at < bytes.len()
        invariant
            bytes@ == encode_utf8(text@),
            pattern@ == encode_utf8(needle@),
            offsets::is_offset_of(text@, at as int, i),
            first_of(text@, needle@) == first_from(text@, needle@, i),
        decreases bytes@.len() - at,
    {
        proof {
            offsets::lemma_encode_split(text@, i);
            offsets::lemma_encode_prefix(needle@, text@.skip(i));
            if i == text@.len() {
                assert(text@.skip(i) == Seq::<char>::empty());
            }
        }
        if bytes_at(bytes, at, pattern) {
            assert(occurs_at(text@, needle@, i));
            return Some(at);
        }
        let width: usize = offsets::width_at(text, at);
        proof {
            assert(offsets::is_offset_of(text@, at + width, i + 1));
            offsets::lemma_encode_split(text@, i + 1);
            i = i + 1;
        }
        at += width;
    }
    proof {
        offsets::lemma_encode_split(text@, i);
        offsets::lemma_byte_len_at_least(text@.skip(i));
        assert(i == text@.len());
        offsets::lemma_byte_len_at_least(needle@);
    }
    if pattern.len() == 0 {
        assert(occurs_at(text@, needle@, i));
        Some(at)
    } else {
        proof {
            if needle@.len() == 0 {
                assert(pattern@.len() == 0);
            }
            assert(!occurs_at(text@, needle@, i));
            assert(first_from(text@, needle@, i + 1) is None);
        }
        None
    }
}

/// The texts that `texts` holds.
pub open spec fn views(texts: Seq<&str>) -> Seq<Seq<char>> {
    Seq::new(texts.len(), |k: int| texts[k]@)
}

/// The first position at which any of `needles` stands in `text`, and the length of the needle
/// that stands there. Of two needles that stand at one position the one earlier in `needles`
/// counts.
pub open spec fn first_of_any(text: Seq<char>, needles: Seq<Seq<char>>) -> Option<(int, int)>
    decreases needles.len(),
{
    if needles.len() == 0 {
        None
    } else {
        let earlier = first_of_any(text, needles.drop_last());
        match first_of(text, needles.last()) {
            Some(i) => match earlier {
                Some((j, n)) if j <= i => Some((j, n)),
                _ => Some((i, needles.last().len() as int)),
            },
            None => earlier,
        }
    }
}

/// Some one of `needles` stands in `text` at position `i`.
pub open spec fn any_occurs_at(text: Seq<char>, needles: Seq<Seq<char>>, i: int) -> bool {
    exists|k: int| 0 <= k < needles.len() && occurs_at(text, #[trigger] needles[k], i)
}

/// What `first_of_any` returns: a needle with none before it, or the absence of any.
pub proof fn lemma_first_of_any(text: Seq<char>, needles: Seq<Seq<char>>)
    ensures
        match first_of_any(text, needles) {
            Some((i, n)) => {
                &&& forall|j: int| j < i ==> !any_occurs_at(text, needles, j)
                &&& exists|k: int|
                    0 <= k < needles.len() && n == (#[trigger] needles[k]).len() && occurs_at(
                        text,
                        needles[k],
                        i,
                    )
            },
            None => forall|j: int| !any_occurs_at(text, needles, j),
        },
    decreases needles.len(),
{
    if needles.len() > 0 {
        let init = needles.drop_last();
        let last = needles.last();
        lemma_first_of_any(text, init);
        lemma_first_from(text, last, 0);
        assert forall|j: int| any_occurs_at(text, needles, j) implies any_occurs_at(text, init, j)
            || occurs_at(text, last, j) by {
            let k = choose|k: int|
                0 <= k < needles.len() && occurs_at(text, #[trigger] needles[k], j);
            if k < init.len() {
                assert(occurs_at(text, init[k], j));
            }
        }
        match first_of_any(text, needles) {
            Some((i, n)) => {
                if first_of_any(text, init) == Some((i, n)) {
                    let k = choose|k: int|
                        0 <= k < init.len() && n == (#[trigger] init[k]).len() && occurs_at(
                            text,
                            init[k],
                            i,
                        );
                    assert(needles[k] == init[k]);
                } else {
                    assert(needles[needles.len() - 1] == last);
                }
            },
            None => {},
        }
    }
}

/// A position of some needle with none before it is what `first_of_any` returns.
pub proof fn lemma_first_of_any_is(text: Seq<char>, needles: Seq<Seq<char>>, i: int)
    requires
        any_occurs_at(text, needles, i),
        forall|j: int| 0 <= j < i ==> !any_occurs_at(text, needles, j),
    ensures
        first_of_any(text, needles) matches Some((j, n)) && j == i,
{
    lemma_first_of_any(text, needles);
    if first_of_any(text, needles) is Some {
        let (p, n) = first_of_any(text, needles)->0;
        let k = choose|k: int|
            0 <= k < needles.len() && n == (#[trigger] needles[k]).len() && occurs_at(
                text,
                needles[k],
                p,
            );
        assert(occurs_at(text, needles[k], p));
        assert(any_occurs_at(text, needles, p));
    }
}

/// Where no needle stands anywhere, `first_of_any` returns nothing.
pub proof fn lemma_first_of_any_none(text: Seq<char>, needles: Seq<Seq<char>>)
    requires
        forall|j: int| !any_occurs_at(text, needles, j),
    ensures
        first_of_any(text, needles) is None,
{
    lemma_first_of_any(text, needles);
    if first_of_any(text, needles) is Some {
        let (p, n) = first_of_any(text, needles)->0;
        let k = choose|k: int|
            0 <= k < needles.len() && n == (#[trigger] needles[k]).len() && occurs_at(
                text,
                needles[k],
                p,
            );
        assert(any_occurs_at(text, needles, p));
    }
}

/// Where no needle starts in `head`, a search of `head + tail` is a search of `tail`.
pub proof fn lemma_first_of_after(head: Seq<char>, tail: Seq<char>, needle: Seq<char>)
    requires
        forall|j: int| 0 <= j < head.len() ==> !occurs_at(head + tail, needle, j),
    ensures
        first_of(head + tail, needle) == match first_of(tail, needle) {
            Some(i) => Some(head.len() + i),
            None => None,
        },
{
    lemma_first_from(tail, needle, 0);
    assert forall|j: int| occurs_at(head + tail, needle, j) <==> occurs_at(
        tail,
        needle,
        j - head.len(),
    ) by {
        if head.len() <= j <= head.len() + tail.len() {
            assert((head + tail).skip(j) =~= tail.skip(j - head.len()));
        }
    }
    match first_of(tail, needle) {
        Some(i) => {
            assert(occurs_at(head + tail, needle, head.len() + i));
            lemma_first_of_is(head + tail, needle, head.len() + i);
        },
        None => {
            assert forall|j: int| !occurs_at(head + tail, needle, j) by {
                assert(!occurs_at(tail, needle, j - head.len()));
            }
            lemma_first_of_none(head + tail, needle);
        },
    }
}

/// Where no needle starts in `head`, a search of `head + tail` is a search of `tail`.
pub proof fn lemma_first_of_any_after(head: Seq<char>, tail: Seq<char>, needles: Seq<Seq<char>>)
    requires
        forall|j: int| 0 <= j < head.len() ==> !any_occurs_at(head + tail, needles, j),
    ensures
        first_of_any(head + tail, needles) == match first_of_any(tail, needles) {
            Some((i, n)) => Some((head.len() + i, n)),
            None => None,
        },
    decreases needles.len(),
{
    if needles.len() > 0 {
        let init = needles.drop_last();
        let last = needles.last();
        assert forall|j: int| 0 <= j < head.len() implies !any_occurs_at(head + tail, init, j) by {
            if any_occurs_at(head + tail, init, j) {
                let k = choose|k: int|
                    0 <= k < init.len() && occurs_at(head + tail, #[trigger] init[k], j);
                assert(occurs_at(head + tail, needles[k], j));
                assert(any_occurs_at(head + tail, needles, j));
            }
        }
        assert forall|j: int| 0 <= j < head.len() implies !occurs_at(head + tail, last, j) by {
            if occurs_at(head + tail, last, j) {
                assert(occurs_at(head + tail, needles[needles.len() - 1], j));
                assert(any_occurs_at(head + tail, needles, j));
            }
        }
        lemma_first_of_any_after(head, tail, init);
        lemma_first_of_after(head, tail, last);
    }
}

/// What stands in a text stands there too when more text follows.
pub proof fn lemma_occurs_extends(text: Seq<char>, more: Seq<char>, needle: Seq<char>, i: int)
    ensures
        occurs_at(text, needle, i) ==> occurs_at(text + more, needle, i),
        i + needle.len() <= text.len() ==> (occurs_at(text, needle, i) <==> occurs_at(
            text + more,
            needle,
            i,
        )),
{
    if 0 <= i && i + needle.len() <= text.len() {
        let n = needle.len() as int;
        assert(text.skip(i).subrange(0, n) =~= (text + more).skip(i).subrange(0, n));
    }
}

/// A tag-like needle: a `<`, and no other.
pub open spec fn tag_like(needle: Seq<char>) -> bool {
    &&& needle.len() > 0
    &&& needle[0] == '<'
    &&& forall|i: int| 0 < i < needle.len() ==> #[trigger] needle[i] != '<'
}

/// An occurrence of one of the needles starts where the text has a `<`.
pub proof fn lemma_occurrence_starts_with_angle(
    text: Seq<char>,
    needles: Seq<Seq<char>>,
    k: int,
    i: int,
)
    requires
        0 <= k < needles.len(),
        tag_like(needles[k]),
        occurs_at(text, needles[k], i),
    ensures
        text[i] == '<',
        forall|j: int| i < j < i + needles[k].len() ==> #[trigger] text[j] != '<',
{
    let n = needles[k];
    assert(n =~= text.skip(i).subrange(0, n.len() as int));
    assert(n[0] == text[i]);
    assert forall|j: int| i < j < i + n.len() implies #[trigger] text[j] != '<' by {
        assert(n[j - i] == text[j]);
    }
}

/// The byte offset of the first place at which any of `needles` stands in `text`, and the byte
/// length of the needle that stands there. The offset of its end fits in a `usize` too.
pub fn find_any(text: &str, needles: &[&str]) -> (found: Option<(usize, usize)>)
    ensures
        match first_of_any(text@, views(needles@)) {
            Some((i, n)) => {
                &&& found matches Some((at, length))
                &&& offsets::is_offset_of(text@, at as int, i)
                &&& offsets::is_offset_of(text@, at + length, i + n)
                &&& at + length <= usize::MAX
            },
            None => found is None,
        },
{
    let mut best: Option<(usize, usize)> = None;
    let mut k: usize = 0;
    let ghost all = views(needles@);
    while k < needles.len()
        invariant
            k <= needles@.len(),
            all == views(needles@),
            match first_of_any(text@, all.take(k as int)) {
                Some((i, n)) => {
                    &&& best matches Some((at, length))
                    &&& offsets::is_offset_of(text@, at as int, i)
                    &&& offsets::is_offset_of(text@, at + length, i + n)
                    &&& at + length <= usize::MAX
                },
                None => best is None,
            },
        decreases needles@.len() - k,
    {
        let needle: &str = needles[k];
        proof {
            assert(all.take(k + 1).drop_last() == all.take(k as int));
            assert(all.take(k + 1).last() == needle@);
            lemma_first_from(text@, needle@, 0);
        }
        if let Some(at) = find(text, needle) {
            let length: usize = needle.as_bytes().len();
            proof {
                let i = first_of(text@, needle@)->0;
                lemma_occurrence_offsets(text@, needle@, i);
                if let Some((j, n)) = first_of_any(text@, all.take(k as int)) {
                    if i < j {
                        offsets::lemma_offset_monotone(text@, i, j);
                    } else if j < i {
                        offsets::lemma_offset_monotone(text@, j, i);
                    }
                }
            }
            best = match best {
                Some((first, width)) => if first <= at {
                    Some((first, width))
                } else {
                    Some((at, length))
                },
                None => Some((at, length)),
            };
        }
        k += 1;
    }
    assert(all.take(k as int) == all);
    best
}

/// An occurrence of the needle ends its byte length after it starts.
pub proof fn lemma_occurrence_offsets(text: Seq<char>, needle: Seq<char>, i: int)
    requires
        occurs_at(text, needle, i),
    ensures
        offsets::is_offset_of(
            text,
            (offsets::byte_len(text.take(i)) + offsets::byte_len(needle)) as int,
            i + needle.len(),
        ),
{
    assert(text.take(i + needle.len()) =~= text.take(i) + needle);
    offsets::lemma_encode_concat(text.take(i), needle);
}

} // verus!
