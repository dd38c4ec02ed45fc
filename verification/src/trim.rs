//! Removing white space from the ends of a text.
use vstd::prelude::*;
use vstd::string::*;

use crate::offsets;

verus! {

/// The characters with the Unicode property `White_Space`.
pub open spec fn white_space(c: char) -> bool {
    let v = c as u32;
    ||| 0x9 <= v <= 0xd
    ||| v == 0x20
    ||| v == 0x85
    ||| v == 0xa0
    ||| v == 0x1680
    ||| 0x2000 <= v <= 0x200a
    ||| v == 0x2028
    ||| v == 0x2029
    ||| v == 0x202f
    ||| v == 0x205f
    ||| v == 0x3000
}

/// `text` without the white space at its start.
pub open spec fn trimmed_start(text: Seq<char>) -> Seq<char>
    decreases text.len(),
{
    if text.len() > 0 && white_space(text[0]) {
        trimmed_start(text.drop_first())
    } else {
        text
    }
}

/// `text` without the white space at its end.
pub open spec fn trimmed_end(text: Seq<char>) -> Seq<char>
    decreases text.len(),
{
    if text.len() > 0 && white_space(text.last()) {
        trimmed_end(text.drop_last())
    } else {
        text
    }
}

/// `text` without the white space at its start and at its end.
pub open spec fn trimmed(text: Seq<char>) -> Seq<char> {
    trimmed_end(trimmed_start(text))
}

proof fn lemma_trimmed_start(text: Seq<char>, a: int)
    requires
        0 <= a <= text.len(),
        forall|i: int| 0 <= i < a ==> white_space(#[trigger] text[i]),
        a < text.len() ==> !white_space(text[a]),
    ensures
        trimmed_start(text) == text.skip(a),
    decreases a,
{
    if a == 0 {
        assert(text.skip(0) == text);
    } else {
        let rest = text.drop_first();
        assert(white_space(text[0]));
        assert forall|i: int| 0 <= i < a - 1 implies white_space(#[trigger] rest[i]) by {
            assert(rest[i] == text[i + 1]);
        }
        lemma_trimmed_start(rest, a - 1);
        assert(rest.skip(a - 1) == text.skip(a));
    }
}

proof fn lemma_trimmed_end(text: Seq<char>, b: int)
    requires
        0 <= b <= text.len(),
        forall|i: int| b <= i < text.len() ==> white_space(#[trigger] text[i]),
        b > 0 ==> !white_space(text[b - 1]),
    ensures
        trimmed_end(text) == text.take(b),
    decreases text.len() - b,
{
    if b == text.len() {
        assert(text.take(b) == text);
    } else {
        let rest = text.drop_last();
        assert(white_space(text[text.len() - 1]));
        lemma_trimmed_end(rest, b);
        assert(rest.take(b) == text.take(b));
    }
}

/// Where in the text the trimmed part stands. What stands around it is white space, and its ends
/// are not.
pub proof fn lemma_trimmed_part(text: Seq<char>) -> (part: (int, int))
    ensures
        0 <= part.0 <= part.1 <= text.len(),
        trimmed(text) == text.subrange(part.0, part.1),
        forall|i: int| 0 <= i < part.0 ==> white_space(#[trigger] text[i]),
        forall|i: int| part.1 <= i < text.len() ==> white_space(#[trigger] text[i]),
        part.0 < part.1 ==> !white_space(text[part.0]) && !white_space(text[part.1 - 1]),
{
    let a = lemma_trimmed_start_at(text);
    let rest = trimmed_start(text);
    let b = lemma_trimmed_end_at(rest);
    assert(trimmed(text) =~= text.subrange(a, a + b));
    assert forall|i: int| a + b <= i < text.len() implies white_space(#[trigger] text[i]) by {
        assert(rest[i - a] == text[i]);
    }
    (a, a + b)
}

/// Where in the text the trimmed part starts. Its ends are not white space.
pub proof fn lemma_trimmed(text: Seq<char>) -> (at: int)
    ensures
        0 <= at <= at + trimmed(text).len() <= text.len(),
        trimmed(text) == text.subrange(at, at + trimmed(text).len()),
        trimmed(text).len() > 0 ==> !white_space(trimmed(text)[0]) && !white_space(
            trimmed(text).last(),
        ),
{
    let (a, _) = lemma_trimmed_part(text);
    a
}

/// How much white space stands at the start of a text.
proof fn lemma_trimmed_start_at(text: Seq<char>) -> (a: int)
    ensures
        0 <= a <= text.len(),
        trimmed_start(text) == text.skip(a),
        forall|i: int| 0 <= i < a ==> white_space(#[trigger] text[i]),
        a < text.len() ==> !white_space(text[a]),
    decreases text.len(),
{
    if text.len() > 0 && white_space(text[0]) {
        let rest = text.drop_first();
        let a = lemma_trimmed_start_at(rest);
        assert(rest.skip(a) == text.skip(a + 1));
        assert forall|i: int| 0 <= i < a + 1 implies white_space(#[trigger] text[i]) by {
            if i > 0 {
                assert(rest[i - 1] == text[i]);
            }
        }
        a + 1
    } else {
        assert(text.skip(0) == text);
        0
    }
}

/// Where the white space at the end of a text starts.
proof fn lemma_trimmed_end_at(text: Seq<char>) -> (b: int)
    ensures
        0 <= b <= text.len(),
        trimmed_end(text) == text.take(b),
        forall|i: int| b <= i < text.len() ==> white_space(#[trigger] text[i]),
        b > 0 ==> !white_space(text[b - 1]),
    decreases text.len(),
{
    if text.len() > 0 && white_space(text.last()) {
        let rest = text.drop_last();
        let b = lemma_trimmed_end_at(rest);
        assert(rest.take(b) == text.take(b));
        assert forall|i: int| b <= i < text.len() implies white_space(#[trigger] text[i]) by {
            if i < rest.len() {
                assert(rest[i] == text[i]);
            }
        }
        b
    } else {
        assert(text.take(text.len() as int) == text);
        text.len() as int
    }
}

/// Whether `c` is white space.
pub fn is_white_space(c: char) -> (white: bool)
    ensures
        white == white_space(c),
{
    let v: u32 = c as u32;
    (0x9 <= v && v <= 0xd) || v == 0x20 || v == 0x85 || v == 0xa0 || v == 0x1680 || (0x2000 <= v
        && v <= 0x200a) || v == 0x2028 || v == 0x2029 || v == 0x202f || v == 0x205f || v == 0x3000
}

/// The part of `text` between the white space at its ends.
pub fn trim(text: &str) -> (part: &str)
    ensures
        part@ == trimmed(text@),
{
    let total: usize = text.as_bytes().len();
    let mut at: usize = 0;
    let mut seen: bool = false;
    let mut start: usize = 0;
    let mut end: usize = 0;
    // The kept part runs from position `a` to position `b`.
    let ghost mut a: int = 0;
    let ghost mut b: int = 0;
    assert(text@.take(0) == Seq::<char>::empty());
    for c in it: text.chars()
        invariant
            it.seq() == text@,
            total == offsets::byte_len(text@),
            offsets::is_offset_of(text@, at as int, it.index()),
            !seen ==> forall|i: int| 0 <= i < it.index() ==> white_space(#[trigger] text@[i]),
            seen ==> {
                &&& 0 <= a < b <= it.index()
                &&& offsets::is_offset_of(text@, start as int, a)
                &&& offsets::is_offset_of(text@, end as int, b)
                &&& !white_space(text@[a])
                &&& !white_space(text@[b - 1])
                &&& forall|i: int| 0 <= i < a ==> white_space(#[trigger] text@[i])
                &&& forall|i: int| b <= i < it.index() ==> white_space(#[trigger] text@[i])
            },
    {
        let width: usize = offsets::width_at(text, at);
        proof {
            let i = it.index() as int;
            assert(offsets::is_offset_of(text@, at + width, i + 1));
            offsets::lemma_encode_split(text@, i + 1);
        }
        if !is_white_space(c) {
            if !seen {
                seen = true;
                start = at;
                proof {
                    a = it.index() as int;
                }
            }
            end = at + width;
            proof {
                b = it.index() + 1;
            }
        }
        at += width;
    }
    if !seen {
        proof {
            lemma_trimmed_start(text@, text@.len() as int);
            assert(text@.skip(text@.len() as int) == Seq::<char>::empty());
            assert(text@.take(0) == Seq::<char>::empty());
            assert(offsets::is_offset_of(text@, 0, 0));
        }
        return offsets::cut(text, 0).0;
    }
    let (kept, _) = offsets::cut(text, end);
    proof {
        assert(kept@.take(a) == text@.take(a));
        assert(offsets::is_offset_of(kept@, start as int, a));
        lemma_trimmed_start(text@, a);
        let from = text@.skip(a);
        assert forall|i: int| b - a <= i < from.len() implies white_space(#[trigger] from[i]) by {
            assert(from[i] == text@[i + a]);
        }
        lemma_trimmed_end(from, b - a);
        assert(from.take(b - a) == text@.take(b).skip(a));
    }
    offsets::cut(kept, start).1
}

} // verus!
