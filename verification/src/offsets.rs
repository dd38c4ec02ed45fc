//! Cutting UTF-8 text at character positions.
//!
//! The contracts of this crate speak of text as a sequence of characters. The code works on
//! byte offsets. The lemmas here relate the two.
use vstd::prelude::*;
use vstd::string::*;
use vstd::utf8::*;

verus! {

/// The number of bytes that the UTF-8 encoding of `chars` takes.
pub open spec fn byte_len(chars: Seq<char>) -> nat {
    encode_utf8(chars).len()
}

/// `offset` is the byte offset of the character position `i` in `chars`.
pub open spec fn is_offset_of(chars: Seq<char>, offset: int, i: int) -> bool {
    0 <= i <= chars.len() && offset == byte_len(chars.take(i))
}

/// Encoding distributes over concatenation.
pub proof fn lemma_encode_concat(a: Seq<char>, b: Seq<char>)
    ensures
        encode_utf8(a + b) == encode_utf8(a) + encode_utf8(b),
    decreases a.len(),
{
    if a.len() == 0 {
        assert(a + b == b);
        assert(encode_utf8(a) + encode_utf8(b) == encode_utf8(b));
    } else {
        lemma_encode_concat(a.drop_first(), b);
        assert((a + b).drop_first() == a.drop_first() + b);
        assert((a + b)[0] == a[0]);
        let first = encode_scalar(a[0] as u32);
        assert(first + (encode_utf8(a.drop_first()) + encode_utf8(b)) == (first + encode_utf8(
            a.drop_first(),
        )) + encode_utf8(b));
    }
}

/// The encoding of a text is that of its first `i` characters followed by that of the others.
pub proof fn lemma_encode_split(chars: Seq<char>, i: int)
    requires
        0 <= i <= chars.len(),
    ensures
        encode_utf8(chars) == encode_utf8(chars.take(i)) + encode_utf8(chars.skip(i)),
        byte_len(chars) == byte_len(chars.take(i)) + byte_len(chars.skip(i)),
        encode_utf8(chars).take(byte_len(chars.take(i)) as int) == encode_utf8(chars.take(i)),
        encode_utf8(chars).skip(byte_len(chars.take(i)) as int) == encode_utf8(chars.skip(i)),
{
    assert(chars == chars.take(i) + chars.skip(i));
    lemma_encode_concat(chars.take(i), chars.skip(i));
}

/// Two texts with the same encoding are the same text.
pub proof fn lemma_encode_injective(a: Seq<char>, b: Seq<char>)
    requires
        encode_utf8(a) == encode_utf8(b),
    ensures
        a == b,
{
    encode_utf8_decode_utf8(a);
    encode_utf8_decode_utf8(b);
}

/// Every character takes at least one byte.
pub proof fn lemma_byte_len_at_least(chars: Seq<char>)
    ensures
        byte_len(chars) >= chars.len(),
    decreases chars.len(),
{
    if chars.len() > 0 {
        lemma_byte_len_at_least(chars.drop_first());
    }
}

/// Offsets grow strictly with positions.
pub proof fn lemma_offset_monotone(chars: Seq<char>, i: int, j: int)
    requires
        0 <= i < j <= chars.len(),
    ensures
        byte_len(chars.take(i)) < byte_len(chars.take(j)),
{
    lemma_encode_split(chars.take(j), i);
    assert(chars.take(j).take(i) == chars.take(i));
    lemma_byte_len_at_least(chars.take(j).skip(i));
}

/// The encoding of one text begins with that of another exactly when the texts themselves do.
pub proof fn lemma_encode_prefix(prefix: Seq<char>, chars: Seq<char>)
    ensures
        encode_utf8(prefix).is_prefix_of(encode_utf8(chars)) <==> prefix.is_prefix_of(chars),
    decreases prefix.len(),
{
    let p = encode_utf8(prefix);
    let c = encode_utf8(chars);
    if prefix.is_prefix_of(chars) {
        lemma_encode_split(chars, prefix.len() as int);
        assert(chars.take(prefix.len() as int) == prefix);
    } else if p.is_prefix_of(c) {
        assert(prefix.len() > 0);
        lemma_byte_len_at_least(prefix);
        assert(chars.len() > 0);
        encode_utf8_first_scalar(prefix);
        encode_utf8_first_scalar(chars);
        assert(p =~= c.subrange(0, p.len() as int));
        assert(p[0] == c[0]);
        let n = length_of_first_scalar(p);
        assert(n == length_of_first_scalar(c));
        assert(forall|k: int| 0 <= k < n ==> p[k] == c[k]);
        assert(decode_first_scalar(p) == decode_first_scalar(c));
        char_u32_cast(prefix[0], decode_first_scalar(p));
        char_u32_cast(chars[0], decode_first_scalar(p));
        let prefix_rest = encode_utf8(prefix.drop_first());
        let chars_rest = encode_utf8(chars.drop_first());
        assert(prefix_rest =~= p.skip(n));
        assert(chars_rest =~= c.skip(n));
        assert(prefix_rest =~= chars_rest.subrange(0, prefix_rest.len() as int));
        lemma_encode_prefix(prefix.drop_first(), chars.drop_first());
        assert(prefix =~= seq![prefix[0]] + prefix.drop_first());
        assert(chars =~= seq![chars[0]] + chars.drop_first());
        assert(prefix =~= chars.subrange(0, prefix.len() as int));
    }
}

/// Character positions sit on character boundaries of the encoding.
pub proof fn lemma_offset_is_boundary(chars: Seq<char>, i: int)
    requires
        0 <= i <= chars.len(),
    ensures
        is_char_boundary(encode_utf8(chars), byte_len(chars.take(i)) as int),
    decreases i,
{
    encode_utf8_valid_utf8(chars);
    if i > 0 {
        encode_utf8_first_scalar(chars);
        let rest = chars.drop_first();
        lemma_offset_is_boundary(rest, i - 1);
        let bytes = encode_utf8(chars);
        assert(pop_first_scalar(bytes) =~= encode_utf8(rest));
        assert(chars.take(i).drop_first() == rest.take(i - 1));
        assert(chars.take(i)[0] == chars[0]);
        lemma_encode_split(chars, i);
    }
}

/// Every character boundary of the encoding is the offset of some character position.
pub proof fn lemma_boundary_is_offset(chars: Seq<char>, offset: int) -> (i: int)
    requires
        is_char_boundary(encode_utf8(chars), offset),
    ensures
        is_offset_of(chars, offset, i),
    decreases chars.len(),
{
    encode_utf8_valid_utf8(chars);
    if offset == 0 {
        assert(byte_len(chars.take(0)) == 0);
        0
    } else {
        assert(chars.len() > 0);
        encode_utf8_first_scalar(chars);
        let rest = chars.drop_first();
        let bytes = encode_utf8(chars);
        assert(pop_first_scalar(bytes) =~= encode_utf8(rest));
        let j = lemma_boundary_is_offset(rest, offset - length_of_first_scalar(bytes));
        let i = j + 1;
        assert(chars.take(i).drop_first() == rest.take(j));
        assert(chars.take(i)[0] == chars[0]);
        i
    }
}

/// Cuts `text` in two at a byte offset that is the offset of a character position.
pub(crate) fn cut(text: &str, offset: usize) -> (parts: (&str, &str))
    requires
        exists|i: int| is_offset_of(text@, offset as int, i),
    ensures
        forall|i: int|
            #[trigger] is_offset_of(text@, offset as int, i) ==> parts.0@ == text@.take(i)
                && parts.1@ == text@.skip(i),
{
    proof {
        let i = choose|i: int| is_offset_of(text@, offset as int, i);
        lemma_offset_is_boundary(text@, i);
    }
    let parts = text.split_at(offset);
    proof {
        assert forall|i: int| #[trigger] is_offset_of(text@, offset as int, i) implies parts.0@
            == text@.take(i) && parts.1@ == text@.skip(i) by {
            lemma_encode_split(text@, i);
            let bytes = encode_utf8(text@);
            assert(bytes.subrange(0, offset as int) == bytes.take(offset as int));
            assert(bytes.subrange(offset as int, bytes.len() as int) == bytes.skip(offset as int));
            lemma_encode_injective(parts.0@, text@.take(i));
            lemma_encode_injective(parts.1@, text@.skip(i));
        }
    }
    parts
}

/// The number of bytes in the encoding of the character that starts at `offset`.
pub(crate) fn width_at(text: &str, offset: usize) -> (width: usize)
    requires
        exists|i: int| is_offset_of(text@, offset as int, i) && i < text@.len(),
    ensures
        1 <= width <= 4,
        forall|i: int|
            #[trigger] is_offset_of(text@, offset as int, i) && i < text@.len() ==> is_offset_of(
                text@,
                offset + width,
                i + 1,
            ),
{
    let bytes = text.as_bytes();
    proof {
        let i = choose|i: int| is_offset_of(text@, offset as int, i) && i < text@.len();
        lemma_encode_split(text@, i);
        lemma_byte_len_at_least(text@.skip(i));
    }
    let lead: u8 = bytes[offset];
    let width: usize = if lead < 0x80 {
        1
    } else if lead < 0xe0 {
        2
    } else if lead < 0xf0 {
        3
    } else {
        4
    };
    proof {
        assert forall|i: int|
            #[trigger] is_offset_of(text@, offset as int, i) && i < text@.len() implies is_offset_of(
            text@,
            offset + width,
            i + 1,
        ) by {
            let tail = text@.skip(i);
            lemma_encode_split(text@, i);
            encode_utf8_first_scalar(tail);
            assert(encode_utf8(tail)[0] == lead);
            assert(text@.take(i + 1) == text@.take(i) + seq![text@[i]]);
            lemma_encode_concat(text@.take(i), seq![text@[i]]);
            assert(seq![text@[i]].drop_first() == Seq::<char>::empty());
            assert(encode_utf8(seq![text@[i]]) == encode_scalar(text@[i] as u32) + encode_utf8(
                Seq::<char>::empty(),
            ));
        }
    }
    width
}

} // verus!
