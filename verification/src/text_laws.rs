//! What searching, trimming and reading attributes mean for the text itself.
use vstd::prelude::*;
use vstd::string::*;
use vstd::utf8::*;

use crate::markers;
use crate::offsets;
use crate::parse;
use crate::search;
use crate::trim;

verus! {

/// A byte offset counts the bytes of the characters before a position.
pub proof fn law_offsets_count_bytes(text: Seq<char>, offset: int, i: int)
    ensures
        offsets::byte_len(text) == encode_utf8(text).len(),
        offsets::is_offset_of(text, offset, i) <==> 0 <= i <= text.len() && offset == encode_utf8(
            text.take(i),
        ).len(),
{
}

/// A needle stands at a position where the text goes on with it from there.
pub proof fn law_occurrence(text: Seq<char>, needle: Seq<char>, i: int)
    ensures
        search::occurs_at(text, needle, i) <==> 0 <= i <= text.len() && needle.is_prefix_of(
            text.skip(i),
        ),
{
}

/// Some needle stands at a position where the text goes on with one of them from there.
pub proof fn law_any_occurrence(text: Seq<char>, needles: Seq<Seq<char>>, i: int)
    ensures
        search::any_occurs_at(text, needles, i) <==> 0 <= i <= text.len() && exists|k: int|
            0 <= k < needles.len() && (#[trigger] needles[k]).is_prefix_of(text.skip(i)),
{
    if search::any_occurs_at(text, needles, i) {
        let k = choose|k: int|
            0 <= k < needles.len() && search::occurs_at(text, #[trigger] needles[k], i);
        assert(needles[k].is_prefix_of(text.skip(i)));
    }
    if 0 <= i <= text.len() && exists|k: int|
        0 <= k < needles.len() && (#[trigger] needles[k]).is_prefix_of(text.skip(i)) {
        let k = choose|k: int|
            0 <= k < needles.len() && (#[trigger] needles[k]).is_prefix_of(text.skip(i));
        assert(search::occurs_at(text, needles[k], i));
    }
}

/// A search finds the earliest place at which the text goes on with the needle, and nothing exactly
/// where there is no such place.
pub proof fn law_search_finds_the_earliest(text: Seq<char>, needle: Seq<char>)
    ensures
        match search::first_of(text, needle) {
            Some(i) => {
                &&& 0 <= i <= text.len()
                &&& needle.is_prefix_of(text.skip(i))
                &&& forall|j: int| 0 <= j < i ==> !needle.is_prefix_of(#[trigger] text.skip(j))
            },
            None => forall|j: int|
                0 <= j <= text.len() ==> !needle.is_prefix_of(#[trigger] text.skip(j)),
        },
{
    search::lemma_first_from(text, needle, 0);
    match search::first_of(text, needle) {
        Some(i) => {
            assert forall|j: int| 0 <= j < i implies !needle.is_prefix_of(
                #[trigger] text.skip(j),
            ) by {
                assert(!search::occurs_at(text, needle, j));
            }
        },
        None => {
            assert forall|j: int| 0 <= j <= text.len() implies !needle.is_prefix_of(
                #[trigger] text.skip(j),
            ) by {
                assert(!search::occurs_at(text, needle, j));
            }
        },
    }
}

/// A search for several needles finds the earliest place at which the text goes on with any of
/// them, and there the one that is named first. It finds nothing exactly where there is no such
/// place.
pub proof fn law_search_finds_the_earliest_of_all(text: Seq<char>, needles: Seq<Seq<char>>)
    ensures
        match search::first_of_any(text, needles) {
            Some((i, n)) => {
                &&& 0 <= i <= text.len()
                &&& exists|k: int|
                    {
                        &&& 0 <= k < needles.len()
                        &&& (#[trigger] needles[k]).is_prefix_of(text.skip(i))
                        &&& n == needles[k].len()
                        &&& forall|m: int|
                            0 <= m < k ==> !(#[trigger] needles[m]).is_prefix_of(text.skip(i))
                    }
                &&& forall|j: int, m: int|
                    0 <= j < i && 0 <= m < needles.len() ==> !(#[trigger] needles[m]).is_prefix_of(
                        #[trigger] text.skip(j),
                    )
            },
            None => forall|j: int, m: int|
                0 <= j <= text.len() && 0 <= m < needles.len() ==> !(
                #[trigger] needles[m]).is_prefix_of(#[trigger] text.skip(j)),
        },
    decreases needles.len(),
{
    if needles.len() > 0 {
        let init = needles.drop_last();
        let last = needles.last();
        law_search_finds_the_earliest_of_all(text, init);
        law_search_finds_the_earliest(text, last);
        assert(forall|m: int| 0 <= m < init.len() ==> #[trigger] needles[m] == init[m]);
        match search::first_of_any(text, needles) {
            Some((i, n)) => {
                if search::first_of_any(text, init) == Some((i, n)) && (search::first_of(
                    text,
                    last,
                ) matches Some(p) ==> i <= p) {
                    let k = choose|k: int|
                        {
                            &&& 0 <= k < init.len()
                            &&& (#[trigger] init[k]).is_prefix_of(text.skip(i))
                            &&& n == init[k].len()
                            &&& forall|m: int|
                                0 <= m < k ==> !(#[trigger] init[m]).is_prefix_of(text.skip(i))
                        };
                    assert(needles[k] == init[k]);
                    assert forall|m: int| 0 <= m < k implies !(
                    #[trigger] needles[m]).is_prefix_of(text.skip(i)) by {
                        assert(needles[m] == init[m]);
                    }
                } else {
                    let k = needles.len() - 1;
                    assert(needles[k] == last);
                    assert forall|m: int| 0 <= m < k implies !(
                    #[trigger] needles[m]).is_prefix_of(text.skip(i)) by {
                        assert(needles[m] == init[m]);
                    }
                }
            },
            None => {},
        }
    }
}

/// The texts of several strings are the texts of each, in their order.
pub proof fn law_texts_of_strings(strings: Seq<&str>, k: int)
    ensures
        search::views(strings).len() == strings.len(),
        0 <= k < strings.len() ==> search::views(strings)[k] == strings[k]@,
{
}

/// The tags, character for character.
pub proof fn law_tags()
    ensures
        markers::triggers() == seq![
            "\x3cantml:function_calls"@,
            "<function_calls"@,
            "\x3cantml:invoke"@,
            "<invoke"@,
        ],
        markers::invoke_open() == seq!["\x3cantml:invoke"@, "<invoke"@],
        markers::invoke_close() == seq!["\x3c/antml:invoke>"@, "</invoke>"@],
        markers::param_open() == seq!["\x3cantml:parameter"@, "<parameter"@],
        markers::param_close() == seq!["\x3c/antml:parameter>"@, "</parameter>"@],
{
    assert(markers::triggers() =~= seq![
        "\x3cantml:function_calls"@,
        "<function_calls"@,
        "\x3cantml:invoke"@,
        "<invoke"@,
    ]);
    assert(markers::invoke_open() =~= seq!["\x3cantml:invoke"@, "<invoke"@]);
    assert(markers::invoke_close() =~= seq!["\x3c/antml:invoke>"@, "</invoke>"@]);
    assert(markers::param_open() =~= seq!["\x3cantml:parameter"@, "<parameter"@]);
    assert(markers::param_close() =~= seq!["\x3c/antml:parameter>"@, "</parameter>"@]);
}

/// Trimming removes white space from the two ends and nothing else: what is left stands in the text
/// from `a` to `b`, everything before `a` and from `b` on is white space, and the ends of what is
/// left are not.
pub proof fn law_trimming_removes_white_space_only(text: Seq<char>)
    ensures
        exists|a: int, b: int|
            {
                &&& 0 <= a <= b <= text.len()
                &&& trim::trimmed(text) == #[trigger] text.subrange(a, b)
                &&& forall|i: int| 0 <= i < a ==> trim::white_space(#[trigger] text[i])
                &&& forall|i: int| b <= i < text.len() ==> trim::white_space(#[trigger] text[i])
                &&& a < b ==> !trim::white_space(text[a]) && !trim::white_space(text[b - 1])
            },
{
    let (a, b) = trim::lemma_trimmed_part(text);
    assert(trim::trimmed(text) == text.subrange(a, b));
}

/// A text that does not begin or end with white space stays as it is.
pub proof fn law_trimmed_text_stays(text: Seq<char>)
    requires
        text.len() > 0 ==> !trim::white_space(text[0]) && !trim::white_space(text.last()),
    ensures
        trim::trimmed(text) == text,
{
    let (a, b) = trim::lemma_trimmed_part(text);
    if text.len() > 0 {
        if a > 0 {
            assert(trim::white_space(text[0]));
        }
        if b < text.len() {
            assert(trim::white_space(text[text.len() - 1]));
        }
    }
    assert(text.subrange(0, text.len() as int) == text);
}

/// White space around a text makes no difference.
pub proof fn law_white_space_around_is_removed(before: Seq<char>, text: Seq<char>, after: Seq<char>)
    requires
        forall|i: int| 0 <= i < before.len() ==> trim::white_space(#[trigger] before[i]),
        forall|i: int| 0 <= i < after.len() ==> trim::white_space(#[trigger] after[i]),
        text.len() > 0 ==> !trim::white_space(text[0]) && !trim::white_space(text.last()),
    ensures
        trim::trimmed(before + text + after) == text,
{
    let all = before + text + after;
    let (a, b) = trim::lemma_trimmed_part(all);
    let n = before.len() as int;
    let e = n + text.len();
    assert(forall|i: int| 0 <= i < n ==> all[i] == before[i]);
    assert(forall|i: int| n <= i < e ==> all[i] == text[i - n]);
    assert(forall|i: int| e <= i < all.len() ==> all[i] == after[i - e]);
    if text.len() == 0 {
        if a < b {
            assert(trim::white_space(all[a])) by {
                if a < n {
                    assert(all[a] == before[a]);
                } else {
                    assert(all[a] == after[a - e]);
                }
            }
        }
        assert(all.subrange(a, b) =~= text);
    } else {
        assert(all[n] == text[0]);
        assert(all[e - 1] == text.last());
        if a > n {
            assert(trim::white_space(all[n]));
        }
        if b < e {
            assert(trim::white_space(all[e - 1]));
        }
        assert(a == n) by {
            if a < n {
                assert(all[a] == before[a]);
            }
        }
        assert(b == e) by {
            if b > e {
                assert(all[b - 1] == after[b - 1 - e]);
            }
        }
        assert(all.subrange(a, b) =~= text);
    }
}

/// A needle that stands in no earlier place is found where it stands.
pub proof fn lemma_found_after(text: Seq<char>, before: Seq<char>, needle: Seq<char>, tail: Seq<char>)
    requires
        text == before + needle + tail,
        forall|j: int| 0 <= j < before.len() ==> !needle.is_prefix_of(#[trigger] text.skip(j)),
    ensures
        search::first_of(text, needle) == Some(before.len() as int),
{
    let n = before.len() as int;
    assert(text.skip(n).subrange(0, needle.len() as int) =~= needle);
    assert(search::occurs_at(text, needle, n));
    assert forall|j: int| 0 <= j < n implies !search::occurs_at(text, needle, j) by {
        assert(!needle.is_prefix_of(text.skip(j)));
    }
    search::lemma_first_of_is(text, needle, n);
}

/// A text that lacks a quote holds none.
proof fn lemma_no_quote(text: Seq<char>)
    requires
        forall|i: int| 0 <= i < text.len() ==> #[trigger] text[i] != '"',
    ensures
        search::first_of(text, "\""@) is None,
{
    let quote = "\""@;
    reveal_strlit("\"");
    law_search_finds_the_earliest(text, quote);
    if let Some(q) = search::first_of(text, quote) {
        assert(text.skip(q).subrange(0, 1)[0] == text[q]);
        assert(quote[0] == text.skip(q).subrange(0, 1)[0]);
    }
}

/// The value of an attribute is what stands between its quotes, whatever it holds: `value` in
/// `attr="value"`, where that stands in a tag for the first time and `value` holds no quote.
pub proof fn law_attribute_is_what_is_quoted(
    before: Seq<char>,
    attr: Seq<char>,
    value: Seq<char>,
    after: Seq<char>,
)
    requires
        forall|i: int| 0 <= i < value.len() ==> #[trigger] value[i] != '"',
        forall|j: int|
            0 <= j < before.len() ==> !(attr + "=\""@).is_prefix_of(
                #[trigger] (before + (attr + "=\""@) + value + "\""@ + after).skip(j),
            ),
    ensures
        parse::attribute(before + (attr + "=\""@) + value + "\""@ + after, attr) == Some(value),
{
    let needle = attr + "=\""@;
    let quote = "\""@;
    let tag = before + needle + value + quote + after;
    let n = before.len() as int;
    reveal_strlit("\"");
    let tail = value + quote + after;
    assert(tag =~= before + needle + tail);
    lemma_found_after(tag, before, needle, tail);
    let rest = tag.skip(n + needle.len());
    assert(rest =~= value + quote + after);
    law_search_finds_the_earliest(rest, quote);
    let m = value.len() as int;
    assert(quote =~= rest.skip(m).subrange(0, 1));
    assert(quote.is_prefix_of(rest.skip(m)));
    let q = search::first_of(rest, quote)->0;
    if q < m {
        assert(quote =~= rest.skip(q).subrange(0, 1));
        assert(rest.skip(q).subrange(0, 1)[0] == value[q]);
    }
    assert(rest.take(m) =~= value);
}

/// An attribute that a tag does not have has no value.
pub proof fn law_absent_attribute(tag: Seq<char>, attr: Seq<char>)
    requires
        forall|j: int|
            0 <= j <= tag.len() ==> !(attr + "=\""@).is_prefix_of(#[trigger] tag.skip(j)),
    ensures
        parse::attribute(tag, attr) is None,
{
    law_search_finds_the_earliest(tag, attr + "=\""@);
}

/// An attribute whose closing quote is missing has no value.
pub proof fn law_unquoted_attribute(before: Seq<char>, attr: Seq<char>, after: Seq<char>)
    requires
        forall|i: int| 0 <= i < after.len() ==> #[trigger] after[i] != '"',
        forall|j: int|
            0 <= j < before.len() ==> !(attr + "=\""@).is_prefix_of(
                #[trigger] (before + (attr + "=\""@) + after).skip(j),
            ),
    ensures
        parse::attribute(before + (attr + "=\""@) + after, attr) is None,
{
    let needle = attr + "=\""@;
    let tag = before + needle + after;
    lemma_found_after(tag, before, needle, after);
    assert(tag.skip(before.len() + needle.len() as int) =~= after);
    lemma_no_quote(after);
}

} // verus!
