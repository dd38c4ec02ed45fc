//! How the parser reads a text from one tag to the next, and what it makes of parameter values.
//!
//! Together these laws fix what is read from every text: each says what the next element of a text
//! is, and that what follows it is read as if it stood alone.
use vstd::prelude::*;
use vstd::string::*;

use crate::json;
use crate::json::JsonModel;
use crate::markers;
use crate::parse;
use crate::parse::CallModel;
use crate::parse::Element;
use crate::parse::ParsedModel;
use crate::search;
use crate::text_laws;
use crate::trim;

verus! {

/// Neither `a` nor `b` starts in `text` before position `n`.
spec fn neither_before(text: Seq<char>, a: Seq<char>, b: Seq<char>, n: int) -> bool {
    forall|j: int|
        0 <= j < n ==> !a.is_prefix_of(#[trigger] text.skip(j)) && !b.is_prefix_of(text.skip(j))
}

/// Two needles: the first place at which one of them stands.
proof fn lemma_first_of_two(text: Seq<char>, a: Seq<char>, b: Seq<char>, i: int)
    requires
        0 <= i <= text.len(),
        a.is_prefix_of(text.skip(i)) || b.is_prefix_of(text.skip(i)),
        neither_before(text, a, b, i),
    ensures
        search::first_of_any(text, seq![a, b]) == Some(
            (
                i,
                if a.is_prefix_of(text.skip(i)) {
                    a.len() as int
                } else {
                    b.len() as int
                },
            ),
        ),
{
    let needles = seq![a, b];
    text_laws::law_search_finds_the_earliest_of_all(text, needles);
    assert(needles[0] == a && needles[1] == b);
    match search::first_of_any(text, needles) {
        Some((p, n)) => {
            let k = choose|k: int|
                {
                    &&& 0 <= k < needles.len()
                    &&& (#[trigger] needles[k]).is_prefix_of(text.skip(p))
                    &&& n == needles[k].len()
                    &&& forall|m: int|
                        0 <= m < k ==> !(#[trigger] needles[m]).is_prefix_of(text.skip(p))
                };
            if p < i {
                assert(!a.is_prefix_of(text.skip(p)) && !b.is_prefix_of(text.skip(p)));
            }
            if i < p {
                assert(!needles[0].is_prefix_of(text.skip(i)));
                assert(!needles[1].is_prefix_of(text.skip(i)));
            }
            if k == 1 {
                assert(!needles[0].is_prefix_of(text.skip(p)));
            }
        },
        None => {
            assert(!needles[0].is_prefix_of(text.skip(i)));
            assert(!needles[1].is_prefix_of(text.skip(i)));
        },
    }
}

/// Two needles that stand nowhere.
proof fn lemma_none_of_two(text: Seq<char>, a: Seq<char>, b: Seq<char>)
    requires
        neither_before(text, a, b, text.len() as int + 1),
    ensures
        search::first_of_any(text, seq![a, b]) is None,
{
    let needles = seq![a, b];
    text_laws::law_search_finds_the_earliest_of_all(text, needles);
    if let Some((p, n)) = search::first_of_any(text, needles) {
        let k = choose|k: int|
            {
                &&& 0 <= k < needles.len()
                &&& (#[trigger] needles[k]).is_prefix_of(text.skip(p))
                &&& n == needles[k].len()
                &&& forall|m: int| 0 <= m < k ==> !(#[trigger] needles[m]).is_prefix_of(text.skip(p))
            };
        assert(needles[k] == a || needles[k] == b);
        assert(!a.is_prefix_of(text.skip(p)) && !b.is_prefix_of(text.skip(p)));
    }
}

/// A text without a `>` does not go on with one anywhere.
proof fn lemma_no_gt_at(tag: Seq<char>, tail: Seq<char>, j: int)
    requires
        forall|i: int| 0 <= i < tag.len() ==> #[trigger] tag[i] != '>',
        0 <= j < tag.len(),
    ensures
        !">"@.is_prefix_of((tag + tail).skip(j)),
{
    reveal_strlit(">");
    let text = (tag + tail).skip(j);
    if ">"@.is_prefix_of(text) {
        assert(">"@[0] == text.subrange(0, 1)[0]);
        assert(text[0] == tag[j]);
    }
}

/// The first `>` of a text.
proof fn lemma_first_gt(tag: Seq<char>, tail: Seq<char>)
    requires
        forall|i: int| 0 <= i < tag.len() ==> #[trigger] tag[i] != '>',
    ensures
        search::first_of(tag + ">"@ + tail, ">"@) == Some(tag.len() as int),
{
    let text = tag + ">"@ + tail;
    assert(text =~= tag + (">"@ + tail));
    assert forall|j: int| 0 <= j < tag.len() implies !">"@.is_prefix_of(#[trigger] text.skip(j)) by {
        lemma_no_gt_at(tag, ">"@ + tail, j);
    }
    text_laws::lemma_found_after(text, tag, ">"@, tail);
}

/// A text without a `>` has no first one.
proof fn lemma_no_gt(text: Seq<char>)
    requires
        forall|i: int| 0 <= i < text.len() ==> #[trigger] text[i] != '>',
    ensures
        search::first_of(text, ">"@) is None,
{
    text_laws::law_search_finds_the_earliest(text, ">"@);
    reveal_strlit(">");
    if let Some(q) = search::first_of(text, ">"@) {
        assert(text + Seq::<char>::empty() =~= text);
        lemma_no_gt_at(text, Seq::empty(), q);
    }
}

/// A text of which a part begins with a needle goes on with it there.
proof fn lemma_prefix_extends(needle: Seq<char>, part: Seq<char>, more: Seq<char>)
    requires
        needle.is_prefix_of(part),
    ensures
        needle.is_prefix_of(part + more),
{
    assert((part + more).subrange(0, needle.len() as int) =~= part.subrange(
        0,
        needle.len() as int,
    ));
}

/// The opening tag of the first element: it starts where one of the two starts of a tag stands for
/// the first time, and ends before the next `>`.
proof fn lemma_opening_of_element(
    gap: Seq<char>,
    tag: Seq<char>,
    body: Seq<char>,
    a: Seq<char>,
    b: Seq<char>,
    close: Seq<Seq<char>>,
)
    requires
        a.is_prefix_of(tag) || b.is_prefix_of(tag),
        forall|i: int| 0 <= i < tag.len() ==> #[trigger] tag[i] != '>',
        neither_before(gap + tag + ">"@ + body, a, b, gap.len() as int),
    ensures
        parse::first_element(gap + tag + ">"@ + body, seq![a, b], close) == (
        match search::first_of_any(body, close) {
            Some((c, n)) => Some(Element { tag, inner: body.take(c), rest: body.skip(c + n) }),
            None => Some(Element { tag, inner: body, rest: Seq::empty() }),
        }),
{
    let text = gap + tag + ">"@ + body;
    let region = tag + ">"@ + body;
    let g = gap.len() as int;
    reveal_strlit(">");
    assert(text.skip(g) =~= region);
    assert(region =~= tag + (">"@ + body));
    if a.is_prefix_of(tag) {
        lemma_prefix_extends(a, tag, ">"@ + body);
    } else {
        lemma_prefix_extends(b, tag, ">"@ + body);
    }
    lemma_first_of_two(text, a, b, g);
    lemma_first_gt(tag, body);
    assert(region.take(tag.len() as int) =~= tag);
    assert(region.skip(tag.len() as int + 1) =~= body);
}

/// An element with a closing tag: where one of the two closing tags stands for the first time.
proof fn lemma_closed_element(
    gap: Seq<char>,
    tag: Seq<char>,
    inner: Seq<char>,
    end: Seq<char>,
    rest: Seq<char>,
    a: Seq<char>,
    b: Seq<char>,
    c: Seq<char>,
    d: Seq<char>,
)
    requires
        a.is_prefix_of(tag) || b.is_prefix_of(tag),
        forall|i: int| 0 <= i < tag.len() ==> #[trigger] tag[i] != '>',
        neither_before(gap + tag + ">"@ + inner + end + rest, a, b, gap.len() as int),
        end == c || end == d,
        c.len() > 2 && d.len() > 2 && c[2] != d[2],
        neither_before(inner + end + rest, c, d, inner.len() as int),
    ensures
        parse::first_element(gap + tag + ">"@ + inner + end + rest, seq![a, b], seq![c, d]) == Some(
            Element { tag, inner, rest },
        ),
{
    let body = inner + end + rest;
    let n = inner.len() as int;
    assert(gap + tag + ">"@ + inner + end + rest =~= gap + tag + ">"@ + body);
    lemma_opening_of_element(gap, tag, body, a, b, seq![c, d]);
    assert(body.skip(n) =~= end + rest);
    assert(end.is_prefix_of(end)) by {
        assert(end.subrange(0, end.len() as int) =~= end);
    }
    lemma_prefix_extends(end, end, rest);
    if end != c && c.is_prefix_of(end + rest) {
        assert(c[2] == (end + rest).subrange(0, c.len() as int)[2]);
        assert((end + rest)[2] == end[2]);
    }
    lemma_first_of_two(body, c, d, n);
    assert(body.take(n) =~= inner);
    assert(body.skip(n + end.len()) =~= rest);
}

/// The third character tells the two forms of a closing tag apart.
proof fn lemma_third_characters()
    ensures
        "\x3c/antml:invoke>"@.len() > 2 && "</invoke>"@.len() > 2,
        "\x3c/antml:invoke>"@[2] != "</invoke>"@[2],
        "\x3c/antml:parameter>"@.len() > 2 && "</parameter>"@.len() > 2,
        "\x3c/antml:parameter>"@[2] != "</parameter>"@[2],
{
    reveal_strlit("\x3c/antml:invoke>");
    reveal_strlit("</invoke>");
    reveal_strlit("\x3c/antml:parameter>");
    reveal_strlit("</parameter>");
}

/// The calls that one `invoke` gives: one where its tag has a name, else none.
spec fn call_of(tag: Seq<char>, inner: Seq<char>) -> Seq<CallModel> {
    match parse::attribute(tag, "name"@) {
        Some(name) => seq![CallModel { name, input: parse::params(inner) }],
        None => Seq::empty(),
    }
}

/// The next `invoke` of a text, whatever stands before it and whatever its tag holds: its tag ends
/// at the next `>`, its inner text at the next closing `invoke` tag, and what follows that is read
/// as if it stood alone.
pub proof fn law_next_call(
    gap: Seq<char>,
    tag: Seq<char>,
    inner: Seq<char>,
    end: Seq<char>,
    rest: Seq<char>,
)
    requires
        "\x3cantml:invoke"@.is_prefix_of(tag) || "<invoke"@.is_prefix_of(tag),
        forall|i: int| 0 <= i < tag.len() ==> #[trigger] tag[i] != '>',
        forall|j: int|
            0 <= j < gap.len() ==> !"\x3cantml:invoke"@.is_prefix_of(
                #[trigger] (gap + tag + ">"@ + inner + end + rest).skip(j),
            ) && !"<invoke"@.is_prefix_of((gap + tag + ">"@ + inner + end + rest).skip(j)),
        end == "\x3c/antml:invoke>"@ || end == "</invoke>"@,
        forall|j: int|
            0 <= j < inner.len() ==> !"\x3c/antml:invoke>"@.is_prefix_of(
                #[trigger] (inner + end + rest).skip(j),
            ) && !"</invoke>"@.is_prefix_of((inner + end + rest).skip(j)),
    ensures
        parse::invokes(gap + tag + ">"@ + inner + end + rest) == (match parse::attribute(tag, "name"@) {
            Some(name) => seq![CallModel { name, input: parse::params(inner) }],
            None => Seq::empty(),
        }) + parse::invokes(rest),
{
    text_laws::law_tags();
    lemma_third_characters();
    lemma_closed_element(
        gap,
        tag,
        inner,
        end,
        rest,
        "\x3cantml:invoke"@,
        "<invoke"@,
        "\x3c/antml:invoke>"@,
        "</invoke>"@,
    );
    assert(Seq::<CallModel>::empty() + parse::invokes(rest) =~= parse::invokes(rest));
}

/// An `invoke` without a closing tag runs to the end of the text.
pub proof fn law_last_call_without_end(gap: Seq<char>, tag: Seq<char>, inner: Seq<char>)
    requires
        "\x3cantml:invoke"@.is_prefix_of(tag) || "<invoke"@.is_prefix_of(tag),
        forall|i: int| 0 <= i < tag.len() ==> #[trigger] tag[i] != '>',
        forall|j: int|
            0 <= j < gap.len() ==> !"\x3cantml:invoke"@.is_prefix_of(
                #[trigger] (gap + tag + ">"@ + inner).skip(j),
            ) && !"<invoke"@.is_prefix_of((gap + tag + ">"@ + inner).skip(j)),
        forall|j: int|
            0 <= j <= inner.len() ==> !"\x3c/antml:invoke>"@.is_prefix_of(
                #[trigger] (inner).skip(j),
            ) && !"</invoke>"@.is_prefix_of((inner).skip(j)),
    ensures
        parse::invokes(gap + tag + ">"@ + inner) == (match parse::attribute(tag, "name"@) {
            Some(name) => seq![CallModel { name, input: parse::params(inner) }],
            None => Seq::empty(),
        }),
{
    text_laws::law_tags();
    lemma_none_of_two(inner, "\x3c/antml:invoke>"@, "</invoke>"@);
    lemma_opening_of_element(
        gap,
        tag,
        inner,
        "\x3cantml:invoke"@,
        "<invoke"@,
        seq!["\x3c/antml:invoke>"@, "</invoke>"@],
    );
    lemma_empty_text();
    assert(call_of(tag, inner) + Seq::<CallModel>::empty() =~= call_of(tag, inner));
}

/// Nothing is read from an empty text.
proof fn lemma_empty_text()
    ensures
        parse::invokes(Seq::empty()) == Seq::<CallModel>::empty(),
        forall|before: Map<Seq<char>, JsonModel>| #[trigger]
            parse::params_after(before, Seq::empty()) == before,
{
    let none = Seq::<char>::empty();
    text_laws::law_tags();
    reveal_strlit("\x3cantml:invoke");
    reveal_strlit("<invoke");
    reveal_strlit("\x3cantml:parameter");
    reveal_strlit("<parameter");
    lemma_none_of_two(none, "\x3cantml:invoke"@, "<invoke"@);
    lemma_none_of_two(none, "\x3cantml:parameter"@, "<parameter"@);
}

/// A text that opens no `invoke`, or whose first `invoke` tag is never finished by a `>`, gives no
/// call.
pub proof fn law_no_call_in_unfinished_text(text: Seq<char>, i: int)
    requires
        0 <= i <= text.len() + 1,
        forall|j: int|
            0 <= j < i ==> !"\x3cantml:invoke"@.is_prefix_of(
                #[trigger] (text).skip(j),
            ) && !"<invoke"@.is_prefix_of((text).skip(j)),
        forall|j: int| i <= j < text.len() ==> #[trigger] text[j] != '>',
    ensures
        parse::invokes(text) == Seq::<CallModel>::empty(),
{
    text_laws::law_tags();
    lemma_no_element(
        text,
        i,
        "\x3cantml:invoke"@,
        "<invoke"@,
        markers::invoke_close(),
    );
}

/// A text that opens no element, or whose first opening tag is never finished.
proof fn lemma_no_element(
    text: Seq<char>,
    i: int,
    a: Seq<char>,
    b: Seq<char>,
    close: Seq<Seq<char>>,
)
    requires
        0 <= i <= text.len() + 1,
        neither_before(text, a, b, i),
        forall|j: int| i <= j < text.len() ==> #[trigger] text[j] != '>',
    ensures
        parse::first_element(text, seq![a, b], close) is None,
{
    let needles = seq![a, b];
    text_laws::law_search_finds_the_earliest_of_all(text, needles);
    if let Some((p, n)) = search::first_of_any(text, needles) {
        let k = choose|k: int|
            {
                &&& 0 <= k < needles.len()
                &&& (#[trigger] needles[k]).is_prefix_of(text.skip(p))
                &&& n == needles[k].len()
                &&& forall|m: int| 0 <= m < k ==> !(#[trigger] needles[m]).is_prefix_of(text.skip(p))
            };
        assert(needles[k] == a || needles[k] == b);
        if p < i {
            assert(!a.is_prefix_of(text.skip(p)) && !b.is_prefix_of(text.skip(p)));
        }
        let region = text.skip(p);
        assert forall|j: int| 0 <= j < region.len() implies #[trigger] region[j] != '>' by {
            assert(text[j + p] != '>');
        }
        lemma_no_gt(region);
    }
}

/// The fields of the parameters in a text.
pub open spec fn fields_of(text: Seq<char>) -> Map<Seq<char>, JsonModel> {
    parse::params_after(Map::empty(), text)
}

/// The input of a call is the object of its parameters.
pub proof fn law_input_is_an_object(text: Seq<char>)
    ensures
        parse::params(text) == JsonModel::Object(fields_of(text)),
{
}

/// The fields of a parameter and of what follows it. What follows counts where it has the same name.
spec fn with_param(
    tag: Seq<char>,
    value: Seq<char>,
    others: Map<Seq<char>, JsonModel>,
) -> Map<Seq<char>, JsonModel> {
    match parse::attribute(tag, "name"@) {
        Some(name) if !others.contains_key(name) => others.insert(name, parse::coerced(value)),
        _ => others,
    }
}

/// The fields that a text adds do not depend on those that are there.
proof fn lemma_fields_added(before: Map<Seq<char>, JsonModel>, text: Seq<char>)
    ensures
        parse::params_after(before, text) == before.union_prefer_right(fields_of(text)),
    decreases text.len(),
{
    let po = markers::param_open();
    let pc = markers::param_close();
    let none = Map::<Seq<char>, JsonModel>::empty();
    parse::lemma_first_element(text, po, pc);
    match parse::first_element(text, po, pc) {
        None => {
            assert(before.union_prefer_right(none) =~= before);
        },
        Some(e) => match parse::attribute(e.tag, "name"@) {
            Some(name) => {
                let value = parse::coerced(e.inner);
                let more = fields_of(e.rest);
                lemma_fields_added(before.insert(name, value), e.rest);
                lemma_fields_added(none.insert(name, value), e.rest);
                assert(before.insert(name, value).union_prefer_right(more)
                    =~= before.union_prefer_right(
                    none.insert(name, value).union_prefer_right(more),
                ));
            },
            None => {
                lemma_fields_added(before, e.rest);
            },
        },
    }
}

/// The fields of a text whose first element is known.
proof fn lemma_fields_of_element(text: Seq<char>, tag: Seq<char>, value: Seq<char>, rest: Seq<char>)
    requires
        parse::first_element(text, markers::param_open(), markers::param_close()) == Some(
            Element { tag, inner: value, rest },
        ),
    ensures
        fields_of(text) == with_param(tag, value, fields_of(rest)),
{
    let none = Map::<Seq<char>, JsonModel>::empty();
    let others = fields_of(rest);
    match parse::attribute(tag, "name"@) {
        Some(name) => {
            let first = none.insert(name, parse::coerced(value));
            lemma_fields_added(first, rest);
            assert(first.union_prefer_right(others) =~= with_param(tag, value, others));
        },
        None => {},
    }
}

/// The next parameter of a text, whatever stands before it and whatever its tag holds: its tag ends
/// at the next `>`, its text at the next closing `parameter` tag, and what follows that is read as
/// if it stood alone.
pub proof fn law_next_parameter(
    gap: Seq<char>,
    tag: Seq<char>,
    value: Seq<char>,
    end: Seq<char>,
    rest: Seq<char>,
)
    requires
        "\x3cantml:parameter"@.is_prefix_of(tag) || "<parameter"@.is_prefix_of(tag),
        forall|i: int| 0 <= i < tag.len() ==> #[trigger] tag[i] != '>',
        forall|j: int|
            0 <= j < gap.len() ==> !"\x3cantml:parameter"@.is_prefix_of(
                #[trigger] (gap + tag + ">"@ + value + end + rest).skip(j),
            ) && !"<parameter"@.is_prefix_of((gap + tag + ">"@ + value + end + rest).skip(j)),
        end == "\x3c/antml:parameter>"@ || end == "</parameter>"@,
        forall|j: int|
            0 <= j < value.len() ==> !"\x3c/antml:parameter>"@.is_prefix_of(
                #[trigger] (value + end + rest).skip(j),
            ) && !"</parameter>"@.is_prefix_of((value + end + rest).skip(j)),
    ensures
        fields_of(gap + tag + ">"@ + value + end + rest) == (match parse::attribute(tag, "name"@) {
            Some(name) if !fields_of(rest).contains_key(name) => fields_of(rest).insert(
                name,
                parse::coerced(value),
            ),
            _ => fields_of(rest),
        }),
{
    text_laws::law_tags();
    lemma_third_characters();
    lemma_closed_element(
        gap,
        tag,
        value,
        end,
        rest,
        "\x3cantml:parameter"@,
        "<parameter"@,
        "\x3c/antml:parameter>"@,
        "</parameter>"@,
    );
    lemma_fields_of_element(gap + tag + ">"@ + value + end + rest, tag, value, rest);
}

/// A parameter without a closing tag runs to the end of the text.
pub proof fn law_last_parameter_without_end(gap: Seq<char>, tag: Seq<char>, value: Seq<char>)
    requires
        "\x3cantml:parameter"@.is_prefix_of(tag) || "<parameter"@.is_prefix_of(tag),
        forall|i: int| 0 <= i < tag.len() ==> #[trigger] tag[i] != '>',
        forall|j: int|
            0 <= j < gap.len() ==> !"\x3cantml:parameter"@.is_prefix_of(
                #[trigger] (gap + tag + ">"@ + value).skip(j),
            ) && !"<parameter"@.is_prefix_of((gap + tag + ">"@ + value).skip(j)),
        forall|j: int|
            0 <= j <= value.len() ==> !"\x3c/antml:parameter>"@.is_prefix_of(
                #[trigger] (value).skip(j),
            ) && !"</parameter>"@.is_prefix_of((value).skip(j)),
    ensures
        fields_of(gap + tag + ">"@ + value) == (match parse::attribute(tag, "name"@) {
            Some(name) => Map::empty().insert(name, parse::coerced(value)),
            None => Map::<Seq<char>, JsonModel>::empty(),
        }),
{
    text_laws::law_tags();
    lemma_none_of_two(value, "\x3c/antml:parameter>"@, "</parameter>"@);
    lemma_opening_of_element(
        gap,
        tag,
        value,
        "\x3cantml:parameter"@,
        "<parameter"@,
        seq!["\x3c/antml:parameter>"@, "</parameter>"@],
    );
    lemma_empty_text();
    lemma_fields_of_element(gap + tag + ">"@ + value, tag, value, Seq::empty());
}

/// A text that opens no `parameter`, or whose first `parameter` tag is never finished by a `>`, has
/// no fields.
pub proof fn law_no_parameter_in_unfinished_text(text: Seq<char>, i: int)
    requires
        0 <= i <= text.len() + 1,
        forall|j: int|
            0 <= j < i ==> !"\x3cantml:parameter"@.is_prefix_of(
                #[trigger] (text).skip(j),
            ) && !"<parameter"@.is_prefix_of((text).skip(j)),
        forall|j: int| i <= j < text.len() ==> #[trigger] text[j] != '>',
    ensures
        fields_of(text) == Map::<Seq<char>, JsonModel>::empty(),
{
    text_laws::law_tags();
    lemma_no_element(
        text,
        i,
        "\x3cantml:parameter"@,
        "<parameter"@,
        markers::param_close(),
    );
}

/// One of the four markers stands at the start of a text.
spec fn starts_with_marker(text: Seq<char>) -> bool {
    ||| "\x3cantml:function_calls"@.is_prefix_of(text)
    ||| "<function_calls"@.is_prefix_of(text)
    ||| "\x3cantml:invoke"@.is_prefix_of(text)
    ||| "<invoke"@.is_prefix_of(text)
}

/// The result of parsing a text: what stands before the first marker, trimmed, and all calls from
/// there on. Where there is no such call, nothing is recovered.
pub proof fn law_parsing_starts_at_the_first_marker(prose: Seq<char>, region: Seq<char>)
    requires
        "\x3cantml:function_calls"@.is_prefix_of(region)
            || "<function_calls"@.is_prefix_of(region)
            || "\x3cantml:invoke"@.is_prefix_of(region)
            || "<invoke"@.is_prefix_of(region),
        forall|j: int|
            0 <= j < prose.len() ==> !"\x3cantml:function_calls"@.is_prefix_of(
                #[trigger] (prose + region).skip(j),
            ) && !"<function_calls"@.is_prefix_of((prose + region).skip(j)) && !"\x3cantml:invoke"@.is_prefix_of(
                (prose + region).skip(j),
            ) && !"<invoke"@.is_prefix_of((prose + region).skip(j)),
    ensures
        parse::invokes(region).len() == 0 ==> parse::parsed(prose + region) is None,
        parse::invokes(region).len() > 0 ==> parse::parsed(prose + region) == Some(
            ParsedModel { prose: trim::trimmed(prose), calls: parse::invokes(region) },
        ),
{
    let text = prose + region;
    let n = prose.len() as int;
    let t = markers::triggers();
    text_laws::law_tags();
    text_laws::law_search_finds_the_earliest_of_all(text, t);
    assert(text.skip(n) =~= region);
    assert(text.take(n) =~= prose);
    assert(t[0].is_prefix_of(text.skip(n)) || t[1].is_prefix_of(text.skip(n)) || t[2].is_prefix_of(
        text.skip(n),
    ) || t[3].is_prefix_of(text.skip(n)));
    if let Some((p, _)) = search::first_of_any(text, t) {
        let k = choose|k: int| 0 <= k < t.len() && (#[trigger] t[k]).is_prefix_of(text.skip(p));
        assert(k == 0 || k == 1 || k == 2 || k == 3);
        assert(starts_with_marker(text.skip(p)));
        assert(p == n);
    }
}

/// A text without a marker gives nothing.
pub proof fn law_no_marker_no_call(text: Seq<char>)
    requires
        forall|j: int|
            0 <= j <= text.len() ==> !"\x3cantml:function_calls"@.is_prefix_of(
                #[trigger] text.skip(j),
            ) && !"<function_calls"@.is_prefix_of(text.skip(j)) && !"\x3cantml:invoke"@.is_prefix_of(
                text.skip(j),
            ) && !"<invoke"@.is_prefix_of(text.skip(j)),
    ensures
        parse::parsed(text) is None,
{
    let t = markers::triggers();
    text_laws::law_tags();
    text_laws::law_search_finds_the_earliest_of_all(text, t);
    if let Some((p, _)) = search::first_of_any(text, t) {
        let k = choose|k: int| 0 <= k < t.len() && (#[trigger] t[k]).is_prefix_of(text.skip(p));
        assert(k == 0 || k == 1 || k == 2 || k == 3);
        assert(starts_with_marker(text.skip(p)));
    }
}

/// What a parameter's text means, where `text` is that text trimmed. A text that starts with `{` or
/// `[` is the JSON value that it reads as, whatever that value is, and stays text where it reads as
/// none. Every other text stays text.
pub proof fn law_value_of_a_parameter(raw: Seq<char>)
    ensures
        ({
            let text = trim::trimmed(raw);
            let structured = text.len() > 0 && (text[0] == '{' || text[0] == '[');
            &&& structured ==> match json::json_parse(text) {
                Some(value) => parse::coerced(raw) == value,
                None => parse::coerced(raw) == JsonModel::Text(text),
            }
            &&& !structured ==> parse::coerced(raw) == JsonModel::Text(text)
        }),
{
    lemma_looks_like_json(trim::trimmed(raw));
}

/// Choosing between a text and what it was read as goes by the first character alone.
pub proof fn law_text_or_what_it_reads_as(text: Seq<char>, read: Option<JsonModel>)
    ensures
        match read {
            Some(value) if text.len() > 0 && (text[0] == '{' || text[0] == '[') =>
                parse::value_or_text(text, read) == value,
            _ => parse::value_or_text(text, read) == JsonModel::Text(text),
        },
{
    lemma_looks_like_json(text);
}

/// A text looks like JSON where its first character says so.
proof fn lemma_looks_like_json(text: Seq<char>)
    ensures
        parse::looks_like_json(text) <==> text.len() > 0 && (text[0] == '{' || text[0] == '['),
{
    reveal_strlit("{");
    reveal_strlit("[");
    if text.len() > 0 {
        assert(text.subrange(0, 1) =~= seq![text[0]]);
        assert("{"@ =~= seq!['{']);
        assert("["@ =~= seq!['[']);
        assert(seq![text[0]][0] == text[0]);
        assert(seq!['{'][0] == '{' && seq!['['][0] == '[');
    }
}

} // verus!
