//! What the parser recovers: the calls that were written, and nothing from text that holds none.
use vstd::prelude::*;
use vstd::string::*;

use crate::json;
use crate::json::JsonModel;
use crate::markers;
use crate::parse;
use crate::parse::CallModel;
use crate::parse::ParsedModel;
use crate::search;
use crate::stream;
use crate::stream_laws;
use crate::trim;

verus! {

/// None of `needles` starts in `head` where `tail` follows it.
pub open spec fn none_starts(head: Seq<char>, tail: Seq<char>, needles: Seq<Seq<char>>) -> bool {
    forall|j: int| 0 <= j < head.len() ==> !search::any_occurs_at(head + tail, needles, j)
}

/// The character `c` does not stand in `text`.
pub open spec fn lacks(text: Seq<char>, c: char) -> bool {
    forall|i: int| 0 <= i < text.len() ==> #[trigger] text[i] != c
}

/// All of `needles` are tag-like.
pub open spec fn all_tag_like(needles: Seq<Seq<char>>) -> bool {
    forall|k: int| 0 <= k < needles.len() ==> search::tag_like(#[trigger] needles[k])
}

/// A closing tag: `</`, and a `>` at the end.
pub open spec fn closing_tag(needle: Seq<char>) -> bool {
    &&& search::tag_like(needle)
    &&& needle.len() >= 2
    &&& needle[1] == '/'
    &&& needle.last() == '>'
    &&& lacks(needle, '"')
}

/// All of `needles` are closing tags, and none is the start of another.
pub open spec fn all_closing_tags(needles: Seq<Seq<char>>) -> bool {
    &&& forall|k: int| 0 <= k < needles.len() ==> closing_tag(#[trigger] needles[k])
    &&& forall|k: int, m: int|
        0 <= k < needles.len() && 0 <= m < needles.len() && k != m
            ==> !(#[trigger] needles[k]).is_prefix_of(#[trigger] needles[m])
}

/// The start of an opening tag.
pub open spec fn tag_start(needle: Seq<char>) -> bool {
    &&& search::tag_like(needle)
    &&& needle.len() >= 2
    &&& needle[1] != '/'
    &&& lacks(needle, '"')
    &&& lacks(needle, '>')
}

/// An occurrence of a tag-like needle: which one it is, and what it says of the text.
proof fn lemma_any_start(text: Seq<char>, needles: Seq<Seq<char>>, i: int) -> (k: int)
    requires
        all_tag_like(needles),
        search::any_occurs_at(text, needles, i),
    ensures
        0 <= k < needles.len(),
        search::occurs_at(text, needles[k], i),
        0 <= i < text.len(),
        text[i] == '<',
        i + needles[k].len() <= text.len(),
        forall|j: int| i < j < i + needles[k].len() ==> #[trigger] text[j] != '<',
        forall|j: int| 0 <= j < needles[k].len() ==> #[trigger] needles[k][j] == text[i + j],
{
    let k = choose|k: int|
        0 <= k < needles.len() && search::occurs_at(text, #[trigger] needles[k], i);
    search::lemma_occurrence_starts_with_angle(text, needles, k, i);
    let n = needles[k];
    assert(n =~= text.skip(i).subrange(0, n.len() as int));
    assert forall|j: int| 0 <= j < n.len() implies #[trigger] n[j] == text[i + j] by {
        assert(n[j] == text.skip(i).subrange(0, n.len() as int)[j]);
    }
    k
}

/// No needle starts in `a + b` where none starts in `a` and none in `b`.
proof fn lemma_none_starts_concat(
    a: Seq<char>,
    b: Seq<char>,
    tail: Seq<char>,
    needles: Seq<Seq<char>>,
)
    requires
        none_starts(a, b + tail, needles),
        none_starts(b, tail, needles),
    ensures
        none_starts(a + b, tail, needles),
{
    let text = (a + b) + tail;
    assert(text =~= a + (b + tail));
    assert forall|j: int| 0 <= j < (a + b).len() implies !search::any_occurs_at(text, needles, j) by {
        if j < a.len() {
            assert(!search::any_occurs_at(a + (b + tail), needles, j));
        } else {
            let i = j - a.len();
            assert(!search::any_occurs_at(b + tail, needles, i));
            if search::any_occurs_at(text, needles, j) {
                let k = choose|k: int|
                    0 <= k < needles.len() && search::occurs_at(text, #[trigger] needles[k], j);
                assert(text.skip(j) =~= (b + tail).skip(i));
                assert(search::occurs_at(b + tail, needles[k], i));
            }
        }
    }
}

/// No tag starts in a text without a `<`.
proof fn lemma_none_starts_without_angle(
    head: Seq<char>,
    tail: Seq<char>,
    needles: Seq<Seq<char>>,
)
    requires
        all_tag_like(needles),
        lacks(head, '<'),
    ensures
        none_starts(head, tail, needles),
{
    assert forall|j: int| 0 <= j < head.len() implies !search::any_occurs_at(
        head + tail,
        needles,
        j,
    ) by {
        if search::any_occurs_at(head + tail, needles, j) {
            let k = lemma_any_start(head + tail, needles, j);
            assert((head + tail)[j] == head[j]);
        }
    }
}

/// A text in which no needle stands keeps none from starting in it, where a tag follows or
/// nothing.
proof fn lemma_none_starts_before_tag(head: Seq<char>, tail: Seq<char>, needles: Seq<Seq<char>>)
    requires
        all_tag_like(needles),
        forall|j: int| !search::any_occurs_at(head, needles, j),
        tail.len() > 0 ==> tail[0] == '<',
    ensures
        none_starts(head, tail, needles),
{
    assert forall|j: int| 0 <= j < head.len() implies !search::any_occurs_at(
        head + tail,
        needles,
        j,
    ) by {
        if search::any_occurs_at(head + tail, needles, j) {
            let k = lemma_any_start(head + tail, needles, j);
            if j + needles[k].len() > head.len() {
                assert((head + tail)[head.len() as int] == '<');
            }
            search::lemma_occurs_extends(head, tail, needles[k], j);
            assert(search::any_occurs_at(head, needles, j));
        }
    }
}

/// The opening tag that begins with `start` and has the attribute `name`.
pub open spec fn opening(start: Seq<char>, name: Seq<char>) -> Seq<char> {
    start + " name=\""@ + name + "\">"@
}

/// A name that can stand between the quotes of an attribute.
pub open spec fn plain_name(name: Seq<char>) -> bool {
    lacks(name, '"') && lacks(name, '>')
}

proof fn lemma_opening(start: Seq<char>, name: Seq<char>)
    ensures
        opening(start, name).len() == start.len() + name.len() + 9,
        forall|i: int| 0 <= i < start.len() ==> #[trigger] opening(start, name)[i] == start[i],
        opening(start, name)[start.len() as int] == ' ',
        opening(start, name)[start.len() as int + 1] == 'n',
        opening(start, name)[start.len() as int + 2] == 'a',
        opening(start, name)[start.len() as int + 3] == 'm',
        opening(start, name)[start.len() as int + 4] == 'e',
        opening(start, name)[start.len() as int + 5] == '=',
        opening(start, name)[start.len() as int + 6] == '"',
        forall|i: int|
            start.len() + 7 <= i < start.len() + 7 + name.len() ==> #[trigger] opening(
                start,
                name,
            )[i] == name[i - start.len() - 7],
        opening(start, name)[start.len() as int + 7 + name.len()] == '"',
        opening(start, name)[start.len() as int + 8 + name.len()] == '>',
{
    reveal_strlit(" name=\"");
    reveal_strlit("\">");
}

proof fn lemma_opening_none_starts(
    start: Seq<char>,
    name: Seq<char>,
    tail: Seq<char>,
    needles: Seq<Seq<char>>,
)
    requires
        tag_start(start),
        plain_name(name),
        all_closing_tags(needles),
    ensures
        none_starts(opening(start, name), tail, needles),
{
    let o = opening(start, name);
    let text = o + tail;
    lemma_opening(start, name);
    let s = start.len() as int;
    let q = s + 7 + name.len();
    assert forall|j: int| 0 <= j < o.len() implies !search::any_occurs_at(text, needles, j) by {
        if search::any_occurs_at(text, needles, j) {
            let k = lemma_any_start(text, needles, j);
            let n = needles[k];
            assert(closing_tag(n));
            assert(text[j] == o[j]);
            if j == 0 {
                assert(n[1] == text[1]);
                assert(text[1] == start[1]);
            } else if j < s {
                assert(o[j] == start[j]);
            } else if j < q {
                assert(j >= s + 7);
                assert(text[q] == o[q]);
                if j + n.len() > q {
                    assert(n[q - j] == text[j + (q - j)]);
                }
                let e = n.len() - 1;
                assert(n[e] == text[j + e]);
                assert(text[j + e] == o[j + e]);
                assert(name[j + e - s - 7] == '>');
            }
        }
    }
}

/// The position of the first `>` in a text that begins with an opening tag, and its name.
proof fn lemma_opening_parts(start: Seq<char>, name: Seq<char>, tail: Seq<char>)
    requires
        tag_start(start),
        plain_name(name),
    ensures
        search::first_of(opening(start, name) + tail, ">"@) == Some(
            start.len() + 8 + name.len() as int,
        ),
        parse::attribute(
            (opening(start, name) + tail).take(start.len() + 8 + name.len() as int),
            "name"@,
        ) == Some(name),
{
    let o = opening(start, name);
    let text = o + tail;
    lemma_opening(start, name);
    reveal_strlit(">");
    let s = start.len() as int;
    let g = s + 8 + name.len();
    assert forall|j: int| 0 <= j < g implies !search::occurs_at(text, ">"@, j) by {
        if search::occurs_at(text, ">"@, j) {
            assert(">"@ =~= text.skip(j).subrange(0, 1));
            assert(">"@[0] == text.skip(j).subrange(0, 1)[0]);
            assert(text[j] == o[j]);
            if j < s {
                assert(o[j] == start[j]);
            } else if s + 7 <= j < g - 1 {
                assert(o[j] == name[j - s - 7]);
            }
        }
    }
    assert(">"@ =~= text.skip(g).subrange(0, 1));
    search::lemma_first_of_is(text, ">"@, g);
    let tag = text.take(g);
    let needle = "name"@ + "=\""@;
    reveal_strlit("name");
    reveal_strlit("=\"");
    assert(needle.len() == 6);
    assert forall|j: int| 0 <= j < s + 1 implies !search::occurs_at(tag, needle, j) by {
        if search::occurs_at(tag, needle, j) {
            assert(needle =~= tag.skip(j).subrange(0, 6));
            assert(needle[5] == tag.skip(j).subrange(0, 6)[5]);
            assert(tag[j + 5] == o[j + 5]);
            if j + 5 < s {
                assert(o[j + 5] == start[j + 5]);
            }
        }
    }
    assert(needle =~= tag.skip(s + 1).subrange(0, 6));
    search::lemma_first_of_is(tag, needle, s + 1);
    let rest = tag.skip(s + 7);
    let n = name.len() as int;
    reveal_strlit("\"");
    assert forall|j: int| 0 <= j < n implies !search::occurs_at(rest, "\""@, j) by {
        if search::occurs_at(rest, "\""@, j) {
            assert("\""@ =~= rest.skip(j).subrange(0, 1));
            assert("\""@[0] == rest.skip(j).subrange(0, 1)[0]);
            assert(rest[j] == o[j + s + 7]);
            assert(name[j] == '"');
        }
    }
    assert(rest[n] == o[n + s + 7]);
    assert("\""@ =~= rest.skip(n).subrange(0, 1));
    search::lemma_first_of_is(rest, "\""@, n);
    assert(rest.take(n) =~= name) by {
        assert forall|j: int| 0 <= j < n implies rest.take(n)[j] == name[j] by {
            assert(rest[j] == o[j + s + 7]);
        }
    }
}

/// Where a closing tag stands at the start of a text, it is what a search finds.
proof fn lemma_closing_at_start(end: Seq<char>, rest: Seq<char>, close: Seq<Seq<char>>, m: int)
    requires
        all_closing_tags(close),
        0 <= m < close.len(),
        end == close[m],
    ensures
        search::first_of_any(end + rest, close) == Some((0int, end.len() as int)),
{
    let text = end + rest;
    assert(text.skip(0) == text);
    assert(end =~= text.subrange(0, end.len() as int));
    assert(search::occurs_at(text, close[m], 0));
    assert(search::any_occurs_at(text, close, 0));
    search::lemma_first_of_any_is(text, close, 0);
    search::lemma_first_of_any(text, close);
    let (i, n) = search::first_of_any(text, close)->0;
    let k = choose|k: int|
        0 <= k < close.len() && n == (#[trigger] close[k]).len() && search::occurs_at(
            text,
            close[k],
            i,
        );
    if k != m {
        let a = close[k];
        let b = close[m];
        assert(a =~= text.subrange(0, a.len() as int));
        if a.len() <= b.len() {
            assert(a =~= b.subrange(0, a.len() as int));
            assert(a.is_prefix_of(b));
        } else {
            assert(b =~= a.subrange(0, b.len() as int));
            assert(b.is_prefix_of(a));
        }
    }
}

/// The first element of a text that begins, after some text without a `<`, with an opening tag.
proof fn lemma_written_element(
    gap: Seq<char>,
    start: Seq<char>,
    name: Seq<char>,
    body: Seq<char>,
    open: Seq<Seq<char>>,
    close: Seq<Seq<char>>,
    k: int,
)
    requires
        lacks(gap, '<'),
        all_tag_like(open),
        0 <= k < open.len(),
        start == open[k],
        tag_start(start),
        plain_name(name),
    ensures
        ({
            let text = gap + (opening(start, name) + body);
            match search::first_of_any(body, close) {
                Some((c, n)) => parse::first_element(text, open, close) matches Some(e)
                    && parse::attribute(e.tag, "name"@) == Some(name) && e.inner == body.take(c)
                    && e.rest == body.skip(c + n),
                None => parse::first_element(text, open, close) matches Some(e)
                    && parse::attribute(e.tag, "name"@) == Some(name) && e.inner == body && e.rest
                    == Seq::<char>::empty(),
            }
        }),
{
    let o = opening(start, name);
    let region = o + body;
    let text = gap + region;
    lemma_opening(start, name);
    lemma_none_starts_without_angle(gap, region, open);
    search::lemma_first_of_any_after(gap, region, open);
    assert(start =~= region.skip(0).subrange(0, start.len() as int)) by {
        assert forall|i: int| 0 <= i < start.len() implies region[i] == start[i] by {
            assert(region[i] == o[i]);
        }
    }
    assert(search::occurs_at(region, open[k], 0));
    assert(search::any_occurs_at(region, open, 0));
    search::lemma_first_of_any_is(region, open, 0);
    assert(text.skip(gap.len() as int) =~= region);
    lemma_opening_parts(start, name, body);
    assert(region.skip(o.len() as int) =~= body);
}

proof fn lemma_tag_shapes()
    ensures
        markers::invoke_open().len() == 2,
        markers::invoke_close().len() == 2,
        markers::param_open().len() == 2,
        markers::param_close().len() == 2,
        all_tag_like(markers::invoke_open()),
        all_tag_like(markers::param_open()),
        all_tag_like(markers::invoke_close()),
        all_tag_like(markers::param_close()),
        all_closing_tags(markers::invoke_close()),
        all_closing_tags(markers::param_close()),
        forall|k: int| 0 <= k < 2 ==> tag_start(#[trigger] markers::invoke_open()[k]),
        forall|k: int| 0 <= k < 2 ==> tag_start(#[trigger] markers::param_open()[k]),
{
    reveal_strlit("\x3cantml:invoke");
    reveal_strlit("<invoke");
    reveal_strlit("\x3cantml:parameter");
    reveal_strlit("<parameter");
    reveal_strlit("\x3c/antml:invoke>");
    reveal_strlit("</invoke>");
    reveal_strlit("\x3c/antml:parameter>");
    reveal_strlit("</parameter>");
    let io = markers::invoke_open();
    let po = markers::param_open();
    let ic = markers::invoke_close();
    let pc = markers::param_close();
    assert(io[0] == "\x3cantml:invoke"@ && io[1] == "<invoke"@);
    assert(po[0] == "\x3cantml:parameter"@ && po[1] == "<parameter"@);
    assert(ic[0] == "\x3c/antml:invoke>"@ && ic[1] == "</invoke>"@);
    assert(pc[0] == "\x3c/antml:parameter>"@ && pc[1] == "</parameter>"@);
    assert forall|k: int| 0 <= k < 2 implies tag_start(#[trigger] io[k]) by {
        assert(k == 0 || k == 1);
    }
    assert forall|k: int| 0 <= k < 2 implies tag_start(#[trigger] po[k]) by {
        assert(k == 0 || k == 1);
    }
    assert forall|k: int| 0 <= k < 2 implies closing_tag(#[trigger] ic[k]) by {
        assert(k == 0 || k == 1);
    }
    assert forall|k: int| 0 <= k < 2 implies closing_tag(#[trigger] pc[k]) by {
        assert(k == 0 || k == 1);
    }
    assert(ic[0][2] != ic[1][2]);
    assert(pc[0][2] != pc[1][2]);
    assert forall|k: int, m: int| 0 <= k < 2 && 0 <= m < 2 && k != m implies !(
    #[trigger] ic[k]).is_prefix_of(#[trigger] ic[m]) by {
        if ic[k].is_prefix_of(ic[m]) {
            assert(ic[k][2] == ic[m].subrange(0, ic[k].len() as int)[2]);
        }
    }
    assert forall|k: int, m: int| 0 <= k < 2 && 0 <= m < 2 && k != m implies !(
    #[trigger] pc[k]).is_prefix_of(#[trigger] pc[m]) by {
        if pc[k].is_prefix_of(pc[m]) {
            assert(pc[k][2] == pc[m].subrange(0, pc[k].len() as int)[2]);
        }
    }
}

/// No closing `invoke` tag starts in a closing `parameter` tag.
proof fn lemma_param_close_none_starts(m: int, tail: Seq<char>)
    requires
        0 <= m < 2,
    ensures
        none_starts(markers::param_close()[m], tail, markers::invoke_close()),
{
    lemma_tag_shapes();
    let pc = markers::param_close();
    let ic = markers::invoke_close();
    let text = pc[m] + tail;
    reveal_strlit("\x3c/antml:invoke>");
    reveal_strlit("</invoke>");
    reveal_strlit("\x3c/antml:parameter>");
    reveal_strlit("</parameter>");
    assert forall|j: int| 0 <= j < pc[m].len() implies !search::any_occurs_at(text, ic, j) by {
        if search::any_occurs_at(text, ic, j) {
            let k = lemma_any_start(text, ic, j);
            assert(text[j] == pc[m][j]);
            assert(j == 0);
            assert(ic[k][2] == text[j + 2]);
            assert(ic[k][8] == text[j + 8]);
            assert(text[2] == pc[m][2]);
            assert(text[8] == pc[m][8]);
        }
    }
}

/// The opening wrapper tag, in one of its forms.
pub open spec fn wrapper(prefixed: bool) -> Seq<char> {
    (if prefixed {
        markers::triggers()[0]
    } else {
        markers::triggers()[1]
    }) + ">"@
}

/// No opening `invoke` tag starts in an opening wrapper tag.
proof fn lemma_wrapper_none_starts(prefixed: bool, tail: Seq<char>)
    ensures
        none_starts(wrapper(prefixed), tail, markers::invoke_open()),
        wrapper(prefixed)[0] == '<',
        wrapper(prefixed).len() > 0,
{
    lemma_tag_shapes();
    let w = wrapper(prefixed);
    let io = markers::invoke_open();
    let text = w + tail;
    reveal_strlit("\x3cantml:function_calls");
    reveal_strlit("<function_calls");
    reveal_strlit("\x3cantml:invoke");
    reveal_strlit("<invoke");
    reveal_strlit(">");
    assert(io[0] == "\x3cantml:invoke"@ && io[1] == "<invoke"@);
    assert forall|j: int| 0 <= j < w.len() implies !search::any_occurs_at(text, io, j) by {
        if search::any_occurs_at(text, io, j) {
            let k = lemma_any_start(text, io, j);
            assert(text[j] == w[j]);
            assert(j == 0);
            assert(io[k][1] == text[j + 1]);
            assert(text[1] == w[1]);
            if k == 0 {
                assert(io[k][7] == text[j + 7]);
                assert(text[7] == w[7]);
            }
        }
    }
}

/// A parameter as it is written: some text before it, whether its opening and its closing tag have
/// the namespace prefix, its name, and its text.
pub struct WrittenParam {
    pub gap: Seq<char>,
    pub prefixed: bool,
    pub end_prefixed: bool,
    pub name: Seq<char>,
    pub value: Seq<char>,
}

/// A call as it is written: some text before it, whether its opening and its closing tag have the
/// namespace prefix, its name, its parameters, and some text after these.
pub struct WrittenCall {
    pub gap: Seq<char>,
    pub prefixed: bool,
    pub end_prefixed: bool,
    pub name: Seq<char>,
    pub params: Seq<WrittenParam>,
    pub last_gap: Seq<char>,
}

/// The tag in one of its two forms.
pub open spec fn in_form(forms: Seq<Seq<char>>, prefixed: bool) -> Seq<char> {
    if prefixed {
        forms[0]
    } else {
        forms[1]
    }
}

/// The text of a parameter, cut off before its closing tag.
pub open spec fn cut_param(p: WrittenParam) -> Seq<char> {
    p.gap + (opening(in_form(markers::param_open(), p.prefixed), p.name) + p.value)
}

/// The text of a parameter.
pub open spec fn written_param(p: WrittenParam) -> Seq<char> {
    cut_param(p) + in_form(markers::param_close(), p.end_prefixed)
}

/// The text of several parameters.
pub open spec fn written_params(ps: Seq<WrittenParam>) -> Seq<char>
    decreases ps.len(),
{
    if ps.len() == 0 {
        Seq::empty()
    } else {
        written_param(ps[0]) + written_params(ps.drop_first())
    }
}

/// The text of a call.
pub open spec fn written_call(c: WrittenCall) -> Seq<char> {
    c.gap + (opening(in_form(markers::invoke_open(), c.prefixed), c.name) + (written_params(
        c.params,
    ) + c.last_gap)) + in_form(markers::invoke_close(), c.end_prefixed)
}

/// The text of several calls.
pub open spec fn written_calls(cs: Seq<WrittenCall>) -> Seq<char>
    decreases cs.len(),
{
    if cs.len() == 0 {
        Seq::empty()
    } else {
        written_call(cs[0]) + written_calls(cs.drop_first())
    }
}

/// The text of a call that breaks off: in the text of the parameter `last`, or where there is no
/// such parameter, before the closing `invoke` tag.
pub open spec fn cut_call(c: WrittenCall, last: Option<WrittenParam>) -> Seq<char> {
    c.gap + (opening(in_form(markers::invoke_open(), c.prefixed), c.name) + (written_params(
        c.params,
    ) + cut_end(c, last)))
}

/// The end of a call that breaks off.
pub open spec fn cut_end(c: WrittenCall, last: Option<WrittenParam>) -> Seq<char> {
    match last {
        Some(p) => cut_param(p),
        None => c.last_gap,
    }
}

/// The call that is meant by one that breaks off.
pub open spec fn meant_cut_call(c: WrittenCall, last: Option<WrittenParam>) -> CallModel {
    match last {
        Some(p) => meant_call(WrittenCall { params: c.params.push(p), ..c }),
        None => meant_call(c),
    }
}

/// The parameters that are written, added to those in `before`.
pub open spec fn meant_params(
    before: Map<Seq<char>, JsonModel>,
    ps: Seq<WrittenParam>,
) -> Map<Seq<char>, JsonModel>
    decreases ps.len(),
{
    if ps.len() == 0 {
        before
    } else {
        meant_params(before.insert(ps[0].name, parse::coerced(ps[0].value)), ps.drop_first())
    }
}

/// The call that is written.
pub open spec fn meant_call(c: WrittenCall) -> CallModel {
    CallModel { name: c.name, input: JsonModel::Object(meant_params(Map::empty(), c.params)) }
}

/// The calls that are written.
pub open spec fn meant_calls(cs: Seq<WrittenCall>) -> Seq<CallModel> {
    Seq::new(cs.len(), |i: int| meant_call(cs[i]))
}

/// A parameter whose text can be told from its tags: no text with a `<` before it, no quote or `>`
/// in its name, no closing tag in its text.
pub open spec fn tellable_param(p: WrittenParam) -> bool {
    &&& lacks(p.gap, '<')
    &&& plain_name(p.name)
    &&& forall|j: int| !search::any_occurs_at(p.value, markers::param_close(), j)
    &&& forall|j: int| !search::any_occurs_at(p.value, markers::invoke_close(), j)
}

/// A call whose text can be told from its tags.
pub open spec fn tellable_call(c: WrittenCall) -> bool {
    &&& lacks(c.gap, '<')
    &&& lacks(c.last_gap, '<')
    &&& plain_name(c.name)
    &&& forall|i: int| 0 <= i < c.params.len() ==> tellable_param(#[trigger] c.params[i])
}

/// No closing `invoke` tag starts in a parameter that is cut off.
proof fn lemma_cut_param_none_starts(p: WrittenParam, tail: Seq<char>)
    requires
        tellable_param(p),
        tail.len() > 0 ==> tail[0] == '<',
    ensures
        none_starts(cut_param(p), tail, markers::invoke_close()),
{
    lemma_tag_shapes();
    let ic = markers::invoke_close();
    let o = opening(in_form(markers::param_open(), p.prefixed), p.name);
    lemma_none_starts_before_tag(p.value, tail, ic);
    lemma_opening_none_starts(
        in_form(markers::param_open(), p.prefixed),
        p.name,
        p.value + tail,
        ic,
    );
    lemma_none_starts_concat(o, p.value, tail, ic);
    lemma_none_starts_without_angle(p.gap, (o + p.value) + tail, ic);
    lemma_none_starts_concat(p.gap, o + p.value, tail, ic);
}

/// No closing `invoke` tag starts in the text of parameters.
proof fn lemma_params_none_starts(ps: Seq<WrittenParam>, tail: Seq<char>)
    requires
        forall|i: int| 0 <= i < ps.len() ==> tellable_param(#[trigger] ps[i]),
    ensures
        none_starts(written_params(ps), tail, markers::invoke_close()),
    decreases ps.len(),
{
    if ps.len() > 0 {
        let ic = markers::invoke_close();
        let p = ps[0];
        let rest = written_params(ps.drop_first());
        let end = in_form(markers::param_close(), p.end_prefixed);
        assert(tellable_param(ps[0]));
        assert forall|i: int| 0 <= i < ps.drop_first().len() implies tellable_param(
            #[trigger] ps.drop_first()[i],
        ) by {
            assert(ps.drop_first()[i] == ps[i + 1]);
        }
        lemma_params_none_starts(ps.drop_first(), tail);
        lemma_tag_shapes();
        if p.end_prefixed {
            lemma_param_close_none_starts(0, rest + tail);
            assert(search::tag_like(markers::param_close()[0]));
        } else {
            lemma_param_close_none_starts(1, rest + tail);
            assert(search::tag_like(markers::param_close()[1]));
        }
        lemma_cut_param_none_starts(p, end + (rest + tail));
        lemma_none_starts_concat(cut_param(p), end, rest + tail, ic);
        lemma_none_starts_concat(written_param(p), rest, tail, ic);
    }
}

/// Where no opening tag starts in `head`, the first element of `head + tail` is that of `tail`.
proof fn lemma_first_element_after(
    head: Seq<char>,
    tail: Seq<char>,
    open: Seq<Seq<char>>,
    close: Seq<Seq<char>>,
)
    requires
        none_starts(head, tail, open),
    ensures
        parse::first_element(head + tail, open, close) == parse::first_element(tail, open, close),
{
    search::lemma_first_of_any_after(head, tail, open);
    search::lemma_first_of_any(tail, open);
    if let Some((i, _)) = search::first_of_any(tail, open) {
        assert((head + tail).skip(head.len() + i) =~= tail.skip(i));
    }
}

/// The parameters that are written are the ones that are found.
proof fn lemma_params_found(
    before: Map<Seq<char>, JsonModel>,
    ps: Seq<WrittenParam>,
    tail: Seq<char>,
)
    requires
        forall|i: int| 0 <= i < ps.len() ==> tellable_param(#[trigger] ps[i]),
    ensures
        parse::params_after(before, written_params(ps) + tail) == parse::params_after(
            meant_params(before, ps),
            tail,
        ),
    decreases ps.len(),
{
    if ps.len() == 0 {
        assert(written_params(ps) + tail == tail);
    } else {
        let po = markers::param_open();
        let pc = markers::param_close();
        let p = ps[0];
        let k: int = if p.prefixed {
            0
        } else {
            1
        };
        let e: int = if p.end_prefixed {
            0
        } else {
            1
        };
        let end = in_form(pc, p.end_prefixed);
        let rest = written_params(ps.drop_first()) + tail;
        let text = written_params(ps) + tail;
        assert(tellable_param(ps[0]));
        lemma_tag_shapes();
        assert(search::tag_like(pc[e]));
        let body = p.value + (end + rest);
        assert(text =~= p.gap + (opening(po[k], p.name) + body));
        lemma_closing_at_start(end, rest, pc, e);
        lemma_none_starts_before_tag(p.value, end + rest, pc);
        search::lemma_first_of_any_after(p.value, end + rest, pc);
        lemma_written_element(p.gap, po[k], p.name, body, po, pc, k);
        assert(body.take(p.value.len() as int) =~= p.value);
        assert(body.skip(p.value.len() + end.len() as int) =~= rest);
        assert forall|i: int| 0 <= i < ps.drop_first().len() implies tellable_param(
            #[trigger] ps.drop_first()[i],
        ) by {
            assert(ps.drop_first()[i] == ps[i + 1]);
        }
        lemma_params_found(
            before.insert(p.name, parse::coerced(p.value)),
            ps.drop_first(),
            tail,
        );
    }
}

/// The inner text of a call that is written holds its parameters.
proof fn lemma_inner_found(c: WrittenCall)
    requires
        tellable_call(c),
    ensures
        parse::params(written_params(c.params) + c.last_gap) == meant_call(c).input,
{
    let po = markers::param_open();
    lemma_tag_shapes();
    lemma_params_found(Map::empty(), c.params, c.last_gap);
    lemma_none_starts_without_angle(c.last_gap, Seq::empty(), po);
    lemma_nothing_to_find(c.last_gap, po);
}

/// Where the closing tag of a call that is written is found.
proof fn lemma_call_close(c: WrittenCall, rest: Seq<char>)
    requires
        tellable_call(c),
    ensures
        ({
            let inner = written_params(c.params) + c.last_gap;
            let end = in_form(markers::invoke_close(), c.end_prefixed);
            search::first_of_any(inner + (end + rest), markers::invoke_close()) == Some(
                (inner.len() as int, end.len() as int),
            )
        }),
{
    let ic = markers::invoke_close();
    let inner = written_params(c.params) + c.last_gap;
    let end = in_form(ic, c.end_prefixed);
    lemma_tag_shapes();
    lemma_params_none_starts(c.params, c.last_gap + (end + rest));
    lemma_none_starts_without_angle(c.last_gap, end + rest, ic);
    lemma_none_starts_concat(written_params(c.params), c.last_gap, end + rest, ic);
    search::lemma_first_of_any_after(inner, end + rest, ic);
    if c.end_prefixed {
        lemma_closing_at_start(end, rest, ic, 0);
    } else {
        lemma_closing_at_start(end, rest, ic, 1);
    }
}

/// A call that is written is found.
proof fn lemma_call_found(c: WrittenCall, rest: Seq<char>)
    requires
        tellable_call(c),
    ensures
        parse::invokes(written_call(c) + rest) == seq![meant_call(c)] + parse::invokes(rest),
{
    let io = markers::invoke_open();
    let ic = markers::invoke_close();
    let k: int = if c.prefixed {
        0
    } else {
        1
    };
    let end = in_form(ic, c.end_prefixed);
    let inner = written_params(c.params) + c.last_gap;
    let body = inner + (end + rest);
    let text = written_call(c) + rest;
    lemma_tag_shapes();
    lemma_call_close(c, rest);
    lemma_inner_found(c);
    lemma_written_element(c.gap, io[k], c.name, body, io, ic, k);
    assert(text =~= c.gap + (opening(io[k], c.name) + body));
    assert(body.take(inner.len() as int) =~= inner);
    assert(body.skip(inner.len() + end.len() as int) =~= rest);
}

/// The calls that are written are the ones that are found.
proof fn lemma_calls_found(cs: Seq<WrittenCall>, tail: Seq<char>)
    requires
        forall|i: int| 0 <= i < cs.len() ==> tellable_call(#[trigger] cs[i]),
    ensures
        parse::invokes(written_calls(cs) + tail) == meant_calls(cs) + parse::invokes(tail),
    decreases cs.len(),
{
    if cs.len() == 0 {
        assert(written_calls(cs) + tail == tail);
        assert(meant_calls(cs) + parse::invokes(tail) == parse::invokes(tail));
    } else {
        let more = cs.drop_first();
        let rest = written_calls(more) + tail;
        assert(tellable_call(cs[0]));
        assert forall|i: int| 0 <= i < more.len() implies tellable_call(#[trigger] more[i]) by {
            assert(more[i] == cs[i + 1]);
        }
        lemma_calls_found(more, tail);
        lemma_call_found(cs[0], rest);
        assert(written_calls(cs) + tail =~= written_call(cs[0]) + rest);
        assert(meant_calls(cs) + parse::invokes(tail) =~= seq![meant_call(cs[0])] + (meant_calls(
            more,
        ) + parse::invokes(tail)));
    }
}

/// A text in which no needle starts has no first one.
proof fn lemma_nothing_to_find(text: Seq<char>, needles: Seq<Seq<char>>)
    requires
        all_tag_like(needles),
        none_starts(text, Seq::empty(), needles),
    ensures
        search::first_of_any(text, needles) is None,
{
    assert(text + Seq::<char>::empty() == text);
    assert forall|j: int| !search::any_occurs_at(text, needles, j) by {
        if search::any_occurs_at(text, needles, j) {
            let k = lemma_any_start(text, needles, j);
        }
    }
    search::lemma_first_of_any_none(text, needles);
}

/// The opening wrapper tag where there is one, and nothing where there is none.
pub open spec fn wrapped(head: Option<bool>) -> Seq<char> {
    match head {
        Some(prefixed) => wrapper(prefixed),
        None => Seq::empty(),
    }
}

/// Parsing a text that goes on, after ordinary text, with a wrapper tag or with an `invoke`.
proof fn lemma_parsed_region(prose: Seq<char>, head: Option<bool>, rest: Seq<char>)
    requires
        forall|j: int| !search::any_occurs_at(prose, markers::triggers(), j),
        head is None ==> markers::invoke_open()[0].is_prefix_of(rest)
            || markers::invoke_open()[1].is_prefix_of(rest),
        parse::invokes(rest).len() > 0,
    ensures
        parse::parsed(prose + (wrapped(head) + rest)) == Some(
            ParsedModel { prose: trim::trimmed(prose), calls: parse::invokes(rest) },
        ),
        search::first_of_any(prose + (wrapped(head) + rest), markers::triggers()) matches Some((p, _))
            && p == prose.len(),
{
    let t = markers::triggers();
    let io = markers::invoke_open();
    let ic = markers::invoke_close();
    let region = wrapped(head) + rest;
    let text = prose + region;
    stream_laws::lemma_triggers_tag_like();
    lemma_tag_shapes();
    assert(t[2] == io[0] && t[3] == io[1]);
    let k: int = match head {
        Some(true) => 0,
        Some(false) => 1,
        None => if io[0].is_prefix_of(rest) {
            2
        } else {
            3
        },
    };
    match head {
        Some(prefixed) => {
            lemma_wrapper_none_starts(prefixed, rest);
            assert(t[k] =~= region.subrange(0, t[k].len() as int));
            lemma_first_element_after(wrapper(prefixed), rest, io, ic);
        },
        None => {
            assert(region =~= rest);
        },
    }
    assert(region.skip(0) == region);
    assert(search::occurs_at(region, t[k], 0));
    assert(search::any_occurs_at(region, t, 0));
    search::lemma_first_of_any_is(region, t, 0);
    assert(search::tag_like(t[k]));
    assert(region[0] == '<') by {
        assert(t[k][0] == region.subrange(0, t[k].len() as int)[0]);
    }
    lemma_none_starts_before_tag(prose, region, t);
    search::lemma_first_of_any_after(prose, region, t);
    assert(text.take(prose.len() as int) =~= prose);
    assert(text.skip(prose.len() as int) =~= region);
    assert(parse::invokes(region) == parse::invokes(rest));
}

/// A text that begins with a call that has nothing before it begins with an `invoke` tag.
proof fn lemma_begins_with_invoke(prefixed: bool, name: Seq<char>, tail: Seq<char>)
    ensures
        in_form(markers::invoke_open(), prefixed).is_prefix_of(
            opening(in_form(markers::invoke_open(), prefixed), name) + tail,
        ),
{
    let start = in_form(markers::invoke_open(), prefixed);
    let text = opening(start, name) + tail;
    lemma_opening(start, name);
    assert(start =~= text.subrange(0, start.len() as int)) by {
        assert forall|i: int| 0 <= i < start.len() implies start[i] == text[i] by {
            assert(text[i] == opening(start, name)[i]);
        }
    }
}

/// A text of calls begins with an `invoke` tag where nothing stands before the first of them.
proof fn lemma_calls_begin_with_invoke(cs: Seq<WrittenCall>, tail: Seq<char>)
    requires
        cs.len() > 0,
        cs[0].gap.len() == 0,
    ensures
        in_form(markers::invoke_open(), cs[0].prefixed).is_prefix_of(written_calls(cs) + tail),
{
    let c = cs[0];
    let start = in_form(markers::invoke_open(), c.prefixed);
    let after = written_params(c.params) + c.last_gap + in_form(
        markers::invoke_close(),
        c.end_prefixed,
    ) + (written_calls(cs.drop_first()) + tail);
    assert(c.gap == Seq::<char>::empty());
    assert(written_calls(cs) + tail =~= opening(start, c.name) + after);
    lemma_begins_with_invoke(c.prefixed, c.name, after);
}

/// A text in which tool calls can be told from the text before them: `prose`, a wrapper tag or
/// none, the calls, and other text.
pub open spec fn leaked(
    prose: Seq<char>,
    head: Option<bool>,
    cs: Seq<WrittenCall>,
    tail: Seq<char>,
) -> Seq<char> {
    prose + (wrapped(head) + (written_calls(cs) + tail))
}

/// The text before the calls holds no marker, at least one call is written, all of them can be told
/// from their tags, the first stands at the marker, and no `invoke` is opened after the last.
pub open spec fn tellable(
    prose: Seq<char>,
    head: Option<bool>,
    cs: Seq<WrittenCall>,
    tail: Seq<char>,
) -> bool {
    &&& forall|j: int| !search::any_occurs_at(prose, markers::triggers(), j)
    &&& cs.len() > 0
    &&& forall|i: int| 0 <= i < cs.len() ==> tellable_call(#[trigger] cs[i])
    &&& head is None ==> cs[0].gap.len() == 0
    &&& forall|j: int| !search::any_occurs_at(tail, markers::invoke_open(), j)
}

/// The calls are found, and the text before them is all that stands before the first marker.
proof fn lemma_leaked(prose: Seq<char>, head: Option<bool>, cs: Seq<WrittenCall>, tail: Seq<char>)
    requires
        tellable(prose, head, cs, tail),
    ensures
        parse::parsed(leaked(prose, head, cs, tail)) == Some(
            ParsedModel { prose: trim::trimmed(prose), calls: meant_calls(cs) },
        ),
        search::first_of_any(leaked(prose, head, cs, tail), markers::triggers()) matches Some((p, _))
            && p == prose.len(),
{
    let rest = written_calls(cs) + tail;
    lemma_calls_found(cs, tail);
    search::lemma_first_of_any_none(tail, markers::invoke_open());
    assert(meant_calls(cs) + parse::invokes(tail) =~= meant_calls(cs));
    if head is None {
        lemma_calls_begin_with_invoke(cs, tail);
    }
    lemma_parsed_region(prose, head, rest);
}

/// Tool calls that were written as tagged text are recovered: every call with its name and its
/// parameters, in their order, and the text before them without white space at its ends.
///
/// It makes no difference whether a tag has the namespace prefix, or whether the calls stand in a
/// wrapper. Text without a `<`, such as line breaks, may stand before every tag but a closing
/// `parameter` tag. What follows the calls may be any text that opens no further `invoke`.
pub proof fn law_written_calls_are_recovered(
    prose: Seq<char>,
    head: Option<bool>,
    cs: Seq<WrittenCall>,
    tail: Seq<char>,
)
    requires
        tellable(prose, head, cs, tail),
    ensures
        parse::parsed(leaked(prose, head, cs, tail)) == Some(
            ParsedModel { prose: trim::trimmed(prose), calls: meant_calls(cs) },
        ),
{
    lemma_leaked(prose, head, cs, tail);
}

/// Tool calls that were written as tagged text are recovered from a stream, in whatever pieces the
/// text arrives: the guard lets through exactly the text before them, and the calls are what its
/// buffer parses as.
pub proof fn law_streamed_calls_are_recovered(
    pieces: Seq<Seq<char>>,
    prose: Seq<char>,
    head: Option<bool>,
    cs: Seq<WrittenCall>,
    tail: Seq<char>,
)
    requires
        tellable(prose, head, cs, tail),
        stream_laws::joined(pieces) == leaked(prose, head, cs, tail),
    ensures
        ({
            let (state, passed) = stream_laws::feed_all(stream::fresh(true), pieces);
            &&& state.armed
            &&& passed == prose
            &&& parse::parsed(stream::buffer_taken(state).1) == Some(
                ParsedModel { prose: Seq::empty(), calls: meant_calls(cs) },
            )
        }),
{
    let text = leaked(prose, head, cs, tail);
    lemma_leaked(prose, head, cs, tail);
    stream_laws::law_armed_by_the_first_marker(pieces);
    stream_laws::law_streaming_agrees_with_parsing(pieces);
    assert(text.take(prose.len() as int) =~= prose);
}

/// A call that breaks off, because its closing tag is missing, is recovered, and so are the calls
/// before it. Where the closing tag of its last parameter is missing too, that parameter is
/// recovered with what is there of its text.
pub proof fn law_cut_off_call_is_recovered(
    prose: Seq<char>,
    head: Option<bool>,
    cs: Seq<WrittenCall>,
    c: WrittenCall,
    last: Option<WrittenParam>,
)
    requires
        forall|j: int| !search::any_occurs_at(prose, markers::triggers(), j),
        forall|i: int| 0 <= i < cs.len() ==> tellable_call(#[trigger] cs[i]),
        tellable_call(c),
        last matches Some(p) ==> tellable_param(p),
        head is None ==> (if cs.len() == 0 {
            c.gap.len() == 0
        } else {
            cs[0].gap.len() == 0
        }),
    ensures
        parse::parsed(prose + (wrapped(head) + (written_calls(cs) + cut_call(c, last)))) == Some(
            ParsedModel {
                prose: trim::trimmed(prose),
                calls: meant_calls(cs).push(meant_cut_call(c, last)),
            },
        ),
{
    let tail = cut_call(c, last);
    let rest = written_calls(cs) + tail;
    let meant = meant_cut_call(c, last);
    lemma_calls_found(cs, tail);
    lemma_cut_call_found(c, last);
    assert(meant_calls(cs) + seq![meant] =~= meant_calls(cs).push(meant));
    if head is None {
        if cs.len() == 0 {
            let start = in_form(markers::invoke_open(), c.prefixed);
            let after = written_params(c.params) + cut_end(c, last);
            assert(c.gap == Seq::<char>::empty());
            assert(rest =~= opening(start, c.name) + after);
            lemma_begins_with_invoke(c.prefixed, c.name, after);
        } else {
            lemma_calls_begin_with_invoke(cs, tail);
        }
    }
    lemma_parsed_region(prose, head, rest);
}

/// The parameters of a call that breaks off.
proof fn lemma_meant_params_push(
    before: Map<Seq<char>, JsonModel>,
    ps: Seq<WrittenParam>,
    last: WrittenParam,
)
    ensures
        meant_params(before, ps.push(last)) == meant_params(before, ps).insert(
            last.name,
            parse::coerced(last.value),
        ),
    decreases ps.len(),
{
    let all = ps.push(last);
    if ps.len() == 0 {
        reveal_with_fuel(meant_params, 2);
        assert(all.drop_first() == Seq::<WrittenParam>::empty());
        assert(all[0] == last);
    } else {
        assert(all.drop_first() == ps.drop_first().push(last));
        assert(all[0] == ps[0]);
        lemma_meant_params_push(
            before.insert(ps[0].name, parse::coerced(ps[0].value)),
            ps.drop_first(),
            last,
        );
    }
}

/// The parameters of a call that breaks off are found.
proof fn lemma_cut_params_found(c: WrittenCall, last: Option<WrittenParam>)
    requires
        tellable_call(c),
        last matches Some(p) ==> tellable_param(p),
    ensures
        parse::params(written_params(c.params) + cut_end(c, last)) == meant_cut_call(c, last).input,
{
    let po = markers::param_open();
    let pc = markers::param_close();
    let before = meant_params(Map::empty(), c.params);
    lemma_tag_shapes();
    lemma_params_found(Map::empty(), c.params, cut_end(c, last));
    match last {
        Some(p) => {
            let none = Seq::<char>::empty();
            let m: int = if p.prefixed {
                0
            } else {
                1
            };
            let after = before.insert(p.name, parse::coerced(p.value));
            search::lemma_first_of_any_none(p.value, pc);
            lemma_written_element(p.gap, po[m], p.name, p.value, po, pc, m);
            lemma_nothing_to_find(none, po);
            assert(parse::params_after(after, none) == after);
            assert(parse::params_after(before, cut_param(p)) == parse::params_after(after, none));
            lemma_meant_params_push(Map::empty(), c.params, p);
        },
        None => {
            lemma_none_starts_without_angle(c.last_gap, Seq::empty(), po);
            lemma_nothing_to_find(c.last_gap, po);
        },
    }
}

/// A call that breaks off is found.
proof fn lemma_cut_call_found(c: WrittenCall, last: Option<WrittenParam>)
    requires
        tellable_call(c),
        last matches Some(p) ==> tellable_param(p),
    ensures
        parse::invokes(cut_call(c, last)) == seq![meant_cut_call(c, last)],
{
    let io = markers::invoke_open();
    let ic = markers::invoke_close();
    let none = Seq::<char>::empty();
    let k: int = if c.prefixed {
        0
    } else {
        1
    };
    let end = cut_end(c, last);
    let inner = written_params(c.params) + end;
    lemma_tag_shapes();
    lemma_params_none_starts(c.params, end + none);
    match last {
        Some(p) => {
            lemma_cut_param_none_starts(p, none);
        },
        None => {
            lemma_none_starts_without_angle(c.last_gap, none, ic);
        },
    }
    lemma_none_starts_concat(written_params(c.params), end, none, ic);
    lemma_nothing_to_find(inner, ic);
    lemma_written_element(c.gap, io[k], c.name, inner, io, ic, k);
    lemma_nothing_to_find(none, io);
    lemma_cut_params_found(c, last);
    assert(parse::invokes(none) =~= Seq::<CallModel>::empty());
    let meant = meant_cut_call(c, last);
    assert(seq![meant] + Seq::<CallModel>::empty() =~= seq![meant]);
}

/// The opening tag of an `invoke` with the name `name`, with the namespace prefix or bare.
pub open spec fn invoke_tag(prefixed: bool, name: Seq<char>) -> Seq<char> {
    opening(in_form(markers::invoke_open(), prefixed), name)
}

/// The opening tag of a `parameter` with the name `name`, with the namespace prefix or bare.
pub open spec fn param_tag(prefixed: bool, name: Seq<char>) -> Seq<char> {
    opening(in_form(markers::param_open(), prefixed), name)
}

/// The first closing tag after a text that holds none.
proof fn lemma_first_close(inner: Seq<char>, close: Seq<Seq<char>>, e: bool, rest: Seq<char>)
    requires
        close.len() == 2,
        all_tag_like(close),
        all_closing_tags(close),
        forall|j: int| !search::any_occurs_at(inner, close, j),
    ensures
        search::first_of_any(inner + (in_form(close, e) + rest), close) == Some(
            (inner.len() as int, in_form(close, e).len() as int),
        ),
{
    let end = in_form(close, e);
    let k: int = if e {
        0
    } else {
        1
    };
    assert(search::tag_like(close[k]));
    lemma_closing_at_start(end, rest, close, k);
    lemma_none_starts_before_tag(inner, end + rest, close);
    search::lemma_first_of_any_after(inner, end + rest, close);
}

/// A named `invoke` is one call, and what follows its closing tag is read as if it stood alone. Each
/// of the two tags may have the namespace prefix or not. Between them may stand any text that holds
/// no closing `invoke` tag.
pub proof fn law_one_call_and_the_rest(
    prefixed: bool,
    name: Seq<char>,
    inner: Seq<char>,
    end_prefixed: bool,
    rest: Seq<char>,
)
    requires
        plain_name(name),
        forall|j: int| !search::any_occurs_at(inner, markers::invoke_close(), j),
    ensures
        parse::invokes(
            invoke_tag(prefixed, name) + inner + in_form(markers::invoke_close(), end_prefixed)
                + rest,
        ) == seq![CallModel { name, input: parse::params(inner) }] + parse::invokes(rest),
{
    let io = markers::invoke_open();
    let ic = markers::invoke_close();
    let none = Seq::<char>::empty();
    let k: int = if prefixed {
        0
    } else {
        1
    };
    let end = in_form(ic, end_prefixed);
    let body = inner + (end + rest);
    let text = invoke_tag(prefixed, name) + inner + end + rest;
    lemma_tag_shapes();
    lemma_first_close(inner, ic, end_prefixed, rest);
    lemma_written_element(none, io[k], name, body, io, ic, k);
    assert(text =~= none + (opening(io[k], name) + body));
    assert(body.take(inner.len() as int) =~= inner);
    assert(body.skip(inner.len() + end.len() as int) =~= rest);
}

/// A named `invoke` whose closing tag is missing is one call, and runs to the end of the text.
pub proof fn law_unclosed_call_runs_to_the_end(prefixed: bool, name: Seq<char>, inner: Seq<char>)
    requires
        plain_name(name),
        forall|j: int| !search::any_occurs_at(inner, markers::invoke_close(), j),
    ensures
        parse::invokes(invoke_tag(prefixed, name) + inner) == seq![
            CallModel { name, input: parse::params(inner) },
        ],
{
    let io = markers::invoke_open();
    let ic = markers::invoke_close();
    let none = Seq::<char>::empty();
    let k: int = if prefixed {
        0
    } else {
        1
    };
    let call = CallModel { name, input: parse::params(inner) };
    lemma_tag_shapes();
    search::lemma_first_of_any_none(inner, ic);
    lemma_written_element(none, io[k], name, inner, io, ic, k);
    assert(invoke_tag(prefixed, name) + inner =~= none + (opening(io[k], name) + inner));
    lemma_nothing_to_find(none, io);
    assert(parse::invokes(none) =~= Seq::<CallModel>::empty());
    assert(seq![call] + Seq::<CallModel>::empty() =~= seq![call]);
}

/// The fields that a text of parameters adds do not depend on the fields that are there. They
/// replace those of the same name.
proof fn lemma_params_added(before: Map<Seq<char>, JsonModel>, text: Seq<char>)
    ensures
        parse::params_after(before, text) == before.union_prefer_right(
            parse::params_after(Map::empty(), text),
        ),
    decreases text.len(),
{
    let po = markers::param_open();
    let pc = markers::param_close();
    let none = Map::<Seq<char>, JsonModel>::empty();
    parse::lemma_first_element(text, po, pc);
    match parse::first_element(text, po, pc) {
        None => {
            assert(before.union_prefer_right(none) =~= before);
        },
        Some(e) => {
            match parse::attribute(e.tag, "name"@) {
                Some(name) => {
                    let value = parse::coerced(e.inner);
                    let more = parse::params_after(none, e.rest);
                    lemma_params_added(before.insert(name, value), e.rest);
                    lemma_params_added(none.insert(name, value), e.rest);
                    assert(before.insert(name, value).union_prefer_right(more)
                        =~= before.union_prefer_right(
                        none.insert(name, value).union_prefer_right(more),
                    ));
                },
                None => {
                    lemma_params_added(before, e.rest);
                },
            }
        },
    }
}

/// The fields of the parameters in a text.
pub open spec fn param_fields(text: Seq<char>) -> Map<Seq<char>, JsonModel> {
    parse::params_after(Map::empty(), text)
}

/// A named parameter adds its value to the fields of what follows its closing tag, which is read as
/// if it stood alone. Where a parameter of the same name follows, that one counts. Each of the two
/// tags may have the namespace prefix or not. Between them may stand any text that holds no closing
/// `parameter` tag.
pub proof fn law_one_parameter_and_the_rest(
    prefixed: bool,
    name: Seq<char>,
    value: Seq<char>,
    end_prefixed: bool,
    rest: Seq<char>,
)
    requires
        plain_name(name),
        forall|j: int| !search::any_occurs_at(value, markers::param_close(), j),
    ensures
        ({
            let text = param_tag(prefixed, name) + value + in_form(
                markers::param_close(),
                end_prefixed,
            ) + rest;
            let others = param_fields(rest);
            &&& parse::params(rest) == JsonModel::Object(others)
            &&& parse::params(text) == JsonModel::Object(
                if others.contains_key(name) {
                    others
                } else {
                    others.insert(name, parse::coerced(value))
                },
            )
        }),
{
    let po = markers::param_open();
    let pc = markers::param_close();
    let none = Seq::<char>::empty();
    let k: int = if prefixed {
        0
    } else {
        1
    };
    let end = in_form(pc, end_prefixed);
    let body = value + (end + rest);
    let text = param_tag(prefixed, name) + value + end + rest;
    lemma_tag_shapes();
    lemma_first_close(value, pc, end_prefixed, rest);
    lemma_written_element(none, po[k], name, body, po, pc, k);
    assert(text =~= none + (opening(po[k], name) + body));
    assert(body.take(value.len() as int) =~= value);
    assert(body.skip(value.len() + end.len() as int) =~= rest);
    let first = Map::<Seq<char>, JsonModel>::empty().insert(name, parse::coerced(value));
    let others = param_fields(rest);
    let all = param_fields(text);
    assert(all == parse::params_after(first, rest));
    lemma_params_added(first, rest);
    if others.contains_key(name) {
        assert(all =~= others);
    } else {
        assert(all =~= others.insert(name, parse::coerced(value)));
    }
}

/// A named parameter whose closing tag is missing runs to the end of the text, and is the only one.
pub proof fn law_unclosed_parameter_runs_to_the_end(
    prefixed: bool,
    name: Seq<char>,
    value: Seq<char>,
)
    requires
        plain_name(name),
        forall|j: int| !search::any_occurs_at(value, markers::param_close(), j),
    ensures
        parse::params(param_tag(prefixed, name) + value) == JsonModel::Object(
            Map::empty().insert(name, parse::coerced(value)),
        ),
{
    let po = markers::param_open();
    let pc = markers::param_close();
    let none = Seq::<char>::empty();
    let k: int = if prefixed {
        0
    } else {
        1
    };
    let field = Map::<Seq<char>, JsonModel>::empty().insert(name, parse::coerced(value));
    lemma_tag_shapes();
    search::lemma_first_of_any_none(value, pc);
    lemma_written_element(none, po[k], name, value, po, pc, k);
    assert(param_tag(prefixed, name) + value =~= none + (opening(po[k], name) + value));
    lemma_nothing_to_find(none, po);
    assert(parse::params_after(field, none) == field);
}

/// A text without a `<` holds no tool call, whatever words stand in it.
pub proof fn law_plain_text_holds_no_call(text: Seq<char>)
    requires
        lacks(text, '<'),
    ensures
        parse::parsed(text) is None,
{
    stream_laws::lemma_triggers_tag_like();
    lemma_none_starts_without_angle(text, Seq::empty(), markers::triggers());
    lemma_nothing_to_find(text, markers::triggers());
}

/// A text that opens no `invoke` holds no tool call, also where a wrapper stands in it.
pub proof fn law_no_invoke_no_call(text: Seq<char>)
    requires
        forall|j: int| !search::any_occurs_at(text, markers::invoke_open(), j),
    ensures
        parse::parsed(text) is None,
{
    let io = markers::invoke_open();
    if let Some((i, _)) = search::first_of_any(text, markers::triggers()) {
        search::lemma_first_of_any(text, markers::triggers());
        let region = text.skip(i);
        lemma_tag_shapes();
        assert forall|j: int| !search::any_occurs_at(region, io, j) by {
            if search::any_occurs_at(region, io, j) {
                let k = choose|k: int|
                    0 <= k < io.len() && search::occurs_at(region, #[trigger] io[k], j);
                assert(text.skip(i + j) =~= region.skip(j));
                assert(search::occurs_at(text, io[k], i + j));
                assert(search::any_occurs_at(text, io, i + j));
            }
        }
        search::lemma_first_of_any_none(region, io);
    }
}

/// Where something is recovered, it is at least one call, and the text before the calls holds no
/// marker and has no white space at its ends.
pub proof fn law_recovered_parts(text: Seq<char>)
    ensures
        parse::parsed(text) matches Some(found) ==> {
            &&& found.calls.len() > 0
            &&& forall|j: int| !search::any_occurs_at(found.prose, markers::triggers(), j)
            &&& found.prose.len() > 0 ==> !trim::white_space(found.prose[0])
                && !trim::white_space(found.prose.last())
        },
{
    let t = markers::triggers();
    search::lemma_first_of_any(text, t);
    if let Some((i, _)) = search::first_of_any(text, t) {
        let before = text.take(i);
        let prose = trim::trimmed(before);
        let at = trim::lemma_trimmed(before);
        assert forall|j: int| !search::any_occurs_at(prose, t, j) by {
            if search::any_occurs_at(prose, t, j) {
                let k = choose|k: int|
                    0 <= k < t.len() && search::occurs_at(prose, #[trigger] t[k], j);
                let n = t[k];
                stream_laws::lemma_triggers_tag_like();
                assert(search::tag_like(t[k]));
                assert(n =~= prose.skip(j).subrange(0, n.len() as int));
                assert(n =~= text.skip(at + j).subrange(0, n.len() as int));
                assert(search::occurs_at(text, t[k], at + j));
                assert(search::any_occurs_at(text, t, at + j));
            }
        }
    }
}

/// Without a schema only text that starts like a JSON object or array is read as JSON. All other
/// text stays text, also where it looks like a number.
pub proof fn law_scalars_stay_text(raw: Seq<char>)
    requires
        !parse::looks_like_json(trim::trimmed(raw)),
    ensures
        parse::coerced(raw) == JsonModel::Text(trim::trimmed(raw)),
{
}

/// A text that starts like JSON but is none stays text.
pub proof fn law_broken_json_stays_text(raw: Seq<char>)
    requires
        json::json_parse(trim::trimmed(raw)) is None,
    ensures
        parse::coerced(raw) == JsonModel::Text(trim::trimmed(raw)),
{
}

} // verus!
