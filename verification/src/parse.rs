//! Turning leaked tool-call text back into tool calls.
use vstd::prelude::*;
use vstd::string::*;

use crate::json;
use crate::json::Json;
use crate::json::JsonModel;
use crate::markers;
use crate::offsets;
use crate::search;
use crate::trim;

verus! {

/// One recovered tool call.
#[derive(Debug)]
pub struct AntmlToolCall {
    pub name: String,
    pub input: Json,
}

/// What the parser recovers: the text before the region of tool calls, and the calls.
#[derive(Debug)]
pub struct ParsedAntml {
    /// The ordinary text before the first marker, without white space at its ends.
    pub prose: String,
    /// The recovered calls, at least one.
    pub calls: Vec<AntmlToolCall>,
}

/// What a tool call is.
#[verifier::ext_equal]
pub struct CallModel {
    pub name: Seq<char>,
    pub input: JsonModel,
}

/// What the parser recovers.
#[verifier::ext_equal]
pub struct ParsedModel {
    pub prose: Seq<char>,
    pub calls: Seq<CallModel>,
}

impl View for AntmlToolCall {
    type V = CallModel;

    open spec fn view(&self) -> CallModel {
        CallModel { name: self.name@, input: self.input@ }
    }
}

/// What a sequence of tool calls is.
pub open spec fn call_models(calls: Seq<AntmlToolCall>) -> Seq<CallModel> {
    Seq::new(calls.len(), |i: int| calls[i]@)
}

impl View for ParsedAntml {
    type V = ParsedModel;

    open spec fn view(&self) -> ParsedModel {
        ParsedModel { prose: self.prose@, calls: call_models(self.calls@) }
    }
}

impl Clone for AntmlToolCall {
    fn clone(&self) -> (copy: Self)
        ensures
            copy@ == self@,
    {
        AntmlToolCall { name: self.name.clone(), input: self.input.clone() }
    }
}

impl Clone for ParsedAntml {
    fn clone(&self) -> (copy: Self)
        ensures
            copy@ == self@,
    {
        let mut calls: Vec<AntmlToolCall> = Vec::new();
        let mut i: usize = 0;
        while i < self.calls.len()
            invariant
                i <= self.calls@.len(),
                call_models(calls@) == call_models(self.calls@).take(i as int),
            decreases self.calls@.len() - i,
        {
            let ghost before = calls@;
            calls.push(self.calls[i].clone());
            assert(call_models(calls@) == call_models(before).push(self.calls@[i as int]@));
            i += 1;
        }
        assert(call_models(self.calls@).take(i as int) == call_models(self.calls@));
        ParsedAntml { prose: self.prose.clone(), calls }
    }
}

/// The first element of a text: its opening tag up to the `>`, what stands between its tags, and
/// what follows its closing tag.
#[verifier::ext_equal]
pub struct Element {
    pub tag: Seq<char>,
    pub inner: Seq<char>,
    pub rest: Seq<char>,
}

/// The first element of `text` whose opening tag starts with one of `open`. It ends at the first
/// of `close` after the opening tag. Where there is none, the text was cut off, and the element
/// runs to the end.
pub open spec fn first_element(
    text: Seq<char>,
    open: Seq<Seq<char>>,
    close: Seq<Seq<char>>,
) -> Option<Element> {
    match search::first_of_any(text, open) {
        None => None,
        Some((i, _)) => {
            let region = text.skip(i);
            match search::first_of(region, ">"@) {
                None => None,
                Some(g) => {
                    let tag = region.take(g);
                    let body = region.skip(g + 1);
                    match search::first_of_any(body, close) {
                        Some((c, n)) => Some(
                            Element { tag, inner: body.take(c), rest: body.skip(c + n) },
                        ),
                        None => Some(Element { tag, inner: body, rest: Seq::empty() }),
                    }
                },
            }
        },
    }
}

/// What follows the first element is shorter than the whole text.
pub proof fn lemma_first_element(text: Seq<char>, open: Seq<Seq<char>>, close: Seq<Seq<char>>)
    ensures
        first_element(text, open, close) matches Some(e) ==> e.rest.len() < text.len(),
{
    search::lemma_first_of_any(text, open);
    if let Some((i, _)) = search::first_of_any(text, open) {
        let region = text.skip(i);
        reveal_strlit(">");
        search::lemma_first_from(region, ">"@, 0);
        if let Some(g) = search::first_of(region, ">"@) {
            search::lemma_first_of_any(region.skip(g + 1), close);
        }
    }
}

/// Finds the first element of `text`: its opening tag, its inner text, and what follows it.
fn next_element<'a>(text: &'a str, open: &[&str], close: &[&str]) -> (element: Option<
    (&'a str, &'a str, &'a str),
>)
    ensures
        match first_element(text@, search::views(open@), search::views(close@)) {
            Some(e) => element matches Some((tag, inner, rest)) && tag@ == e.tag && inner@
                == e.inner && rest@ == e.rest,
            None => element is None,
        },
{
    let start: usize = match search::find_any(text, open) {
        Some((start, _)) => start,
        None => {
            return None;
        },
    };
    let (_, region) = offsets::cut(text, start);
    let gt: usize = match search::find(region, ">") {
        Some(gt) => gt,
        None => {
            return None;
        },
    };
    proof {
        search::lemma_first_from(region@, ">"@, 0);
        let g = search::first_of(region@, ">"@)->0;
        reveal_strlit(">");
        vstd::utf8::is_ascii_chars_encode_utf8(">"@);
        search::lemma_occurrence_offsets(region@, ">"@, g);
        assert(offsets::is_offset_of(region@, gt + 1, g + 1));
    }
    let (tag, _) = offsets::cut(region, gt);
    let (_, body) = offsets::cut(region, gt + 1);
    match search::find_any(body, close) {
        Some((at, length)) => {
            let (inner, _) = offsets::cut(body, at);
            let (_, rest) = offsets::cut(body, at + length);
            Some((tag, inner, rest))
        },
        None => {
            let total: usize = body.as_bytes().len();
            proof {
                assert(body@.take(body@.len() as int) == body@);
                assert(offsets::is_offset_of(body@, total as int, body@.len() as int));
                assert(body@.skip(body@.len() as int) == Seq::<char>::empty());
            }
            let (_, rest) = offsets::cut(body, total);
            Some((tag, body, rest))
        },
    }
}

/// The value of the attribute `attr` in the opening tag `tag`: what stands between the quotes of
/// the first `attr="..."`.
pub open spec fn attribute(tag: Seq<char>, attr: Seq<char>) -> Option<Seq<char>> {
    let needle = attr + "=\""@;
    match search::first_of(tag, needle) {
        None => None,
        Some(i) => {
            let rest = tag.skip(i + needle.len());
            match search::first_of(rest, "\""@) {
                None => None,
                Some(q) => Some(rest.take(q)),
            }
        },
    }
}

/// The value of the attribute `attr` in the opening tag `tag`.
pub fn extract_attr(tag: &str, attr: &str) -> (value: Option<String>)
    ensures
        match attribute(tag@, attr@) {
            Some(v) => value matches Some(s) && s@ == v,
            None => value is None,
        },
{
    let mut needle = attr.to_owned();
    needle.append("=\"");
    let at: usize = match search::find(tag, needle.as_str()) {
        Some(at) => at,
        None => {
            return None;
        },
    };
    let length: usize = needle.as_str().as_bytes().len();
    proof {
        search::lemma_first_from(tag@, needle@, 0);
        let i = search::first_of(tag@, needle@)->0;
        search::lemma_occurrence_offsets(tag@, needle@, i);
    }
    let (_, rest) = offsets::cut(tag, at + length);
    match search::find(rest, "\"") {
        Some(end) => {
            let (value, _) = offsets::cut(rest, end);
            Some(value.to_owned())
        },
        None => None,
    }
}

/// A text that may be a JSON object or array: its first character says so.
pub open spec fn looks_like_json(text: Seq<char>) -> bool {
    "{"@.is_prefix_of(text) || "["@.is_prefix_of(text)
}

/// The value of a parameter whose trimmed text is `text`, where `parsed` is what the text reads
/// as JSON.
pub open spec fn value_or_text(text: Seq<char>, parsed: Option<JsonModel>) -> JsonModel {
    match parsed {
        Some(value) if looks_like_json(text) => value,
        _ => JsonModel::Text(text),
    }
}

/// The value of a parameter whose text between the tags is `raw`.
pub open spec fn coerced(raw: Seq<char>) -> JsonModel {
    value_or_text(trim::trimmed(raw), json::json_parse(trim::trimmed(raw)))
}

/// A value that a parameter can have: a text, an object or an array, but never `null`, a truth value
/// or a number of its own.
pub open spec fn is_param_value(value: JsonModel) -> bool {
    value is Text || value is Object || value is Array
}

/// Every field of an object has a value that a parameter can have.
pub open spec fn are_param_values(fields: Map<Seq<char>, JsonModel>) -> bool {
    forall|key: Seq<char>| fields.contains_key(key) ==> is_param_value(#[trigger] fields[key])
}

/// The input of a call: an object of values that a parameter can have.
pub open spec fn is_call_input(input: JsonModel) -> bool {
    match input {
        JsonModel::Object(fields) => are_param_values(fields),
        _ => false,
    }
}

/// Chooses between the JSON value that a text was read as and the text itself.
pub fn coerce_parsed(text: &str, parsed: Option<Json>) -> (value: Json)
    ensures
        value@ == value_or_text(
            text@,
            match parsed {
                Some(p) => Some(p@),
                None => None,
            },
        ),
{
    if search::starts_with(text, "{") || search::starts_with(text, "[") {
        if let Some(value) = parsed {
            return value;
        }
    }
    Json::Text(text.to_owned())
}

/// The value of a parameter.
///
/// A structured parameter is written as JSON, a scalar one as plain text, and no schema says
/// which. So a text that starts like an object or an array is read as JSON, and stays text where
/// that fails. Every other text stays text, also where it looks like a number. So the value is an
/// object only where the text starts with `{`, an array only where it starts with `[`, and a text
/// in all other cases.
pub fn coerce_value(raw: &str) -> (value: Json)
    ensures
        value@ == coerced(raw@),
        is_param_value(value@),
        value@ is Object ==> "{"@.is_prefix_of(trim::trimmed(raw@)),
        value@ is Array ==> "["@.is_prefix_of(trim::trimmed(raw@)),
{
    let trimmed = trim::trim(raw);
    if search::starts_with(trimmed, "{") || search::starts_with(trimmed, "[") {
        let parsed = json::parse_json(trimmed);
        return coerce_parsed(trimmed, parsed);
    }
    coerce_parsed(trimmed, None)
}

/// The parameters in `text`, added to those in `before`. A later parameter replaces an earlier
/// one of the same name.
pub open spec fn params_after(before: Map<Seq<char>, JsonModel>, text: Seq<char>) -> Map<
    Seq<char>,
    JsonModel,
>
    decreases text.len(),
{
    match first_element(text, markers::param_open(), markers::param_close()) {
        None => before,
        Some(e) => {
            proof {
                lemma_first_element(text, markers::param_open(), markers::param_close());
            }
            match attribute(e.tag, "name"@) {
                Some(name) => params_after(before.insert(name, coerced(e.inner)), e.rest),
                None => params_after(before, e.rest),
            }
        },
    }
}

/// The input of a call whose inner text is `text`: an object of its parameters.
pub open spec fn params(text: Seq<char>) -> JsonModel {
    JsonModel::Object(params_after(Map::empty(), text))
}

/// Collects the parameters in the inner text of an `invoke`. A parameter without a name is left
/// out.
pub fn parse_params(inner: &str) -> (input: Json)
    ensures
        input@ == params(inner@),
        is_call_input(input@),
{
    let mut fields: Vec<(String, Json)> = Vec::new();
    let mut rest = inner;
    loop
        invariant
            params_after(json::fields_model(fields@), rest@) == params_after(Map::empty(), inner@),
            are_param_values(json::fields_model(fields@)),
        decreases rest@.len(),
    {
        proof {
            lemma_first_element(rest@, markers::param_open(), markers::param_close());
        }
        match next_element(rest, &markers::PARAM_OPEN, &markers::PARAM_CLOSE) {
            None => {
                return Json::Object(fields);
            },
            Some((tag, raw, after)) => {
                if let Some(name) = extract_attr(tag, "name") {
                    json::set_field(&mut fields, name.as_str(), coerce_value(raw));
                }
                rest = after;
            },
        }
    }
}

/// The tool calls in `text`. An `invoke` without a name is left out.
pub open spec fn invokes(text: Seq<char>) -> Seq<CallModel>
    decreases text.len(),
{
    match first_element(text, markers::invoke_open(), markers::invoke_close()) {
        None => Seq::empty(),
        Some(e) => {
            proof {
                lemma_first_element(text, markers::invoke_open(), markers::invoke_close());
            }
            match attribute(e.tag, "name"@) {
                Some(name) => seq![CallModel { name, input: params(e.inner) }] + invokes(e.rest),
                None => invokes(e.rest),
            }
        },
    }
}

/// Collects the tool calls in `body`, in both forms, also where closing tags are missing.
pub fn parse_invokes(body: &str) -> (calls: Vec<AntmlToolCall>)
    ensures
        call_models(calls@) == invokes(body@),
        forall|i: int| 0 <= i < calls@.len() ==> is_call_input((#[trigger] calls@[i]).input@),
{
    let mut calls: Vec<AntmlToolCall> = Vec::new();
    let mut rest = body;
    assert(call_models(calls@) + invokes(rest@) == invokes(rest@));
    loop
        invariant
            call_models(calls@) + invokes(rest@) == invokes(body@),
            forall|i: int| 0 <= i < calls@.len() ==> is_call_input((#[trigger] calls@[i]).input@),
        decreases rest@.len(),
    {
        proof {
            lemma_first_element(rest@, markers::invoke_open(), markers::invoke_close());
        }
        match next_element(rest, &markers::INVOKE_OPEN, &markers::INVOKE_CLOSE) {
            None => {
                assert(call_models(calls@) + invokes(rest@) == call_models(calls@));
                return calls;
            },
            Some((tag, inner, after)) => {
                if let Some(name) = extract_attr(tag, "name") {
                    let input = parse_params(inner);
                    let ghost before = calls@;
                    calls.push(AntmlToolCall { name, input });
                    proof {
                        let call = CallModel { name: name@, input: input@ };
                        assert(call_models(calls@) == call_models(before).push(call));
                        assert(call_models(before).push(call) + invokes(after@) == call_models(
                            before,
                        ) + (seq![call] + invokes(after@)));
                    }
                }
                rest = after;
            },
        }
    }
}

/// What the parser recovers from `text`: nothing where no marker stands in it, or where no
/// `invoke` with a name follows.
pub open spec fn parsed(text: Seq<char>) -> Option<ParsedModel> {
    match search::first_of_any(text, markers::triggers()) {
        None => None,
        Some((i, _)) => {
            let calls = invokes(text.skip(i));
            if calls.len() == 0 {
                None
            } else {
                Some(ParsedModel { prose: trim::trimmed(text.take(i)), calls })
            }
        },
    }
}

/// Parses leaked tool-call text.
///
/// The wrapper tag and the namespace prefix are optional: a bare `invoke` is enough. But at least
/// one `invoke` with a name has to be there, so that text that only speaks of tool calls is not
/// taken for one.
pub fn parse_function_calls(text: &str) -> (found: Option<ParsedAntml>)
    ensures
        match parsed(text@) {
            Some(p) => found matches Some(f) && f@ == p,
            None => found is None,
        },
        found matches Some(f) ==> forall|i: int|
            0 <= i < f.calls@.len() ==> is_call_input((#[trigger] f.calls@[i]).input@),
{
    let start: usize = match search::find_any(text, &markers::TRIGGER_MARKERS) {
        Some((start, _)) => start,
        None => {
            return None;
        },
    };
    let (before, region) = offsets::cut(text, start);
    let prose = trim::trim(before).to_owned();
    let calls = parse_invokes(region);
    if calls.len() == 0 {
        return None;
    }
    Some(ParsedAntml { prose, calls })
}

} // verus!
