//! Server-sent events for content blocks.
use vstd::prelude::*;
use vstd::string::*;

use crate::ids;
use crate::json;
use crate::json::Json;
use crate::json::JsonModel;
use crate::parse;
use crate::parse::AntmlToolCall;
use crate::parse::CallModel;

verus! {

/// The text of an event with the name `event`. `data` is the text of its JSON data; where that
/// could not be written, the data is empty.
pub open spec fn framed(event: Seq<char>, data: Option<Seq<char>>) -> Seq<char> {
    let text = match data {
        Some(text) => text,
        None => Seq::empty(),
    };
    "event: "@ + event + "\ndata: "@ + text + "\n\n"@
}

/// Frames the text of an event's data.
pub fn frame_event(event: &str, data: Option<String>) -> (framed_event: String)
    ensures
        framed_event@ == framed(
            event@,
            match data {
                Some(text) => Some(text@),
                None => None,
            },
        ),
{
    let mut out = "event: ".to_owned();
    out.append(event);
    out.append("\ndata: ");
    if let Some(text) = data {
        out.append(text.as_str());
    }
    out.append("\n\n");
    out
}

/// The text of an event with JSON data.
pub fn sse(event: &str, data: &Json) -> (framed_event: String)
    ensures
        framed_event@ == framed(event@, json::json_text(data@)),
{
    frame_event(event, json::write_json(data))
}

/// A JSON text.
fn text(content: &str) -> (json: Json)
    ensures
        json@ == JsonModel::Text(content@),
{
    Json::Text(content.to_owned())
}

/// A JSON number.
fn number(n: u32) -> (json: Json)
    ensures
        json@ == JsonModel::Number(json::number_of(n)),
{
    Json::Number(json::number(n))
}

/// The event that opens a content block.
pub open spec fn block_start(index: u32, block: JsonModel) -> JsonModel {
    JsonModel::Object(
        Map::empty().insert("type"@, JsonModel::Text("content_block_start"@)).insert(
            "index"@,
            JsonModel::Number(json::number_of(index)),
        ).insert("content_block"@, block),
    )
}

/// The event that carries a piece of a content block.
pub open spec fn block_delta(index: u32, delta: JsonModel) -> JsonModel {
    JsonModel::Object(
        Map::empty().insert("type"@, JsonModel::Text("content_block_delta"@)).insert(
            "index"@,
            JsonModel::Number(json::number_of(index)),
        ).insert("delta"@, delta),
    )
}

/// The event that closes a content block.
pub open spec fn block_stop(index: u32) -> JsonModel {
    JsonModel::Object(
        Map::empty().insert("type"@, JsonModel::Text("content_block_stop"@)).insert(
            "index"@,
            JsonModel::Number(json::number_of(index)),
        ),
    )
}

/// The block of a tool call as its opening event shows it.
pub open spec fn tool_block(id: Seq<char>, name: Seq<char>) -> JsonModel {
    JsonModel::Object(
        Map::empty().insert("type"@, JsonModel::Text("tool_use"@)).insert(
            "id"@,
            JsonModel::Text(id),
        ).insert("name"@, JsonModel::Text(name)),
    )
}

/// The piece that carries the input of a tool call. `written` is the text of the input; where it
/// could not be written, the input is an empty object.
pub open spec fn input_delta(written: Option<Seq<char>>) -> JsonModel {
    let partial = match written {
        Some(text) => text,
        None => "{}"@,
    };
    JsonModel::Object(
        Map::empty().insert("type"@, JsonModel::Text("input_json_delta"@)).insert(
            "partial_json"@,
            JsonModel::Text(partial),
        ),
    )
}

/// The block of a text as its opening event shows it.
pub open spec fn empty_text_block() -> JsonModel {
    JsonModel::Object(
        Map::empty().insert("type"@, JsonModel::Text("text"@)).insert(
            "text"@,
            JsonModel::Text(""@),
        ),
    )
}

/// The piece that carries a text.
pub open spec fn text_delta(content: Seq<char>) -> JsonModel {
    JsonModel::Object(
        Map::empty().insert("type"@, JsonModel::Text("text_delta"@)).insert(
            "text"@,
            JsonModel::Text(content),
        ),
    )
}

/// Makes the event that opens the content block `block`.
pub fn block_start_event(index: u32, block: Json) -> (event: Json)
    ensures
        event@ == block_start(index, block@),
{
    let mut fields: Vec<(String, Json)> = Vec::new();
    json::set_field(&mut fields, "type", text("content_block_start"));
    json::set_field(&mut fields, "index", number(index));
    json::set_field(&mut fields, "content_block", block);
    Json::Object(fields)
}

/// Makes the event that carries the piece `delta`.
pub fn block_delta_event(index: u32, delta: Json) -> (event: Json)
    ensures
        event@ == block_delta(index, delta@),
{
    let mut fields: Vec<(String, Json)> = Vec::new();
    json::set_field(&mut fields, "type", text("content_block_delta"));
    json::set_field(&mut fields, "index", number(index));
    json::set_field(&mut fields, "delta", delta);
    Json::Object(fields)
}

/// Makes the event that closes a content block.
pub fn block_stop_event(index: u32) -> (event: Json)
    ensures
        event@ == block_stop(index),
{
    let mut fields: Vec<(String, Json)> = Vec::new();
    json::set_field(&mut fields, "type", text("content_block_stop"));
    json::set_field(&mut fields, "index", number(index));
    Json::Object(fields)
}

/// Makes the block of a tool call.
fn tool_block_json(id: &str, name: &str) -> (block: Json)
    ensures
        block@ == tool_block(id@, name@),
{
    let mut fields: Vec<(String, Json)> = Vec::new();
    json::set_field(&mut fields, "type", text("tool_use"));
    json::set_field(&mut fields, "id", text(id));
    json::set_field(&mut fields, "name", text(name));
    Json::Object(fields)
}

/// Makes the piece that carries the input of a tool call.
pub fn input_delta_json(written: Option<String>) -> (delta: Json)
    ensures
        delta@ == input_delta(
            match written {
                Some(text) => Some(text@),
                None => None,
            },
        ),
{
    let partial = match written {
        Some(text) => text,
        None => "{}".to_owned(),
    };
    let mut fields: Vec<(String, Json)> = Vec::new();
    json::set_field(&mut fields, "type", text("input_json_delta"));
    json::set_field(&mut fields, "partial_json", Json::Text(partial));
    Json::Object(fields)
}

/// The three events of one tool call: start, input, stop.
pub open spec fn call_events(call: CallModel, i: nat, index: u32) -> Seq<Seq<char>> {
    seq![
        framed(
            "content_block_start"@,
            json::json_text(block_start(index, tool_block(ids::tool_id(i), call.name))),
        ),
        framed(
            "content_block_delta"@,
            json::json_text(block_delta(index, input_delta(json::json_text(call.input)))),
        ),
        framed("content_block_stop"@, json::json_text(block_stop(index))),
    ]
}

/// The events of `calls`, the first of which has the content index `start`.
pub open spec fn tool_events(calls: Seq<CallModel>, start: int) -> Seq<Seq<char>>
    decreases calls.len(),
{
    if calls.len() == 0 {
        Seq::empty()
    } else {
        let i = (calls.len() - 1) as nat;
        tool_events(calls.drop_last(), start) + call_events(calls.last(), i, (start + i) as u32)
    }
}

/// Every call has three events, which stand one after the other: those that open its content block,
/// carry its input, and close the block. The calls come in their order, and each has the content
/// index after that of the call before it.
pub proof fn law_three_events_for_each_call(calls: Seq<CallModel>, start: int, k: int)
    requires
        0 <= k < calls.len(),
    ensures
        tool_events(calls, start).len() == 3 * calls.len(),
        tool_events(calls, start).subrange(3 * k, 3 * k + 3) == call_events(
            calls[k],
            k as nat,
            (start + k) as u32,
        ),
    decreases calls.len(),
{
    let before = tool_events(calls.drop_last(), start);
    let all = tool_events(calls, start);
    if calls.len() == 1 {
        assert(calls.drop_last() == Seq::<CallModel>::empty());
        assert(before == Seq::<Seq<char>>::empty());
    } else {
        law_three_events_for_each_call(calls.drop_last(), start, if k < calls.len() - 1 {
            k
        } else {
            0
        });
    }
    if k < calls.len() - 1 {
        assert(all.subrange(3 * k, 3 * k + 3) =~= before.subrange(3 * k, 3 * k + 3));
    } else {
        assert(all.subrange(3 * k, 3 * k + 3) =~= call_events(
            calls[k],
            k as nat,
            (start + k) as u32,
        ));
    }
}

/// The texts of a sequence of events.
pub open spec fn event_texts(events: Seq<String>) -> Seq<Seq<char>> {
    Seq::new(events.len(), |i: int| events[i]@)
}

/// The events of `calls`, three for each, and the next free content index.
pub fn tool_use_sse_events(calls: &[AntmlToolCall], start_index: u32) -> (result: (
    Vec<String>,
    u32,
))
    requires
        start_index + calls@.len() <= u32::MAX,
    ensures
        event_texts(result.0@) == tool_events(parse::call_models(calls@), start_index as int),
        result.1 == start_index + calls@.len(),
{
    let mut events: Vec<String> = Vec::new();
    let mut index: u32 = start_index;
    let mut i: usize = 0;
    let ghost all = parse::call_models(calls@);
    while i < calls.len()
        invariant
            i <= calls@.len(),
            all == parse::call_models(calls@),
            start_index + calls@.len() <= u32::MAX,
            index == start_index + i,
            event_texts(events@) == tool_events(all.take(i as int), start_index as int),
        decreases calls@.len() - i,
    {
        let call = &calls[i];
        let ghost before = events@;
        let id = ids::synthetic_tool_id(i);
        let start = block_start_event(index, tool_block_json(id.as_str(), call.name.as_str()));
        events.push(sse("content_block_start", &start));
        let delta = block_delta_event(index, input_delta_json(json::write_json(&call.input)));
        events.push(sse("content_block_delta", &delta));
        let stop = block_stop_event(index);
        events.push(sse("content_block_stop", &stop));
        proof {
            assert(all.take(i + 1).drop_last() == all.take(i as int));
            assert(all.take(i + 1).last() == call@);
            assert(event_texts(events@) =~= event_texts(before) + call_events(
                call@,
                i as nat,
                index,
            ));
        }
        index += 1;
        i += 1;
    }
    assert(all.take(i as int) == all);
    (events, index)
}

/// The events of one block of text.
pub open spec fn text_events(content: Seq<char>, index: u32) -> Seq<Seq<char>> {
    seq![
        framed("content_block_start"@, json::json_text(block_start(index, empty_text_block()))),
        framed("content_block_delta"@, json::json_text(block_delta(index, text_delta(content)))),
        framed("content_block_stop"@, json::json_text(block_stop(index))),
    ]
}

/// The events of one block of text, and the next free content index. Buffered text that turns out
/// not to hold a tool call is sent on this way.
pub fn standalone_text_sse_events(content: &str, start_index: u32) -> (result: (Vec<String>, u32))
    requires
        start_index < u32::MAX,
    ensures
        event_texts(result.0@) == text_events(content@, start_index),
        result.1 == start_index + 1,
{
    let mut block: Vec<(String, Json)> = Vec::new();
    json::set_field(&mut block, "type", text("text"));
    json::set_field(&mut block, "text", text(""));
    let start = block_start_event(start_index, Json::Object(block));
    let mut piece: Vec<(String, Json)> = Vec::new();
    json::set_field(&mut piece, "type", text("text_delta"));
    json::set_field(&mut piece, "text", text(content));
    let delta = block_delta_event(start_index, Json::Object(piece));
    let stop = block_stop_event(start_index);
    let mut events: Vec<String> = Vec::new();
    events.push(sse("content_block_start", &start));
    events.push(sse("content_block_delta", &delta));
    events.push(sse("content_block_stop", &stop));
    assert(event_texts(events@) =~= text_events(content@, start_index));
    (events, start_index + 1)
}

} // verus!
