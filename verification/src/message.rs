//! Rewriting whole messages in which a tool call leaked as text.
use vstd::prelude::*;
use vstd::string::*;

use crate::ids;
use crate::json;
use crate::json::Json;
use crate::json::JsonModel;
use crate::parse;
use crate::parse::CallModel;
use crate::parse::ParsedAntml;
use crate::parse::ParsedModel;
use crate::search;

verus! {

/// The text of the field `key`, where `json` is an object in which that field is a text.
pub open spec fn text_field(json: JsonModel, key: Seq<char>) -> Option<Seq<char>> {
    match json {
        JsonModel::Object(map) => if map.contains_key(key) {
            match map[key] {
                JsonModel::Text(text) => Some(text),
                _ => None,
            }
        } else {
            None
        },
        _ => None,
    }
}

/// The content blocks of a message, where it is an object in which `content` is an array.
pub open spec fn content_blocks(message: JsonModel) -> Option<Seq<JsonModel>> {
    match message {
        JsonModel::Object(map) => if map.contains_key("content"@) {
            match map["content"@] {
                JsonModel::Array(blocks) => Some(blocks),
                _ => None,
            }
        } else {
            None
        },
        _ => None,
    }
}

/// A content block with the type `kind`.
pub open spec fn has_type(block: JsonModel, kind: Seq<char>) -> bool {
    text_field(block, "type"@) == Some(kind)
}

/// The message ended as ordinary text does, or does not say how it ended.
pub open spec fn ended_as_text(message: JsonModel) -> bool {
    match text_field(message, "stop_reason"@) {
        Some(reason) => reason == "end_turn"@,
        None => true,
    }
}

/// The texts of the text blocks, one after the other.
pub open spec fn combined_text(blocks: Seq<JsonModel>) -> Seq<char>
    decreases blocks.len(),
{
    if blocks.len() == 0 {
        Seq::empty()
    } else {
        let before = combined_text(blocks.drop_last());
        match text_field(blocks.last(), "text"@) {
            Some(text) if has_type(blocks.last(), "text"@) => before + text,
            _ => before,
        }
    }
}

/// The blocks that are not text blocks, in their order.
pub open spec fn other_blocks(blocks: Seq<JsonModel>) -> Seq<JsonModel>
    decreases blocks.len(),
{
    if blocks.len() == 0 {
        Seq::empty()
    } else {
        let before = other_blocks(blocks.drop_last());
        if has_type(blocks.last(), "text"@) {
            before
        } else {
            before.push(blocks.last())
        }
    }
}

/// A text block.
pub open spec fn text_block(text: Seq<char>) -> JsonModel {
    JsonModel::Object(
        Map::empty().insert("type"@, JsonModel::Text("text"@)).insert(
            "text"@,
            JsonModel::Text(text),
        ),
    )
}

/// The block of the tool call with index `i`.
pub open spec fn tool_use_block(call: CallModel, i: nat) -> JsonModel {
    JsonModel::Object(
        Map::empty().insert("type"@, JsonModel::Text("tool_use"@)).insert(
            "id"@,
            JsonModel::Text(ids::tool_id(i)),
        ).insert("name"@, JsonModel::Text(call.name)).insert("input"@, call.input),
    )
}

/// The blocks of the tool calls, in their order.
pub open spec fn tool_use_blocks(calls: Seq<CallModel>) -> Seq<JsonModel> {
    Seq::new(calls.len(), |i: int| tool_use_block(calls[i], i as nat))
}

/// The content blocks that replace `blocks` once their text was parsed: the blocks that are not
/// text, the text before the tool calls where there is any, and the tool calls.
pub open spec fn new_blocks(blocks: Seq<JsonModel>, found: ParsedModel) -> Seq<JsonModel> {
    let prose = if found.prose.len() == 0 {
        Seq::empty()
    } else {
        seq![text_block(found.prose)]
    };
    other_blocks(blocks) + prose + tool_use_blocks(found.calls)
}

/// The content blocks that a message gets; nothing where the message stays as it is.
pub open spec fn replacement(message: JsonModel) -> Option<Seq<JsonModel>> {
    match content_blocks(message) {
        Some(blocks) if ended_as_text(message) && !(exists|i: int|
            0 <= i < blocks.len() && has_type(#[trigger] blocks[i], "tool_use"@)) => {
            match parse::parsed(combined_text(blocks)) {
                Some(found) => Some(new_blocks(blocks, found)),
                None => None,
            }
        },
        _ => None,
    }
}

/// The message with other content blocks, which ended with tool calls.
pub open spec fn with_blocks(message: JsonModel, blocks: Seq<JsonModel>) -> JsonModel {
    match message {
        JsonModel::Object(map) => JsonModel::Object(
            map.insert("content"@, JsonModel::Array(blocks)).insert(
                "stop_reason"@,
                JsonModel::Text("tool_use"@),
            ),
        ),
        other => other,
    }
}

/// The text of the field `key`.
fn field_text<'a>(json: &'a Json, key: &str) -> (text: Option<&'a str>)
    ensures
        match text_field(json@, key@) {
            Some(t) => text matches Some(s) && s@ == t,
            None => text is None,
        },
{
    match json.get(key) {
        Some(value) => value.as_str(),
        None => None,
    }
}

/// Whether a content block has the type `kind`.
fn is_type(block: &Json, kind: &str) -> (is: bool)
    ensures
        is == has_type(block@, kind@),
{
    match field_text(block, "type") {
        Some(found) => search::same(found, kind),
        None => false,
    }
}

/// Collects the text of the text blocks.
fn collect_text(blocks: &Vec<Json>) -> (combined: String)
    ensures
        combined@ == combined_text(json::models(blocks@)),
{
    let ghost all = json::models(blocks@);
    let mut combined = String::new();
    let mut i: usize = 0;
    proof {
        json::lemma_models(blocks@);
    }
    while i < blocks.len()
        invariant
            i <= blocks@.len() == all.len(),
            forall|k: int| 0 <= k < blocks@.len() ==> #[trigger] all[k] == blocks@[k]@,
            combined@ == combined_text(all.take(i as int)),
        decreases blocks@.len() - i,
    {
        proof {
            assert(all.take(i + 1).drop_last() == all.take(i as int));
            assert(all.take(i + 1).last() == blocks@[i as int]@);
        }
        if is_type(&blocks[i], "text") {
            if let Some(text) = field_text(&blocks[i], "text") {
                combined.append(text);
            }
        }
        i += 1;
    }
    assert(all.take(i as int) == all);
    combined
}

/// Makes the content blocks that replace `blocks`.
fn build_blocks(blocks: &Vec<Json>, found: &ParsedAntml) -> (built: Vec<Json>)
    ensures
        json::models(built@) == new_blocks(json::models(blocks@), found@),
{
    let ghost all = json::models(blocks@);
    let mut built: Vec<Json> = Vec::new();
    let mut i: usize = 0;
    proof {
        json::lemma_models(blocks@);
    }
    while i < blocks.len()
        invariant
            i <= blocks@.len() == all.len(),
            forall|k: int| 0 <= k < blocks@.len() ==> #[trigger] all[k] == blocks@[k]@,
            json::models(built@) == other_blocks(all.take(i as int)),
        decreases blocks@.len() - i,
    {
        proof {
            assert(all.take(i + 1).drop_last() == all.take(i as int));
            assert(all.take(i + 1).last() == blocks@[i as int]@);
        }
        if !is_type(&blocks[i], "text") {
            let ghost before = built@;
            built.push(blocks[i].clone());
            assert(built@.drop_last() == before);
        }
        i += 1;
    }
    assert(all.take(i as int) == all);
    let ghost kept = json::models(built@);
    let ghost prose = if found.prose@.len() == 0 {
        Seq::empty()
    } else {
        seq![text_block(found.prose@)]
    };
    if !found.prose.as_str().is_empty() {
        let mut fields: Vec<(String, Json)> = Vec::new();
        json::set_field(&mut fields, "type", Json::Text("text".to_owned()));
        json::set_field(&mut fields, "text", Json::Text(found.prose.clone()));
        let ghost before = built@;
        let block = Json::Object(fields);
        assert(block@ == text_block(found.prose@));
        built.push(block);
        assert(built@.drop_last() == before);
    }
    assert(json::models(built@) =~= kept + prose);
    let ghost calls = parse::call_models(found.calls@);
    let mut c: usize = 0;
    assert(tool_use_blocks(calls).take(0) == Seq::<JsonModel>::empty());
    while c < found.calls.len()
        invariant
            c <= found.calls@.len(),
            calls == parse::call_models(found.calls@),
            json::models(built@) == kept + prose + tool_use_blocks(calls).take(c as int),
        decreases found.calls@.len() - c,
    {
        let call = &found.calls[c];
        let mut fields: Vec<(String, Json)> = Vec::new();
        json::set_field(&mut fields, "type", Json::Text("tool_use".to_owned()));
        json::set_field(&mut fields, "id", Json::Text(ids::synthetic_tool_id(c)));
        json::set_field(&mut fields, "name", Json::Text(call.name.clone()));
        json::set_field(&mut fields, "input", call.input.clone());
        let ghost before = built@;
        let block = Json::Object(fields);
        assert(block@ == tool_use_block(call@, c as nat));
        built.push(block);
        proof {
            assert(built@.drop_last() == before);
            let blocks_of = tool_use_blocks(calls);
            assert(blocks_of[c as int] == tool_use_block(call@, c as nat));
            assert(kept + prose + blocks_of.take(c + 1) =~= (kept + prose + blocks_of.take(
                c as int,
            )).push(blocks_of[c as int]));
        }
        c += 1;
    }
    assert(tool_use_blocks(calls).take(c as int) == tool_use_blocks(calls));
    built
}

/// Decides whether a message is to be rewritten, and makes its new content blocks.
fn plan_rewrite(message: &Json) -> (blocks: Option<Vec<Json>>)
    ensures
        match replacement(message@) {
            Some(new) => blocks matches Some(b) && json::models(b@) == new,
            None => blocks is None,
        },
{
    if let Some(reason) = field_text(message, "stop_reason") {
        if !search::same(reason, "end_turn") {
            return None;
        }
    }
    let content = match message.get("content") {
        Some(content) => content,
        None => {
            return None;
        },
    };
    let blocks = match content.as_array() {
        Some(blocks) => blocks,
        None => {
            return None;
        },
    };
    proof {
        json::lemma_models(blocks@);
    }
    let ghost all = json::models(blocks@);
    let mut i: usize = 0;
    while i < blocks.len()
        invariant
            i <= blocks@.len() == all.len(),
            content_blocks(message@) == Some(all),
            forall|k: int| 0 <= k < blocks@.len() ==> #[trigger] all[k] == blocks@[k]@,
            forall|k: int| 0 <= k < i ==> !has_type(#[trigger] all[k], "tool_use"@),
        decreases blocks@.len() - i,
    {
        assert(all[i as int] == blocks@[i as int]@);
        if is_type(&blocks[i], "tool_use") {
            return None;
        }
        i += 1;
    }
    let combined = collect_text(blocks);
    match parse::parse_function_calls(combined.as_str()) {
        Some(found) => Some(build_blocks(blocks, &found)),
        None => None,
    }
}

/// Rewrites a message whose text leaked tool calls, and says whether it did.
///
/// A message is rewritten where it ended as text, holds no tool call of its own, and its text
/// blocks together parse as tool calls. Its text blocks are then replaced by the text before the
/// calls and the calls, its other blocks stay, and its stop reason becomes `tool_use`. Every other
/// message stays as it is.
pub fn rewrite_anthropic_message(msg: &mut Json) -> (changed: bool)
    ensures
        match replacement(old(msg)@) {
            Some(blocks) => changed && final(msg)@ == with_blocks(old(msg)@, blocks),
            None => !changed && *final(msg) == *old(msg),
        },
{
    let blocks = match plan_rewrite(msg) {
        Some(blocks) => blocks,
        None => {
            return false;
        },
    };
    match msg {
        Json::Object(fields) => {
            json::set_field(fields, "content", Json::Array(blocks));
            json::set_field(fields, "stop_reason", Json::Text("tool_use".to_owned()));
        },
        _ => {},
    }
    true
}

/// Rewrites a message that a `serde_json::Value` holds, as [`rewrite_anthropic_message`] does.
pub fn rewrite_anthropic_value(msg: &mut serde_json::Value) -> (changed: bool)
    ensures
        match replacement(json::json_of(*old(msg))) {
            Some(blocks) => changed && json::json_of(*final(msg)) == with_blocks(
                json::json_of(*old(msg)),
                blocks,
            ),
            None => !changed && json::json_of(*final(msg)) == json::json_of(*old(msg)),
        },
{
    let mut message = Json::take_value(msg);
    let changed = rewrite_anthropic_message(&mut message);
    *msg = message.to_value();
    changed
}

} // verus!
