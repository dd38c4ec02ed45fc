//! What the events of recovered calls, and of text that held none, carry.
use vstd::prelude::*;
use vstd::string::*;

use crate::events;
use crate::ids;
use crate::json;
use crate::json::JsonModel;
use crate::parse::CallModel;

verus! {

/// An identifier is a fixed text followed by the index of the call.
pub proof fn law_identifier_holds_the_index(i: nat)
    ensures
        ids::tool_id(i) == "toolu_antml_"@ + ids::decimal(i),
{
}

/// The digits of a number: one digit for a number below ten, and one digit more for ten times as
/// much.
pub proof fn law_decimal_digits(n: nat, d: nat)
    requires
        d < 10,
    ensures
        ids::decimal(d) == seq!["0123456789"@[d as int]],
        n > 0 ==> ids::decimal(10 * n + d) == ids::decimal(n).push("0123456789"@[d as int]),
{
    assert((10 * n + d) / 10 == n);
    assert((10 * n + d) % 10 == d);
}

/// An event is a line with its name, a line with its data, and an empty line. The data is there as
/// it was written, and left out where it could not be written.
pub proof fn law_event_frame(event: Seq<char>, data: Seq<char>)
    ensures
        events::framed(event, Some(data)) == "event: "@ + event + "\ndata: "@ + data + "\n\n"@,
        events::framed(event, None) == "event: "@ + event + "\ndata: "@ + "\n\n"@,
{
    let head = "event: "@ + event + "\ndata: "@;
    assert(head + Seq::<char>::empty() =~= head);
}

/// The keys of an event are all different.
proof fn lemma_keys_differ()
    ensures
        "type"@ != "index"@,
        "type"@ != "content_block"@,
        "type"@ != "delta"@,
        "index"@ != "content_block"@,
        "index"@ != "delta"@,
        "type"@ != "id"@,
        "type"@ != "name"@,
        "id"@ != "name"@,
        "type"@ != "partial_json"@,
        "type"@ != "text"@,
{
    reveal_strlit("type");
    reveal_strlit("index");
    reveal_strlit("content_block");
    reveal_strlit("delta");
    reveal_strlit("id");
    reveal_strlit("name");
    reveal_strlit("partial_json");
    reveal_strlit("text");
    assert("type"@.len() == 4 && "name"@.len() == 4 && "text"@.len() == 4);
    assert("type"@[0] != "name"@[0]);
    assert("type"@[1] != "text"@[1]);
    assert("index"@[0] != "delta"@[0]);
}

/// The event that opens a block has three fields: its type, the index, and the block as it is.
pub proof fn law_start_event_fields(index: u32, block: JsonModel)
    ensures
        events::block_start(index, block) matches JsonModel::Object(fields) && {
            &&& fields.dom() == set!["type"@, "index"@, "content_block"@]
            &&& fields["type"@] == JsonModel::Text("content_block_start"@)
            &&& fields["index"@] == JsonModel::Number(json::number_of(index))
            &&& fields["content_block"@] == block
        },
{
    lemma_keys_differ();
    let fields = events::block_start(index, block)->Object_0;
    assert(fields.dom() =~= set!["type"@, "index"@, "content_block"@]);
}

/// The event that carries a piece of a block has three fields: its type, the index, and the piece as
/// it is.
pub proof fn law_delta_event_fields(index: u32, delta: JsonModel)
    ensures
        events::block_delta(index, delta) matches JsonModel::Object(fields) && {
            &&& fields.dom() == set!["type"@, "index"@, "delta"@]
            &&& fields["type"@] == JsonModel::Text("content_block_delta"@)
            &&& fields["index"@] == JsonModel::Number(json::number_of(index))
            &&& fields["delta"@] == delta
        },
{
    lemma_keys_differ();
    let fields = events::block_delta(index, delta)->Object_0;
    assert(fields.dom() =~= set!["type"@, "index"@, "delta"@]);
}

/// The event that closes a block has two fields: its type and the index.
pub proof fn law_stop_event_fields(index: u32)
    ensures
        events::block_stop(index) matches JsonModel::Object(fields) && {
            &&& fields.dom() == set!["type"@, "index"@]
            &&& fields["type"@] == JsonModel::Text("content_block_stop"@)
            &&& fields["index"@] == JsonModel::Number(json::number_of(index))
        },
{
    lemma_keys_differ();
    let fields = events::block_stop(index)->Object_0;
    assert(fields.dom() =~= set!["type"@, "index"@]);
}

/// The block of a tool call has three fields: its type, its identifier and its name, both as they
/// are.
pub proof fn law_tool_block_fields(id: Seq<char>, name: Seq<char>)
    ensures
        events::tool_block(id, name) matches JsonModel::Object(fields) && {
            &&& fields.dom() == set!["type"@, "id"@, "name"@]
            &&& fields["type"@] == JsonModel::Text("tool_use"@)
            &&& fields["id"@] == JsonModel::Text(id)
            &&& fields["name"@] == JsonModel::Text(name)
        },
{
    lemma_keys_differ();
    let fields = events::tool_block(id, name)->Object_0;
    assert(fields.dom() =~= set!["type"@, "id"@, "name"@]);
}

/// The piece that carries an input has two fields: its type, and the whole text of the input. Where
/// the input could not be written, that text is an empty object.
pub proof fn law_input_is_carried_whole(text: Seq<char>)
    ensures
        events::input_delta(Some(text)) matches JsonModel::Object(fields) && {
            &&& fields.dom() == set!["type"@, "partial_json"@]
            &&& fields["type"@] == JsonModel::Text("input_json_delta"@)
            &&& fields["partial_json"@] == JsonModel::Text(text)
        },
        events::input_delta(None) == events::input_delta(Some("{}"@)),
{
    lemma_keys_differ();
    let fields = events::input_delta(Some(text))->Object_0;
    assert(fields.dom() =~= set!["type"@, "partial_json"@]);
}

/// The block of a text is opened empty: it has two fields, its type and an empty text.
pub proof fn law_empty_text_block_fields()
    ensures
        events::empty_text_block() matches JsonModel::Object(fields) && {
            &&& fields.dom() == set!["type"@, "text"@]
            &&& fields["type"@] == JsonModel::Text("text"@)
            &&& fields["text"@] == JsonModel::Text(Seq::<char>::empty())
        },
{
    lemma_keys_differ();
    reveal_strlit("");
    let fields = events::empty_text_block()->Object_0;
    assert(fields.dom() =~= set!["type"@, "text"@]);
    assert(""@ =~= Seq::<char>::empty());
}

/// The piece that carries a text has two fields: its type, and the whole text.
pub proof fn law_text_is_carried_whole(content: Seq<char>)
    ensures
        events::text_delta(content) matches JsonModel::Object(fields) && {
            &&& fields.dom() == set!["type"@, "text"@]
            &&& fields["type"@] == JsonModel::Text("text_delta"@)
            &&& fields["text"@] == JsonModel::Text(content)
        },
{
    lemma_keys_differ();
    let fields = events::text_delta(content)->Object_0;
    assert(fields.dom() =~= set!["type"@, "text"@]);
}

/// The three events of a call: the first opens a `tool_use` block with the call's own
/// identifier and name, the second carries the text of its whole input, and the third closes the
/// block. All three have the given content index. Which index that is for which call, and in what
/// order the events stand, [`events::law_three_events_for_each_call`] says.
pub proof fn law_events_of_a_call(call: CallModel, i: nat, content_index: u32)
    ensures
        ({
            let all = events::call_events(call, i, content_index);
            let index = JsonModel::Number(json::number_of(content_index));
            let block = Map::empty().insert("type"@, JsonModel::Text("tool_use"@)).insert(
                "id"@,
                JsonModel::Text("toolu_antml_"@ + ids::decimal(i)),
            ).insert("name"@, JsonModel::Text(call.name));
            let input = match json::json_text(call.input) {
                Some(text) => text,
                None => "{}"@,
            };
            let piece = Map::empty().insert("type"@, JsonModel::Text("input_json_delta"@)).insert(
                "partial_json"@,
                JsonModel::Text(input),
            );
            let opening = Map::empty().insert("type"@, JsonModel::Text("content_block_start"@)).insert(
                "index"@,
                index,
            ).insert("content_block"@, JsonModel::Object(block));
            let carrying = Map::empty().insert("type"@, JsonModel::Text("content_block_delta"@)).insert(
                "index"@,
                index,
            ).insert("delta"@, JsonModel::Object(piece));
            let closing = Map::empty().insert("type"@, JsonModel::Text("content_block_stop"@)).insert(
                "index"@,
                index,
            );
            &&& all.len() == 3
            &&& all[0] == "event: "@ + "content_block_start"@ + "\ndata: "@ + (match json::json_text(
                JsonModel::Object(opening),
            ) {
                Some(data) => data,
                None => Seq::empty(),
            }) + "\n\n"@
            &&& all[1] == "event: "@ + "content_block_delta"@ + "\ndata: "@ + (match json::json_text(
                JsonModel::Object(carrying),
            ) {
                Some(data) => data,
                None => Seq::empty(),
            }) + "\n\n"@
            &&& all[2] == "event: "@ + "content_block_stop"@ + "\ndata: "@ + (match json::json_text(
                JsonModel::Object(closing),
            ) {
                Some(data) => data,
                None => Seq::empty(),
            }) + "\n\n"@
        }),
{
}

/// The events of a text: the first opens an empty text block, the second carries the whole text, and
/// the third closes the block. All three have the given content index.
pub proof fn law_events_of_a_text(content: Seq<char>, index: u32)
    ensures
        ({
            let all = events::text_events(content, index);
            let number = JsonModel::Number(json::number_of(index));
            let block = Map::empty().insert("type"@, JsonModel::Text("text"@)).insert(
                "text"@,
                JsonModel::Text(""@),
            );
            let piece = Map::empty().insert("type"@, JsonModel::Text("text_delta"@)).insert(
                "text"@,
                JsonModel::Text(content),
            );
            let opening = Map::empty().insert("type"@, JsonModel::Text("content_block_start"@)).insert(
                "index"@,
                number,
            ).insert("content_block"@, JsonModel::Object(block));
            let carrying = Map::empty().insert("type"@, JsonModel::Text("content_block_delta"@)).insert(
                "index"@,
                number,
            ).insert("delta"@, JsonModel::Object(piece));
            let closing = Map::empty().insert("type"@, JsonModel::Text("content_block_stop"@)).insert(
                "index"@,
                number,
            );
            &&& all.len() == 3
            &&& all[0] == "event: "@ + "content_block_start"@ + "\ndata: "@ + (match json::json_text(
                JsonModel::Object(opening),
            ) {
                Some(data) => data,
                None => Seq::empty(),
            }) + "\n\n"@
            &&& all[1] == "event: "@ + "content_block_delta"@ + "\ndata: "@ + (match json::json_text(
                JsonModel::Object(carrying),
            ) {
                Some(data) => data,
                None => Seq::empty(),
            }) + "\n\n"@
            &&& all[2] == "event: "@ + "content_block_stop"@ + "\ndata: "@ + (match json::json_text(
                JsonModel::Object(closing),
            ) {
                Some(data) => data,
                None => Seq::empty(),
            }) + "\n\n"@
        }),
{
}

} // verus!
