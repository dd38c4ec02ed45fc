//! What holds of rewritten messages as a whole.
use vstd::prelude::*;
use vstd::string::*;

use crate::ids;
use crate::json::JsonModel;
use crate::message;
use crate::parse;
use crate::parse::CallModel;
use crate::parse::ParsedModel;
use crate::parse_laws;
use crate::parse_laws::WrittenCall;
use crate::trim;

verus! {

/// A message whose text blocks together leak tool calls is rewritten: its text blocks give way to
/// the text before the calls, and to one `tool_use` block for each call that was written.
pub proof fn law_leaked_message_is_rewritten(
    message: JsonModel,
    blocks: Seq<JsonModel>,
    prose: Seq<char>,
    head: Option<bool>,
    cs: Seq<WrittenCall>,
    tail: Seq<char>,
)
    requires
        message::content_blocks(message) == Some(blocks),
        message::ended_as_text(message),
        forall|i: int|
            0 <= i < blocks.len() ==> !message::has_type(#[trigger] blocks[i], "tool_use"@),
        message::combined_text(blocks) == parse_laws::leaked(prose, head, cs, tail),
        parse_laws::tellable(prose, head, cs, tail),
    ensures
        message::replacement(message) == Some(
            message::new_blocks(
                blocks,
                ParsedModel { prose: trim::trimmed(prose), calls: parse_laws::meant_calls(cs) },
            ),
        ),
{
    parse_laws::law_written_calls_are_recovered(prose, head, cs, tail);
}

/// A message that was rewritten stays as it is when it is handed in again.
pub proof fn law_rewriting_twice_changes_nothing(message: JsonModel)
    ensures
        message::replacement(message) matches Some(blocks) ==> message::replacement(
            message::with_blocks(message, blocks),
        ) is None,
{
    if let Some(blocks) = message::replacement(message) {
        let rewritten = message::with_blocks(message, blocks);
        reveal_strlit("tool_use");
        reveal_strlit("end_turn");
        assert("tool_use"@.len() != "end_turn"@.len() || "tool_use"@[0] != "end_turn"@[0]);
        assert(message::text_field(rewritten, "stop_reason"@) == Some("tool_use"@));
    }
}

/// A message with a tool call of its own, or one that did not end as text does, stays as it is.
pub proof fn law_native_tool_calls_are_left_alone(message: JsonModel, blocks: Seq<JsonModel>, i: int)
    requires
        message::content_blocks(message) == Some(blocks),
        0 <= i < blocks.len() && message::has_type(blocks[i], "tool_use"@)
            || !message::ended_as_text(message),
    ensures
        message::replacement(message) is None,
{
}

/// Rewriting changes no field of a message but its content and its stop reason, which become the
/// new content blocks and `tool_use`.
pub proof fn law_other_fields_are_kept(message: JsonModel, blocks: Seq<JsonModel>, key: Seq<char>)
    requires
        message is Object,
        key != "content"@,
        key != "stop_reason"@,
    ensures
        message::with_blocks(message, blocks) is Object,
        ({
            let before = message->Object_0;
            let after = message::with_blocks(message, blocks)->Object_0;
            &&& before.contains_key(key) == after.contains_key(key)
            &&& before.contains_key(key) ==> before[key] == after[key]
        }),
        message::content_blocks(message::with_blocks(message, blocks)) == Some(blocks),
        message::text_field(message::with_blocks(message, blocks), "stop_reason"@) == Some(
            "tool_use"@,
        ),
{
    reveal_strlit("content");
    reveal_strlit("stop_reason");
    assert("content"@.len() != "stop_reason"@.len());
}

/// The type of a text block and of a tool block.
proof fn lemma_block_types(text: Seq<char>, call: CallModel, i: nat)
    ensures
        message::has_type(message::text_block(text), "text"@),
        message::has_type(message::tool_use_block(call, i), "tool_use"@),
        message::text_field(message::tool_use_block(call, i), "id"@) == Some(ids::tool_id(i)),
        "text"@ != "tool_use"@,
{
    reveal_strlit("text");
    reveal_strlit("type");
    reveal_strlit("tool_use");
    reveal_strlit("id");
    reveal_strlit("name");
    reveal_strlit("input");
    assert("type"@[1] != "text"@[1]);
    assert("type"@[0] != "name"@[0]);
    assert("id"@.len() != "name"@.len());
    assert("id"@.len() != "input"@.len());
    assert("text"@.len() != "tool_use"@.len());
}

/// A block stays, in its order, exactly where it is not a text block.
pub proof fn law_other_blocks_are_kept(blocks: Seq<JsonModel>, found: ParsedModel)
    ensures
        message::other_blocks(blocks) == blocks.filter(
            |block: JsonModel| !message::has_type(block, "text"@),
        ),
        message::other_blocks(blocks).is_prefix_of(message::new_blocks(blocks, found)),
    decreases blocks.len(),
{
    reveal(Seq::filter);
    if blocks.len() > 0 {
        law_other_blocks_are_kept(blocks.drop_last(), found);
    }
    let kept = message::other_blocks(blocks);
    let all = message::new_blocks(blocks, found);
    assert(all.subrange(0, kept.len() as int) =~= kept);
}

/// From index `n` on, at least one block stands, all of them are tool calls, and no two have the
/// same id.
pub open spec fn tool_calls_from(blocks: Seq<JsonModel>, n: int) -> bool {
    &&& 0 <= n < blocks.len()
    &&& forall|i: int|
        n <= i < blocks.len() ==> message::has_type(#[trigger] blocks[i], "tool_use"@)
    &&& forall|i: int, j: int|
        n <= i < j < blocks.len() ==> message::text_field(#[trigger] blocks[i], "id"@)
            != message::text_field(#[trigger] blocks[j], "id"@)
}

/// A rewritten message ends with its tool calls, at least one, and their ids are all different.
/// No other block of it is a tool call.
pub proof fn law_rewritten_message_ends_with_tool_calls(message: JsonModel)
    ensures
        message::replacement(message) matches Some(blocks) ==> exists|n: int|
            {
                &&& #[trigger] tool_calls_from(blocks, n)
                &&& forall|i: int|
                    0 <= i < n ==> !message::has_type(#[trigger] blocks[i], "tool_use"@)
            },
{
    if let Some(new) = message::replacement(message) {
        let blocks = message::content_blocks(message)->0;
        let found = crate::parse::parsed(message::combined_text(blocks))->0;
        let tools = message::tool_use_blocks(found.calls);
        let n = new.len() - tools.len();
        assert forall|i: int| n <= i < new.len() implies message::has_type(
            #[trigger] new[i],
            "tool_use"@,
        ) by {
            assert(new[i] == tools[i - n]);
            lemma_block_types(found.prose, found.calls[i - n], (i - n) as nat);
        }
        assert forall|i: int, j: int| n <= i < j < new.len() implies message::text_field(
            #[trigger] new[i],
            "id"@,
        ) != message::text_field(#[trigger] new[j], "id"@) by {
            assert(new[i] == tools[i - n]);
            assert(new[j] == tools[j - n]);
            lemma_block_types(found.prose, found.calls[i - n], (i - n) as nat);
            lemma_block_types(found.prose, found.calls[j - n], (j - n) as nat);
            ids::law_tool_ids_distinct((i - n) as nat, (j - n) as nat);
        }
        assert(tool_calls_from(new, n));
        assert forall|i: int| 0 <= i < n implies !message::has_type(
            #[trigger] new[i],
            "tool_use"@,
        ) by {
            let kept = message::other_blocks(blocks);
            if i < kept.len() {
                let k = lemma_kept_block(blocks, i);
                assert(new[i] == blocks[k]);
            } else {
                assert(new[i] == message::text_block(found.prose));
                lemma_block_types(found.prose, found.calls[0], 0);
            }
        }
    }
}

/// A block that is kept is one of the blocks.
proof fn lemma_kept_block(blocks: Seq<JsonModel>, i: int) -> (k: int)
    requires
        0 <= i < message::other_blocks(blocks).len(),
    ensures
        0 <= k < blocks.len(),
        blocks[k] == message::other_blocks(blocks)[i],
    decreases blocks.len(),
{
    if i < message::other_blocks(blocks.drop_last()).len() {
        lemma_kept_block(blocks.drop_last(), i)
    } else {
        blocks.len() - 1
    }
}

/// A text field of an object is the text under that key, character for character. Where there is
/// something else under the key, or nothing, or where the value is no object, there is none.
pub proof fn law_text_fields(value: JsonModel, map: Map<Seq<char>, JsonModel>, key: Seq<char>)
    ensures
        message::text_field(JsonModel::Object(map), key) == (match map[key] {
            JsonModel::Text(text) if map.contains_key(key) => Some(text),
            _ => None,
        }),
        !(value is Object) ==> message::text_field(value, key) is None,
{
}

/// The content blocks of a message are the array under `content`, item by item. Where there is none,
/// or where the value is no object, there are none.
pub proof fn law_content_blocks(value: JsonModel, map: Map<Seq<char>, JsonModel>)
    ensures
        message::content_blocks(JsonModel::Object(map)) == (match map["content"@] {
            JsonModel::Array(blocks) if map.contains_key("content"@) => Some(blocks),
            _ => None,
        }),
        !(value is Object) ==> message::content_blocks(value) is None,
{
}

/// The type of a block is the text under `type`.
pub proof fn law_block_type(value: JsonModel, map: Map<Seq<char>, JsonModel>, kind: Seq<char>)
    ensures
        message::has_type(JsonModel::Object(map), kind) <==> map.contains_key("type"@)
            && map["type"@] == JsonModel::Text(kind),
        !(value is Object) ==> !message::has_type(value, kind),
{
}

/// A message ended as text where its stop reason is `end_turn`, or where it has no stop reason that
/// is a text.
pub proof fn law_ended_as_text(map: Map<Seq<char>, JsonModel>)
    ensures
        message::ended_as_text(JsonModel::Object(map)) <==> !map.contains_key("stop_reason"@) || !(
        map["stop_reason"@] is Text) || map["stop_reason"@] == JsonModel::Text("end_turn"@),
{
}

/// The texts of blocks are joined in their order, and nothing stands between them.
pub proof fn law_texts_are_joined(a: Seq<JsonModel>, b: Seq<JsonModel>)
    ensures
        message::combined_text(a + b) == message::combined_text(a) + message::combined_text(b),
    decreases b.len(),
{
    if b.len() == 0 {
        assert(a + b == a);
        assert(message::combined_text(a) + Seq::<char>::empty() =~= message::combined_text(a));
    } else {
        law_texts_are_joined(a, b.drop_last());
        assert((a + b).drop_last() =~= a + b.drop_last());
        assert((a + b).last() == b.last());
        let before = message::combined_text(a);
        let middle = message::combined_text(b.drop_last());
        if let Some(text) = message::text_field(b.last(), "text"@) {
            assert((before + middle) + text =~= before + (middle + text));
        }
    }
}

/// A text block gives its whole text, and every other block gives none.
pub proof fn law_text_of_a_block(block: JsonModel, text: Seq<char>)
    ensures
        message::has_type(block, "text"@) && message::text_field(block, "text"@) == Some(text)
            ==> message::combined_text(seq![block]) == text,
        !message::has_type(block, "text"@) || message::text_field(block, "text"@) is None
            ==> message::combined_text(seq![block]) == Seq::<char>::empty(),
{
    let one = seq![block];
    assert(one.drop_last() =~= Seq::<JsonModel>::empty());
    assert(one.last() == block);
    reveal_with_fuel(message::combined_text, 2);
    assert(Seq::<char>::empty() + text =~= text);
}

/// The keys of content blocks are all different.
proof fn lemma_block_keys()
    ensures
        "type"@ != "text"@,
        "type"@ != "id"@,
        "type"@ != "name"@,
        "type"@ != "input"@,
        "id"@ != "name"@,
        "id"@ != "input"@,
        "name"@ != "input"@,
{
    reveal_strlit("text");
    reveal_strlit("type");
    reveal_strlit("id");
    reveal_strlit("name");
    reveal_strlit("input");
    assert("type"@.len() == 4 && "name"@.len() == 4 && "text"@.len() == 4);
    assert("id"@.len() == 2 && "input"@.len() == 5);
    assert("type"@[1] != "text"@[1]);
    assert("type"@[0] != "name"@[0]);
}

/// The content of a rewritten message: first the blocks that are not text, in their order; then,
/// where there is text before the calls, one text block that holds all of that text; then one
/// `tool_use` block for each call, in their order, with an identifier made of its place, its whole
/// name and its whole input.
pub proof fn law_new_content(blocks: Seq<JsonModel>, found: ParsedModel)
    ensures
        ({
            let kept = blocks.filter(|block: JsonModel| !message::has_type(block, "text"@));
            let new = message::new_blocks(blocks, found);
            let n: int = if found.prose.len() == 0 {
                kept.len() as int
            } else {
                kept.len() as int + 1
            };
            &&& new.len() == n + found.calls.len()
            &&& forall|i: int| 0 <= i < kept.len() ==> #[trigger] new[i] == kept[i]
            &&& found.prose.len() > 0 ==> (new[kept.len() as int] matches JsonModel::Object(fields)
                && fields.dom() == set!["type"@, "text"@] && fields["type"@] == JsonModel::Text(
                "text"@,
            ) && fields["text"@] == JsonModel::Text(found.prose))
            &&& forall|i: int|
                n <= i < new.len() ==> (#[trigger] new[i] matches JsonModel::Object(fields)
                    && fields.dom() == set!["type"@, "id"@, "name"@, "input"@] && fields["type"@]
                    == JsonModel::Text("tool_use"@) && fields["id"@] == JsonModel::Text(
                    "toolu_antml_"@ + ids::decimal((i - n) as nat),
                ) && fields["name"@] == JsonModel::Text(found.calls[i - n].name)
                    && fields["input"@] == found.calls[i - n].input)
        }),
{
    law_other_blocks_are_kept(blocks, found);
    lemma_block_keys();
    let kept = message::other_blocks(blocks);
    let new = message::new_blocks(blocks, found);
    let tools = message::tool_use_blocks(found.calls);
    let n: int = if found.prose.len() == 0 {
        kept.len() as int
    } else {
        kept.len() as int + 1
    };
    assert forall|i: int| 0 <= i < kept.len() implies #[trigger] new[i] == kept[i] by {
        assert(new.subrange(0, kept.len() as int)[i] == kept[i]);
    }
    if found.prose.len() > 0 {
        assert(new[kept.len() as int] == message::text_block(found.prose));
        let fields = message::text_block(found.prose)->Object_0;
        assert(fields.dom() =~= set!["type"@, "text"@]);
    }
    assert forall|i: int| n <= i < new.len() implies (#[trigger] new[i] matches JsonModel::Object(
        fields,
    ) && fields.dom() == set!["type"@, "id"@, "name"@, "input"@] && fields["type"@]
        == JsonModel::Text("tool_use"@) && fields["id"@] == JsonModel::Text(
        "toolu_antml_"@ + ids::decimal((i - n) as nat),
    ) && fields["name"@] == JsonModel::Text(found.calls[i - n].name) && fields["input"@]
        == found.calls[i - n].input) by {
        assert(new[i] == tools[i - n]);
        let block = message::tool_use_block(found.calls[i - n], (i - n) as nat);
        let fields = block->Object_0;
        assert(fields.dom() =~= set!["type"@, "id"@, "name"@, "input"@]);
    }
}

/// When a message is rewritten, and to what: exactly where it has content blocks, ended as text,
/// holds no `tool_use` block, and the texts of its text blocks together parse. Its content then is
/// what its blocks and that result give.
pub proof fn law_when_a_message_is_rewritten(message: JsonModel, blocks: Seq<JsonModel>)
    requires
        message::content_blocks(message) == Some(blocks),
    ensures
        message::ended_as_text(message) && (forall|i: int|
            0 <= i < blocks.len() ==> !message::has_type(#[trigger] blocks[i], "tool_use"@)) ==> (
        match parse::parsed(message::combined_text(blocks)) {
            Some(found) => message::replacement(message) == Some(
                message::new_blocks(blocks, found),
            ),
            None => message::replacement(message) is None,
        }),
        !message::ended_as_text(message) || (exists|i: int|
            0 <= i < blocks.len() && message::has_type(#[trigger] blocks[i], "tool_use"@))
            ==> message::replacement(message) is None,
{
}

/// A value without content blocks is not rewritten.
pub proof fn law_other_values_are_left_alone(value: JsonModel)
    requires
        message::content_blocks(value) is None,
    ensures
        message::replacement(value) is None,
{
}

} // verus!
