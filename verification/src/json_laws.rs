//! What the model of a value says of the value, and when values are equal.
use vstd::prelude::*;
use vstd::string::*;

use crate::equality;
use crate::events;
use crate::json;
use crate::json::Json;
use crate::json::JsonModel;
use crate::parse;
use crate::parse::AntmlToolCall;
use crate::parse::ParsedAntml;

verus! {

/// The model of a value has its kind and what it holds: a text character for character, and an
/// array item by item.
pub proof fn law_model_of_a_value(value: Json)
    ensures
        match value {
            Json::Null => value@ == JsonModel::Null,
            Json::Bool(b) => value@ == JsonModel::Bool(b),
            Json::Number(n) => value@ == JsonModel::Number(n),
            Json::Text(s) => value@ == JsonModel::Text(s@),
            Json::Array(items) => value@ matches JsonModel::Array(all) && all.len() == items@.len()
                && forall|i: int| 0 <= i < items@.len() ==> #[trigger] all[i] == items@[i]@,
            Json::Object(fields) => value@ == JsonModel::Object(json::fields_model(fields@)),
        },
{
    if let Json::Array(items) = value {
        json::lemma_models(items@);
    }
}

/// An object has the keys of its fields and no others. The value of a key is that of the last field
/// with that key.
pub proof fn law_model_of_an_object(fields: Seq<(String, Json)>, key: Seq<char>)
    ensures
        json::fields_model(fields).contains_key(key) <==> exists|i: int|
            0 <= i < fields.len() && (#[trigger] fields[i]).0@ == key,
        forall|i: int|
            0 <= i < fields.len() && (#[trigger] fields[i]).0@ == key && (forall|j: int|
                i < j < fields.len() ==> (#[trigger] fields[j]).0@ != key)
                ==> json::fields_model(fields)[key] == fields[i].1@,
{
    if !(exists|i: int| 0 <= i < fields.len() && (#[trigger] fields[i]).0@ == key) {
        json::lemma_fields_absent(fields, key);
    } else {
        let i = lemma_last_field(fields, key);
        json::lemma_fields_lookup(fields, i);
    }
    assert forall|i: int|
        0 <= i < fields.len() && (#[trigger] fields[i]).0@ == key && (forall|j: int|
            i < j < fields.len() ==> (#[trigger] fields[j]).0@ != key) implies json::fields_model(
        fields,
    )[key] == fields[i].1@ by {
        json::lemma_fields_lookup(fields, i);
    }
}

/// The last field with a key.
proof fn lemma_last_field(fields: Seq<(String, Json)>, key: Seq<char>) -> (i: int)
    requires
        exists|i: int| 0 <= i < fields.len() && (#[trigger] fields[i]).0@ == key,
    ensures
        0 <= i < fields.len(),
        fields[i].0@ == key,
        forall|j: int| i < j < fields.len() ==> (#[trigger] fields[j]).0@ != key,
    decreases fields.len(),
{
    let n = fields.len() - 1;
    if fields[n].0@ == key {
        n
    } else {
        let init = fields.drop_last();
        let k = choose|i: int| 0 <= i < fields.len() && (#[trigger] fields[i]).0@ == key;
        assert(init[k] == fields[k]);
        let i = lemma_last_field(init, key);
        assert forall|j: int| i < j < fields.len() implies (#[trigger] fields[j]).0@ != key by {
            if j < n {
                assert(init[j] == fields[j]);
            }
        }
        i
    }
}

/// The models of calls, results and events hold what these hold.
pub proof fn law_models_of_results(
    call: AntmlToolCall,
    found: ParsedAntml,
    calls: Seq<AntmlToolCall>,
    texts: Seq<String>,
    i: int,
)
    ensures
        call@.name == call.name@,
        call@.input == call.input@,
        found@.prose == found.prose@,
        found@.calls == parse::call_models(found.calls@),
        parse::call_models(calls).len() == calls.len(),
        0 <= i < calls.len() ==> parse::call_models(calls)[i] == calls[i]@,
        events::event_texts(texts).len() == texts.len(),
        0 <= i < texts.len() ==> events::event_texts(texts)[i] == texts[i]@,
{
}

/// Values of the kinds without parts are equal exactly where they are the same; numbers are as
/// `serde_json` has it.
pub proof fn law_equal_scalars(
    x: Seq<char>,
    y: Seq<char>,
    b: bool,
    c: bool,
    n: serde_json::Number,
    m: serde_json::Number,
)
    ensures
        equality::alike(JsonModel::Null, JsonModel::Null),
        equality::alike(JsonModel::Bool(b), JsonModel::Bool(c)) <==> b == c,
        equality::alike(JsonModel::Text(x), JsonModel::Text(y)) <==> x == y,
        equality::alike(JsonModel::Number(n), JsonModel::Number(m)) <==> equality::numbers_equal(
            n,
            m,
        ),
{
}

/// Arrays are equal exactly where they have the same length and equal items, place by place.
pub proof fn law_equal_arrays(x: Seq<JsonModel>, y: Seq<JsonModel>)
    ensures
        equality::alike(JsonModel::Array(x), JsonModel::Array(y)) <==> x.len() == y.len() && forall|
            i: int,
        |
            0 <= i < x.len() ==> equality::alike(#[trigger] x[i], y[i]),
{
}

/// Objects are equal exactly where they have the same keys, and equal values for each. Where their
/// fields stand makes no difference.
pub proof fn law_equal_objects(x: Map<Seq<char>, JsonModel>, y: Map<Seq<char>, JsonModel>)
    ensures
        equality::alike(JsonModel::Object(x), JsonModel::Object(y)) <==> x.dom() == y.dom()
            && forall|key: Seq<char>|
            x.contains_key(key) ==> equality::alike(#[trigger] x[key], y[key]),
{
}

/// Values of different kinds are never equal.
pub proof fn law_different_kinds_differ(a: JsonModel, b: JsonModel)
    requires
        equality::alike(a, b),
    ensures
        a is Null <==> b is Null,
        a is Bool <==> b is Bool,
        a is Number <==> b is Number,
        a is Text <==> b is Text,
        a is Array <==> b is Array,
        a is Object <==> b is Object,
{
}

/// Calls are equal where their names are the same and their inputs equal; results of parsing where
/// their texts are the same and their calls equal, one by one.
pub proof fn law_equal_results(a: ParsedAntml, b: ParsedAntml, c: AntmlToolCall, d: AntmlToolCall)
    ensures
        equality::calls_alike(c@, d@) <==> c.name@ == d.name@ && equality::alike(
            c.input@,
            d.input@,
        ),
        equality::parsed_alike(a@, b@) <==> a.prose@ == b.prose@ && a.calls@.len() == b.calls@.len()
            && forall|i: int|
            0 <= i < a.calls@.len() ==> equality::calls_alike((#[trigger] a.calls@[i])@, b.calls@[i]@),
{
    if equality::parsed_alike(a@, b@) {
        assert forall|i: int| 0 <= i < a.calls@.len() implies equality::calls_alike(
            (#[trigger] a.calls@[i])@,
            b.calls@[i]@,
        ) by {
            assert(equality::calls_alike(a@.calls[i], b@.calls[i]));
        }
    }
    if a.prose@ == b.prose@ && a.calls@.len() == b.calls@.len() && forall|i: int|
        0 <= i < a.calls@.len() ==> equality::calls_alike((#[trigger] a.calls@[i])@, b.calls@[i]@) {
        assert forall|i: int| 0 <= i < a@.calls.len() implies equality::calls_alike(
            #[trigger] a@.calls[i],
            b@.calls[i],
        ) by {
            assert(equality::calls_alike(a.calls@[i]@, b.calls@[i]@));
        }
    }
}

/// What `==` means in code: the values, calls and results are equal.
pub proof fn law_operator_compares_the_models(
    x: Json,
    y: Json,
    a: ParsedAntml,
    b: ParsedAntml,
    c: AntmlToolCall,
    d: AntmlToolCall,
)
    ensures
        vstd::std_specs::cmp::PartialEqSpec::eq_spec(&x, &y) == equality::alike(x@, y@),
        vstd::std_specs::cmp::PartialEqSpec::eq_spec(&a, &b) == equality::parsed_alike(a@, b@),
        vstd::std_specs::cmp::PartialEqSpec::eq_spec(&c, &d) == equality::calls_alike(c@, d@),
{
}

} // verus!
