//! JSON values, and the text that `serde_json` reads and writes them as.
use vstd::prelude::*;
use vstd::string::*;

use crate::search;

verus! {

/// A JSON value.
///
/// The fields of an object stand in the order in which they were put there. Where two fields of
/// one object have the same key, the later one counts.
#[derive(Debug)]
pub enum Json {
    Null,
    Bool(bool),
    Number(serde_json::Number),
    Text(String),
    Array(Vec<Json>),
    Object(Vec<(String, Json)>),
}

/// What a JSON value is: two values with the same model are the same JSON.
#[verifier::ext_equal]
pub enum JsonModel {
    Null,
    Bool(bool),
    Number(serde_json::Number),
    Text(Seq<char>),
    Array(Seq<JsonModel>),
    Object(Map<Seq<char>, JsonModel>),
}

/// The model of a JSON value.
pub open spec fn model(json: Json) -> JsonModel
    decreases json,
{
    match json {
        Json::Null => JsonModel::Null,
        Json::Bool(b) => JsonModel::Bool(b),
        Json::Number(n) => JsonModel::Number(n),
        Json::Text(s) => JsonModel::Text(s@),
        Json::Array(items) => JsonModel::Array(models(items@)),
        Json::Object(fields) => JsonModel::Object(fields_model(fields@)),
    }
}

/// The models of a sequence of JSON values.
pub open spec fn models(items: Seq<Json>) -> Seq<JsonModel>
    decreases items,
{
    if items.len() == 0 {
        Seq::empty()
    } else {
        models(items.drop_last()).push(model(items.last()))
    }
}

/// The map that the fields of an object make up.
pub open spec fn fields_model(fields: Seq<(String, Json)>) -> Map<Seq<char>, JsonModel>
    decreases fields,
{
    if fields.len() == 0 {
        Map::empty()
    } else {
        fields_model(fields.drop_last()).insert(fields.last().0@, model(fields.last().1))
    }
}

impl View for Json {
    type V = JsonModel;

    open spec fn view(&self) -> JsonModel {
        model(*self)
    }
}

/// `serde_json::Value`.
#[verifier::external_type_specification]
#[verifier::external_body]
pub struct ExValue(serde_json::Value);

/// `serde_json::Number`.
#[verifier::external_type_specification]
#[verifier::external_body]
pub struct ExNumber(serde_json::Number);

/// `serde_json::Error`.
#[verifier::external_type_specification]
#[verifier::external_body]
pub struct ExError(serde_json::Error);

/// `serde_json::Map`.
#[verifier::external_type_specification]
#[verifier::external_body]
#[verifier::reject_recursive_types(K)]
#[verifier::reject_recursive_types(V)]
pub struct ExMap<K, V>(serde_json::Map<K, V>);

/// The JSON value that a `serde_json::Value` holds.
pub uninterp spec fn json_of(value: serde_json::Value) -> JsonModel;

/// The entries that a `serde_json::Map` holds.
pub uninterp spec fn entries_of(
    map: serde_json::Map<String, serde_json::Value>,
) -> Map<Seq<char>, JsonModel>;

/// One level of a `serde_json::Value`.
enum ValueNode {
    Null,
    Bool(bool),
    Number(serde_json::Number),
    Text(String),
    Array(Vec<serde_json::Value>),
    Object(serde_json::Map<String, serde_json::Value>),
}

spec fn node_model(node: ValueNode) -> JsonModel {
    match node {
        ValueNode::Null => JsonModel::Null,
        ValueNode::Bool(b) => JsonModel::Bool(b),
        ValueNode::Number(n) => JsonModel::Number(n),
        ValueNode::Text(s) => JsonModel::Text(s@),
        ValueNode::Array(items) => JsonModel::Array(
            Seq::new(items@.len(), |i: int| json_of(items@[i])),
        ),
        ValueNode::Object(map) => JsonModel::Object(entries_of(map)),
    }
}

/// Takes the outermost level of a `serde_json::Value` apart: which variant it is, and what that
/// variant holds.
#[verifier::external_body]
fn open_value(value: serde_json::Value) -> (node: ValueNode)
    ensures
        node_model(node) == json_of(value),
{
    match value {
        serde_json::Value::Null => ValueNode::Null,
        serde_json::Value::Bool(b) => ValueNode::Bool(b),
        serde_json::Value::Number(n) => ValueNode::Number(n),
        serde_json::Value::String(s) => ValueNode::Text(s),
        serde_json::Value::Array(items) => ValueNode::Array(items),
        serde_json::Value::Object(map) => ValueNode::Object(map),
    }
}

/// Puts the outermost level of a `serde_json::Value` together.
#[verifier::external_body]
fn close_value(node: ValueNode) -> (value: serde_json::Value)
    ensures
        json_of(value) == node_model(node),
{
    match node {
        ValueNode::Null => serde_json::Value::Null,
        ValueNode::Bool(b) => serde_json::Value::Bool(b),
        ValueNode::Number(n) => serde_json::Value::Number(n),
        ValueNode::Text(s) => serde_json::Value::String(s),
        ValueNode::Array(items) => serde_json::Value::Array(items),
        ValueNode::Object(map) => serde_json::Value::Object(map),
    }
}

/// `serde_json::Map::new` makes a map without entries.
pub assume_specification[ serde_json::Map::<String, serde_json::Value>::new ]() -> (
    made: serde_json::Map<String, serde_json::Value>
)
    ensures
        entries_of(made) =~= Map::empty(),
;

/// `serde_json::Map::insert` adds an entry, or replaces the value where the key was there, and
/// returns the value that was replaced.
pub assume_specification[ serde_json::Map::<String, serde_json::Value>::insert ](
    map: &mut serde_json::Map<String, serde_json::Value>,
    k: String,
    v: serde_json::Value,
) -> (replaced: Option<serde_json::Value>)
    ensures
        entries_of(*final(map)) == entries_of(*old(map)).insert(k@, json_of(v)),
        match replaced {
            Some(value) => entries_of(*old(map)).contains_pair(k@, json_of(value)),
            None => !entries_of(*old(map)).contains_key(k@),
        },
;

/// The map that the entries of a `serde_json::Map` make up.
pub open spec fn entries_model(entries: Seq<(String, serde_json::Value)>) -> Map<
    Seq<char>,
    JsonModel,
>
    decreases entries.len(),
{
    if entries.len() == 0 {
        Map::empty()
    } else {
        entries_model(entries.drop_last()).insert(entries.last().0@, json_of(entries.last().1))
    }
}

/// Hands out the entries of a `serde_json::Map`, by its `into_iter`: all of them, each key once.
#[verifier::external_body]
fn map_entries(map: serde_json::Map<String, serde_json::Value>) -> (entries: Vec<
    (String, serde_json::Value),
>)
    ensures
        entries_model(entries@) == entries_of(map),
        forall|i: int, j: int|
            0 <= i < j < entries@.len() ==> (#[trigger] entries@[i]).0@ != (
            #[trigger] entries@[j]).0@,
{
    map.into_iter().collect()
}

/// The clone of a `serde_json::Number` is that number.
pub assume_specification[ <serde_json::Number as Clone>::clone ](n: &serde_json::Number) -> (copy:
    serde_json::Number)
    ensures
        copy == *n,
;

/// The number that `serde_json::Number::from` makes of a `u32`.
pub uninterp spec fn number_of(n: u32) -> serde_json::Number;

/// Makes a number of a `u32`, by `serde_json::Number::from`.
#[verifier::external_body]
pub(crate) fn number(n: u32) -> (number: serde_json::Number)
    ensures
        number == number_of(n),
{
    serde_json::Number::from(n)
}

/// The JSON value that `serde_json::from_str` reads from a text; nothing where it reports an
/// error.
pub uninterp spec fn json_parse(text: Seq<char>) -> Option<JsonModel>;

/// Reads a `serde_json::Value` from a text, by `serde_json::from_str`. What it reads, and whether
/// it reports an error, depends on the text alone. The first character of the text decides what
/// kind of value is read: with the default features of `serde_json` a `{` gives an object, and a
/// `[` an array, or else an error.
#[verifier::external_body]
fn parse_value(text: &str) -> (parsed: Result<serde_json::Value, serde_json::Error>)
    ensures
        match parsed {
            Ok(value) => {
                &&& json_parse(text@) == Some(json_of(value))
                &&& "{"@.is_prefix_of(text@) ==> json_of(value) is Object
                &&& "["@.is_prefix_of(text@) ==> json_of(value) is Array
            },
            Err(_) => json_parse(text@) is None,
        },
{
    serde_json::from_str(text)
}

/// The text that `serde_json::to_string` writes for a JSON value; nothing where it reports an
/// error.
pub uninterp spec fn json_text(json: JsonModel) -> Option<Seq<char>>;

/// Writes a `serde_json::Value` as text, by `serde_json::to_string`. What it writes, and whether
/// it reports an error, depends on the JSON value alone: with the default features of `serde_json`
/// a map walks its entries in the order of their keys.
#[verifier::external_body]
fn value_text(value: &serde_json::Value) -> (text: Result<String, serde_json::Error>)
    ensures
        match text {
            Ok(text) => json_text(json_of(*value)) == Some(text@),
            Err(_) => json_text(json_of(*value)) is None,
        },
{
    serde_json::to_string(value)
}

proof fn lemma_entries_model(entries: Seq<(String, serde_json::Value)>)
    requires
        forall|i: int, j: int|
            0 <= i < j < entries.len() ==> (#[trigger] entries[i]).0@ != (#[trigger] entries[j]).0@,
    ensures
        entries_model(entries).dom().finite(),
        forall|i: int|
            0 <= i < entries.len() ==> entries_model(entries).contains_pair(
                (#[trigger] entries[i]).0@,
                json_of(entries[i].1),
            ),
    decreases entries.len(),
{
    if entries.len() > 0 {
        let init = entries.drop_last();
        lemma_entries_model(init);
        assert forall|i: int| 0 <= i < entries.len() implies entries_model(entries).contains_pair(
            (#[trigger] entries[i]).0@,
            json_of(entries[i].1),
        ) by {
            if i < init.len() {
                assert(init[i] == entries[i]);
                assert(entries[i].0@ != entries[entries.len() - 1].0@);
            }
        }
    }
}

impl Json {
    /// The JSON value that a `serde_json::Value` holds.
    pub fn from_value(value: serde_json::Value) -> (json: Json)
        ensures
            json@ == json_of(value),
        decreases json_of(value),
    {
        match open_value(value) {
            ValueNode::Null => Json::Null,
            ValueNode::Bool(b) => Json::Bool(b),
            ValueNode::Number(n) => Json::Number(n),
            ValueNode::Text(s) => Json::Text(s),
            ValueNode::Array(values) => {
                let ghost parts = Seq::new(values@.len(), |i: int| json_of(values@[i]));
                let ghost all = values@;
                let mut items: Vec<Json> = Vec::new();
                for item in it: values
                    invariant
                        it.seq() == all,
                        all.len() == parts.len(),
                        forall|i: int| 0 <= i < all.len() ==> json_of(all[i]) == #[trigger] parts[i],
                        json_of(value) == JsonModel::Array(parts),
                        models(items@) == parts.take(it.index() as int),
                {
                    assert(parts.take(it.index() + 1) == parts.take(it.index() as int).push(
                        parts[it.index() as int],
                    ));
                    assert(json_of(item) == parts[it.index() as int]);
                    assert(decreases_to!(json_of(value) => json_of(value)->Array_0));
                    assert(decreases_to!(parts => parts[it.index() as int]));
                    let next = Json::from_value(item);
                    let ghost before = items@;
                    items.push(next);
                    assert(items@.drop_last() == before);
                }
                assert(parts.take(parts.len() as int) == parts);
                Json::Array(items)
            },
            ValueNode::Object(map) => {
                let ghost entries = entries_of(map);
                let pairs = map_entries(map);
                let ghost all = pairs@;
                proof {
                    lemma_entries_model(all);
                }
                let mut fields: Vec<(String, Json)> = Vec::new();
                for pair in it: pairs
                    invariant
                        it.seq() == all,
                        json_of(value) == JsonModel::Object(entries),
                        entries.dom().finite(),
                        forall|i: int|
                            0 <= i < all.len() ==> entries.contains_pair(
                                (#[trigger] all[i]).0@,
                                json_of(all[i].1),
                            ),
                        fields_model(fields@) == entries_model(all.take(it.index() as int)),
                {
                    let ghost i = it.index() as int;
                    assert(all[i] == pair);
                    let (key, item) = pair;
                    assert(all.take(i + 1).drop_last() == all.take(i));
                    assert(entries.contains_pair(all[i].0@, json_of(all[i].1)));
                    assert(decreases_to!(json_of(value) => json_of(value)->Object_0));
                    assert(decreases_to!(entries => entries[key@]));
                    let next = Json::from_value(item);
                    let ghost before = fields@;
                    fields.push((key, next));
                    assert(fields@.drop_last() == before);
                }
                assert(all.take(all.len() as int) == all);
                Json::Object(fields)
            },
        }
    }

    /// The JSON value that a `serde_json::Value` holds, which is left with `null` in its place.
    pub(crate) fn take_value(value: &mut serde_json::Value) -> (json: Json)
        ensures
            json@ == json_of(*old(value)),
            json_of(*final(value)) == JsonModel::Null,
    {
        let mut taken = close_value(ValueNode::Null);
        std::mem::swap(&mut taken, value);
        Json::from_value(taken)
    }

    /// The `serde_json::Value` that holds this JSON value.
    pub fn to_value(&self) -> (value: serde_json::Value)
        ensures
            json_of(value) == self@,
        decreases self,
    {
        match self {
            Json::Null => close_value(ValueNode::Null),
            Json::Bool(b) => close_value(ValueNode::Bool(*b)),
            Json::Number(n) => close_value(ValueNode::Number(n.clone())),
            Json::Text(s) => close_value(ValueNode::Text(s.clone())),
            Json::Array(items) => {
                let mut values: Vec<serde_json::Value> = Vec::new();
                let mut i: usize = 0;
                while i < items.len()
                    invariant
                        i <= items@.len(),
                        *self == Json::Array(*items),
                        Seq::new(values@.len(), |k: int| json_of(values@[k])) == models(
                            items@.take(i as int),
                        ),
                    decreases items@.len() - i,
                {
                    let ghost before = values@;
                    assert(decreases_to!(self => self->Array_0));
                    assert(decreases_to!(self->Array_0 => items@));
                    assert(decreases_to!(items@ => items@[i as int]));
                    values.push(items[i].to_value());
                    proof {
                        assert(items@.take(i + 1).drop_last() == items@.take(i as int));
                        assert(Seq::new(values@.len(), |k: int| json_of(values@[k])) =~= Seq::new(
                            before.len(),
                            |k: int| json_of(before[k]),
                        ).push(items@[i as int]@));
                    }
                    i += 1;
                }
                assert(items@.take(i as int) == items@);
                close_value(ValueNode::Array(values))
            },
            Json::Object(fields) => {
                let mut map = serde_json::Map::new();
                let mut i: usize = 0;
                while i < fields.len()
                    invariant
                        i <= fields@.len(),
                        *self == Json::Object(*fields),
                        entries_of(map) == fields_model(fields@.take(i as int)),
                    decreases fields@.len() - i,
                {
                    assert(fields@.take(i + 1).drop_last() == fields@.take(i as int));
                    assert(decreases_to!(self => self->Object_0));
                    assert(decreases_to!(self->Object_0 => fields@));
                    assert(decreases_to!(fields@ => fields@[i as int]));
                    assert(decreases_to!(fields@[i as int] => fields@[i as int].1));
                    map.insert(fields[i].0.clone(), fields[i].1.to_value());
                    i += 1;
                }
                assert(fields@.take(i as int) == fields@);
                close_value(ValueNode::Object(map))
            },
        }
    }
}

/// The models of a sequence are those of its items, one by one.
pub proof fn lemma_models(items: Seq<Json>)
    ensures
        models(items).len() == items.len(),
        forall|i: int| 0 <= i < items.len() ==> #[trigger] models(items)[i] == model(items[i]),
    decreases items.len(),
{
    if items.len() > 0 {
        lemma_models(items.drop_last());
    }
}

/// The value of a key is that of its last field.
pub proof fn lemma_fields_lookup(fields: Seq<(String, Json)>, i: int)
    requires
        0 <= i < fields.len(),
        forall|j: int| i < j < fields.len() ==> (#[trigger] fields[j]).0@ != fields[i].0@,
    ensures
        fields_model(fields).contains_pair(fields[i].0@, fields[i].1@),
    decreases fields.len(),
{
    if i < fields.len() - 1 {
        lemma_fields_lookup(fields.drop_last(), i);
        assert(fields[fields.len() - 1].0@ != fields[i].0@);
    }
}

/// A key that no field has is not in the object.
pub proof fn lemma_fields_absent(fields: Seq<(String, Json)>, key: Seq<char>)
    requires
        forall|j: int| 0 <= j < fields.len() ==> (#[trigger] fields[j]).0@ != key,
    ensures
        !fields_model(fields).contains_key(key),
    decreases fields.len(),
{
    if fields.len() > 0 {
        lemma_fields_absent(fields.drop_last(), key);
        assert(fields[fields.len() - 1].0@ != key);
    }
}

/// Replacing the last field of a key replaces the value of that key.
pub proof fn lemma_fields_update(fields: Seq<(String, Json)>, i: int, field: (String, Json))
    requires
        0 <= i < fields.len(),
        field.0@ == fields[i].0@,
        forall|j: int| i < j < fields.len() ==> (#[trigger] fields[j]).0@ != fields[i].0@,
    ensures
        fields_model(fields.update(i, field)) == fields_model(fields).insert(field.0@, field.1@),
    decreases fields.len(),
{
    let init = fields.drop_last();
    let updated = fields.update(i, field);
    if i == fields.len() - 1 {
        assert(updated.drop_last() == init);
        assert(fields_model(updated) =~= fields_model(fields).insert(field.0@, field.1@));
    } else {
        lemma_fields_update(init, i, field);
        assert(updated.drop_last() == init.update(i, field));
        assert(fields[fields.len() - 1].0@ != fields[i].0@);
        assert(fields_model(updated) =~= fields_model(fields).insert(field.0@, field.1@));
    }
}

/// The index of the last field of a key.
pub(crate) fn field_index(fields: &Vec<(String, Json)>, key: &str) -> (index: Option<usize>)
    ensures
        match index {
            Some(i) => {
                &&& i < fields@.len()
                &&& fields@[i as int].0@ == key@
                &&& forall|j: int| i < j < fields@.len() ==> (#[trigger] fields@[j]).0@ != key@
            },
            None => forall|j: int| 0 <= j < fields@.len() ==> (#[trigger] fields@[j]).0@ != key@,
        },
{
    let mut i: usize = fields.len();
    while i > 0
        invariant
            i <= fields@.len(),
            forall|j: int| i <= j < fields@.len() ==> (#[trigger] fields@[j]).0@ != key@,
        decreases i,
    {
        i -= 1;
        if search::same(fields[i].0.as_str(), key) {
            return Some(i);
        }
    }
    None
}

/// Gives the key of an object a value.
pub(crate) fn set_field(fields: &mut Vec<(String, Json)>, key: &str, value: Json)
    ensures
        fields_model(final(fields)@) == fields_model(old(fields)@).insert(key@, value@),
{
    match field_index(fields, key) {
        Some(i) => {
            proof {
                assert forall|f: (String, Json)| f.0@ == key@ && f.1 == value implies fields_model(
                    #[trigger] fields@.update(i as int, f),
                ) == fields_model(fields@).insert(key@, value@) by {
                    lemma_fields_update(fields@, i as int, f);
                }
            }
            fields.set(i, (key.to_owned(), value));
        },
        None => {
            let ghost before = fields@;
            fields.push((key.to_owned(), value));
            assert(fields@.drop_last() == before);
        },
    }
}

impl Json {
    /// The value of a key, where this is an object with that key.
    pub fn get(&self, key: &str) -> (found: Option<&Json>)
        ensures
            match self@ {
                JsonModel::Object(map) => match found {
                    Some(value) => map.contains_pair(key@, value@),
                    None => !map.contains_key(key@),
                },
                _ => found is None,
            },
    {
        match self {
            Json::Object(fields) => match field_index(fields, key) {
                Some(i) => {
                    proof {
                        lemma_fields_lookup(fields@, i as int);
                    }
                    Some(&fields[i].1)
                },
                None => {
                    proof {
                        lemma_fields_absent(fields@, key@);
                    }
                    None
                },
            },
            _ => None,
        }
    }

    /// The items, where this is an array.
    pub fn as_array(&self) -> (items: Option<&Vec<Json>>)
        ensures
            match self@ {
                JsonModel::Array(all) => items matches Some(v) && models(v@) == all,
                _ => items is None,
            },
    {
        match self {
            Json::Array(items) => Some(items),
            _ => None,
        }
    }

    /// The text, where this is one.
    pub fn as_str(&self) -> (text: Option<&str>)
        ensures
            match self@ {
                JsonModel::Text(t) => text matches Some(s) && s@ == t,
                _ => text is None,
            },
    {
        match self {
            Json::Text(text) => Some(text.as_str()),
            _ => None,
        }
    }
}

impl Clone for Json {
    fn clone(&self) -> (copy: Self)
        ensures
            copy@ == self@,
        decreases self,
    {
        match self {
            Json::Null => Json::Null,
            Json::Bool(b) => Json::Bool(*b),
            Json::Number(n) => Json::Number(n.clone()),
            Json::Text(s) => Json::Text(s.clone()),
            Json::Array(items) => {
                let mut copies: Vec<Json> = Vec::new();
                let mut i: usize = 0;
                while i < items.len()
                    invariant
                        i <= items@.len(),
                        *self == Json::Array(*items),
                        models(copies@) == models(items@.take(i as int)),
                    decreases items@.len() - i,
                {
                    assert(items@.take(i + 1).drop_last() == items@.take(i as int));
                    let ghost before = copies@;
                    assert(decreases_to!(self => self->Array_0));
                    assert(decreases_to!(self->Array_0 => items@));
                    assert(decreases_to!(items@ => items@[i as int]));
                    copies.push(items[i].clone());
                    assert(copies@.drop_last() == before);
                    i += 1;
                }
                assert(items@.take(i as int) == items@);
                Json::Array(copies)
            },
            Json::Object(fields) => {
                let mut copies: Vec<(String, Json)> = Vec::new();
                let mut i: usize = 0;
                while i < fields.len()
                    invariant
                        i <= fields@.len(),
                        *self == Json::Object(*fields),
                        fields_model(copies@) == fields_model(fields@.take(i as int)),
                    decreases fields@.len() - i,
                {
                    assert(fields@.take(i + 1).drop_last() == fields@.take(i as int));
                    let ghost before = copies@;
                    assert(decreases_to!(self => self->Object_0));
                    assert(decreases_to!(self->Object_0 => fields@));
                    assert(decreases_to!(fields@ => fields@[i as int]));
                    assert(decreases_to!(fields@[i as int] => fields@[i as int].1));
                    copies.push((fields[i].0.clone(), fields[i].1.clone()));
                    assert(copies@.drop_last() == before);
                    i += 1;
                }
                assert(fields@.take(i as int) == fields@);
                Json::Object(copies)
            },
        }
    }
}

/// Reads a JSON value from a text. A text that starts with `{` gives an object or nothing, and one
/// that starts with `[` an array or nothing.
pub fn parse_json(text: &str) -> (parsed: Option<Json>)
    ensures
        match json_parse(text@) {
            Some(json) => parsed matches Some(p) && p@ == json,
            None => parsed is None,
        },
        parsed matches Some(p) ==> ("{"@.is_prefix_of(text@) ==> p@ is Object) && (
        "["@.is_prefix_of(text@) ==> p@ is Array),
{
    match parse_value(text) {
        Ok(value) => Some(Json::from_value(value)),
        Err(_) => None,
    }
}

/// Writes a JSON value as text.
pub fn write_json(json: &Json) -> (text: Option<String>)
    ensures
        match json_text(json@) {
            Some(written) => text matches Some(t) && t@ == written,
            None => text is None,
        },
{
    match value_text(&json.to_value()) {
        Ok(text) => Some(text),
        Err(_) => None,
    }
}

} // verus!
