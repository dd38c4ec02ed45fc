//! When two JSON values, or two recovered calls, are equal.
use vstd::prelude::*;
use vstd::string::*;

use crate::json;
use crate::json::Json;
use crate::json::JsonModel;
use crate::parse::AntmlToolCall;
use crate::parse::CallModel;
use crate::parse::ParsedAntml;
use crate::parse::ParsedModel;
use crate::search;

verus! {

/// Whether `serde_json` takes two numbers for equal.
pub uninterp spec fn numbers_equal(a: serde_json::Number, b: serde_json::Number) -> bool;

/// Compares two numbers, by the `==` of `serde_json::Number`: two integers are equal where they
/// are the same integer, two floating-point numbers where IEEE 754 says so, and an integer is never
/// equal to a floating-point number.
#[verifier::external_body]
fn same_number(a: &serde_json::Number, b: &serde_json::Number) -> (equal: bool)
    ensures
        equal == numbers_equal(*a, *b),
{
    a == b
}

/// Equal JSON values. The order of the fields of an object makes no difference.
pub open spec fn alike(a: JsonModel, b: JsonModel) -> bool
    decreases a,
{
    match (a, b) {
        (JsonModel::Null, JsonModel::Null) => true,
        (JsonModel::Bool(x), JsonModel::Bool(y)) => x == y,
        (JsonModel::Number(x), JsonModel::Number(y)) => numbers_equal(x, y),
        (JsonModel::Text(x), JsonModel::Text(y)) => x == y,
        (JsonModel::Array(x), JsonModel::Array(y)) => {
            &&& x.len() == y.len()
            &&& forall|i: int| 0 <= i < x.len() ==> alike(#[trigger] x[i], y[i])
        },
        (JsonModel::Object(x), JsonModel::Object(y)) => {
            &&& x.dom() == y.dom()
            &&& forall|key: Seq<char>| x.contains_key(key) ==> alike(#[trigger] x[key], y[key])
        },
        _ => false,
    }
}

/// A key that an object has is the key of one of its fields.
proof fn lemma_field_of_key(fields: Seq<(String, Json)>, key: Seq<char>) -> (i: int)
    requires
        json::fields_model(fields).contains_key(key),
    ensures
        0 <= i < fields.len(),
        fields[i].0@ == key,
{
    if forall|j: int| 0 <= j < fields.len() ==> (#[trigger] fields[j]).0@ != key {
        json::lemma_fields_absent(fields, key);
    }
    choose|i: int| 0 <= i < fields.len() && (#[trigger] fields[i]).0@ == key
}

/// Whether every key of `inner` is a key of `outer`.
fn covers(outer: &Vec<(String, Json)>, inner: &Vec<(String, Json)>) -> (all: bool)
    ensures
        all == (forall|key: Seq<char>| #[trigger]
            json::fields_model(inner@).contains_key(key) ==> json::fields_model(
                outer@,
            ).contains_key(key)),
{
    let ghost x = json::fields_model(outer@);
    let ghost y = json::fields_model(inner@);
    let mut j: usize = 0;
    while j < inner.len()
        invariant
            j <= inner@.len(),
            x == json::fields_model(outer@),
            y == json::fields_model(inner@),
            forall|k: int| 0 <= k < j ==> x.contains_key((#[trigger] inner@[k]).0@),
        decreases inner@.len() - j,
    {
        match json::field_index(outer, inner[j].0.as_str()) {
            Some(k) => {
                proof {
                    json::lemma_fields_lookup(outer@, k as int);
                }
            },
            None => {
                proof {
                    let key = inner@[j as int].0@;
                    json::lemma_fields_absent(outer@, key);
                    lemma_key_of_field(inner@, j as int);
                    assert(y.contains_key(key));
                }
                return false;
            },
        }
        j += 1;
    }
    assert forall|key: Seq<char>| #[trigger] y.contains_key(key) implies x.contains_key(key) by {
        let k = lemma_field_of_key(inner@, key);
        assert(x.contains_key(inner@[k].0@));
    }
    true
}

/// The key of a field is a key of the object.
proof fn lemma_key_of_field(fields: Seq<(String, Json)>, i: int)
    requires
        0 <= i < fields.len(),
    ensures
        json::fields_model(fields).contains_key(fields[i].0@),
    decreases fields.len(),
{
    if i < fields.len() - 1 {
        lemma_key_of_field(fields.drop_last(), i);
    }
}

/// Whether two JSON values are equal.
fn same_json(a: &Json, b: &Json) -> (equal: bool)
    ensures
        equal == alike(a@, b@),
    decreases a,
{
    match (a, b) {
        (Json::Null, Json::Null) => true,
        (Json::Bool(x), Json::Bool(y)) => *x == *y,
        (Json::Number(x), Json::Number(y)) => same_number(x, y),
        (Json::Text(x), Json::Text(y)) => search::same(x.as_str(), y.as_str()),
        (Json::Array(x), Json::Array(y)) => {
            proof {
                json::lemma_models(x@);
                json::lemma_models(y@);
            }
            if x.len() != y.len() {
                return false;
            }
            let mut i: usize = 0;
            while i < x.len()
                invariant
                    i <= x@.len() == y@.len(),
                    *a == Json::Array(*x),
                    a@ == JsonModel::Array(json::models(x@)),
                    b@ == JsonModel::Array(json::models(y@)),
                    json::models(x@).len() == x@.len(),
                    json::models(y@).len() == y@.len(),
                    forall|k: int| 0 <= k < x@.len() ==> #[trigger] json::models(x@)[k] == x@[k]@,
                    forall|k: int| 0 <= k < y@.len() ==> #[trigger] json::models(y@)[k] == y@[k]@,
                    forall|k: int|
                        0 <= k < i ==> alike(#[trigger] json::models(x@)[k], json::models(y@)[k]),
                decreases x@.len() - i,
            {
                assert(decreases_to!(a => a->Array_0));
                assert(decreases_to!(a->Array_0 => x@));
                assert(decreases_to!(x@ => x@[i as int]));
                assert(json::models(x@)[i as int] == x@[i as int]@);
                if !same_json(&x[i], &y[i]) {
                    return false;
                }
                i += 1;
            }
            true
        },
        (Json::Object(x), Json::Object(y)) => {
            if !covers(x, y) {
                return false;
            }
            let ghost xs = json::fields_model(x@);
            let ghost ys = json::fields_model(y@);
            let mut i: usize = 0;
            while i < x.len()
                invariant
                    i <= x@.len(),
                    *a == Json::Object(*x),
                    xs == json::fields_model(x@),
                    ys == json::fields_model(y@),
                    a@ == JsonModel::Object(xs),
                    b@ == JsonModel::Object(ys),
                    forall|key: Seq<char>| #[trigger] ys.contains_key(key) ==> xs.contains_key(key),
                    forall|k: int|
                        0 <= k < i ==> ys.contains_key((#[trigger] x@[k]).0@) && alike(
                            xs[x@[k].0@],
                            ys[x@[k].0@],
                        ),
                decreases x@.len() - i,
            {
                let ghost key = x@[i as int].0@;
                proof {
                    lemma_key_of_field(x@, i as int);
                }
                let last: usize = match json::field_index(x, x[i].0.as_str()) {
                    Some(last) => last,
                    None => i,
                };
                proof {
                    json::lemma_fields_lookup(x@, last as int);
                }
                match json::field_index(y, x[i].0.as_str()) {
                    Some(m) => {
                        proof {
                            json::lemma_fields_lookup(y@, m as int);
                            assert(xs[key] == x@[last as int].1@);
                        }
                        assert(decreases_to!(a => a->Object_0));
                        assert(decreases_to!(a->Object_0 => x@));
                        assert(decreases_to!(x@ => x@[last as int]));
                        assert(decreases_to!(x@[last as int] => x@[last as int].1));
                        if !same_json(&x[last].1, &y[m].1) {
                            return false;
                        }
                    },
                    None => {
                        proof {
                            json::lemma_fields_absent(y@, key);
                            assert(xs[key] == x@[last as int].1@);
                        }
                        return false;
                    },
                }
                i += 1;
            }
            proof {
                assert forall|key: Seq<char>| xs.contains_key(key) implies ys.contains_key(key)
                    && alike(#[trigger] xs[key], ys[key]) by {
                    let k = lemma_field_of_key(x@, key);
                    assert(x@[k].0@ == key);
                }
                assert forall|key: Seq<char>| xs.contains_key(key) == ys.contains_key(key) by {
                    if xs.contains_key(key) {
                        let k = lemma_field_of_key(x@, key);
                        assert(x@[k].0@ == key);
                    }
                }
                assert(xs.dom() =~= ys.dom());
            }
            true
        },
        _ => false,
    }
}

impl PartialEq for Json {
    fn eq(&self, other: &Json) -> (equal: bool) {
        same_json(self, other)
    }
}

impl vstd::std_specs::cmp::PartialEqSpecImpl for Json {
    open spec fn obeys_eq_spec() -> bool {
        true
    }

    open spec fn eq_spec(&self, other: &Json) -> bool {
        alike(self@, other@)
    }
}

/// Equal tool calls.
pub open spec fn calls_alike(a: CallModel, b: CallModel) -> bool {
    a.name == b.name && alike(a.input, b.input)
}

impl PartialEq for AntmlToolCall {
    fn eq(&self, other: &AntmlToolCall) -> (equal: bool) {
        search::same(self.name.as_str(), other.name.as_str()) && same_json(
            &self.input,
            &other.input,
        )
    }
}

impl vstd::std_specs::cmp::PartialEqSpecImpl for AntmlToolCall {
    open spec fn obeys_eq_spec() -> bool {
        true
    }

    open spec fn eq_spec(&self, other: &AntmlToolCall) -> bool {
        calls_alike(self@, other@)
    }
}

/// Equal results of parsing.
pub open spec fn parsed_alike(a: ParsedModel, b: ParsedModel) -> bool {
    &&& a.prose == b.prose
    &&& a.calls.len() == b.calls.len()
    &&& forall|i: int| 0 <= i < a.calls.len() ==> calls_alike(#[trigger] a.calls[i], b.calls[i])
}

impl PartialEq for ParsedAntml {
    fn eq(&self, other: &ParsedAntml) -> (equal: bool) {
        if !search::same(self.prose.as_str(), other.prose.as_str()) {
            return false;
        }
        if self.calls.len() != other.calls.len() {
            return false;
        }
        let mut i: usize = 0;
        while i < self.calls.len()
            invariant
                i <= self.calls@.len() == other.calls@.len(),
                self.prose@ == other.prose@,
                forall|k: int| 0 <= k < i ==> calls_alike(#[trigger] self@.calls[k], other@.calls[k]),
            decreases self.calls@.len() - i,
        {
            assert(self@.calls[i as int] == self.calls@[i as int]@);
            if self.calls[i] != other.calls[i] {
                return false;
            }
            i += 1;
        }
        true
    }
}

impl vstd::std_specs::cmp::PartialEqSpecImpl for ParsedAntml {
    open spec fn obeys_eq_spec() -> bool {
        true
    }

    open spec fn eq_spec(&self, other: &ParsedAntml) -> bool {
        parsed_alike(self@, other@)
    }
}

} // verus!
