//! JSON values as the viewer sees them, and the shortening of long strings
//! before an entry is pretty-printed.
//!
//! An entry's text is parsed by serde_json into a [`JsonValue`], its strings
//! are shortened here, and serde_json pretty-prints it.

use vstd::prelude::*;

verus! {

/// A JSON value. A number is kept as serde_json read it, to be written back
/// unchanged; the members of an object keep their order.
#[derive(Debug, PartialEq, Eq)]
pub enum JsonValue {
    Null,
    Bool(bool),
    Number(serde_json::Number),
    Str(String),
    Array(Vec<JsonValue>),
    Object(Vec<(String, JsonValue)>),
}

/// The mathematical value of a [`JsonValue`].
pub enum JsonModel {
    Null,
    Bool(bool),
    Number(serde_json::Number),
    Str(Seq<char>),
    Array(Seq<JsonModel>),
    Object(Seq<(Seq<char>, JsonModel)>),
}

/// The model of a JSON value.
pub open spec fn json_model(v: JsonValue) -> JsonModel
    decreases v,
{
    match v {
        JsonValue::Null => JsonModel::Null,
        JsonValue::Bool(b) => JsonModel::Bool(b),
        JsonValue::Number(n) => JsonModel::Number(n),
        JsonValue::Str(s) => JsonModel::Str(s@),
        JsonValue::Array(items) => JsonModel::Array(Seq::new(
            items@.len(),
            |i: int| if 0 <= i < items@.len() { json_model(items@[i]) } else { JsonModel::Null },
        )),
        JsonValue::Object(members) => JsonModel::Object(Seq::new(
            members@.len(),
            |i: int| if 0 <= i < members@.len() {
                (members@[i].0@, json_model(members@[i].1))
            } else {
                (Seq::empty(), JsonModel::Null)
            },
        )),
    }
}

impl View for JsonValue {
    type V = JsonModel;

    open spec fn view(&self) -> JsonModel {
        json_model(*self)
    }
}

/// `s` cut to its first `max` characters followed by `...`, where it is
/// longer than `max` characters; `s` itself otherwise.
pub open spec fn truncated_text(s: Seq<char>, max: nat) -> Seq<char> {
    if s.len() > max {
        s.take(max as int) + "..."@
    } else {
        s
    }
}

/// `v` with every string value (not the keys of objects) shortened by
/// [`truncated_text`], and nothing else changed.
pub open spec fn truncated_model(v: JsonModel, max: nat) -> JsonModel
    decreases v,
{
    match v {
        JsonModel::Str(s) => JsonModel::Str(truncated_text(s, max)),
        JsonModel::Array(items) => JsonModel::Array(Seq::new(
            items.len(),
            |i: int| if 0 <= i < items.len() { truncated_model(items[i], max) } else { JsonModel::Null },
        )),
        JsonModel::Object(members) => JsonModel::Object(Seq::new(
            members.len(),
            |i: int| if 0 <= i < members.len() {
                (members[i].0, truncated_model(members[i].1, max))
            } else {
                (Seq::empty(), JsonModel::Null)
            },
        )),
        _ => v,
    }
}

/// `s` shortened to `max` characters and `...`, where it is longer.
pub fn truncate_text(s: String, max_chars: usize) -> (res: String)
    ensures
        res@ == truncated_text(s@, max_chars as nat),
{
    let len = s.as_str().unicode_len();
    if len > max_chars {
        let mut t = String::from_str(s.as_str().substring_char(0, max_chars));
        t.append("...");
        t
    } else {
        s
    }
}

#[verifier::loop_isolation(false)]
fn truncated_value(value: JsonValue, max_chars: usize) -> (res: JsonValue)
    ensures
        json_model(res) == truncated_model(json_model(value), max_chars as nat),
    decreases value,
{
    let ghost whole = value;
    let ghost max = max_chars as nat;
    match value {
        JsonValue::Str(s) => JsonValue::Str(truncate_text(s, max_chars)),
        JsonValue::Array(items) => {
            let ghost orig = items@;
            let ghost items_g = items;
            let mut rest = items;
            let mut reversed: Vec<JsonValue> = Vec::new();
            while rest.len() > 0
                invariant
                    rest@.len() + reversed@.len() == orig.len(),
                    rest@ == orig.take(rest@.len() as int),
                    orig == items_g@,
                    whole == JsonValue::Array(items_g),
                    forall|k: int| 0 <= k < reversed@.len() ==>
                        json_model(#[trigger] reversed@[k]) == truncated_model(json_model(orig[orig.len() - 1 - k]), max),
                decreases rest@.len(),
            {
                let ghost j = rest@.len() - 1;
                let item = rest.pop().unwrap();
                assert(item == orig[j]);
                proof {
                    assert(whole->Array_0 == items_g);
                    assert(decreases_to!(whole => whole->Array_0));
                    assert(decreases_to!(items_g => items_g@));
                    assert(decreases_to!(items_g@ => items_g@[j]));
                    assert(decreases_to!(whole => item));
                }
                let t = truncated_value(item, max_chars);
                reversed.push(t);
                assert(rest@ =~= orig.take(rest@.len() as int));
            }
            let mut out: Vec<JsonValue> = Vec::new();
            let n = reversed.len();
            while reversed.len() > 0
                invariant
                    n == orig.len(),
                    reversed@.len() + out@.len() == n,
                    forall|k: int| 0 <= k < reversed@.len() ==>
                        json_model(#[trigger] reversed@[k]) == truncated_model(json_model(orig[n - 1 - k]), max),
                    forall|k: int| 0 <= k < out@.len() ==>
                        json_model(#[trigger] out@[k]) == truncated_model(json_model(orig[k]), max),
                decreases reversed@.len(),
            {
                let ghost k = reversed@.len() - 1;
                let t = reversed.pop().unwrap();
                assert(json_model(t) == truncated_model(json_model(orig[n - 1 - k]), max));
                out.push(t);
            }
            let res = JsonValue::Array(out);
            proof {
                let ms = json_model(whole)->Array_0;
                assert(ms.len() == orig.len());
                assert forall|i: int| 0 <= i < ms.len() implies ms[i] == json_model(orig[i]) by {}
                assert(json_model(res)->Array_0 =~= truncated_model(json_model(whole), max)->Array_0);
            }
            res
        },
        JsonValue::Object(members) => {
            let ghost orig = members@;
            let ghost members_g = members;
            let mut rest = members;
            let mut reversed: Vec<(String, JsonValue)> = Vec::new();
            while rest.len() > 0
                invariant
                    rest@.len() + reversed@.len() == orig.len(),
                    rest@ == orig.take(rest@.len() as int),
                    orig == members_g@,
                    whole == JsonValue::Object(members_g),
                    forall|k: int| 0 <= k < reversed@.len() ==> {
                        &&& (#[trigger] reversed@[k]).0 == orig[orig.len() - 1 - k].0
                        &&& json_model(reversed@[k].1) == truncated_model(json_model(orig[orig.len() - 1 - k].1), max)
                    },
                decreases rest@.len(),
            {
                let ghost j = rest@.len() - 1;
                let (key, item) = rest.pop().unwrap();
                assert(item == orig[j].1);
                proof {
                    assert(whole->Object_0 == members_g);
                    assert(decreases_to!(whole => whole->Object_0));
                    assert(decreases_to!(members_g => members_g@));
                    assert(decreases_to!(members_g@ => members_g@[j]));
                    assert(decreases_to!(members_g@[j] => members_g@[j].1));
                    assert(decreases_to!(whole => item));
                }
                let t = truncated_value(item, max_chars);
                reversed.push((key, t));
                assert(rest@ =~= orig.take(rest@.len() as int));
            }
            let mut out: Vec<(String, JsonValue)> = Vec::new();
            let n = reversed.len();
            while reversed.len() > 0
                invariant
                    n == orig.len(),
                    reversed@.len() + out@.len() == n,
                    forall|k: int| 0 <= k < reversed@.len() ==> {
                        &&& (#[trigger] reversed@[k]).0 == orig[n - 1 - k].0
                        &&& json_model(reversed@[k].1) == truncated_model(json_model(orig[n - 1 - k].1), max)
                    },
                    forall|k: int| 0 <= k < out@.len() ==> {
                        &&& (#[trigger] out@[k]).0 == orig[k].0
                        &&& json_model(out@[k].1) == truncated_model(json_model(orig[k].1), max)
                    },
                decreases reversed@.len(),
            {
                let ghost k = reversed@.len() - 1;
                let t = reversed.pop().unwrap();
                assert(t.0 == orig[n - 1 - k].0);
                out.push(t);
            }
            let res = JsonValue::Object(out);
            proof {
                let ms = json_model(whole)->Object_0;
                assert(ms.len() == orig.len());
                assert forall|i: int| 0 <= i < ms.len() implies ms[i] == (orig[i].0@, json_model(orig[i].1)) by {}
                assert(json_model(res)->Object_0 =~= truncated_model(json_model(whole), max)->Object_0);
            }
            res
        },
        other => other,
    }
}

/// Shortens every string of `value` (at any depth, not the keys of objects)
/// that is longer than `max_chars` characters to its first `max_chars`
/// characters followed by `...`.
pub fn truncate_strings(value: &mut JsonValue, max_chars: usize)
    ensures
        final(value)@ == truncated_model(old(value)@, max_chars as nat),
{
    let mut taken = JsonValue::Null;
    core::mem::swap(value, &mut taken);
    let mut result = truncated_value(taken, max_chars);
    core::mem::swap(value, &mut result);
}

/// What is pretty-printed of a parsed entry: its long strings shortened,
/// unless the limit is 0, which leaves the value as it is.
pub open spec fn prepared(v: JsonModel, max: nat) -> JsonModel {
    if max == 0 { v } else { truncated_model(v, max) }
}

/// Prepares a parsed entry for pretty-printing: its long strings are
/// shortened, unless `max_chars` is 0, which leaves the value as it is.
pub fn prepare_for_pretty(value: &mut JsonValue, max_chars: usize)
    ensures
        final(value)@ == prepared(old(value)@, max_chars as nat),
        max_chars == 0 ==> *final(value) == *old(value),
{
    if max_chars > 0 {
        truncate_strings(value, max_chars);
    }
}

/// Shortening the strings twice with one limit is shortening them once.
pub proof fn law_truncation_idempotent(v: JsonModel, max: nat)
    ensures
        truncated_model(truncated_model(v, max), max) == truncated_model(v, max),
    decreases v,
{
    match v {
        JsonModel::Str(s) => {
            reveal_strlit("...");
            if s.len() > max {
                let t = truncated_text(s, max);
                assert(t.take(max as int) =~= s.take(max as int));
            }
        },
        JsonModel::Array(items) => {
            let once = truncated_model(v, max)->Array_0;
            assert forall|i: int| 0 <= i < items.len() implies
                truncated_model(#[trigger] once[i], max) == once[i] by {
                law_truncation_idempotent(items[i], max);
            }
            assert(truncated_model(truncated_model(v, max), max)->Array_0 =~= once);
        },
        JsonModel::Object(members) => {
            let once = truncated_model(v, max)->Object_0;
            assert forall|i: int| 0 <= i < members.len() implies
                truncated_model((#[trigger] once[i]).1, max) == once[i].1 by {
                law_truncation_idempotent(members[i].1, max);
            }
            assert(truncated_model(truncated_model(v, max), max)->Object_0 =~= once);
        },
        _ => {},
    }
}

/// The value found in `v` by following `path`: each step an index into an
/// array, or into the members of an object (to the member's value); `None`
/// where the path leads nowhere.
pub open spec fn value_at(v: JsonModel, path: Seq<int>) -> Option<JsonModel>
    decreases path.len(),
{
    if path.len() == 0 {
        Some(v)
    } else {
        let p = path[0];
        match v {
            JsonModel::Array(items) => if 0 <= p < items.len() {
                value_at(items[p], path.drop_first())
            } else {
                None
            },
            JsonModel::Object(members) => if 0 <= p < members.len() {
                value_at(members[p].1, path.drop_first())
            } else {
                None
            },
            _ => None,
        }
    }
}

/// Shortening keeps the shape of a value and cuts every string at any depth:
/// a path leads somewhere in the shortened value exactly where it does in the
/// original; where it leads to a string `s`, it leads to `s` cut to its first
/// `max` characters followed by `...` when `s` is longer than `max`, and to
/// `s` itself otherwise; no string of the result is longer than `max + 3`
/// characters; and the other values keep their kind.
pub proof fn law_truncation_cuts_every_string(v: JsonModel, max: nat, path: Seq<int>)
    ensures
        value_at(truncated_model(v, max), path) is Some <==> value_at(v, path) is Some,
        value_at(v, path) matches Some(JsonModel::Str(s)) ==> {
            &&& s.len() > max ==> value_at(truncated_model(v, max), path)
                == Some(JsonModel::Str(s.take(max as int) + "..."@))
            &&& s.len() <= max ==> value_at(truncated_model(v, max), path) == Some(JsonModel::Str(s))
        },
        value_at(truncated_model(v, max), path) matches Some(JsonModel::Str(t)) ==> t.len() <= max + 3,
        value_at(v, path) matches Some(JsonModel::Array(a)) ==> (value_at(truncated_model(v, max), path)
            matches Some(JsonModel::Array(b)) && b.len() == a.len()),
        value_at(v, path) matches Some(JsonModel::Object(a)) ==> (value_at(truncated_model(v, max), path)
            matches Some(JsonModel::Object(b)) && b.len() == a.len()),
        value_at(v, path) matches Some(JsonModel::Number(n)) ==> value_at(truncated_model(v, max), path)
            == Some(JsonModel::Number(n)),
        value_at(v, path) matches Some(JsonModel::Bool(b)) ==> value_at(truncated_model(v, max), path)
            == Some(JsonModel::Bool(b)),
        value_at(v, path) == Some(JsonModel::Null) ==> value_at(truncated_model(v, max), path)
            == Some(JsonModel::Null),
    decreases path.len(),
{
    reveal_strlit("...");
    if path.len() > 0 {
        let p = path[0];
        match v {
            JsonModel::Array(items) => {
                if 0 <= p < items.len() {
                    law_truncation_cuts_every_string(items[p], max, path.drop_first());
                }
            },
            JsonModel::Object(members) => {
                if 0 <= p < members.len() {
                    law_truncation_cuts_every_string(members[p].1, max, path.drop_first());
                }
            },
            _ => {},
        }
    }
}

/// serde_json's number, carried through unchanged.
#[verifier::external_type_specification]
#[verifier::external_body]
pub struct ExSerdeNumber(serde_json::Number);

/// serde_json's JSON value, carried through the conversions below.
#[verifier::external_type_specification]
#[verifier::external_body]
pub struct ExSerdeValue(serde_json::Value);

/// What `serde_json::from_str::<serde_json::Value>` makes of `text`, as a
/// [`JsonModel`]; `None` where serde_json refuses the text.
pub uninterp spec fn json_parse(text: Seq<char>) -> Option<JsonModel>;

/// What `serde_json::to_string_pretty` writes for the value that `value`
/// stands for; `None` where it refuses.
pub uninterp spec fn json_pretty(value: JsonModel) -> Option<Seq<char>>;

/// Turns a serde_json value into a [`JsonValue`], variant for variant.
/// Nothing is stated of it: `parse_json` states what the parse and this
/// conversion give together.
#[verifier::external_body]
fn from_serde(value: serde_json::Value) -> JsonValue {
    match value {
        serde_json::Value::Null => JsonValue::Null,
        serde_json::Value::Bool(b) => JsonValue::Bool(b),
        serde_json::Value::Number(n) => JsonValue::Number(n),
        serde_json::Value::String(s) => JsonValue::Str(s),
        serde_json::Value::Array(items) => JsonValue::Array(items.into_iter().map(from_serde).collect()),
        serde_json::Value::Object(map) => JsonValue::Object(map.into_iter().map(|(k, v)| (k, from_serde(v))).collect()),
    }
}

/// Turns a [`JsonValue`] back into a serde_json value, variant for variant.
/// Nothing is stated of it: `pretty_json` states what this conversion and
/// the printing give together.
#[verifier::external_body]
fn to_serde(value: &JsonValue) -> serde_json::Value {
    match value {
        JsonValue::Null => serde_json::Value::Null,
        JsonValue::Bool(b) => serde_json::Value::Bool(*b),
        JsonValue::Number(n) => serde_json::Value::Number(n.clone()),
        JsonValue::Str(s) => serde_json::Value::String(s.clone()),
        JsonValue::Array(items) => serde_json::Value::Array(items.iter().map(to_serde).collect()),
        JsonValue::Object(members) => serde_json::Value::Object(members.iter().map(|(k, v)| (k.clone(), to_serde(v))).collect()),
    }
}

/// Parses `text` with `serde_json::from_str::<serde_json::Value>`. The result
/// is named by `json_parse`, a function of the text alone; `None` exactly where
/// serde_json refuses the text.
#[verifier::external_body]
pub(crate) fn parse_json(text: &str) -> (res: Option<JsonValue>)
    ensures
        res is None <==> json_parse(text@) is None,
        res matches Some(v) ==> json_parse(text@) == Some(v@),
{
    match serde_json::from_str::<serde_json::Value>(text) {
        Ok(value) => Some(from_serde(value)),
        Err(_) => None,
    }
}

/// Pretty-prints `value` with `serde_json::to_string_pretty`. The result is
/// named by `json_pretty`, a function of the value alone.
#[verifier::external_body]
pub(crate) fn pretty_json(value: &JsonValue) -> (res: Option<String>)
    ensures
        res is None <==> json_pretty(value@) is None,
        res matches Some(s) ==> json_pretty(value@) == Some(s@),
{
    serde_json::to_string_pretty(&to_serde(value)).ok()
}

/// The pretty-printed form of an entry whose text is `line`: the JSON it
/// holds, its long strings shortened (unless `max` is 0), pretty-printed;
/// `None` where the text is not JSON.
pub open spec fn formatted_line(line: Seq<char>, max: nat) -> Option<Seq<char>> {
    match json_parse(line) {
        Some(v) => json_pretty(prepared(v, max)),
        None => None,
    }
}

/// The pretty-printed form of an entry: the JSON of `line`, with its strings
/// longer than `max_chars` characters shortened (all kept where `max_chars`
/// is 0), pretty-printed; `None` where `line` is not JSON.
pub fn format_json_line(line: &str, max_chars: usize) -> (res: Option<String>)
    ensures
        res is None <==> formatted_line(line@, max_chars as nat) is None,
        res matches Some(s) ==> formatted_line(line@, max_chars as nat) == Some(s@),
        json_parse(line@) is None ==> res is None,
{
    let mut value = match parse_json(line) {
        Some(v) => v,
        None => return None,
    };
    let ghost parsed = value@;
    prepare_for_pretty(&mut value, max_chars);
    assert(value@ == prepared(parsed, max_chars as nat));
    pretty_json(&value)
}

} // verus!
