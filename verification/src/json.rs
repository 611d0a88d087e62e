//! Extension payloads: JSON objects stored per extension namespace.

use vstd::prelude::*;

verus! {

/// A JSON value of `serde_json`.
#[verifier::external_type_specification]
#[verifier::external_body]
pub struct ExJsonValue(serde_json::Value);

/// A JSON object of `serde_json` (a map from keys to values).
#[verifier::external_type_specification]
#[verifier::external_body]
#[verifier::reject_recursive_types(K)]
#[verifier::reject_recursive_types(V)]
pub struct ExJsonMap<K, V>(serde_json::Map<K, V>);

/// A JSON object with text keys.
pub type JsonObject = serde_json::Map<String, serde_json::Value>;

/// The entries of a JSON object, keys taken as text.
pub uninterp spec fn json_object_entries(m: JsonObject) -> Map<
    Seq<char>,
    serde_json::Value,
>;

/// The JSON value `Value::Object(m)`.
pub uninterp spec fn json_object_value(m: JsonObject) -> serde_json::Value;

/// The object inside `v`, when `v` is a JSON object.
pub open spec fn object_in(v: serde_json::Value) -> Option<JsonObject> {
    if exists|m: JsonObject| json_object_value(m) == v {
        Some(choose|m: JsonObject| json_object_value(m) == v)
    } else {
        None
    }
}

/// `serde_json::Map::new`: an object with no entries.
#[verifier::external_body]
fn json_map_new() -> (r: JsonObject)
    ensures
        json_object_entries(r).dom() == Set::<Seq<char>>::empty(),
{
    serde_json::Map::new()
}

/// `serde_json::Map::insert`: `key` now maps to `value`; every other entry
/// stays (keys compare by their text).
#[verifier::external_body]
fn json_map_insert(m: &mut JsonObject, key: String, value: serde_json::Value)
    ensures
        json_object_entries(*final(m)) == json_object_entries(*old(m)).insert(key@, value),
{
    m.insert(key, value);
}

/// `serde_json::Map::remove`: the entry for `key` leaves the object and is
/// returned, if there was one.
#[verifier::external_body]
fn json_map_remove(m: &mut JsonObject, key: &str) -> (r: Option<serde_json::Value>)
    ensures
        json_object_entries(*final(m)) == json_object_entries(*old(m)).remove(key@),
        r == (if json_object_entries(*old(m)).contains_key(key@) {
            Some(json_object_entries(*old(m))[key@])
        } else {
            None
        }),
{
    m.remove(key)
}

/// The object inside a `serde_json::Value::Object`, or the value itself when
/// it is any other variant. `Value` derives `PartialEq`, so an object value
/// holds exactly one map.
#[verifier::external_body]
fn json_into_object(value: serde_json::Value) -> (r: Result<JsonObject, serde_json::Value>)
    ensures
        match r {
            Ok(m) => json_object_value(m) == value && forall|m2: JsonObject|
                #[trigger] json_object_value(m2) == value ==> m2 == m,
            Err(v) => v == value && forall|m2: JsonObject|
                #[trigger] json_object_value(m2) != value,
        },
{
    match value {
        serde_json::Value::Object(m) => Ok(m),
        other => Err(other),
    }
}

/// `serde_json::Value::Object(m)`.
#[verifier::external_body]
fn json_from_object(m: JsonObject) -> (r: serde_json::Value)
    ensures
        r == json_object_value(m),
{
    serde_json::Value::Object(m)
}

/// The derived `Clone` of `serde_json::Value`: an equal value.
#[verifier::external_body]
pub(crate) fn json_clone(value: &serde_json::Value) -> (r: serde_json::Value)
    ensures
        r == *value,
{
    value.clone()
}

/// `json_into_object` names the object inside an object value, and nothing
/// else.
proof fn lemma_object_in(value: serde_json::Value, r: Result<JsonObject, serde_json::Value>)
    requires
        match r {
            Ok(m) => json_object_value(m) == value && forall|m2: JsonObject|
                #[trigger] json_object_value(m2) == value ==> m2 == m,
            Err(v) => v == value && forall|m2: JsonObject|
                #[trigger] json_object_value(m2) != value,
        },
    ensures
        match r {
            Ok(m) => object_in(value) == Some(m),
            Err(_) => object_in(value) is None,
        },
{
    match r {
        Ok(m) => {
            let c = choose|m2: JsonObject| json_object_value(m2) == value;
            assert(json_object_value(m) == value);
            assert(json_object_value(c) == value);
        },
        Err(_) => {},
    }
}

/// What an extension stores for `value`: the object itself when `value` is
/// an object, otherwise an object holding `value` under the key `"value"`.
pub open spec fn is_extension_payload(value: serde_json::Value, p: JsonObject) -> bool {
    match object_in(value) {
        Some(m) => p == m,
        None => json_object_entries(p) == map!["value"@ => value],
    }
}

/// The payload an extension stores for `value`.
pub fn extension_payload(value: serde_json::Value) -> (r: JsonObject)
    ensures
        is_extension_payload(value, r),
{
    let as_object = json_into_object(value);
    proof {
        lemma_object_in(value, as_object);
    }
    match as_object {
        Ok(m) => m,
        Err(other) => {
            let mut payload = json_map_new();
            json_map_insert(&mut payload, String::from_str("value"), other);
            proof {
                assert(json_object_entries(payload) =~= map!["value"@ => value]);
            }
            payload
        },
    }
}

/// The node styles an extension object held before a style is set: the
/// entries of its `"nodes"` object, or none when `"nodes"` is missing or not
/// an object.
pub open spec fn node_styles_before(entries: Map<Seq<char>, serde_json::Value>) -> Map<Seq<char>, serde_json::Value> {
    if entries.contains_key("nodes"@) && object_in(entries["nodes"@]) is Some {
        json_object_entries(object_in(entries["nodes"@])->Some_0)
    } else {
        Map::empty()
    }
}

/// Set the style of `node` to `value` in a node-style extension object: its
/// `"nodes"` entry becomes an object that keeps the styles it held (when it
/// was an object already) and maps `node` to `value`; other entries stay.
pub fn store_node_style(ext: &mut JsonObject, node: &String, value: serde_json::Value)
    ensures
        exists|nodes: JsonObject|
            #![trigger json_object_value(nodes)]
            json_object_entries(*final(ext)) == json_object_entries(*old(ext)).insert(
                "nodes"@,
                json_object_value(nodes),
            ) && json_object_entries(nodes) == node_styles_before(json_object_entries(*old(ext))).insert(
                node@,
                value,
            ),
{
    let ghost e0 = json_object_entries(*ext);
    let previous = json_map_remove(ext, "nodes");
    let mut nodes = match previous {
        Some(v) => {
            let as_object = json_into_object(v);
            proof {
                lemma_object_in(v, as_object);
            }
            match as_object {
                Ok(m) => m,
                Err(_) => json_map_new(),
            }
        },
        None => json_map_new(),
    };
    proof {
        assert(json_object_entries(nodes) == node_styles_before(e0));
    }
    json_map_insert(&mut nodes, node.clone(), value);
    let ghost styled = nodes;
    let nodes_value = json_from_object(nodes);
    json_map_insert(ext, String::from_str("nodes"), nodes_value);
    proof {
        assert(json_object_entries(*ext) =~= e0.insert("nodes"@, json_object_value(styled)));
    }
}

} // verus!
