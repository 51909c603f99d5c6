//! The plain value-to-text API: simple encodes, decodes, and a full
//! round trip.

use toon::cli::json_stringify::json_stringify_lines;
use toon::{JsonValue, StringOrNumberOrBoolOrNull, decode, encode};

fn s(v: &str) -> JsonValue {
    JsonValue::Primitive(StringOrNumberOrBoolOrNull::String(v.to_string()))
}

fn n(tok: &str) -> JsonValue {
    JsonValue::Primitive(StringOrNumberOrBoolOrNull::Number(tok.to_string()))
}

fn obj(entries: Vec<(&str, JsonValue)>) -> JsonValue {
    JsonValue::Object(entries.into_iter().map(|(k, v)| (k.to_string(), v)).collect())
}

fn to_serde(v: &JsonValue) -> serde_json::Value {
    match v {
        JsonValue::Primitive(p) => match p {
            StringOrNumberOrBoolOrNull::Null => serde_json::Value::Null,
            StringOrNumberOrBoolOrNull::Bool(b) => serde_json::Value::Bool(*b),
            StringOrNumberOrBoolOrNull::Number(t) => t
                .parse::<f64>()
                .ok()
                .and_then(serde_json::Number::from_f64)
                .map_or(serde_json::Value::Null, serde_json::Value::Number),
            StringOrNumberOrBoolOrNull::String(st) => serde_json::Value::String(st.clone()),
        },
        JsonValue::Array(items) => serde_json::Value::Array(items.iter().map(to_serde).collect()),
        JsonValue::Object(es) => {
            let mut m = serde_json::Map::new();
            for (k, v) in es {
                m.insert(k.clone(), to_serde(v));
            }
            serde_json::Value::Object(m)
        }
    }
}

#[test]
fn test_encode_simple() {
    let result = encode(obj(vec![("name", s("Alice"))]), None);
    assert_eq!(result, "name: Alice");
}

#[test]
fn test_decode_simple() {
    let decoded = decode("name: Alice", None);
    let result = json_stringify_lines(&decoded, 0).concat();
    assert_eq!(result, r#"{"name":"Alice"}"#);
}

#[test]
fn test_roundtrip() {
    // Use number tokens since the values travel the number grammar
    let json = obj(vec![(
        "users",
        JsonValue::Array(vec![
            obj(vec![("id", n("1")), ("name", s("Alice"))]),
            obj(vec![("id", n("2")), ("name", s("Bob"))]),
        ]),
    )]);
    let toon = encode(json.clone(), None);
    let decoded = decode(&toon, None);
    assert_eq!(to_serde(&json), to_serde(&decoded));
}
