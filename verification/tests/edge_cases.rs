//! Edge cases for TOON encoding and decoding: Unicode, deep nesting,
//! long strings, numeric extremes, empty containers, whitespace,
//! delimiters, and key folding.

use toon::options::{DecodeOptions, EncodeOptions, ExpandPathsMode, KeyFoldingMode};
use toon::{JsonValue, StringOrNumberOrBoolOrNull, decode, encode, try_decode};

fn prim_f64(x: f64) -> StringOrNumberOrBoolOrNull {
    if !x.is_finite() {
        return StringOrNumberOrBoolOrNull::Null;
    }
    if x == x.trunc() && x.abs() <= 9007199254740992.0 {
        StringOrNumberOrBoolOrNull::Number(format!("{}", x as i64))
    } else {
        StringOrNumberOrBoolOrNull::Number(serde_json::Number::from_f64(x).unwrap().to_string())
    }
}

fn num(x: f64) -> JsonValue {
    JsonValue::Primitive(prim_f64(x))
}

fn s(v: &str) -> JsonValue {
    JsonValue::Primitive(StringOrNumberOrBoolOrNull::String(v.to_string()))
}

fn arr(items: Vec<JsonValue>) -> JsonValue {
    JsonValue::Array(items)
}

fn obj(entries: Vec<(&str, JsonValue)>) -> JsonValue {
    JsonValue::Object(entries.into_iter().map(|(k, v)| (k.to_string(), v)).collect())
}

fn obj1(key: String, v: JsonValue) -> JsonValue {
    JsonValue::Object(vec![(key, v)])
}

fn to_serde(v: &JsonValue) -> serde_json::Value {
    match v {
        JsonValue::Primitive(p) => match p {
            StringOrNumberOrBoolOrNull::Null => serde_json::Value::Null,
            StringOrNumberOrBoolOrNull::Bool(b) => serde_json::Value::Bool(*b),
            StringOrNumberOrBoolOrNull::Number(t) => t
                .parse::<f64>()
                .ok()
                .and_then(serde_json::Number::from_f64)
                .map_or(serde_json::Value::Null, serde_json::Value::Number),
            StringOrNumberOrBoolOrNull::String(st) => serde_json::Value::String(st.clone()),
        },
        JsonValue::Array(items) => serde_json::Value::Array(items.iter().map(to_serde).collect()),
        JsonValue::Object(es) => {
            let mut m = serde_json::Map::new();
            for (k, v) in es {
                m.insert(k.clone(), to_serde(v));
            }
            serde_json::Value::Object(m)
        }
    }
}

fn roundtrip(v: &JsonValue) {
    let toon = encode(v.clone(), None);
    let decoded = decode(&toon, None);
    assert_eq!(to_serde(v), to_serde(&decoded));
}

// ============================================================================
// UNICODE EDGE CASES
// ============================================================================

#[test]
fn unicode_emoji_in_values() {
    roundtrip(&obj(vec![
        ("message", s("Hello \u{1F600} World \u{1F4BB}")),
        ("hearts", s("\u{2764}\u{FE0F}\u{2764}\u{FE0F}\u{2764}\u{FE0F}")),
    ]));
}

#[test]
fn unicode_emoji_in_keys() {
    roundtrip(&obj(vec![
        ("\u{1F600}", s("smile")),
        ("\u{1F4BB}", s("laptop")),
    ]));
}

#[test]
fn unicode_rtl_text() {
    roundtrip(&obj(vec![
        ("arabic", s("\u{0627}\u{0644}\u{0639}\u{0631}\u{0628}\u{064A}\u{0629}")),
        ("hebrew", s("\u{05E2}\u{05D1}\u{05E8}\u{05D9}\u{05EA}")),
    ]));
}

#[test]
fn unicode_zero_width_chars() {
    roundtrip(&obj(vec![
        ("zwj", s("a\u{200D}b")),
        ("zwnj", s("a\u{200C}b")),
        ("zwsp", s("a\u{200B}b")),
    ]));
}

#[test]
fn unicode_combining_chars() {
    roundtrip(&obj(vec![
        ("combined", s("e\u{0301}")),
        ("precomposed", s("\u{00E9}")),
    ]));
}

#[test]
fn unicode_surrogate_pairs() {
    // Characters outside the BMP (surrogate pairs in UTF-16)
    roundtrip(&obj(vec![
        ("mathematical", s("\u{1D400}\u{1D401}\u{1D402}")),
        ("musical", s("\u{1D11E}")),
    ]));
}

// ============================================================================
// DEEPLY NESTED STRUCTURES
// ============================================================================

#[test]
fn deeply_nested_objects_100_levels() {
    let mut value = obj(vec![("leaf", s("value"))]);
    for i in 0..100 {
        value = obj1(format!("level{}", i), value);
    }
    roundtrip(&value);
}

#[test]
fn deeply_nested_arrays_100_levels() {
    let mut value = arr(vec![s("leaf")]);
    for _ in 0..100 {
        value = arr(vec![value]);
    }
    roundtrip(&value);
}

#[test]
fn deeply_nested_mixed_100_levels() {
    let mut value = num(42.0);
    for i in 0..50 {
        if i % 2 == 0 {
            value = obj(vec![("obj", value)]);
        } else {
            value = arr(vec![value]);
        }
    }
    roundtrip(&value);
}

// ============================================================================
// VERY LONG STRINGS AND KEYS
// ============================================================================

#[test]
fn very_long_string_value() {
    let long_string = "x".repeat(100_000);
    roundtrip(&obj(vec![("content", s(&long_string))]));
}

#[test]
fn very_long_key() {
    let long_key = "k".repeat(10_000);
    roundtrip(&obj1(long_key, s("value")));
}

#[test]
fn string_with_many_escapes() {
    roundtrip(&obj(vec![(
        "escapes",
        s("tab\there\nnewline\rcarriage\\backslash\"quote"),
    )]));
}

#[test]
fn string_with_control_chars() {
    // Control characters that should be escaped
    roundtrip(&obj(vec![("controls", s("\u{0001}\u{0002}\u{001F}"))]));
}

// ============================================================================
// NUMERIC EDGE CASES
// ============================================================================

#[test]
fn numeric_max_min_values() {
    let json = obj(vec![
        ("max_f64", num(f64::MAX)),
        ("min_positive", num(f64::MIN_POSITIVE)),
        ("neg_max", num(-f64::MAX)),
    ]);
    let toon = encode(json, None);
    let decoded = decode(&toon, None);
    let decoded_json = to_serde(&decoded);
    // Compare as f64 due to potential precision differences in parsing
    let max = decoded_json["max_f64"].as_f64().unwrap();
    assert!((max - f64::MAX).abs() / f64::MAX < 1e-10);
}

#[test]
fn numeric_subnormal() {
    let subnormal = f64::MIN_POSITIVE / 2.0;
    let json = obj(vec![("subnormal", num(subnormal))]);
    let toon = encode(json, None);
    let decoded = decode(&toon, None);
    let decoded_json = to_serde(&decoded);
    let result = decoded_json["subnormal"].as_f64().unwrap();
    assert!((result - subnormal).abs() < 1e-320 || result.abs() < f64::EPSILON);
}

#[test]
fn numeric_zero_variants() {
    let json = obj(vec![
        ("zero", num(0.0)),
        ("neg_zero", num(-0.0)),
        ("small_pos", num(0.000_000_1)),
        ("small_neg", num(-0.000_000_1)),
    ]);
    let toon = encode(json, None);
    let decoded = decode(&toon, None);
    let decoded_json = to_serde(&decoded);
    assert!(decoded_json["zero"].as_f64().unwrap().abs() < f64::EPSILON);
}

#[test]
fn numeric_nan_becomes_null() {
    // A non-finite number has no token and stands as null
    let value = JsonValue::Object(vec![
        ("nan".to_string(), JsonValue::Primitive(prim_f64(f64::NAN))),
        (
            "valid".to_string(),
            JsonValue::Primitive(StringOrNumberOrBoolOrNull::Number("42".to_string())),
        ),
    ]);
    let toon = toon::encode::encode(value, None);
    let decoded = decode(&toon, None);
    // NaN should become null
    let decoded_json = to_serde(&decoded);
    assert!(decoded_json["nan"].is_null());
    let valid = decoded_json["valid"].as_f64().unwrap();
    assert!((valid - 42.0).abs() < f64::EPSILON);
}

#[test]
fn numeric_infinity_becomes_null() {
    let value = JsonValue::Object(vec![
        (
            "pos_inf".to_string(),
            JsonValue::Primitive(prim_f64(f64::INFINITY)),
        ),
        (
            "neg_inf".to_string(),
            JsonValue::Primitive(prim_f64(f64::NEG_INFINITY)),
        ),
    ]);
    let toon = toon::encode::encode(value, None);
    let decoded = decode(&toon, None);
    let decoded_json = to_serde(&decoded);
    assert!(decoded_json["pos_inf"].is_null());
    assert!(decoded_json["neg_inf"].is_null());
}

// ============================================================================
// EMPTY ARRAYS AND OBJECTS
// ============================================================================

#[test]
fn empty_object_at_root() {
    roundtrip(&obj(vec![]));
}

#[test]
fn empty_array_at_root() {
    roundtrip(&arr(vec![]));
}

#[test]
fn empty_nested_containers() {
    roundtrip(&obj(vec![
        ("empty_obj", obj(vec![])),
        ("empty_arr", arr(vec![])),
        (
            "nested",
            obj(vec![
                ("more_empty", obj(vec![])),
                ("arr_of_empty", arr(vec![obj(vec![]), arr(vec![]), obj(vec![])])),
            ]),
        ),
    ]));
}

#[test]
fn array_with_mixed_empties() {
    roundtrip(&arr(vec![
        obj(vec![]),
        arr(vec![]),
        obj(vec![("nested", arr(vec![]))]),
        arr(vec![obj(vec![])]),
        JsonValue::Primitive(StringOrNumberOrBoolOrNull::Null),
        s(""),
        arr(vec![]),
    ]));
}

// ============================================================================
// WHITESPACE VARIATIONS
// ============================================================================

#[test]
fn string_with_only_spaces() {
    roundtrip(&obj(vec![
        ("spaces", s("     ")),
        ("single", s(" ")),
        ("mixed", s("  a  b  ")),
    ]));
}

#[test]
fn string_with_only_tabs() {
    roundtrip(&obj(vec![("tabs", s("\t\t\t")), ("mixed", s("\ta\tb\t"))]));
}

#[test]
fn string_with_newlines() {
    roundtrip(&obj(vec![
        ("newlines", s("line1\nline2\nline3")),
        ("crlf", s("line1\r\nline2")),
    ]));
}

// ============================================================================
// DELIMITER EDGE CASES
// ============================================================================

#[test]
fn array_with_comma_in_strings() {
    roundtrip(&obj(vec![(
        "items",
        arr(vec![s("a,b"), s("c,d,e"), s("f")]),
    )]));
}

#[test]
fn array_with_pipe_delimiter() {
    let json = obj(vec![("items", arr(vec![s("a"), s("b"), s("c")]))]);
    let options = Some(EncodeOptions {
        indent: None,
        delimiter: Some('|'),
        key_folding: None,
        flatten_depth: None,
        replacer: None,
    });
    let toon = encode(json.clone(), options);
    assert!(toon.contains('|'));
    let decoded = decode(&toon, None);
    assert_eq!(to_serde(&json), to_serde(&decoded));
}

#[test]
fn tabular_array_with_special_chars() {
    roundtrip(&arr(vec![
        obj(vec![("name", s("Alice, Jr.")), ("city", s("New York"))]),
        obj(vec![("name", s("Bob")), ("city", s("Los Angeles, CA"))]),
    ]));
}

// ============================================================================
// KEY FOLDING EDGE CASES
// ============================================================================

#[test]
fn key_folding_simple() {
    let json = obj(vec![("a", obj(vec![("b", obj(vec![("c", s("value"))]))]))]);
    let options = Some(EncodeOptions {
        indent: None,
        delimiter: None,
        key_folding: Some(KeyFoldingMode::Safe),
        flatten_depth: None,
        replacer: None,
    });
    let toon = encode(json.clone(), options);
    assert!(toon.contains("a.b.c"));

    let decode_options = Some(DecodeOptions {
        indent: None,
        strict: None,
        expand_paths: Some(ExpandPathsMode::Safe),
    });
    let decoded = decode(&toon, decode_options);
    assert_eq!(to_serde(&json), to_serde(&decoded));
}

#[test]
fn key_folding_with_sibling() {
    // When there's a sibling, folding still happens for the single-key chain
    // but we need expand_paths to reconstruct the nested structure
    let json = obj(vec![(
        "a",
        obj(vec![
            ("b", obj(vec![("c", s("deep"))])),
            ("sibling", s("value")),
        ]),
    )]);
    let options = Some(EncodeOptions {
        indent: None,
        delimiter: None,
        key_folding: Some(KeyFoldingMode::Safe),
        flatten_depth: None,
        replacer: None,
    });
    let toon = encode(json.clone(), options);

    // Need to expand paths to reconstruct the nested structure
    let decode_options = Some(DecodeOptions {
        indent: None,
        strict: None,
        expand_paths: Some(ExpandPathsMode::Safe),
    });
    let decoded = decode(&toon, decode_options);
    assert_eq!(to_serde(&json), to_serde(&decoded));
}

#[test]
fn key_folding_depth_limit() {
    let json = obj(vec![(
        "a",
        obj(vec![(
            "b",
            obj(vec![("c", obj(vec![("d", obj(vec![("e", s("deep"))]))]))]),
        )]),
    )]);
    let options = Some(EncodeOptions {
        indent: None,
        delimiter: None,
        key_folding: Some(KeyFoldingMode::Safe),
        flatten_depth: Some(2), // Only fold 2 levels
        replacer: None,
    });
    let toon = encode(json.clone(), options);

    let decode_options = Some(DecodeOptions {
        indent: None,
        strict: None,
        expand_paths: Some(ExpandPathsMode::Safe),
    });
    let decoded = decode(&toon, decode_options);
    assert_eq!(to_serde(&json), to_serde(&decoded));
}

#[test]
fn key_with_dots_literal() {
    // Keys that contain dots should be quoted
    roundtrip(&obj(vec![
        ("a.b", s("literal dot key")),
        ("normal", s("value")),
    ]));
}

// ============================================================================
// STRICT MODE VALIDATION
// ============================================================================

#[test]
fn strict_mode_rejects_tabs() {
    let toon_with_tabs = "\tname: value";
    let result = try_decode(
        toon_with_tabs,
        Some(DecodeOptions {
            indent: None,
            strict: Some(true),
            expand_paths: None,
        }),
    );
    assert!(result.is_err());
}

#[test]
fn non_strict_mode_accepts_tabs() {
    let toon_with_tabs = "\tname: value";
    let result = try_decode(
        toon_with_tabs,
        Some(DecodeOptions {
            indent: None,
            strict: Some(false),
            expand_paths: None,
        }),
    );
    // Non-strict mode should at least not panic - we accept any result
    // (The exact outcome depends on implementation details)
    let _ = result;
}

// ============================================================================
// SPECIAL CHARACTERS IN KEYS
// ============================================================================

#[test]
fn key_with_colon() {
    roundtrip(&obj(vec![
        ("time:zone", s("UTC")),
        ("key:with:colons", s("value")),
    ]));
}

#[test]
fn key_with_brackets() {
    roundtrip(&obj(vec![
        ("array[0]", s("first")),
        ("obj{key}", s("value")),
    ]));
}

#[test]
fn key_with_quotes() {
    roundtrip(&obj(vec![
        ("said \"hello\"", s("greeting")),
        ("it's", s("fine")),
    ]));
}

#[test]
fn numeric_keys() {
    roundtrip(&obj(vec![
        ("123", s("numeric")),
        ("0", s("zero")),
        ("-1", s("negative")),
    ]));
}

#[test]
fn boolean_like_keys() {
    roundtrip(&obj(vec![
        ("true", s("not a bool")),
        ("false", s("also not a bool")),
        ("null", s("not null")),
    ]));
}
