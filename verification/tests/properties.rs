//! End-to-end scenarios and the stated properties of the codec, on
//! concrete values: exact encodings, round trips under every option
//! pairing, the event bridge, and each error kind.

use toon::options::{DecodeOptions, EncodeOptions, ExpandPathsMode, KeyFoldingMode};
use toon::{
    ErrorKind, JsonValue, StringOrNumberOrBoolOrNull, decode, encode, encode_stream_events,
    try_decode, value_of_events,
};

fn s(v: &str) -> JsonValue {
    JsonValue::Primitive(StringOrNumberOrBoolOrNull::String(v.to_string()))
}

fn n(tok: &str) -> JsonValue {
    JsonValue::Primitive(StringOrNumberOrBoolOrNull::Number(tok.to_string()))
}

fn b(v: bool) -> JsonValue {
    JsonValue::Primitive(StringOrNumberOrBoolOrNull::Bool(v))
}

fn null() -> JsonValue {
    JsonValue::Primitive(StringOrNumberOrBoolOrNull::Null)
}

fn arr(items: Vec<JsonValue>) -> JsonValue {
    JsonValue::Array(items)
}

fn obj(entries: Vec<(&str, JsonValue)>) -> JsonValue {
    JsonValue::Object(entries.into_iter().map(|(k, v)| (k.to_string(), v)).collect())
}

fn fold_options() -> Option<EncodeOptions> {
    Some(EncodeOptions {
        indent: None,
        delimiter: None,
        key_folding: Some(KeyFoldingMode::Safe),
        flatten_depth: None,
        replacer: None,
    })
}

fn expand_options() -> Option<DecodeOptions> {
    Some(DecodeOptions {
        indent: None,
        strict: None,
        expand_paths: Some(ExpandPathsMode::Safe),
    })
}

// --- exact encodings ---

#[test]
fn tabular_array_exact_text() {
    let v = arr(vec![
        obj(vec![("id", n("1")), ("name", s("Alice"))]),
        obj(vec![("id", n("2")), ("name", s("Bob"))]),
    ]);
    let toon = encode(v.clone(), None);
    assert_eq!(toon, "[2]{id,name}:\n  1,Alice\n  2,Bob");
    let decoded = decode(&toon, None);
    assert_eq!(decoded, v);
}

#[test]
fn folded_chain_exact_text() {
    let v = obj(vec![("a", obj(vec![("b", obj(vec![("c", n("1"))]))]))]);
    let toon = encode(v.clone(), fold_options());
    assert_eq!(toon, "a.b.c: 1");
    let decoded = decode(&toon, expand_options());
    assert_eq!(decoded, v);
}

#[test]
fn literal_dotted_key_exact_text() {
    let v = obj(vec![("a.b", s("x"))]);
    let toon = encode(v.clone(), None);
    assert_eq!(toon, "\"a.b\": x");
    // the quoted key survives whether or not paths expand
    assert_eq!(decode(&toon, None), v);
    assert_eq!(decode(&toon, expand_options()), v);
}

#[test]
fn delimiter_collision_quotes_exact_text() {
    let v = obj(vec![("msg", s("hi, there"))]);
    let toon = encode(v.clone(), None);
    assert_eq!(toon, "msg: \"hi, there\"");
    assert_eq!(decode(&toon, None), v);
}

#[test]
fn scalar_array_exact_text() {
    let v = obj(vec![("tags", arr(vec![s("a"), s("b"), s("c")]))]);
    let toon = encode(v.clone(), None);
    assert_eq!(toon, "tags[3]: a,b,c");
    assert_eq!(decode(&toon, None), v);
}

#[test]
fn scalars_at_root_exact_text() {
    assert_eq!(encode(null(), None), "null");
    assert_eq!(encode(b(true), None), "true");
    assert_eq!(encode(n("-1.5"), None), "-1.5");
    assert_eq!(encode(s("plain"), None), "plain");
    assert_eq!(encode(s("needs, quotes"), None), "\"needs, quotes\"");
    assert_eq!(decode("null", None), null());
    assert_eq!(decode("-1.5", None), n("-1.5"));
    assert_eq!(decode("\"needs, quotes\"", None), s("needs, quotes"));
}

// --- strict rejection of tabs ---

#[test]
fn strict_tab_is_indent_error_at_line_one() {
    let err = try_decode("\tname: value", None).unwrap_err();
    assert_eq!(err.kind, ErrorKind::Indent);
    assert_eq!(err.line, 1);
}

#[test]
fn lenient_mode_reads_leading_tab() {
    let result = try_decode(
        "\tname: value",
        Some(DecodeOptions {
            indent: None,
            strict: Some(false),
            expand_paths: None,
        }),
    );
    assert!(result.is_ok());
}

// --- determinism ---

#[test]
fn encoding_is_deterministic() {
    let v = obj(vec![
        ("a", arr(vec![n("1"), s("x, y"), b(false), null()])),
        ("b", obj(vec![("c", s("deep"))])),
    ]);
    let one = encode(v.clone(), None);
    let two = encode(v, None);
    assert_eq!(one, two);
}

// --- the event bridge ---

#[test]
fn event_bridge_roundtrip() {
    let v = obj(vec![
        ("name", s("Alice")),
        ("tags", arr(vec![s("a"), s("b")])),
        ("meta", obj(vec![("empty", obj(vec![])), ("none", null())])),
    ]);
    let events = encode_stream_events(v.clone(), None);
    let back = value_of_events(events).unwrap();
    assert_eq!(back, v);
}

#[test]
fn event_bridge_rejects_trailing_events() {
    let v = s("x");
    let mut events = encode_stream_events(v, None);
    events.push(toon::JsonStreamEvent::EndArray);
    assert!(value_of_events(events).is_err());
}

// --- round trips under option pairings ---

#[test]
fn roundtrip_with_fold_and_expand() {
    let v = obj(vec![
        ("server", obj(vec![("port", obj(vec![("value", n("8080"))]))])),
        ("debug", b(false)),
        ("names", arr(vec![s("x"), s("y")])),
    ]);
    let toon = encode(v.clone(), fold_options());
    assert_eq!(decode(&toon, expand_options()), v);
}

#[test]
fn roundtrip_with_wide_indent() {
    let v = obj(vec![(
        "outer",
        obj(vec![("inner", arr(vec![obj(vec![("k", s("v"))])]))]),
    )]);
    let enc = Some(EncodeOptions {
        indent: Some(4),
        delimiter: None,
        key_folding: None,
        flatten_depth: None,
        replacer: None,
    });
    let dec = Some(DecodeOptions {
        indent: Some(4),
        strict: None,
        expand_paths: None,
    });
    let toon = encode(v.clone(), enc);
    assert_eq!(decode(&toon, dec), v);
}

#[test]
fn roundtrip_structural_punctuation_in_strings() {
    let v = obj(vec![
        ("a", s("x: y")),
        ("c", s("[3]: 1,2,3")),
        ("d", s("{k}")),
        ("e", s("# not a comment")),
        ("f", s("- dash")),
    ]);
    let toon = encode(v.clone(), None);
    assert_eq!(decode(&toon, None), v);
}

#[test]
fn roundtrip_reserved_looking_strings() {
    let v = arr(vec![s("true"), s("false"), s("null"), s("12"), s("1e5")]);
    let toon = encode(v.clone(), None);
    assert_eq!(decode(&toon, None), v);
}

// --- each error kind on an input that yields it ---

#[test]
fn lexical_error_unterminated_quote() {
    let err = try_decode("k: \"abc", None).unwrap_err();
    assert_eq!(err.kind, ErrorKind::Lexical);
}

#[test]
fn structure_error_duplicate_key() {
    let err = try_decode("a: 1\na: 2", None).unwrap_err();
    assert_eq!(err.kind, ErrorKind::Structure);
}

#[test]
fn structure_error_length_mismatch() {
    let err = try_decode("k[3]: a,b", None).unwrap_err();
    assert_eq!(err.kind, ErrorKind::Structure);
}

#[test]
fn path_conflict_error_on_clashing_expansion() {
    let err = try_decode("a: 1\na.b: 2", expand_options()).unwrap_err();
    assert_eq!(err.kind, ErrorKind::PathConflict);
}

#[test]
fn invalid_option_error_on_zero_indent() {
    let err = try_decode(
        "a: 1",
        Some(DecodeOptions {
            indent: Some(0),
            strict: None,
            expand_paths: None,
        }),
    )
    .unwrap_err();
    assert_eq!(err.kind, ErrorKind::InvalidOption);
}

// --- escapes through the scanner ---

#[test]
fn unicode_escape_decodes_to_character() {
    let v = decode("k: \"\\u0041\\u00e9\"", None);
    assert_eq!(v, obj(vec![("k", s("A\u{e9}"))]));
}

#[test]
fn named_escapes_decode() {
    let v = decode("k: \"a\\nb\\tc\\\\d\\\"e\"", None);
    assert_eq!(v, obj(vec![("k", s("a\nb\tc\\d\"e"))]));
}

#[test]
fn bad_escape_is_lexical_error() {
    let err = try_decode("k: \"a\\qb\"", None).unwrap_err();
    assert_eq!(err.kind, ErrorKind::Lexical);
}

// --- empty containers in every position ---

#[test]
fn empty_containers_everywhere() {
    let v = arr(vec![
        obj(vec![]),
        arr(vec![]),
        obj(vec![("o", obj(vec![])), ("a", arr(vec![]))]),
    ]);
    let toon = encode(v.clone(), None);
    assert_eq!(decode(&toon, None), v);
}

// --- further structural scenarios ---

#[test]
fn root_list_array_of_mixed_values() {
    let v = arr(vec![
        n("1"),
        obj(vec![("k", s("v"))]),
        arr(vec![n("2"), n("3")]),
        s("last"),
    ]);
    let toon = encode(v.clone(), None);
    assert_eq!(decode(&toon, None), v);
}

#[test]
fn tabular_with_pipe_delimiter_roundtrips() {
    let v = arr(vec![
        obj(vec![("id", n("1")), ("name", s("Alice"))]),
        obj(vec![("id", n("2")), ("name", s("Bob"))]),
    ]);
    let enc = Some(EncodeOptions {
        indent: None,
        delimiter: Some('|'),
        key_folding: None,
        flatten_depth: None,
        replacer: None,
    });
    let toon = encode(v.clone(), enc);
    assert!(toon.contains('|'));
    assert_eq!(decode(&toon, None), v);
}

#[test]
fn expansion_merges_sibling_paths() {
    let decoded = decode("a.b: 1\na.c: 2", expand_options());
    assert_eq!(
        decoded,
        obj(vec![("a", obj(vec![("b", n("1")), ("c", n("2"))]))])
    );
}

#[test]
fn nested_lists_inside_list_items() {
    let v = arr(vec![arr(vec![obj(vec![("x", n("1"))]), s("two")]), n("3")]);
    let toon = encode(v.clone(), None);
    assert_eq!(decode(&toon, None), v);
}

// --- hand-written input forms ---

#[test]
fn decode_nested_block() {
    let decoded = decode("a:\n  b: 1\n  c: two", None);
    assert_eq!(
        decoded,
        obj(vec![("a", obj(vec![("b", n("1")), ("c", s("two"))]))])
    );
}

#[test]
fn decode_list_of_scalars() {
    let decoded = decode("k[3]:\n  - 1\n  - two\n  - null", None);
    assert_eq!(decoded, obj(vec![("k", arr(vec![n("1"), s("two"), null()]))]));
}

#[test]
fn decode_skips_blank_lines() {
    let decoded = decode("a: 1\n\n   \nb: 2", None);
    assert_eq!(decoded, obj(vec![("a", n("1")), ("b", n("2"))]));
}

#[test]
fn decode_table_with_quoted_cells() {
    let decoded = decode("rows[2]{x,y}:\n  \"a,b\",1\n  c,2", None);
    assert_eq!(
        decoded,
        obj(vec![(
            "rows",
            arr(vec![
                obj(vec![("x", s("a,b")), ("y", n("1"))]),
                obj(vec![("x", s("c")), ("y", n("2"))]),
            ])
        )])
    );
}

#[test]
fn decode_row_count_mismatch_is_structure_error() {
    let err = try_decode("rows[3]{x}:\n  1\n  2", None).unwrap_err();
    assert_eq!(err.kind, ErrorKind::Structure);
}

#[test]
fn decode_column_count_mismatch_is_structure_error() {
    let err = try_decode("rows[1]{x,y}:\n  1", None).unwrap_err();
    assert_eq!(err.kind, ErrorKind::Structure);
}
