use json2bytes::value::JsonValue;
use json2bytes::walker::process_json_value;

fn s(text: &str) -> JsonValue {
    JsonValue::Str(text.to_string())
}

fn obj(entries: Vec<(&str, JsonValue)>) -> JsonValue {
    JsonValue::Object(entries.into_iter().map(|(k, v)| (k.to_string(), v)).collect())
}

fn names(list: &[&str]) -> Option<Vec<String>> {
    Some(list.iter().map(|n| n.to_string()).collect())
}

fn run(value: &JsonValue, min_size: usize, fields: &Option<Vec<String>>, sep: &[u8]) -> Vec<u8> {
    let mut out = Vec::new();
    process_json_value(value, min_size, fields, None, sep, &mut out);
    out
}

fn framed(parts: &[&str], sep: &[u8]) -> Vec<u8> {
    let mut out = Vec::new();
    for p in parts {
        out.extend_from_slice(p.as_bytes());
        out.extend_from_slice(sep);
    }
    out
}

// {"a": "hello world", "b": ["short", "a longer string here"], "c": {"a": "nested a value"}}
fn sample() -> JsonValue {
    obj(vec![
        ("a", s("hello world")),
        ("b", JsonValue::Array(vec![s("short"), s("a longer string here")])),
        ("c", obj(vec![("a", s("nested a value"))])),
    ])
}

fn from_serde(v: serde_json::Value) -> JsonValue {
    match v {
        serde_json::Value::Null => JsonValue::Null,
        serde_json::Value::Bool(b) => JsonValue::Bool(b),
        serde_json::Value::Number(n) => JsonValue::Number(n.to_string()),
        serde_json::Value::String(t) => JsonValue::Str(t),
        serde_json::Value::Array(items) => JsonValue::Array(items.into_iter().map(from_serde).collect()),
        serde_json::Value::Object(map) => {
            JsonValue::Object(map.into_iter().map(|(k, v)| (k, from_serde(v))).collect())
        }
    }
}

#[test]
fn size_ten_without_filter() {
    let out = run(&sample(), 10, &None, &[0x1e]);
    assert_eq!(out, framed(&["hello world", "a longer string here", "nested a value"], &[0x1e]));
    assert!(!String::from_utf8_lossy(&out).contains("short"));
}

#[test]
fn field_filter_on_nearest_key() {
    let out = run(&sample(), 0, &names(&["a"]), &[0x1e]);
    assert_eq!(out, framed(&["hello world", "nested a value"], &[0x1e]));
}

#[test]
fn concatenated_documents_in_order() {
    let text = "{\"x\":\"first string!!\"}{\"x\":\"second string!!\"}";
    let stream = serde_json::Deserializer::from_str(text).into_iter::<serde_json::Value>();
    let mut out = Vec::new();
    let mut count = 0;
    for doc in stream {
        let doc = from_serde(doc.unwrap());
        process_json_value(&doc, 5, &None, None, &[0x1e], &mut out);
        count += 1;
    }
    assert_eq!(count, 2);
    assert_eq!(out, framed(&["first string!!", "second string!!"], &[0x1e]));
}

#[test]
fn every_string_once_in_document_order() {
    let doc = JsonValue::Array(vec![
        s(""),
        obj(vec![("k", s("x")), ("n", JsonValue::Number("3".to_string())), ("t", JsonValue::Bool(true))]),
        JsonValue::Null,
        JsonValue::Array(vec![s("y"), JsonValue::Array(vec![s("x")])]),
        s("z"),
    ]);
    let out = run(&doc, 0, &None, b"\n");
    assert_eq!(out, b"\nx\ny\nx\nz\n".to_vec());
}

#[test]
fn size_boundary_is_inclusive() {
    let out = run(&s("abcde"), 5, &None, b"|");
    assert_eq!(out, b"abcde|".to_vec());
    let out = run(&s("abcd"), 5, &None, b"|");
    assert_eq!(out, Vec::<u8>::new());
}

#[test]
fn size_counts_utf8_bytes() {
    // "é" is two bytes in UTF-8, one character.
    let out = run(&s("é"), 2, &None, b"|");
    assert_eq!(out, "é|".as_bytes().to_vec());
    let out = run(&s("é"), 3, &None, b"|");
    assert!(out.is_empty());
}

#[test]
fn array_under_key_inherits_the_key() {
    let doc = obj(vec![
        ("k", JsonValue::Array(vec![s("one"), JsonValue::Array(vec![s("two")])])),
        ("other", JsonValue::Array(vec![s("three")])),
    ]);
    let out = run(&doc, 0, &names(&["k"]), b",");
    assert_eq!(out, b"one,two,".to_vec());
}

#[test]
fn nested_object_resets_the_key() {
    let doc = obj(vec![("k", obj(vec![("inner", s("hidden"))])), ("j", obj(vec![("k", s("shown"))]))]);
    let out = run(&doc, 0, &names(&["k"]), b",");
    assert_eq!(out, b"shown,".to_vec());
}

#[test]
fn filter_drops_strings_outside_any_object() {
    let doc = JsonValue::Array(vec![s("top level")]);
    assert!(run(&doc, 0, &names(&["a"]), b",").is_empty());
    assert_eq!(run(&doc, 0, &None, b","), b"top level,".to_vec());
}

#[test]
fn empty_filter_emits_nothing() {
    assert!(run(&sample(), 0, &names(&[]), b",").is_empty());
}

#[test]
fn current_field_given_by_caller() {
    let key = "a".to_string();
    let mut out = Vec::new();
    process_json_value(&s("value"), 0, &names(&["a"]), Some(&key), b";", &mut out);
    assert_eq!(out, b"value;".to_vec());
}

#[test]
fn output_is_appended_to_the_sink() {
    let mut out = b"prefix:".to_vec();
    process_json_value(&s("v"), 0, &None, None, b"\0", &mut out);
    assert_eq!(out, b"prefix:v\0".to_vec());
}

#[test]
fn empty_separator_and_multi_byte_separator() {
    assert_eq!(run(&sample(), 10, &None, b""), b"hello worlda longer string herenested a value".to_vec());
    assert_eq!(run(&s("q"), 0, &None, &[0x00, 0x1e]), vec![b'q', 0x00, 0x1e]);
}

#[test]
fn two_runs_give_the_same_bytes() {
    let first = run(&sample(), 3, &names(&["a", "b"]), &[0x1e]);
    let second = run(&sample(), 3, &names(&["a", "b"]), &[0x1e]);
    assert_eq!(first, second);
    assert_eq!(first, framed(&["hello world", "short", "a longer string here", "nested a value"], &[0x1e]));
}

#[test]
fn object_order_follows_the_document() {
    let text = "{\"z\": \"last key first\", \"a\": \"first key last\"}";
    let doc = from_serde(serde_json::from_str(text).unwrap());
    assert_eq!(run(&doc, 0, &None, b"\n"), b"last key first\nfirst key last\n".to_vec());
}

#[test]
fn scalars_emit_nothing() {
    assert!(run(&JsonValue::Null, 0, &None, b",").is_empty());
    assert!(run(&JsonValue::Bool(false), 0, &None, b",").is_empty());
    assert!(run(&JsonValue::Number("1.5".to_string()), 0, &None, b",").is_empty());
}
