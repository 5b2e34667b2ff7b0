use grab::json::{serialize_json_array, serialize_json_field, serialize_json_value};

#[test]
fn serialize_value() {
    for value in ["", "plain", "quote \" and \\ backslash", "tab\tnew\nline", "ünïcödé ✓", "\u{1}"] {
        let mut output = Vec::new();
        assert!(serialize_json_value(&mut output, value).is_ok());
        let parsed: serde_json::Value = serde_json::from_slice(&output).unwrap();
        assert_eq!(parsed, serde_json::Value::String(value.to_string()));
    }
    let mut output = Vec::new();
    serialize_json_value(&mut output, "a\"b").unwrap();
    assert_eq!(output, b"\"a\\\"b\"");
}

#[test]
fn serialize_array() {
    let values = ["a", "", "b,c", "\"q\""];
    let mut output = Vec::new();
    assert!(serialize_json_array(&mut output, &values).is_ok());
    let parsed: serde_json::Value = serde_json::from_slice(&output).unwrap();
    assert_eq!(
        parsed,
        serde_json::Value::Array(
            values.iter().map(|v| serde_json::Value::String(v.to_string())).collect()
        )
    );
    let mut output = Vec::new();
    serialize_json_array(&mut output, &[]).unwrap();
    assert_eq!(output, b"[]");
}

#[test]
fn serialize_field() {
    let mut output = Vec::new();
    assert!(serialize_json_field(&mut output, "na\"me", "va\nlue").is_ok());
    let json_str = format!("{{{}}}", String::from_utf8(output).unwrap());
    let parsed: serde_json::Value = serde_json::from_str(&json_str).unwrap();
    let mut expected = serde_json::Map::new();
    expected.insert("na\"me".to_string(), serde_json::Value::String("va\nlue".to_string()));
    assert_eq!(parsed, serde_json::Value::Object(expected));
}
