use code_lens::codec::{
    dec_chars, decode_argument_payload, decode_json_string, double_sections, editor_quote,
    editor_unquote, encode_argument_payload, encode_json_string, str_chars,
};

#[test]
fn str_chars_lists_characters() {
    let v = str_chars("a§b");
    assert_eq!(v, vec!['a', '§', 'b']);
}

#[test]
fn dec_chars_renders_zero() {
    let v = dec_chars(0);
    assert_eq!(v, vec!['0']);
}

#[test]
fn dec_chars_renders_digits_in_order() {
    let v = dec_chars(1234567890);
    let s: String = v.iter().collect();
    assert_eq!(s, "1234567890");
}

#[test]
fn json_string_encoding_escapes_specials() {
    let r = encode_json_string("a\"b\\c\n");
    assert_eq!(r, "\"a\\\"b\\\\c\\u000a\"");
}

#[test]
fn json_string_encoding_wraps_plain_text() {
    let r = encode_json_string("[]");
    assert_eq!(r, "\"[]\"");
}

#[test]
fn json_string_decoding_inverts_encoding() {
    let original = "a\"b\\c\nd'e§f";
    let encoded = encode_json_string(original);
    let decoded = decode_json_string(&encoded);
    assert_eq!(decoded, Some(original.to_string()));
}

#[test]
fn json_string_decoding_rejects_unquoted_text() {
    assert_eq!(decode_json_string("abc"), None);
    assert_eq!(decode_json_string("\""), None);
}

#[test]
fn json_string_decoding_rejects_unknown_escape() {
    assert_eq!(decode_json_string("\"a\\x\""), None);
}

#[test]
fn json_string_decoding_rejects_raw_quote_inside() {
    assert_eq!(decode_json_string("\"a\"b\""), None);
}

#[test]
fn editor_quote_doubles_delimiters() {
    let r = editor_quote("it's");
    assert_eq!(r, "'it''s'");
}

#[test]
fn editor_unquote_inverts_quoting() {
    let original = "it's a 'test'";
    let quoted = editor_quote(original);
    let unquoted = editor_unquote(&quoted);
    assert_eq!(unquoted, Some(original.to_string()));
}

#[test]
fn editor_unquote_rejects_lone_delimiter() {
    assert_eq!(editor_unquote("'a'b'"), None);
    assert_eq!(editor_unquote("x"), None);
}

#[test]
fn argument_payload_round_trips_text() {
    let json_text = "[\"a\\\"b\",42]";
    let payload = encode_argument_payload(json_text);
    let back = decode_argument_payload(&payload);
    assert_eq!(back, Some(json_text.to_string()));
}

#[test]
fn argument_payload_round_trips_values() {
    let args = vec![
        serde_json::Value::String("a\"b".to_string()),
        serde_json::Value::Number(serde_json::Number::from(42)),
    ];
    let json_text = serde_json::to_string(&args).unwrap();
    let payload = encode_argument_payload(&json_text);
    let decoded_once = decode_argument_payload(&payload).unwrap();
    let decoded_twice: Vec<serde_json::Value> = serde_json::from_str(&decoded_once).unwrap();
    assert_eq!(decoded_twice, args);
}

#[test]
fn argument_payload_is_valid_json_for_serde() {
    let json_text = "[\"x'y\",true]";
    let payload = encode_argument_payload(json_text);
    let unquoted = editor_unquote(&payload).unwrap();
    let inner: String = serde_json::from_str(&unquoted).unwrap();
    assert_eq!(inner, json_text);
}

#[test]
fn double_sections_doubles_only_the_delimiter() {
    let r = double_sections("a§b§§c");
    assert_eq!(r, "a§§b§§§§c");
}
