use std::collections::HashMap;

use json_parser::{JSON, parse_json};

fn number(j: &JSON) -> f32 {
    match j {
        JSON::JsNumber(text) => text.parse::<f32>().unwrap(),
        other => panic!("not a number: {:?}", other),
    }
}

fn text(s: &str) -> String {
    String::from(s)
}

fn lookup<'j>(entries: &'j [(String, JSON)], key: &str) -> Option<&'j JSON> {
    entries.iter().find(|(k, _)| k == key).map(|(_, v)| v)
}

#[test]
fn null_and_booleans() {
    assert_eq!(Ok(("", JSON::JsNull)), parse_json("null"));
    assert_eq!(Ok(("", JSON::JsBool(true))), parse_json("true"));
    assert_eq!(Ok(("", JSON::JsBool(false))), parse_json("false"));
}

#[test]
fn numbers() {
    let (rest, v) = parse_json("123").unwrap();
    assert_eq!("", rest);
    assert_eq!(JSON::JsNumber(text("123")), v);
    assert_eq!(123.0, number(&v));

    let (rest, v) = parse_json("12.34").unwrap();
    assert_eq!("", rest);
    assert_eq!(12.34, number(&v));

    let (rest, v) = parse_json("12.").unwrap();
    assert_eq!("", rest);
    assert_eq!(JSON::JsNumber(text("12.")), v);
    assert_eq!(12.0, number(&v));
}

#[test]
fn strings() {
    assert_eq!(Ok(("", JSON::JsString(text("Hello")))), parse_json("\"Hello\""));
    assert_eq!(Err("\"Hello"), parse_json("\"Hello"));
}

#[test]
fn string_escapes_are_not_decoded() {
    assert_eq!(Ok((" x\"", JSON::JsString(text("a\\")))), parse_json("\"a\\\" x\""));
}

#[test]
fn arrays() {
    let expected = JSON::JsArray(vec![
        JSON::JsNumber(text("1")),
        JSON::JsNumber(text("2")),
        JSON::JsNumber(text("3")),
    ]);
    assert_eq!(Ok(("", expected)), parse_json("[1, 2, 3]"));
    match parse_json("[1, 2, 3]") {
        Ok((_, JSON::JsArray(items))) => {
            let values: Vec<f32> = items.iter().map(number).collect();
            assert_eq!(vec![1.0, 2.0, 3.0], values);
        }
        other => panic!("unexpected {:?}", other),
    }
    assert_eq!(Ok(("]", JSON::JsArray(vec![]))), parse_json("[]"));
}

#[test]
fn objects() {
    let (rest, v) = parse_json("{ \"FirstName\" : \"Michael\", \"Age\" : 33 }").unwrap();
    assert_eq!("", rest);
    match v {
        JSON::JsObject(entries) => {
            assert_eq!(2, entries.len());
            assert_eq!(Some(&JSON::JsString(text("Michael"))), lookup(&entries, "FirstName"));
            assert_eq!(33.0, number(lookup(&entries, "Age").unwrap()));
        }
        other => panic!("unexpected {:?}", other),
    }
}

#[test]
fn repeated_key_keeps_the_last_value() {
    let (rest, v) = parse_json("{\"a\": 1, \"b\": 2, \"a\": 3}").unwrap();
    assert_eq!("", rest);
    match v {
        JSON::JsObject(entries) => {
            assert_eq!(2, entries.len());
            assert_eq!(Some(&JSON::JsNumber(text("3"))), lookup(&entries, "a"));
            assert_eq!(Some(&JSON::JsNumber(text("2"))), lookup(&entries, "b"));
        }
        other => panic!("unexpected {:?}", other),
    }
}

#[test]
fn nested_values() {
    let expected = JSON::JsArray(vec![
        JSON::JsArray(vec![JSON::JsNumber(text("1"))]),
        JSON::JsObject(vec![(
            text("k"),
            JSON::JsArray(vec![JSON::JsBool(true), JSON::JsNull]),
        )]),
    ]);
    assert_eq!(Ok(("", expected)), parse_json(" [ [1] , {\"k\": [true, null]} ] \n"));
}

#[test]
fn surrounding_whitespace_is_trimmed() {
    assert_eq!(Ok(("", JSON::JsNull)), parse_json(" \t\n null \r\n"));
    assert_eq!(Ok(("", JSON::JsBool(true))), parse_json("\u{3000}true\u{a0}"));
}

#[test]
fn no_kind_matches() {
    assert_eq!(Err("xyz"), parse_json("  xyz "));
    assert_eq!(Err("x"), parse_json(" x"));
    assert_eq!(Err(""), parse_json(""));
    assert_eq!(Err(""), parse_json("   "));
}

#[test]
fn leftover_text_after_a_value() {
    assert_eq!(Ok((" x", JSON::JsNull)), parse_json("null x"));
}

#[test]
fn unterminated_array_is_truncated() {
    assert_eq!(
        Ok((" 2", JSON::JsArray(vec![JSON::JsNumber(text("1"))]))),
        parse_json("[1, 2")
    );
}

#[test]
fn malformed_object_pair_ends_the_object() {
    assert_eq!(
        Ok((" \"b\" 2}", JSON::JsObject(vec![(text("a"), JSON::JsNull)]))),
        parse_json("{\"a\": null, \"b\" 2}")
    );
}

#[test]
fn compact_document_is_read_whole() {
    let expected = JSON::JsObject(vec![
        (
            text("a"),
            JSON::JsArray(vec![
                JSON::JsNumber(text("1")),
                JSON::JsNumber(text("2.5")),
                JSON::JsString(text("x")),
            ]),
        ),
        (text("b"), JSON::JsObject(vec![(text("c"), JSON::JsNull)])),
    ]);
    assert_eq!(
        Ok(("", expected)),
        parse_json("{\"a\":[1,2.5,\"x\"],\"b\":{\"c\":null}}")
    );
}

#[test]
fn empty_containers_leave_their_closer() {
    assert_eq!(Ok(("}", JSON::JsObject(vec![]))), parse_json("{}"));
    assert_eq!(Ok((" ]", JSON::JsArray(vec![]))), parse_json("[ ]"));
}

fn as_map(v: JSON) -> HashMap<String, JSON> {
    match v {
        JSON::JsObject(entries) => entries.into_iter().collect(),
        other => panic!("not an object: {:?}", other),
    }
}

#[test]
fn object_key_order_carries_no_meaning() {
    let (r1, v1) = parse_json("{\"x\": 1, \"y\": [true], \"z\": \"s\"}").unwrap();
    let (r2, v2) = parse_json("{\"z\": \"s\", \"x\": 1, \"y\": [true]}").unwrap();
    assert_eq!("", r1);
    assert_eq!("", r2);
    let m1 = as_map(v1);
    let m2 = as_map(v2);
    assert_eq!(3, m1.len());
    assert_eq!(m1, m2);
}

#[test]
fn non_ascii_text_in_strings_and_keys() {
    assert_eq!(Ok(("", JSON::JsString(text("\u{e9}t\u{e9}")))), parse_json("\"\u{e9}t\u{e9}\""));
    assert_eq!(
        Ok(("", JSON::JsObject(vec![(text("\u{f1}"), JSON::JsString(text("\u{3b1}\u{3b2}")))]))),
        parse_json("{ \"\u{f1}\" : \"\u{3b1}\u{3b2}\" }")
    );
}
