use dade::convert::{FromJsonValue, ToJsonValue};
use dade::order::{key_order, KeyOrder};
use dade::schema::{
    begin_definition, definition_ref, finish_definition, schema_document, single, type_fragment,
};
use dade::stream::{SliceBytes, Stream};
use dade::{
    json_dump, json_load, Error, ErrorType, JsonDumper, JsonLoader, JsonMap, JsonValue, Number,
    RegisterSchema, SchemaDefs, ToTitle,
};

fn message(input: &str) -> String {
    match json_load(input) {
        Ok(_) => panic!("{:?} should not parse", input),
        Err(e) => {
            assert!(matches!(e.err_type(), ErrorType::ParseError));
            e.message().to_string()
        }
    }
}

fn round(input: &str, ensure_ascii: bool) -> String {
    json_dump(&json_load(input).unwrap(), ensure_ascii)
}

// ---------------------------------------------------------------- round trips

#[test]
fn canonical_texts_come_back() {
    for text in [
        "null",
        "true",
        "false",
        "0",
        "-0",
        "12",
        "-1.5e+10",
        "1E-2",
        "\"\"",
        "\"abc\"",
        "\"a\\\"b\\\\c\\b\\f\\n\\r\\t\"",
        "\"\\u0000\\u001f\\u007f\"",
        "[]",
        "{}",
        "[1,[2,[3,[]]],{}]",
        "{\"a\":1,\"b\":[true,false,null],\"c\":{\"d\":\"e\"}}",
    ] {
        assert_eq!(round(text, false), text);
        assert_eq!(round(text, true), text);
    }
    assert_eq!(round("\"é€𝄞\"", false), "\"é€𝄞\"");
    assert_eq!(
        round("\"\\u00e9\\u20ac\\ud834\\udd1e\"", true),
        "\"\\u00e9\\u20ac\\ud834\\udd1e\""
    );
}

#[test]
fn dump_is_idempotent() {
    for text in [
        " { \"b\" : [ 1 , 2 ] , \"a\" : \"\\u00E9\\/\" } ",
        "[\"\\ud834\\udd1e\", \"\\u0041\", 1.0e0]",
        "\t\n\r 7 ",
    ] {
        for ensure_ascii in [false, true] {
            let first = round(text, ensure_ascii);
            assert_eq!(round(first.as_str(), ensure_ascii), first);
        }
    }
}

#[test]
fn keys_come_out_in_order() {
    assert_eq!(
        round("{\"b\":1,\"a\":2,\"ab\":3,\"\":4}", false),
        "{\"\":4,\"a\":2,\"ab\":3,\"b\":1}"
    );
    assert_eq!(
        round("{\"é\":\"NFC\",\"e\\u0301\":\"NFD\"}", false),
        "{\"e\u{301}\":\"NFD\",\"é\":\"NFC\"}"
    );
}

// ---------------------------------------------------------------- the scenarios

#[test]
fn duplicate_key_is_rejected() {
    assert_eq!(message("{\"a\":1,\"a\":2}"), "exists same key");
    assert_eq!(message("{\"a\":1,\"b\":2,\"a\":1}"), "exists same key");
    assert_eq!(message("{\"\\u0061\":1,\"a\":2}"), "exists same key");
}

#[test]
fn surrogate_pair() {
    let value = json_load("[\"\\ud834\\udd1e\"]").unwrap();
    match &value {
        JsonValue::Array(items) => match &items[0] {
            JsonValue::String(s) => assert_eq!(s, "\u{1d11e}"),
            _ => panic!("expect a string"),
        },
        _ => panic!("expect an array"),
    }
    assert_eq!(json_dump(&value, true), "[\"\\ud834\\udd1e\"]");
    assert_eq!(json_dump(&value, false), "[\"\u{1d11e}\"]");
    assert_eq!(message("[\"\\ud834\"]"), "extra data");
    assert_eq!(message("[\"\\ud834\\u0041\"]"), "no surrogate key");
    assert_eq!(message("[\"\\udd1e\"]"), "no surrogate key");
    assert_eq!(message("[\"\\ud834\\ud834\"]"), "no surrogate key");
}

#[test]
fn number_text_is_kept() {
    let value = json_load("1.000000000000000005").unwrap();
    match &value {
        JsonValue::Number(n) => assert_eq!(n.as_str(), "1.000000000000000005"),
        _ => panic!("expect a number"),
    }
    assert_eq!(json_dump(&value, false), "1.000000000000000005");
    assert_eq!(round("10000000000000000999", true), "10000000000000000999");
    assert_eq!(round("1e-999", false), "1e-999");
}

#[test]
fn minimal_object() {
    match json_load("{\"abc\": 1, \"foo\": \"bar\"}").unwrap() {
        JsonValue::Object(dict) => {
            assert_eq!(dict.len(), 2);
            assert_eq!(dict.key_at(0), "abc");
            assert_eq!(dict.key_at(1), "foo");
            assert!(matches!(dict.get("abc"), Some(JsonValue::Number(n)) if n.as_str() == "1"));
            assert!(matches!(dict.get("foo"), Some(JsonValue::String(s)) if s == "bar"));
            assert!(dict.get("bar").is_none());
            assert!(dict.contains_key("foo"));
            assert!(!dict.contains_key("fo"));
        }
        _ => panic!("expect an object"),
    }
}

#[test]
fn empty_containers() {
    assert!(matches!(json_load("[]"), Ok(JsonValue::Array(items)) if items.is_empty()));
    assert!(matches!(json_load("{}"), Ok(JsonValue::Object(dict)) if dict.is_empty()));
    assert!(matches!(json_load(" [ \n ] "), Ok(JsonValue::Array(items)) if items.is_empty()));
    assert!(matches!(json_load("{\t}"), Ok(JsonValue::Object(dict)) if dict.is_empty()));
    assert_eq!(round("[]", false), "[]");
    assert_eq!(round("{}", false), "{}");
}

#[test]
fn boundaries() {
    assert_eq!(message(""), "expect value, found no data");
    assert_eq!(message("   "), "expect value, found no data");
    assert_eq!(message("1 2"), "extra data");
    assert_eq!(
        json_load("").err().unwrap().to_string(),
        "Parse Error: expect value, found no data"
    );
}

// ---------------------------------------------------------------- the grammar

#[test]
fn literals() {
    assert_eq!(message("nul"), "extra data");
    assert_eq!(message("nulll"), "extra data");
    assert_eq!(message("tru"), "extra data");
    assert_eq!(message("True"), "expect value, found no data");
    assert_eq!(message("fals"), "extra data");
    assert_eq!(message("falsy"), "extra data");
    assert_eq!(message("<null>"), "expect value, found no data");
}

#[test]
fn numbers() {
    for text in ["0", "-0", "7", "10", "-12.5", "0.0", "1e5", "1E+5", "2.5e-3", "0e0"] {
        assert!(
            matches!(json_load(text), Ok(JsonValue::Number(n)) if n.as_str() == text),
            "{}",
            text
        );
    }
    assert_eq!(message("."), "expect value, found no data");
    assert_eq!(message("+1"), "expect value, found no data");
    assert_eq!(message("01"), "extra data");
    assert_eq!(message("-"), "extra data");
    assert_eq!(message("-a"), "extra data");
    assert_eq!(message("1."), "extra data");
    assert_eq!(message("1.e1"), "extra data");
    assert_eq!(message("1e"), "extra data");
    assert_eq!(message("1e+"), "extra data");
    assert_eq!(message("1.5x"), "extra data");
    assert_eq!(message("[-]"), "extra data");
    assert_eq!(message("[1 2]"), "extra data");
}

#[test]
fn escapes() {
    match json_load("\"\\\"\\\\\\/\\b\\f\\n\\r\\t\\u0041\\u00e9\\u20AC\"").unwrap() {
        JsonValue::String(s) => assert_eq!(s, "\"\\/\u{8}\u{c}\n\r\tAé€"),
        _ => panic!("expect a string"),
    }
    assert_eq!(message("\"\\x\""), "invalid control character");
    assert_eq!(message("\"\\"), "invalid control character");
    assert_eq!(message("\"\\u12\""), "extra data");
    assert_eq!(message("\"\\u12g4\""), "extra data");
    assert_eq!(message("\"abc"), "unterminated string");
    assert_eq!(message("\""), "unterminated string");
    assert_eq!(message("\"a\nb\""), "invalid control character");
    assert_eq!(message("\"a\u{0}b\""), "invalid control character");
    assert_eq!(message("\"a\u{7f}b\""), "invalid control character");
}

fn bytes_result(bytes: &[u8]) -> Result<JsonValue, String> {
    match JsonLoader::from(bytes).load() {
        Ok(v) => Ok(v),
        Err(e) => Err(e.message().to_string()),
    }
}

#[test]
fn utf8_is_validated() {
    let good: [&[u8]; 8] = [
        b"\"\xc2\x80\"",
        b"\"\xdf\xbf\"",
        b"\"\xe0\xa0\x80\"",
        b"\"\xed\x9f\xbf\"",
        b"\"\xee\x80\x80\"",
        b"\"\xf0\x90\x80\x80\"",
        b"\"\xf4\x8f\xbf\xbf\"",
        b"\"\xe2\x82\xac\"",
    ];
    let chars = [
        '\u{80}', '\u{7ff}', '\u{800}', '\u{d7ff}', '\u{e000}', '\u{10000}', '\u{10ffff}', '€',
    ];
    for (bytes, c) in good.iter().zip(chars.iter()) {
        match bytes_result(bytes) {
            Ok(JsonValue::String(s)) => assert_eq!(s, c.to_string()),
            other => panic!("{:?}", other),
        }
    }
    let bad: [&[u8]; 9] = [
        b"\"\xc2\"",
        b"\"\xc2\x7f\"",
        b"\"\xe0\x9f\x80\"",
        b"\"\xed\xa0\x80\"",
        b"\"\xf0\x8f\x80\x80\"",
        b"\"\xf4\x90\x80\x80\"",
        b"\"\xe2\x82\"",
        b"\"\xf1\x80\x80\"",
        b"\"\xe2\x82",
    ];
    for bytes in bad.iter() {
        assert_eq!(bytes_result(bytes).err().unwrap(), "invalid utf-8 character");
    }
    let stray: [&[u8]; 5] = [
        b"\"\x80\"",
        b"\"\xbf\"",
        b"\"\xc0\x80\"",
        b"\"\xc1\xbf\"",
        b"\"\xf5\x80\x80\x80\"",
    ];
    for bytes in stray.iter() {
        assert_eq!(
            bytes_result(bytes).err().unwrap(),
            "invalid control character"
        );
    }
    assert_eq!(
        bytes_result(b"\xef\xbb\xbf{}").err().unwrap(),
        "expect value, found no data"
    );
}

#[test]
fn arrays_and_objects() {
    assert_eq!(message("["), "expect value, found no data");
    assert_eq!(message("[1"), "extra data");
    assert_eq!(message("[1,"), "expect value, found no data");
    assert_eq!(message("[1,]"), "expect value, found no data");
    assert_eq!(message("[,1]"), "expect value, found no data");
    assert_eq!(message("[1;2]"), "extra data");
    assert_eq!(message("[1]]"), "extra data");
    assert_eq!(message("{"), "expect string");
    assert_eq!(message("{1:2}"), "expect string");
    assert_eq!(message("{\"a\"}"), "extra data");
    assert_eq!(message("{\"a\" 1}"), "extra data");
    assert_eq!(message("{\"a\":}"), "expect value, found no data");
    assert_eq!(message("{\"a\":1,}"), "expect string");
    assert_eq!(message("{\"a\":1 \"b\":2}"), "extra data");
    assert_eq!(message("{\"a\":1"), "extra data");
    assert_eq!(message("{\"a"), "unterminated string");
    assert_eq!(message("{\"a\":1,\"a\":"), "expect value, found no data");
    assert_eq!(message("{}x"), "extra data");
    assert_eq!(round(" [ 1 , \"a\" , [ ] , { \"k\" : null } ] ", false), "[1,\"a\",[],{\"k\":null}]");
    assert_eq!(message("[1]\u{b}"), "extra data");
}

// ---------------------------------------------------------------- the serializer

#[test]
fn escape_writes_each_character_one_way() {
    let mut buffer = String::from("left over");
    JsonDumper::escape("a\"b\\c/d", &mut buffer, false);
    assert_eq!(buffer, "\"a\\\"b\\\\c/d\"");
    JsonDumper::escape("\u{0}\u{1}\u{8}\u{9}\u{a}\u{b}\u{c}\u{d}\u{1f}\u{7f}", &mut buffer, false);
    assert_eq!(
        buffer,
        "\"\\u0000\\u0001\\b\\t\\n\\u000b\\f\\r\\u001f\\u007f\""
    );
    JsonDumper::escape(" ~é\u{301}\u{ffff}\u{10000}\u{10ffff}", &mut buffer, false);
    assert_eq!(buffer, "\" ~é\u{301}\u{ffff}\u{10000}\u{10ffff}\"");
    JsonDumper::escape(" ~é\u{301}\u{ffff}\u{10000}\u{10ffff}", &mut buffer, true);
    assert_eq!(
        buffer,
        "\" ~\\u00e9\\u0301\\uffff\\ud800\\udc00\\udbff\\udfff\""
    );
    JsonDumper::escape("", &mut buffer, true);
    assert_eq!(buffer, "\"\"");
}

#[test]
fn dump_of_built_values() {
    let mut dict = JsonMap::new();
    assert!(dict.insert("b".to_string(), JsonValue::Bool(true)).is_none());
    assert!(dict.insert("a".to_string(), JsonValue::Null).is_none());
    assert!(dict
        .insert("c".to_string(), JsonValue::Array(vec![JsonValue::Number(Number::new("1".to_string()))]))
        .is_none());
    let old = dict.insert("b".to_string(), JsonValue::Bool(false));
    assert!(matches!(old, Some(JsonValue::Bool(true))));
    assert_eq!(dict.len(), 3);
    let value = JsonValue::Object(dict);
    assert_eq!(json_dump(&value, false), "{\"a\":null,\"b\":false,\"c\":[1]}");
    let mut dumper = JsonDumper::new(true);
    assert_eq!(dumper.dump(&JsonValue::String("é".to_string())), "\"\\u00e9\"");
    assert_eq!(dumper.dump(&JsonValue::Array(vec![])), "[]");
    assert_eq!(value.to_string(), "{\"a\":null,\"b\":false,\"c\":[1]}");
}

// ---------------------------------------------------------------- the cursor

fn is_a(b: &u8) -> bool {
    *b == b'a'
}

#[test]
fn cursor_operations() {
    let mut s = SliceBytes::new(b"aab,null;");
    assert_eq!(s.position(), 0);
    assert_eq!(s.peek(), Some(&b'a'));
    assert_eq!(s.position(), 0);
    assert_eq!(s.next(), Some(&b'a'));
    assert_eq!(s.position(), 1);
    s.anchor();
    s.while_if(is_a);
    assert_eq!(s.position(), 2);
    assert!(!s.next_if(is_a));
    assert_eq!(s.position(), 2);
    assert!(s.next_if(|b: &u8| *b == b'b'));
    assert_eq!(s.read(), b"ab");
    assert!(!s.expect(b"null"));
    assert_eq!(s.position(), 3);
    s.skip();
    assert!(!s.expect(b"nulx"));
    assert!(!s.expect(b"null;;"));
    assert_eq!(s.position(), 4);
    assert!(s.expect(b"null"));
    assert_eq!(s.position(), 8);
    assert!(!s.finish());
    s.skip_by(5);
    assert_eq!(s.position(), 9);
    assert!(s.finish());
    assert_eq!(s.next(), None);
    assert_eq!(s.peek(), None);
    s.skip();
    assert_eq!(s.position(), 9);
    assert!(s.expect(b""));
    assert_eq!(s.read(), b"ab,null;");
    let mut t = SliceBytes::new(b"xyz");
    t.skip_by(2);
    assert_eq!(t.position(), 2);
    t.anchor();
    assert_eq!(t.read(), b"");
}

// ---------------------------------------------------------------- keys, numbers, titles

#[test]
fn object_from_entries() {
    let dict = JsonMap::from_entries(vec![
        ("b".to_string(), JsonValue::Bool(true)),
        ("a".to_string(), JsonValue::Null),
        ("b".to_string(), JsonValue::Bool(false)),
    ]);
    assert_eq!(dict.len(), 2);
    assert_eq!(json_dump(&JsonValue::Object(dict), false), "{\"a\":null,\"b\":false}");
    assert!(JsonMap::from_entries(vec![]).is_empty());
}

#[test]
fn keys_are_ordered_by_their_bytes() {
    assert_eq!(key_order("a", "b"), KeyOrder::Before);
    assert_eq!(key_order("b", "a"), KeyOrder::After);
    assert_eq!(key_order("a", "a"), KeyOrder::Same);
    assert_eq!(key_order("", "a"), KeyOrder::Before);
    assert_eq!(key_order("a", "ab"), KeyOrder::Before);
    assert_eq!(key_order("ab", "a"), KeyOrder::After);
    assert_eq!(key_order("Z", "a"), KeyOrder::Before);
    assert_eq!(key_order("z", "é"), KeyOrder::Before);
    assert_eq!(key_order("\u{ffff}", "\u{10000}"), KeyOrder::Before);
}

#[test]
fn integers_as_text() {
    assert_eq!(json_dump(&0u8.to_json_value(), false), "0");
    assert_eq!(json_dump(&255u8.to_json_value(), false), "255");
    assert_eq!(json_dump(&1009u16.to_json_value(), false), "1009");
    assert_eq!(json_dump(&u64::MAX.to_json_value(), false), "18446744073709551615");
    assert_eq!(
        json_dump(&u128::MAX.to_json_value(), false),
        "340282366920938463463374607431768211455"
    );
    assert_eq!(json_dump(&(-128i8).to_json_value(), false), "-128");
    assert_eq!(json_dump(&(-1i32).to_json_value(), false), "-1");
    assert_eq!(
        json_dump(&i128::MIN.to_json_value(), false),
        "-170141183460469231731687303715884105728"
    );
    assert_eq!(json_dump(&7usize.to_json_value(), false), "7");
}

fn read<T: FromJsonValue>(text: &str) -> Option<T> {
    match T::from_json_value(&JsonValue::Number(Number::new(text.to_string()))) {
        Ok(v) => Some(v),
        Err(e) => {
            assert!(matches!(e.err_type(), ErrorType::ValidateError));
            None
        }
    }
}

#[test]
fn integers_from_text() {
    assert_eq!(read::<u8>("0"), Some(0));
    assert_eq!(read::<u8>("255"), Some(255));
    assert_eq!(read::<u8>("256"), None);
    assert_eq!(read::<u8>("+7"), Some(7));
    assert_eq!(read::<u8>("007"), Some(7));
    assert_eq!(read::<u8>("-0"), None);
    assert_eq!(read::<u8>("-1"), None);
    assert_eq!(read::<u8>(""), None);
    assert_eq!(read::<u8>("+"), None);
    assert_eq!(read::<u8>("1.0"), None);
    assert_eq!(read::<u8>("1e2"), None);
    assert_eq!(read::<u8>("1-"), None);
    assert_eq!(read::<i8>("-128"), Some(-128));
    assert_eq!(read::<i8>("-129"), None);
    assert_eq!(read::<i8>("127"), Some(127));
    assert_eq!(read::<i8>("128"), None);
    assert_eq!(read::<i8>("-0"), Some(0));
    assert_eq!(read::<i8>("-"), None);
    assert_eq!(read::<i8>("--1"), None);
    assert_eq!(read::<u64>("18446744073709551615"), Some(u64::MAX));
    assert_eq!(read::<u64>("18446744073709551616"), None);
    assert_eq!(read::<i64>("-9223372036854775808"), Some(i64::MIN));
    assert_eq!(
        read::<u128>("340282366920938463463374607431768211455"),
        Some(u128::MAX)
    );
    assert_eq!(read::<u128>("340282366920938463463374607431768211456"), None);
    assert_eq!(read::<u128>("3402823669209384634633746074317682114550"), None);
    assert_eq!(
        read::<i128>("-170141183460469231731687303715884105728"),
        Some(i128::MIN)
    );
    assert_eq!(read::<i128>("-170141183460469231731687303715884105729"), None);
    assert_eq!(
        read::<i128>("170141183460469231731687303715884105727"),
        Some(i128::MAX)
    );
    assert_eq!(read::<i128>("170141183460469231731687303715884105728"), None);
    assert_eq!(read::<usize>("12"), Some(12));
    assert_eq!(read::<isize>("-12"), Some(-12));
    assert!(u8::from_json_value(&JsonValue::Null).is_err());
    assert!(i32::from_json_value(&JsonValue::String("1".to_string())).is_err());
}

#[test]
fn plain_conversions() {
    assert!(<()>::from_json_value(&JsonValue::Null).is_ok());
    assert!(<()>::from_json_value(&JsonValue::Bool(true)).is_err());
    assert_eq!(bool::from_json_value(&JsonValue::Bool(true)).unwrap(), true);
    assert!(bool::from_json_value(&JsonValue::Null).is_err());
    assert_eq!(
        String::from_json_value(&JsonValue::String("x".to_string())).unwrap(),
        "x"
    );
    assert!(String::from_json_value(&JsonValue::Null).is_err());
    let list = json_load("[1, 2, 3]").unwrap();
    assert_eq!(Vec::<u8>::from_json_value(&list).unwrap(), vec![1, 2, 3]);
    assert!(Vec::<u8>::from_json_value(&json_load("[1, 256]").unwrap()).is_err());
    assert!(Vec::<u8>::from_json_value(&JsonValue::Null).is_err());
    assert_eq!(Option::<u8>::from_json_value(&JsonValue::Null).unwrap(), None);
    assert_eq!(
        Option::<u8>::from_json_value(&json_load("5").unwrap()).unwrap(),
        Some(5)
    );
    assert!(Option::<u8>::from_json_value(&JsonValue::Bool(true)).is_err());
    assert_eq!(*Box::<u8>::from_json_value(&json_load("5").unwrap()).unwrap(), 5);
    assert_eq!(json_dump(&().to_json_value(), false), "null");
    assert_eq!(json_dump(&true.to_json_value(), false), "true");
    assert_eq!(json_dump(&"a\"".to_string().to_json_value(), false), "\"a\\\"\"");
    assert_eq!(json_dump(&vec![Some(1u8), None].to_json_value(), false), "[1,null]");
    assert_eq!(json_dump(&Box::new(false).to_json_value(), false), "false");
    let err = u8::from_json_value(&JsonValue::Null).err().unwrap();
    assert_eq!(err.to_string(), "Validate Error: expect `JsonValue::Number`");
}

#[test]
fn number_wrappers() {
    let n = Number::from(42u16);
    assert_eq!(n.as_str(), "42");
    assert_eq!(n.to_string(), "42");
    assert_eq!(n.parse::<u8>(), Some(42));
    assert_eq!(Number::new("1.5".to_string()).parse::<f64>(), Some(1.5));
    assert_eq!(Number::new("1.5".to_string()).parse::<u8>(), None);
    assert_eq!(Number::new("300".to_string()).parse::<u8>(), None);
}

#[test]
fn titles() {
    assert_eq!("".to_title(), "");
    assert_eq!("v1".to_title(), "V1");
    assert_eq!("abc".to_title(), "Abc");
    assert_eq!("Abc".to_title(), "Abc");
    assert_eq!("élan".to_title(), "Élan");
    assert_eq!("ßa".to_title(), "SSa");
    assert_eq!("1a".to_title(), "1a");
    assert_eq!(dade::replace_first("XY", "abc"), "XYbc");
    assert_eq!(dade::replace_first("XY", ""), "");
    assert_eq!(dade::replace_first("", "abc"), "bc");
}

#[test]
fn errors() {
    let e = Error::new("m", ErrorType::ValidateError);
    assert!(matches!(e.err_type(), ErrorType::ValidateError));
    assert_eq!(e.message(), "m");
    assert_eq!(e.to_string(), "Validate Error: m");
    let e = Error::new_parse_err("p");
    assert!(matches!(e.err_type(), ErrorType::ParseError));
    assert_eq!(e.to_string(), "Parse Error: p");
    let e = Error::new_validate_err("v");
    assert!(matches!(e.err_type(), ErrorType::ValidateError));
    assert_eq!(ErrorType::ParseError.label(), "Parse Error");
    assert_eq!(ErrorType::ValidateError.label(), "Validate Error");
}

// ---------------------------------------------------------------- the registry

#[test]
fn fixed_fragments() {
    let mut defs = SchemaDefs::new();
    assert_eq!(json_dump(&<()>::register_schema(&mut defs), false), "{\"type\":\"null\"}");
    assert_eq!(json_dump(&bool::register_schema(&mut defs), false), "{\"type\":\"boolean\"}");
    assert_eq!(json_dump(&String::register_schema(&mut defs), false), "{\"type\":\"string\"}");
    assert_eq!(json_dump(&u8::register_schema(&mut defs), false), "{\"type\":\"integer\"}");
    assert_eq!(json_dump(&i128::register_schema(&mut defs), false), "{\"type\":\"integer\"}");
    assert_eq!(
        json_dump(&Vec::<bool>::register_schema(&mut defs), false),
        "{\"items\":{\"type\":\"boolean\"},\"type\":\"array\"}"
    );
    assert_eq!(
        json_dump(&Option::<String>::register_schema(&mut defs), false),
        "{\"anyOf\":[{\"type\":\"null\"},{\"type\":\"string\"}]}"
    );
    assert_eq!(
        json_dump(&Box::<u8>::register_schema(&mut defs), false),
        "{\"type\":\"integer\"}"
    );
    assert!(defs.is_empty());
    assert_eq!(json_dump(&type_fragment("x"), false), "{\"type\":\"x\"}");
    assert_eq!(json_dump(&single("k", JsonValue::Null), false), "{\"k\":null}");
}

struct Tree;

impl RegisterSchema for Tree {
    fn register_schema(defs: &mut SchemaDefs) -> JsonValue {
        if begin_definition(defs, "Tree") {
            // while the body is built the name is held with `null` in place of the schema
            assert!(matches!(defs.get("Tree"), Some(JsonValue::Null)));
            let children = Vec::<Box<Tree>>::register_schema(defs);
            assert_eq!(defs.len(), 1);
            finish_definition(defs, "Tree", single("children", children))
        } else {
            definition_ref("Tree")
        }
    }
}

#[test]
fn recursive_type_registers_once() {
    let mut defs = SchemaDefs::new();
    let root = Tree::register_schema(&mut defs);
    assert_eq!(json_dump(&root, false), "{\"$ref\":\"#/definitions/Tree\"}");
    assert_eq!(defs.len(), 1);
    assert_eq!(
        json_dump(defs.get("Tree").unwrap(), false),
        "{\"children\":{\"items\":{\"$ref\":\"#/definitions/Tree\"},\"type\":\"array\"}}"
    );
    let again = Tree::register_schema(&mut defs);
    assert_eq!(json_dump(&again, false), "{\"$ref\":\"#/definitions/Tree\"}");
    assert_eq!(defs.len(), 1);
    let doc = schema_document(root, defs);
    assert_eq!(
        json_dump(&doc, false),
        "{\"$ref\":\"#/definitions/Tree\",\"definitions\":{\"Tree\":{\"children\":{\"items\":{\"$ref\":\"#/definitions/Tree\"},\"type\":\"array\"}}}}"
    );
}

#[test]
fn document_of_a_plain_root() {
    let doc = schema_document(type_fragment("string"), SchemaDefs::new());
    assert_eq!(json_dump(&doc, false), "{\"type\":\"string\"}");
    let doc = schema_document(JsonValue::Null, SchemaDefs::new());
    assert_eq!(json_dump(&doc, false), "null");
    let doc = schema_document(single("$ref", JsonValue::Bool(true)), SchemaDefs::new());
    assert_eq!(json_dump(&doc, false), "{\"$ref\":true}");
    let mut defs = SchemaDefs::new();
    assert!(begin_definition(&mut defs, "A"));
    assert!(!begin_definition(&mut defs, "A"));
    let doc = schema_document(definition_ref("A"), defs);
    assert_eq!(
        json_dump(&doc, false),
        "{\"$ref\":\"#/definitions/A\",\"definitions\":{\"A\":null}}"
    );
}

// ---------------------------------------------------------------- the parser over another stream

struct Owned {
    bytes: Vec<u8>,
    pos: usize,
    mark: usize,
}

impl Stream<u8> for Owned {
    fn peek(&mut self) -> Option<&u8> {
        self.bytes.get(self.pos)
    }

    fn next(&mut self) -> Option<&u8> {
        if self.pos < self.bytes.len() {
            self.pos += 1;
            self.bytes.get(self.pos - 1)
        } else {
            None
        }
    }

    fn while_if<F>(&mut self, cond: F)
    where
        F: Fn(&u8) -> bool,
    {
        while self.pos < self.bytes.len() && cond(&self.bytes[self.pos]) {
            self.pos += 1;
        }
    }

    fn next_if<F>(&mut self, cond: F) -> bool
    where
        F: Fn(&u8) -> bool,
    {
        if self.pos < self.bytes.len() && cond(&self.bytes[self.pos]) {
            self.pos += 1;
            true
        } else {
            false
        }
    }

    fn expect(&mut self, it: &[u8]) -> bool {
        if self.bytes[self.pos..].starts_with(it) {
            self.pos += it.len();
            true
        } else {
            false
        }
    }

    fn position(&self) -> usize {
        self.pos
    }

    fn finish(&self) -> bool {
        self.pos == self.bytes.len()
    }

    fn skip(&mut self) {
        if self.pos < self.bytes.len() {
            self.pos += 1;
        }
    }

    fn skip_by(&mut self, size: usize) {
        self.pos = self.bytes.len().min(self.pos.saturating_add(size));
    }

    fn anchor(&mut self) {
        self.mark = self.pos;
    }

    fn read(&mut self) -> &[u8] {
        &self.bytes[self.mark..self.pos]
    }
}

#[test]
fn parser_over_another_stream() {
    let stream = Owned {
        bytes: b" {\"k\": [1.5, \"\\u00e9\", null, true]} ".to_vec(),
        pos: 0,
        mark: 0,
    };
    let mut loader = JsonLoader::new(stream);
    let value = loader.load().unwrap();
    assert_eq!(json_dump(&value, true), "{\"k\":[1.5,\"\\u00e9\",null,true]}");
    let stream = Owned {
        bytes: b"x[1] 2".to_vec(),
        pos: 1,
        mark: 0,
    };
    let mut loader = JsonLoader::new(stream);
    assert_eq!(loader.load().err().unwrap().message(), "extra data");
    let stream = Owned {
        bytes: b"[1][2]".to_vec(),
        pos: 0,
        mark: 0,
    };
    let mut loader = JsonLoader::new(stream);
    assert_eq!(json_dump(&loader._load().unwrap(), false), "[1]");
    assert_eq!(json_dump(&loader._load().unwrap(), false), "[2]");
    assert_eq!(
        loader._load().err().unwrap().message(),
        "expect value, found no data"
    );
}
