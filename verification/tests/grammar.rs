use simple_json::parser::array::array;
use simple_json::parser::object::{insert, object};
use simple_json::parser::{node, number, string};
use simple_json::error::{Context, Kind};
use simple_json::grammar::{ArrayStage, ObjectStage};
use simple_json::{Cursor, Error, Json, Number};

fn cursor(text: &str) -> Cursor {
    Cursor::new(text.chars().collect())
}

fn unsigned(n: u64) -> Json {
    Json::Number(Number::Unsigned(n), n.to_string())
}

#[test]
fn source_is_the_text_read() {
    for text in ["null", "true", "-12", "1.5e-3", "\"a\\u0041\"", "[ 1 ,\t[2,3],\n{\"k\":null} ]", "{ \"a\" :1 , \"b\":[] }"] {
        let json = Json::parse(text).unwrap();
        assert_eq!(json.to_source(), text);
        assert_eq!(json.to_string(), text);
    }
}

#[test]
fn nested_sources_are_kept() {
    let json = Json::parse("[ [ 1 ],{ \"k\" :[ ] } ]").unwrap();
    let items = json.as_array().unwrap();
    assert_eq!(items.len(), 2);
    assert_eq!(items[0].to_source(), "[ 1 ]");
    assert_eq!(items[1].to_source(), "{ \"k\" :[ ] }");
    let members = items[1].as_object().unwrap();
    assert_eq!(members[0].0, "k");
    assert_eq!(members[0].1.to_source(), "[ ]");
}

#[test]
fn text_after_the_value_is_left() {
    let json = Json::parse("12 rest").unwrap();
    assert_eq!(json, unsigned(12));
    let mut c = cursor("[1]x");
    assert!(array(&mut c).is_ok());
    assert_eq!(c.offset(), 3);
    assert_eq!(c.peek(), Some('x'));
}

#[test]
fn numeric_classification() {
    assert_eq!(Json::parse("0"), Ok(Json::Number(Number::Unsigned(0), "0".to_string())));
    assert_eq!(Json::parse("-0"), Ok(Json::Number(Number::Integer(0), "-0".to_string())));
    assert_eq!(
        Json::parse("1.5"),
        Ok(Json::Number(Number::Float("1.5".to_string()), "1.5".to_string()))
    );
    assert_eq!(
        Json::parse("1e2"),
        Ok(Json::Number(Number::Float("1e2".to_string()), "1e2".to_string()))
    );
    assert_eq!(
        Json::parse("1E+2"),
        Ok(Json::Number(Number::Float("1E+2".to_string()), "1E+2".to_string()))
    );
}

#[test]
fn numbers_at_the_limits() {
    assert_eq!(Json::parse("18446744073709551615").unwrap().as_u64(), Ok(u64::MAX));
    assert_eq!(
        Json::parse("18446744073709551616"),
        Ok(Json::Number(
            Number::Float("18446744073709551616".to_string()),
            "18446744073709551616".to_string()
        ))
    );
    assert_eq!(Json::parse("-9223372036854775808").unwrap().as_i64(), Ok(i64::MIN));
    assert_eq!(Json::parse("-9223372036854775807").unwrap().as_i64(), Ok(-9223372036854775807));
    assert_eq!(
        Json::parse("-9223372036854775809"),
        Ok(Json::Number(
            Number::Float("-9223372036854775809".to_string()),
            "-9223372036854775809".to_string()
        ))
    );
    assert_eq!(Json::parse("9223372036854775808").unwrap().as_i64(), Err(Error::InvalidNumber));
    assert_eq!(Json::parse("-1").unwrap().as_u64(), Err(Error::InvalidNumber));
    assert_eq!(Json::parse("7").unwrap().as_u64(), Ok(7));
}

#[test]
fn number_stops_at_the_first_foreign_character() {
    let mut c = cursor("12]");
    assert_eq!(number(&mut c), Ok(unsigned(12)));
    assert_eq!(c.offset(), 2);
}

#[test]
fn invalid_numbers() {
    assert_eq!(Json::parse("01"), Err(Error::InvalidNumber));
    assert_eq!(Json::parse("-"), Err(Error::InvalidNumber));
    assert_eq!(Json::parse("-x"), Err(Error::InvalidNumber));
    assert_eq!(Json::parse("1."), Err(Error::InvalidNumber));
    assert_eq!(Json::parse("1.e3"), Err(Error::InvalidNumber));
    assert_eq!(Json::parse("1e"), Err(Error::InvalidNumber));
    assert_eq!(Json::parse("1e+"), Err(Error::InvalidNumber));
    assert_eq!(Json::parse("-00"), Err(Error::InvalidNumber));
}

#[test]
fn whitespace_tolerance() {
    let spaced = Json::parse("[ 1 , 1 ]").unwrap();
    assert_eq!(spaced.to_source(), "[ 1 , 1 ]");
    let tight = Json::parse("[1,1]").unwrap();
    assert_eq!(spaced.as_array().unwrap(), &vec![unsigned(1), unsigned(1)]);
    assert_eq!(tight.as_array().unwrap(), spaced.as_array().unwrap());
}

#[test]
fn array_takes_leading_spaces_object_does_not() {
    let mut c = cursor(" \t[ ]");
    assert_eq!(array(&mut c), Ok(Json::Array(vec![], " \t[ ]".to_string())));
    let mut c = cursor(" {}");
    assert_eq!(
        object(&mut c),
        Err(Error::InvalidCharacter(' ', Context::Object(ObjectStage::Start)))
    );
    assert_eq!(Json::parse(" 1"), Err(Error::InvalidCharacter(' ', Context::Value)));
}

#[test]
fn space_between_colon_and_value() {
    let text = "{\"a\": 1}";
    let mut c = cursor(text);
    let json = object(&mut c).unwrap();
    assert_eq!(
        json,
        Json::Object(vec![("a".to_string(), unsigned(1))], text.to_string())
    );
    assert_eq!(c.offset(), 8);
    let members = json.as_object().unwrap();
    assert_eq!(members.len(), 1);
    assert_eq!(members[0].1.to_source(), "1");
    assert_eq!(Json::parse(text), Ok(json));
}

#[test]
fn spaces_around_every_token_of_an_object() {
    for text in [
        "{\"a\": [1]}",
        "{\"a\": {}}",
        "{\"a\":\t\r\n \"s\"}",
        "{ \"a\" : 1 , \"b\" : [ 1 , { \"c\" : null } ] }",
        "{\n  \"k\": {\n    \"n\": -1.5e3\n  }\n}",
    ] {
        let json = Json::parse(text).unwrap();
        assert_eq!(json.to_source(), text);
    }
    let json = Json::parse("{\"a\":  [ 1 ]  }").unwrap();
    assert_eq!(json.as_object().unwrap()[0].1.to_source(), "[ 1 ]");
    assert_eq!(json.render(), "{\"a\":[1]}");
}

#[test]
fn object_value_must_follow_the_spaces() {
    assert_eq!(Json::parse("{\"a\": "), Err(Error::UnexpectedEndOfInput));
    assert_eq!(Json::parse("{\"a\": }"), Err(Error::InvalidCharacter('}', Context::Value)));
    assert_eq!(Json::parse("{\"a\": ,}"), Err(Error::InvalidCharacter(',', Context::Value)));
}

#[test]
fn escape_correctness() {
    assert_eq!(Json::parse("\"a\\n\\\"b\"").unwrap().as_string().unwrap(), "a\n\"b");
    assert_eq!(Json::parse("\"\\u3042\"").unwrap().as_string().unwrap(), "\u{3042}");
    assert_eq!(Json::parse("\"\\u00e9\\u00E9\"").unwrap().as_string().unwrap(), "\u{e9}\u{e9}");
    assert_eq!(
        Json::parse("\"\\\"\\\\\\/\\b\\f\\n\\r\\t\"").unwrap().as_string().unwrap(),
        "\"\\/\u{8}\u{c}\n\r\t"
    );
}

#[test]
fn surrogate_pairs_combine() {
    let json = Json::parse("\"\\uD83D\\uDE00!\"").unwrap();
    assert_eq!(json.as_string().unwrap(), "\u{1F600}!");
    assert_eq!(json.to_source(), "\"\\uD83D\\uDE00!\"");
    assert_eq!(Json::parse("\"\\uD800\\uDC00\"").unwrap().as_string().unwrap(), "\u{10000}");
    assert_eq!(Json::parse("\"\\uDBFF\\uDFFF\"").unwrap().as_string().unwrap(), "\u{10FFFF}");
}

#[test]
fn invalid_unicode_escapes() {
    assert_eq!(Json::parse("\"\\u12\""), Err(Error::InvalidUnicodeEscape));
    assert_eq!(Json::parse("\"\\u12"), Err(Error::InvalidUnicodeEscape));
    assert_eq!(Json::parse("\"\\u12G4\""), Err(Error::InvalidUnicodeEscape));
    assert_eq!(Json::parse("\"\\uD800\""), Err(Error::InvalidUnicodeEscape));
    assert_eq!(Json::parse("\"\\uD800x\""), Err(Error::InvalidUnicodeEscape));
    assert_eq!(Json::parse("\"\\uD800\\n\""), Err(Error::InvalidUnicodeEscape));
    assert_eq!(Json::parse("\"\\uD800\\u0041\""), Err(Error::InvalidUnicodeEscape));
    assert_eq!(Json::parse("\"\\uDC00\""), Err(Error::InvalidUnicodeEscape));
}

#[test]
fn invalid_escape_sequence() {
    assert_eq!(Json::parse("\"\\x\""), Err(Error::InvalidEscapeSequence));
    assert_eq!(Json::parse("\"\\U0041\""), Err(Error::InvalidEscapeSequence));
}

#[test]
fn trailing_commas_fail() {
    assert_eq!(Json::parse("[1,]"), Err(Error::InvalidCharacter(']', Context::Value)));
    assert_eq!(
        Json::parse("{\"a\":1,}"),
        Err(Error::InvalidCharacter('}', Context::Object(ObjectStage::Index)))
    );
    assert_eq!(Json::parse("[,1]"), Err(Error::InvalidCharacter(',', Context::Value)));
    assert_eq!(
        Json::parse("[1 2]"),
        Err(Error::InvalidCharacter('2', Context::Array(ArrayStage::Comma)))
    );
}

#[test]
fn keywords_must_match() {
    assert_eq!(Json::parse("tru"), Err(Error::UnexpectedEndOfInput));
    assert_eq!(Json::parse("trux"), Err(Error::InvalidCharacter('x', Context::Literal)));
    assert_eq!(Json::parse("nul!"), Err(Error::InvalidCharacter('!', Context::Literal)));
    assert_eq!(Json::parse("fals"), Err(Error::UnexpectedEndOfInput));
    assert_eq!(Json::parse("truest"), Ok(Json::Boolean(true, "true".to_string())));
}

#[test]
fn unterminated_values_fail() {
    assert_eq!(Json::parse(""), Err(Error::UnexpectedEndOfInput));
    assert_eq!(Json::parse("\"abc"), Err(Error::UnexpectedEndOfInput));
    assert_eq!(Json::parse("\"abc\\"), Err(Error::UnexpectedEndOfInput));
    assert_eq!(Json::parse("["), Err(Error::UnexpectedEndOfInput));
    assert_eq!(Json::parse("[1"), Err(Error::UnexpectedEndOfInput));
    assert_eq!(Json::parse("[1,"), Err(Error::UnexpectedEndOfInput));
    assert_eq!(Json::parse("[1, "), Err(Error::UnexpectedEndOfInput));
    assert_eq!(Json::parse("{"), Err(Error::UnexpectedEndOfInput));
    assert_eq!(Json::parse("{\"a\""), Err(Error::UnexpectedEndOfInput));
    assert_eq!(Json::parse("{\"a\":"), Err(Error::UnexpectedEndOfInput));
    assert_eq!(Json::parse("{\"a\":1"), Err(Error::UnexpectedEndOfInput));
    assert_eq!(Json::parse("{\"a\":1,"), Err(Error::UnexpectedEndOfInput));
}

#[test]
fn invalid_characters() {
    assert_eq!(Json::parse("?"), Err(Error::InvalidCharacter('?', Context::Value)));
    assert_eq!(
        Json::parse("{1:2}"),
        Err(Error::InvalidCharacter('1', Context::Object(ObjectStage::Index)))
    );
    assert_eq!(
        Json::parse("{\"a\" 1}"),
        Err(Error::InvalidCharacter('1', Context::Object(ObjectStage::Colon)))
    );
    assert_eq!(
        Json::parse("{\"a\":1 \"b\":2}"),
        Err(Error::InvalidCharacter('"', Context::Object(ObjectStage::Comma)))
    );
    let mut c = cursor("x");
    assert_eq!(string(&mut c), Err(Error::InvalidCharacter('x', Context::String)));
    let mut c = cursor("x");
    assert_eq!(
        array(&mut c),
        Err(Error::InvalidCharacter('x', Context::Array(ArrayStage::Start)))
    );
    let mut c = cursor("]");
    assert_eq!(node(&mut c), Err(Error::InvalidCharacter(']', Context::Value)));
}

#[test]
fn duplicate_keys_last_write_wins() {
    let json = Json::parse("{\"a\":1,\"a\":2}").unwrap();
    assert_eq!(json.to_source(), "{\"a\":1,\"a\":2}");
    let members = json.as_object().unwrap();
    assert_eq!(members, &vec![("a".to_string(), unsigned(2))]);
}

#[test]
fn members_keep_their_first_place() {
    let json = Json::parse("{\"a\":1,\"b\":2,\"a\":3}").unwrap();
    let members = json.as_object().unwrap();
    assert_eq!(members, &vec![("a".to_string(), unsigned(3)), ("b".to_string(), unsigned(2))]);
}

#[test]
fn insert_replaces_or_appends() {
    let mut members = vec![("x".to_string(), unsigned(1))];
    insert(&mut members, "y".to_string(), unsigned(2));
    insert(&mut members, "x".to_string(), unsigned(3));
    assert_eq!(members, vec![("x".to_string(), unsigned(3)), ("y".to_string(), unsigned(2))]);
}

#[test]
fn projections_report_the_kind_found() {
    let json = Json::parse("[true]").unwrap();
    assert_eq!(json.as_bool(), Err(Error::TypeMismatch(Kind::Boolean, Kind::Array)));
    assert_eq!(json.as_null(), Err(Error::TypeMismatch(Kind::Null, Kind::Array)));
    assert_eq!(json.as_u64(), Err(Error::TypeMismatch(Kind::Number, Kind::Array)));
    assert_eq!(json.as_i64(), Err(Error::TypeMismatch(Kind::Number, Kind::Array)));
    assert_eq!(json.as_string(), Err(Error::TypeMismatch(Kind::String, Kind::Array)));
    assert_eq!(json.as_object().err(), Some(Error::TypeMismatch(Kind::Object, Kind::Array)));
    let item = &json.as_array().unwrap()[0];
    assert_eq!(item.as_bool(), Ok(true));
    assert_eq!(item.as_array().err(), Some(Error::TypeMismatch(Kind::Array, Kind::Boolean)));
    assert_eq!(item.kind(), Kind::Boolean);
}

#[test]
fn cursor_walks_forward_only() {
    let mut c = cursor("ab");
    assert_eq!(c.peek(), Some('a'));
    assert_eq!(c.peek(), Some('a'));
    c.advance();
    assert_eq!(c.peek(), Some('b'));
    c.advance();
    assert_eq!(c.peek(), None);
    c.advance();
    assert_eq!(c.offset(), 2);
    assert_eq!(c.slice(0, 2), "ab");
    assert_eq!(c.slice(1, 1), "");
}

#[test]
fn items_lie_in_the_text_one_behind_the_other() {
    let text = "[ 1 , [ 1 ] , 1 , { \"k\" : 1 } ]";
    let json = Json::parse(text).unwrap();
    let mut from = 1;
    for item in json.as_array().unwrap() {
        let source = item.to_source();
        let found = text[from..].find(&source).unwrap();
        assert!(text[from..from + found].chars().all(|c| c == ' ' || c == ','));
        from = from + found + source.len();
    }
    assert_eq!(&text[from..], " ]");
}

#[test]
fn a_replaced_value_takes_the_place_in_the_list_not_in_the_text() {
    let text = "{\"a\": [1], \"b\": [2], \"a\": [3]}";
    let json = Json::parse(text).unwrap();
    assert_eq!(json.to_source(), text);
    let members = json.as_object().unwrap();
    assert_eq!(members.len(), 2);
    assert_eq!(members[0].0, "a");
    assert_eq!(members[0].1.to_source(), "[3]");
    assert_eq!(members[1].0, "b");
    assert_eq!(members[1].1.to_source(), "[2]");
}
