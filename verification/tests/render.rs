use simple_json::{Json, Number};

fn rendered(text: &str) -> String {
    Json::parse(text).unwrap().render()
}

#[test]
fn render_drops_the_spacing() {
    assert_eq!(rendered("[ 1 , 1 ]"), "[1,1]");
    assert_eq!(rendered("{ \"a\" :[ ] , \"b\" :{ } }"), "{\"a\":[],\"b\":{}}");
    assert_eq!(rendered("[\n\ttrue,\r\n\tfalse,\n\tnull\n]"), "[true,false,null]");
}

#[test]
fn render_writes_numbers_in_base_ten() {
    assert_eq!(rendered("0"), "0");
    assert_eq!(rendered("-0"), "0");
    assert_eq!(rendered("10"), "10");
    assert_eq!(rendered("18446744073709551615"), "18446744073709551615");
    assert_eq!(rendered("-9223372036854775808"), "-9223372036854775808");
    assert_eq!(rendered("-42"), "-42");
    assert_eq!(rendered("1.50e+3"), "1.50e+3");
}

#[test]
fn render_escapes_strings_anew() {
    assert_eq!(rendered("\"a\\u0041\\n\\\"\\\\\\/\""), "\"aA\\n\\\"\\\\/\"");
    assert_eq!(rendered("\"\\b\\f\\r\\t\""), "\"\\b\\f\\r\\t\"");
    assert_eq!(rendered("\"\\u0001\\u001f\\u0020\""), "\"\\u0001\\u001f \"");
    assert_eq!(rendered("\"\\u3042\\uD83D\\uDE00\""), "\"\u{3042}\u{1F600}\"");
    assert_eq!(rendered("{\"k\\\"\":1}"), "{\"k\\\"\":1}");
}

#[test]
fn render_of_a_rendered_text_is_the_same() {
    for text in [
        "null",
        "-0",
        "[ 1 , -2 , 3.5e1 ]",
        "\"a\\u0041\\n\\u0002\\\"\"",
        "{ \"a\" :[ {\"b\":\"\\t\"} , [ ] ] , \"a\" :null , \"c\" :18446744073709551616 }",
    ] {
        let once = rendered(text);
        let twice = rendered(&once);
        assert_eq!(twice, once);
        assert_eq!(Json::parse(&once).unwrap().to_source(), once);
    }
}

#[test]
fn built_values_carry_a_written_source() {
    assert_eq!(Json::null(), Json::Null("null".to_string()));
    assert_eq!(Json::from(()), Json::Null("null".to_string()));
    assert_eq!(Json::from(true), Json::Boolean(true, "true".to_string()));
    assert_eq!(Json::from_bool(false), Json::Boolean(false, "false".to_string()));
    assert_eq!(Json::from(0u64), Json::Number(Number::Unsigned(0), "0".to_string()));
    assert_eq!(Json::from(907u64), Json::Number(Number::Unsigned(907), "907".to_string()));
    assert_eq!(Json::from(-15i64), Json::Number(Number::Integer(-15), "-15".to_string()));
    assert_eq!(Json::from(7i32), Json::Number(Number::Integer(7), "7".to_string()));
    assert_eq!(
        Json::from(i64::MIN),
        Json::Number(Number::Integer(i64::MIN), "-9223372036854775808".to_string())
    );
    assert_eq!(
        Json::from("a\"b"),
        Json::String("a\"b".to_string(), "\"a\\\"b\"".to_string())
    );
    assert_eq!(
        Json::from(String::from("x\ny")),
        Json::String("x\ny".to_string(), "\"x\\ny\"".to_string())
    );
}

#[test]
fn built_collections_join_the_sources() {
    let spaced = Json::parse("[ 1 ]").unwrap();
    let array = Json::from(vec![Json::from(true), spaced.clone(), Json::from("s")]);
    assert_eq!(array.to_source(), "[true,[ 1 ],\"s\"]");
    assert_eq!(array.render(), "[true,[1],\"s\"]");
    assert_eq!(array.as_array().unwrap().len(), 3);
    assert_eq!(Json::from_items(vec![]).to_source(), "[]");

    let object = Json::from(vec![
        ("a".to_string(), Json::from(1u64)),
        ("b".to_string(), spaced),
        ("a".to_string(), Json::from(2u64)),
    ]);
    assert_eq!(object.to_source(), "{\"a\":2,\"b\":[ 1 ]}");
    assert_eq!(object.as_object().unwrap().len(), 2);
    assert_eq!(Json::from_pairs(vec![]).to_source(), "{}");
    assert_eq!(Json::parse(&object.to_source()).unwrap().to_source(), object.to_source());
}

#[test]
fn clone_is_equal_in_every_part() {
    let text = "{ \"a\" :[ 1 , -2.5 , \"s\" , null , true ] , \"b\" :{ } }";
    let json = Json::parse(text).unwrap();
    let copy = json.clone();
    assert_eq!(copy, json);
    assert_eq!(copy.to_source(), text);
}

#[test]
fn number_conversions() {
    assert_eq!(Number::Unsigned(5).to_u64(), Ok(5));
    assert_eq!(Number::Unsigned(5).to_i64(), Ok(5));
    assert_eq!(Number::Unsigned(u64::MAX).to_i64(), Err(simple_json::Error::InvalidNumber));
    assert_eq!(Number::Integer(-5).to_i64(), Ok(-5));
    assert_eq!(Number::Integer(-5).to_u64(), Err(simple_json::Error::InvalidNumber));
    assert_eq!(Number::Integer(5).to_u64(), Ok(5));
    assert_eq!(Number::Float("1.5".to_string()).to_u64(), Err(simple_json::Error::InvalidNumber));
    assert_eq!(Number::Float("1.5".to_string()).to_i64(), Err(simple_json::Error::InvalidNumber));
}

#[test]
fn written_numbers_read_back() {
    for n in [0u64, 9, 10, 105, 9007199254740993, u64::MAX] {
        let built = Json::from(n);
        assert_eq!(Json::parse(&built.to_source()), Ok(built));
    }
    for n in [-1i64, -10, -9007199254740993, i64::MIN] {
        let built = Json::from(n);
        assert_eq!(Json::parse(&built.to_source()), Ok(built));
    }
    let positive = Json::from(42i64);
    assert_eq!(Json::parse(&positive.to_source()).unwrap().as_i64(), Ok(42));
    assert_eq!(Json::parse(&positive.to_source()).unwrap().render(), positive.render());
}

#[test]
fn written_strings_read_back() {
    for text in ["", "plain", "q\"b\\s/", "\u{0}\u{1}\u{8}\u{9}\u{a}\u{c}\u{d}\u{1f}", "\u{3042}\u{1F600}"] {
        let built = Json::from(text);
        let read = Json::parse(&built.to_source()).unwrap();
        assert_eq!(read.as_string().unwrap(), text);
        assert_eq!(read, built);
    }
}
