use simple_json::{Json, Number};

fn parsed(text: &str) -> Json {
    let json = Json::parse(text).unwrap();
    let source: String = json.to_source();
    assert_eq!(text, source);
    json
}

fn float_of(json: &Json) -> f64 {
    match json {
        Json::Number(Number::Float(text), _) => text.parse::<f64>().unwrap(),
        Json::Number(Number::Unsigned(n), _) => *n as f64,
        Json::Number(Number::Integer(n), _) => *n as f64,
        other => panic!("Expecting Json::Number, got {:?}", other),
    }
}

fn check_i64(text: &str, expected: i64) {
    let val: i64 = parsed(text).as_i64().unwrap();
    assert_eq!(val, expected);
}

fn check_f64(text: &str, expected: f64) {
    let val: f64 = float_of(&parsed(text));
    assert_eq!(val, expected);
}

fn check_string(text: &str, expected: String) {
    let val: String = parsed(text).as_string().unwrap();
    assert_eq!(val, expected);
}

#[test]
fn valid_null() {
    let val: () = parsed("null").as_null().unwrap();
    assert_eq!(val, ());
}

#[test]
fn valid_bool() {
    assert_eq!(parsed("false").as_bool().unwrap(), false);
    assert_eq!(parsed("true").as_bool().unwrap(), true);
}

#[test]
fn valid_integer_number() {
    check_i64("0", 0);
    check_i64("1", 1);
    check_i64("20", 20);
    check_i64("21", 21);

    check_i64("-0", 0);
    check_i64("-1", -1);
    check_i64("-20", -20);
    check_i64("-21", -21);
}

#[test]
fn valid_float_number() {
    check_f64("0.0", 0.);
    check_f64("1.1", 1.1);
    check_f64("20.01", 20.01);
    check_f64("21.12", 21.12);

    check_f64("-0.0", 0.);
    check_f64("-1.1", -1.1);
    check_f64("-20.01", -20.01);
    check_f64("-21.12", -21.12);
}

#[test]
fn valid_exponent_number() {
    check_f64("0e0", 0.0e0);
    check_f64("1e1", 1.0e1);
    check_f64("20.01e10", 20.01e10);
    check_f64("21.12e2", 21.12e2);

    check_f64("-0e0", 0.0e0);
    check_f64("-1e1", -1.0e1);
    check_f64("-20.01e10", -20.01e10);
    check_f64("-21.12e2", -21.12e2);
}

#[test]
fn valid_string() {
    check_string("\"\"", String::from(""));

    check_string(
        "\"This is a normal ASCII string.\"",
        String::from("This is a normal ASCII string."),
    );

    check_string(
        "\"I can also use unicode: ٩(-̮̮̃-̃)۶ ٩(●̮̮̃•̃)۶ ٩(͡๏̯͡๏)۶ ٩(-̮̮̃•̃).\"",
        String::from("I can also use unicode: ٩(-̮̮̃-̃)۶ ٩(●̮̮̃•̃)۶ ٩(͡๏̯͡๏)۶ ٩(-̮̮̃•̃)."),
    );

    check_string(
        "\"I can escape some things, like \\\"\\\\\\/\\b\\f\\n\\r\\t!\"",
        String::from("I can escape some things, like \"\\/\u{0008}\u{000C}\n\r\t!"),
    );

    check_string(
        "\"I can even escape unicode: \\u3042.\"",
        String::from("I can even escape unicode: あ."),
    );
}

#[test]
fn valid_array() {
    let json = Json::parse("[]");
    assert_eq!(json, Ok(Json::Array(vec![], "[]".to_string())));

    let json = Json::parse("[1,2.0,\"String\",[],{}]");
    assert_eq!(
        json,
        Ok(Json::Array(
            vec![
                Json::Number(Number::Unsigned(1), "1".to_string()),
                Json::Number(Number::Float("2.0".to_string()), "2.0".to_string()),
                Json::String(String::from("String"), "\"String\"".to_string()),
                Json::Array(vec![], "[]".to_string()),
                Json::Object(vec![], "{}".to_string()),
            ],
            "[1,2.0,\"String\",[],{}]".to_string()
        ))
    );

    let text = "[  1  ,  1  ]";
    let json = Json::parse(text);
    assert_eq!(
        json,
        Ok(Json::Array(
            vec![
                Json::Number(Number::Unsigned(1), "1".to_string()),
                Json::Number(Number::Unsigned(1), "1".to_string()),
            ],
            text.to_string()
        ))
    );
}

#[test]
fn valid_object() {
    let json = Json::parse("{}");
    assert_eq!(json, Ok(Json::Object(vec![], "{}".to_string())));

    let mut map = Vec::new();
    map.push((String::from("i"), Json::Number(Number::Unsigned(1), "1".to_string())));
    map.push((
        String::from("f"),
        Json::Number(Number::Float("2.0".to_string()), "2.0".to_string()),
    ));
    map.push((String::from("s"), Json::String(String::from("String"), "\"String\"".to_string())));
    map.push((String::from("a"), Json::Array(vec![], "[  ]".to_string())));
    map.push((String::from("o"), Json::Object(vec![], "{   }".to_string())));

    let text = "{   \"i\":1,   \"f\":2.0,   \"s\":\"String\",\"a\":[  ]  ,  \"o\":{   }}";
    let json = Json::parse(text);
    assert_eq!(json, Ok(Json::Object(map, text.to_string())));
}
