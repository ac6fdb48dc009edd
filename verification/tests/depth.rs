use simple_json::cursor::DEFAULT_DEPTH;
use simple_json::parser::node;
use simple_json::{Cursor, Error, Json};

fn nested(levels: usize) -> String {
    let mut text = String::new();
    for _ in 0..levels {
        text.push('[');
    }
    for _ in 0..levels {
        text.push(']');
    }
    text
}

#[test]
fn nesting_up_to_the_limit_is_read() {
    assert_eq!(DEFAULT_DEPTH, 128);
    let text = nested(DEFAULT_DEPTH);
    assert_eq!(Json::parse(&text).unwrap().to_source(), text);
    assert_eq!(Json::parse(&nested(DEFAULT_DEPTH + 1)), Err(Error::TooDeep));
}

#[test]
fn a_long_run_of_brackets_fails_without_a_crash() {
    let mut text = String::new();
    for _ in 0..200_000 {
        text.push('[');
    }
    assert_eq!(Json::parse(&text), Err(Error::TooDeep));
    let mut braces = String::new();
    for _ in 0..200_000 {
        braces.push_str("{\"a\":");
    }
    assert_eq!(Json::parse(&braces), Err(Error::TooDeep));
}

#[test]
fn the_limit_counts_arrays_and_objects_alike() {
    assert!(Json::parse_within("7", 0).is_ok());
    assert!(Json::parse_within("\"s\"", 0).is_ok());
    assert_eq!(Json::parse_within("[]", 0), Err(Error::TooDeep));
    assert_eq!(Json::parse_within("{}", 0), Err(Error::TooDeep));
    assert!(Json::parse_within("[1,[],{}]", 2).is_ok());
    assert_eq!(Json::parse_within("[1,[],{}]", 1), Err(Error::TooDeep));
    assert!(Json::parse_within("{\"a\":[{\"b\":[]}]}", 4).is_ok());
    assert_eq!(Json::parse_within("{\"a\":[{\"b\":[]}]}", 3), Err(Error::TooDeep));
    assert!(Json::parse_within("[[],[],[[]]]", 3).is_ok());
}

#[test]
fn a_read_value_gives_its_levels_back() {
    let mut cursor = Cursor::with_depth("[[]][[]]".chars().collect(), 2);
    assert!(node(&mut cursor).is_ok());
    assert_eq!(cursor.offset(), 4);
    assert!(node(&mut cursor).is_ok());
    assert_eq!(cursor.offset(), 8);
    assert!(cursor.enter());
    assert!(cursor.enter());
    assert!(!cursor.enter());
    cursor.leave();
    assert!(cursor.enter());
}
