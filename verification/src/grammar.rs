//! The grammar, as functions from a text and a position to what is read there.
use vstd::prelude::*;
use crate::error::{Context, Error};
use crate::json::JsonView;
use crate::number::NumberView;

verus! {

/// The four characters that may stand between tokens.
pub open spec fn is_space(c: char) -> bool {
    c == ' ' || c == '\r' || c == '\n' || c == '\t'
}

/// `0` to `9`.
pub open spec fn is_digit(c: char) -> bool {
    48 <= c as u32 <= 57
}

/// The value of a decimal digit.
pub open spec fn digit_value(c: char) -> nat {
    (c as u32 - 48) as nat
}

/// The value of a hex digit of either case.
pub open spec fn hex_value(c: char) -> Option<u32> {
    let n = c as u32;
    if 48 <= n <= 57 {
        Some((n - 48) as u32)
    } else if 97 <= n <= 102 {
        Some((n - 87) as u32)
    } else if 65 <= n <= 70 {
        Some((n - 55) as u32)
    } else {
        None
    }
}

/// Whether `c` stands at position `at` of `s`.
pub open spec fn has(s: Seq<char>, at: int, c: char) -> bool {
    0 <= at < s.len() && s[at] == c
}

/// What parsing a value yields: the value and the position after it.
pub type Parsed = Result<(JsonView, int), Error>;

// ---------------------------------------------------------------- literals

/// The first way in which `s` from `at + k` on differs from `word` from `k` on.
pub open spec fn word_mismatch(s: Seq<char>, at: int, word: Seq<char>, k: int) -> Option<Error>
    decreases word.len() - k,
{
    if k < 0 || k >= word.len() {
        None
    } else if at + k >= s.len() {
        Some(Error::UnexpectedEndOfInput)
    } else if s[at + k] != word[k] {
        Some(Error::InvalidCharacter(s[at + k], Context::Literal))
    } else {
        word_mismatch(s, at, word, k + 1)
    }
}

pub open spec fn word_true() -> Seq<char> {
    seq!['t', 'r', 'u', 'e']
}

pub open spec fn word_false() -> Seq<char> {
    seq!['f', 'a', 'l', 's', 'e']
}

pub open spec fn word_null() -> Seq<char> {
    seq!['n', 'u', 'l', 'l']
}

/// The position after the keyword `word` at `at`, or the first mismatch.
pub open spec fn keyword_at(s: Seq<char>, at: int, word: Seq<char>) -> Result<int, Error> {
    match word_mismatch(s, at, word, 0) {
        Some(e) => Err(e),
        None => Ok(at + word.len()),
    }
}

// ----------------------------------------------------------------- numbers

/// The first position from `at` on that holds no digit.
pub open spec fn digits_end(s: Seq<char>, at: int) -> int
    decreases s.len() - at,
{
    if 0 <= at < s.len() && is_digit(s[at]) {
        digits_end(s, at + 1)
    } else {
        at
    }
}

/// The number that the digits of `s` in `from..to` spell in base ten.
pub open spec fn decimal(s: Seq<char>, from: int, to: int) -> nat
    decreases to - from,
{
    if to <= from {
        0
    } else {
        decimal(s, from, to - 1) * 10 + digit_value(s[to - 1])
    }
}

/// Where the integer part of a number at `at` starts: after the sign, if any.
pub open spec fn integer_start(s: Seq<char>, at: int) -> int {
    if has(s, at, '-') {
        at + 1
    } else {
        at
    }
}

/// Where the fraction ends, given that the integer part ends at `at`.
pub open spec fn fraction_end(s: Seq<char>, at: int) -> int {
    if has(s, at, '.') {
        digits_end(s, at + 1)
    } else {
        at
    }
}

/// Whether an exponent mark stands at `at`.
pub open spec fn has_exponent(s: Seq<char>, at: int) -> bool {
    has(s, at, 'e') || has(s, at, 'E')
}

/// Where the exponent's digits start, given its mark at `at`.
pub open spec fn exponent_digits(s: Seq<char>, at: int) -> int {
    if has(s, at + 1, '+') || has(s, at + 1, '-') {
        at + 2
    } else {
        at + 1
    }
}

/// Where the number at `at` ends, or `InvalidNumber` where a digit run is
/// missing or the integer part has a leading zero.
pub open spec fn number_end(s: Seq<char>, at: int) -> Result<int, Error> {
    let a = integer_start(s, at);
    let b = digits_end(s, a);
    let c = fraction_end(s, b);
    let d = exponent_digits(s, c);
    if b == a {
        Err(Error::InvalidNumber)
    } else if s[a] == '0' && b > a + 1 {
        Err(Error::InvalidNumber)
    } else if has(s, b, '.') && c == b + 1 {
        Err(Error::InvalidNumber)
    } else if has_exponent(s, c) {
        if digits_end(s, d) == d {
            Err(Error::InvalidNumber)
        } else {
            Ok(digits_end(s, d))
        }
    } else {
        Ok(c)
    }
}

/// The kind and value of the number literal in `at..end`.
///
/// With a fraction or an exponent it is a float. Without, it is unsigned if
/// it has no sign, an integer if it has one, and a float where 64 bits do not
/// hold it.
pub open spec fn number_value(s: Seq<char>, at: int, end: int) -> NumberView {
    let a = integer_start(s, at);
    let b = digits_end(s, a);
    let n = decimal(s, a, b);
    if end != b {
        NumberView::Float(s.subrange(at, end))
    } else if a == at {
        if n <= u64::MAX {
            NumberView::Unsigned(n as u64)
        } else {
            NumberView::Float(s.subrange(at, end))
        }
    } else {
        if n <= 0x8000_0000_0000_0000 {
            NumberView::Integer((0 - n) as i64)
        } else {
            NumberView::Float(s.subrange(at, end))
        }
    }
}

/// The number at `at`.
pub open spec fn number_at(s: Seq<char>, at: int) -> Parsed {
    match number_end(s, at) {
        Ok(end) => Ok((JsonView::Number(number_value(s, at, end), s.subrange(at, end)), end)),
        Err(e) => Err(e),
    }
}

// ----------------------------------------------------------------- strings

/// The character that a one-letter escape stands for.
pub open spec fn simple_escape(c: char) -> Option<char> {
    if c == '"' {
        Some('"')
    } else if c == '\\' {
        Some('\\')
    } else if c == '/' {
        Some('/')
    } else if c == 'b' {
        Some('\u{8}')
    } else if c == 'f' {
        Some('\u{c}')
    } else if c == 'n' {
        Some('\n')
    } else if c == 'r' {
        Some('\r')
    } else if c == 't' {
        Some('\t')
    } else {
        None
    }
}

/// The value of the four hex digits at `at`, if they are there.
pub open spec fn hex4(s: Seq<char>, at: int) -> Option<u32> {
    if at < 0 || at + 4 > s.len() {
        None
    } else {
        match (hex_value(s[at]), hex_value(s[at + 1]), hex_value(s[at + 2]), hex_value(s[at + 3])) {
            (Some(a), Some(b), Some(c), Some(d)) => Some((a * 4096 + b * 256 + c * 16 + d) as u32),
            _ => None,
        }
    }
}

pub open spec fn is_lead_surrogate(u: u32) -> bool {
    0xD800 <= u <= 0xDBFF
}

pub open spec fn is_trail_surrogate(u: u32) -> bool {
    0xDC00 <= u <= 0xDFFF
}

/// The scalar value that a surrogate pair stands for.
pub open spec fn combine_surrogates(lead: u32, trail: u32) -> u32 {
    (0x10000 + (lead - 0xD800) * 0x400 + (trail - 0xDC00)) as u32
}

/// The character of the `\u` escape whose hex digits start at `at`, and the
/// position after it. A lead surrogate takes the trail surrogate's escape
/// with it; a surrogate without its partner is an error.
pub open spec fn unicode_escape(s: Seq<char>, at: int) -> Result<(char, int), Error> {
    match hex4(s, at) {
        None => Err(Error::InvalidUnicodeEscape),
        Some(u) => if is_lead_surrogate(u) {
            if has(s, at + 4, '\\') && has(s, at + 5, 'u') {
                match hex4(s, at + 6) {
                    Some(t) => if is_trail_surrogate(t) {
                        Ok((combine_surrogates(u, t) as char, at + 10))
                    } else {
                        Err(Error::InvalidUnicodeEscape)
                    },
                    None => Err(Error::InvalidUnicodeEscape),
                }
            } else {
                Err(Error::InvalidUnicodeEscape)
            }
        } else if is_trail_surrogate(u) {
            Err(Error::InvalidUnicodeEscape)
        } else {
            Ok((u as char, at + 4))
        },
    }
}

/// The rest of a string whose opening quote is behind `at`: the decoded
/// text, with `acc` before it, and the position after the closing quote.
pub open spec fn string_body(s: Seq<char>, at: int, acc: Seq<char>) -> Result<
    (Seq<char>, int),
    Error,
>
    decreases s.len() - at,
{
    if at < 0 || at >= s.len() {
        Err(Error::UnexpectedEndOfInput)
    } else if s[at] == '"' {
        Ok((acc, at + 1))
    } else if s[at] != '\\' {
        string_body(s, at + 1, acc.push(s[at]))
    } else if at + 1 >= s.len() {
        Err(Error::UnexpectedEndOfInput)
    } else if s[at + 1] == 'u' {
        match unicode_escape(s, at + 2) {
            Ok((c, next)) => string_body(s, next, acc.push(c)),
            Err(e) => Err(e),
        }
    } else {
        match simple_escape(s[at + 1]) {
            Some(c) => string_body(s, at + 2, acc.push(c)),
            None => Err(Error::InvalidEscapeSequence),
        }
    }
}

/// The string at `at`: its decoded text and the position after it.
pub open spec fn string_at(s: Seq<char>, at: int) -> Result<(Seq<char>, int), Error> {
    if at < 0 || at >= s.len() {
        Err(Error::UnexpectedEndOfInput)
    } else if s[at] != '"' {
        Err(Error::InvalidCharacter(s[at], Context::String))
    } else {
        string_body(s, at + 1, Seq::empty())
    }
}

/// The string at `at` as a value.
pub open spec fn string_node_at(s: Seq<char>, at: int) -> Parsed {
    match string_at(s, at) {
        Ok((text, end)) => Ok((JsonView::String(text, s.subrange(at, end)), end)),
        Err(e) => Err(e),
    }
}

/// The keyword `word` at `at`, read as `value`.
pub open spec fn keyword_node_at(
    s: Seq<char>,
    at: int,
    word: Seq<char>,
    value: JsonView,
) -> Parsed {
    match keyword_at(s, at, word) {
        Ok(end) => Ok((value, end)),
        Err(e) => Err(e),
    }
}

// ------------------------------------------------------- arrays and objects

/// One member of an object: its key and its value.
pub type Member = (Seq<char>, JsonView);

/// Whether `i` is the first place in `members` that holds `key`.
pub open spec fn is_first_index(members: Seq<Member>, key: Seq<char>, i: int) -> bool {
    &&& 0 <= i < members.len()
    &&& members[i].0 == key
    &&& forall|j: int| 0 <= j < i ==> (#[trigger] members[j]).0 != key
}

/// Whether some member has `key`.
pub open spec fn has_key(members: Seq<Member>, key: Seq<char>) -> bool {
    exists|i: int| 0 <= i < members.len() && (#[trigger] members[i]).0 == key
}

/// Whether no two members have one key.
pub open spec fn distinct_keys(members: Seq<Member>) -> bool {
    forall|i: int, j: int|
        0 <= i < j < members.len() ==> (#[trigger] members[i]).0 != (#[trigger] members[j]).0
}

/// The value that `members` holds under `key`: that of the first member
/// with the key.
pub open spec fn value_of(members: Seq<Member>, key: Seq<char>) -> Option<JsonView> {
    if has_key(members, key) {
        Some(members[choose|i: int| is_first_index(members, key, i)].1)
    } else {
        None
    }
}

/// `members` with `value` under `key`: in the place of the member that had
/// the key, or at the end where none had it.
pub open spec fn upsert(members: Seq<Member>, key: Seq<char>, value: JsonView) -> Seq<Member> {
    if has_key(members, key) {
        members.update(choose|i: int| is_first_index(members, key, i), (key, value))
    } else {
        members.push((key, value))
    }
}

/// Where the array parser stands.
#[derive(Clone, Copy, Debug, PartialEq, Eq)]
pub enum ArrayStage {
    /// Before the opening bracket.
    Start,
    /// After the opening bracket: an element or the closing bracket.
    FirstValue,
    /// After a comma: an element.
    Value,
    /// After an element: a comma or the closing bracket.
    Comma,
    /// At the closing bracket.
    End,
}

/// Where the object parser stands.
#[derive(Clone, Copy, Debug, PartialEq, Eq)]
pub enum ObjectStage {
    /// Before the opening brace.
    Start,
    /// Before a key; before the first one the closing brace may come instead.
    Index,
    /// After a key: a colon.
    Colon,
    /// After the colon: spaces, then the member's value.
    Value,
    /// After a value: a comma or the closing brace.
    Comma,
    /// At the closing brace.
    End,
}

impl ArrayStage {
    /// Orders the stages that follow one another without a character being
    /// consumed; reading a value ranks 1.
    pub open spec fn rank(self) -> int {
        match self {
            ArrayStage::Start => 0,
            ArrayStage::End => 0,
            ArrayStage::FirstValue => 3,
            _ => 2,
        }
    }
}

impl ObjectStage {
    /// Orders the stages that follow one another without a character being
    /// consumed; reading a value ranks 1.
    pub open spec fn rank(self) -> int {
        match self {
            ObjectStage::Start => 0,
            ObjectStage::End => 0,
            _ => 2,
        }
    }
}

/// The value that starts at `at`, chosen by its first character. Arrays and
/// objects may be nested `depth` deep in it; one level more is `TooDeep`.
pub open spec fn node_at(s: Seq<char>, at: int, depth: nat) -> Parsed
    decreases s.len() - at, 1int,
{
    if at < 0 || at >= s.len() {
        Err(Error::UnexpectedEndOfInput)
    } else if s[at] == '{' {
        object_from(s, at, ObjectStage::Start, Seq::empty(), Seq::empty(), at, depth)
    } else if s[at] == '[' {
        array_from(s, at, ArrayStage::Start, Seq::empty(), at, depth)
    } else if s[at] == '"' {
        string_node_at(s, at)
    } else if s[at] == '-' || is_digit(s[at]) {
        number_at(s, at)
    } else if s[at] == 't' {
        keyword_node_at(s, at, word_true(), JsonView::Boolean(true, word_true()))
    } else if s[at] == 'f' {
        keyword_node_at(s, at, word_false(), JsonView::Boolean(false, word_false()))
    } else if s[at] == 'n' {
        keyword_node_at(s, at, word_null(), JsonView::Null(word_null()))
    } else {
        Err(Error::InvalidCharacter(s[at], Context::Value))
    }
}

/// The array whose text starts at `start`, read on from `at` in `stage` with
/// `items` already read. Before the opening bracket `depth` counts the array
/// itself, behind it only what may be nested in the items.
///
/// A value always ends behind where it starts (`lemma_node_span`), so the
/// branch that tests this is never the one that fails.
pub open spec fn array_from(
    s: Seq<char>,
    at: int,
    stage: ArrayStage,
    items: Seq<JsonView>,
    start: int,
    depth: nat,
) -> Parsed
    recommends
        0 <= start <= at,
    decreases s.len() - at, stage.rank(),
{
    if at < 0 || at >= s.len() {
        Err(Error::UnexpectedEndOfInput)
    } else if is_space(s[at]) {
        array_from(s, at + 1, stage, items, start, depth)
    } else {
        match stage {
            ArrayStage::Start => if s[at] != '[' {
                Err(Error::InvalidCharacter(s[at], Context::Array(stage)))
            } else if depth == 0 {
                Err(Error::TooDeep)
            } else {
                array_from(s, at + 1, ArrayStage::FirstValue, items, start, (depth - 1) as nat)
            },
            ArrayStage::FirstValue => if s[at] == ']' {
                array_from(s, at, ArrayStage::End, items, start, depth)
            } else {
                array_from(s, at, ArrayStage::Value, items, start, depth)
            },
            ArrayStage::Value => match node_at(s, at, depth) {
                Ok((item, next)) => if at < next <= s.len() {
                    array_from(s, next, ArrayStage::Comma, items.push(item), start, depth)
                } else {
                    Err(Error::UnexpectedEndOfInput)
                },
                Err(e) => Err(e),
            },
            ArrayStage::Comma => if s[at] == ',' {
                array_from(s, at + 1, ArrayStage::Value, items, start, depth)
            } else if s[at] == ']' {
                array_from(s, at, ArrayStage::End, items, start, depth)
            } else {
                Err(Error::InvalidCharacter(s[at], Context::Array(stage)))
            },
            ArrayStage::End => if s[at] == ']' {
                Ok((JsonView::Array(items, s.subrange(start, at + 1)), at + 1))
            } else {
                Err(Error::InvalidCharacter(s[at], Context::Array(stage)))
            },
        }
    }
}

/// The object whose text starts at `start`, read on from `at` in `stage` with
/// `members` already read and `key` the last key read. Behind the opening
/// brace spaces are skipped before every token: the key, the colon, the
/// value, the comma and the closing brace. Before the opening
/// brace `depth` counts the object itself, behind it only what may be nested
/// in the values.
///
/// A key and a value always end behind where they start (`lemma_node_span`),
/// so the branches that test this are never the ones that fail.
pub open spec fn object_from(
    s: Seq<char>,
    at: int,
    stage: ObjectStage,
    members: Seq<Member>,
    key: Seq<char>,
    start: int,
    depth: nat,
) -> Parsed
    recommends
        0 <= start <= at,
    decreases s.len() - at, stage.rank(),
{
    if at < 0 || at >= s.len() {
        Err(Error::UnexpectedEndOfInput)
    } else {
        match stage {
            ObjectStage::Start => if s[at] != '{' {
                Err(Error::InvalidCharacter(s[at], Context::Object(stage)))
            } else if depth == 0 {
                Err(Error::TooDeep)
            } else {
                object_from(s, at + 1, ObjectStage::Index, members, key, start, (depth - 1) as nat)
            },
            ObjectStage::Index => if is_space(s[at]) {
                object_from(s, at + 1, stage, members, key, start, depth)
            } else if s[at] == '}' && members.len() == 0 {
                object_from(s, at, ObjectStage::End, members, key, start, depth)
            } else if s[at] != '"' {
                Err(Error::InvalidCharacter(s[at], Context::Object(stage)))
            } else {
                match string_at(s, at) {
                    Ok((name, next)) => if at < next <= s.len() {
                        object_from(s, next, ObjectStage::Colon, members, name, start, depth)
                    } else {
                        Err(Error::UnexpectedEndOfInput)
                    },
                    Err(e) => Err(e),
                }
            },
            ObjectStage::Colon => if is_space(s[at]) {
                object_from(s, at + 1, stage, members, key, start, depth)
            } else if s[at] == ':' {
                object_from(s, at + 1, ObjectStage::Value, members, key, start, depth)
            } else {
                Err(Error::InvalidCharacter(s[at], Context::Object(stage)))
            },
            ObjectStage::Value => if is_space(s[at]) {
                object_from(s, at + 1, stage, members, key, start, depth)
            } else {
                match node_at(s, at, depth) {
                    Ok((value, next)) => if at < next <= s.len() {
                        object_from(
                            s,
                            next,
                            ObjectStage::Comma,
                            upsert(members, key, value),
                            key,
                            start,
                            depth,
                        )
                    } else {
                        Err(Error::UnexpectedEndOfInput)
                    },
                    Err(e) => Err(e),
                }
            },
            ObjectStage::Comma => if is_space(s[at]) {
                object_from(s, at + 1, stage, members, key, start, depth)
            } else if s[at] == ',' {
                object_from(s, at + 1, ObjectStage::Index, members, key, start, depth)
            } else if s[at] == '}' {
                object_from(s, at, ObjectStage::End, members, key, start, depth)
            } else {
                Err(Error::InvalidCharacter(s[at], Context::Object(stage)))
            },
            ObjectStage::End => if s[at] == '}' {
                Ok((JsonView::Object(members, s.subrange(start, at + 1)), at + 1))
            } else {
                Err(Error::InvalidCharacter(s[at], Context::Object(stage)))
            },
        }
    }
}

/// What reading the value at the start of `s` yields, with arrays and
/// objects nested at most `depth` deep.
pub open spec fn document(s: Seq<char>, depth: nat) -> Result<JsonView, Error> {
    match node_at(s, 0, depth) {
        Ok((value, _)) => Ok(value),
        Err(e) => Err(e),
    }
}

} // verus!
