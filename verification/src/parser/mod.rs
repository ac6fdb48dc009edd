//! The parsers: one per kind of value, and the dispatcher that picks among them.
pub mod array;
pub mod object;

use vstd::prelude::*;
use crate::cursor::Cursor;
use crate::error::{Context, Error};
use crate::grammar::{
    decimal, digits_end, has, hex4, hex_value, keyword_at, node_at, number_at, simple_escape,
    string_at, string_body, string_node_at, unicode_escape, word_mismatch, Parsed,
};
use crate::json::{Json, JsonView};
use crate::number::Number;
use crate::parser::array::array;
use crate::parser::object::object;
use crate::text::{digit, hex_digit};

verus! {

/// What a parser that started at `at` of `s` and stopped at `end` owes:
/// on success the value that the grammar reads there, ending at `end`, with
/// the text of `at..end` as its source; on failure the grammar's error.
pub open spec fn outcome(
    r: Result<Json, Error>,
    s: Seq<char>,
    at: int,
    end: int,
    expected: Parsed,
) -> bool {
    match r {
        Ok(value) => {
            &&& expected == Ok::<(JsonView, int), Error>((value@, end))
            &&& 0 <= at < end <= s.len()
            &&& value@.source() == s.subrange(at, end)
        },
        Err(e) => expected == Err::<(JsonView, int), Error>(e),
    }
}

/// Reads `word` character by character and returns the text read.
fn keyword(cursor: &mut Cursor, word: &Vec<char>) -> (r: Result<String, Error>)
    requires
        old(cursor).wf(),
        word.len() > 0,
    ensures
        final(cursor).wf(),
        final(cursor).text() == old(cursor).text(),
        final(cursor).depth_left() == old(cursor).depth_left(),
        match r {
            Ok(source) => {
                &&& keyword_at(old(cursor).text(), old(cursor).position(), word@) == Ok::<int, Error>(
                    final(cursor).position(),
                )
                &&& final(cursor).position() == old(cursor).position() + word.len()
                &&& final(cursor).position() <= old(cursor).text().len()
                &&& source@ == word@
                &&& source@ == old(cursor).text().subrange(
                    old(cursor).position(),
                    final(cursor).position(),
                )
            },
            Err(e) => keyword_at(old(cursor).text(), old(cursor).position(), word@) == Err::<int, Error>(e),
        },
{
    let ghost s = cursor.text();
    let ghost at = cursor.position();
    let mut source = String::new();
    let mut k: usize = 0;
    while k < word.len()
        invariant
            cursor.wf(),
            cursor.text() == s,
            cursor.depth_left() == old(cursor).depth_left(),
            s == old(cursor).text(),
            at == old(cursor).position(),
            0 <= at,
            cursor.position() == at + k,
            at + k <= s.len(),
            k <= word.len(),
            source@ == s.subrange(at, at + k),
            source@ == word@.subrange(0, k as int),
            word_mismatch(s, at, word@, 0) == word_mismatch(s, at, word@, k as int),
        decreases word.len() - k,
    {
        match cursor.peek() {
            None => {
                return Err(Error::UnexpectedEndOfInput);
            },
            Some(c) => {
                if c != word[k] {
                    return Err(Error::InvalidCharacter(c, Context::Literal));
                }
                proof {
                    assert(s.subrange(at, at + k).push(c) =~= s.subrange(at, at + k + 1));
                    assert(word@.subrange(0, k as int).push(c) =~= word@.subrange(0, k + 1));
                }
                source.push(c);
                cursor.advance();
                k = k + 1;
            },
        }
    }
    proof {
        assert(word@.subrange(0, k as int) =~= word@);
    }
    Ok(source)
}

/// Reads a run of digits and returns the number they spell, or `None` where
/// it does not fit in 64 bits.
fn digits(cursor: &mut Cursor) -> (value: Option<u64>)
    requires
        old(cursor).wf(),
    ensures
        final(cursor).wf(),
        final(cursor).text() == old(cursor).text(),
        final(cursor).depth_left() == old(cursor).depth_left(),
        final(cursor).position() == digits_end(old(cursor).text(), old(cursor).position()),
        old(cursor).position() <= final(cursor).position() <= old(cursor).text().len(),
        value == (if decimal(old(cursor).text(), old(cursor).position(), final(cursor).position())
            <= u64::MAX {
            Some(
                decimal(old(cursor).text(), old(cursor).position(), final(cursor).position()) as u64,
            )
        } else {
            None
        }),
{
    let ghost s = cursor.text();
    let ghost at = cursor.position();
    let mut acc: Option<u64> = Some(0);
    loop
        invariant
            cursor.wf(),
            cursor.text() == s,
            cursor.depth_left() == old(cursor).depth_left(),
            s == old(cursor).text(),
            at == old(cursor).position(),
            0 <= at,
            at <= cursor.position() <= s.len(),
            digits_end(s, at) == digits_end(s, cursor.position()),
            match acc {
                Some(v) => v == decimal(s, at, cursor.position()),
                None => decimal(s, at, cursor.position()) > u64::MAX,
            },
        decreases s.len() - cursor.position(),
    {
        match cursor.peek() {
            None => {
                return acc;
            },
            Some(c) => {
                if !digit(c) {
                    return acc;
                }
                let d: u64 = (c as u32 - 48) as u64;
                acc = match acc {
                    Some(v) => if v < 1844674407370955161 || (v == 1844674407370955161 && d <= 5) {
                        Some(v * 10 + d)
                    } else {
                        None
                    },
                    None => None,
                };
                cursor.advance();
            },
        }
    }
}

/// Reads a number.
pub fn number(cursor: &mut Cursor) -> (r: Result<Json, Error>)
    requires
        old(cursor).wf(),
    ensures
        final(cursor).wf(),
        final(cursor).text() == old(cursor).text(),
        final(cursor).depth_left() == old(cursor).depth_left(),
        outcome(
            r,
            old(cursor).text(),
            old(cursor).position(),
            final(cursor).position(),
            number_at(old(cursor).text(), old(cursor).position()),
        ),
{
    let ghost s = cursor.text();
    let start = cursor.offset();
    let negative = match cursor.peek() {
        Some(c) => c == '-',
        None => false,
    };
    if negative {
        cursor.advance();
    }
    let first = cursor.peek();
    let int_start = cursor.offset();
    let magnitude = digits(cursor);
    let int_end = cursor.offset();
    if int_end == int_start {
        return Err(Error::InvalidNumber);
    }
    if int_end > int_start + 1 {
        match first {
            Some(c) => if c == '0' {
                return Err(Error::InvalidNumber);
            },
            None => {},
        }
    }
    let has_fraction = match cursor.peek() {
        Some(c) => c == '.',
        None => false,
    };
    if has_fraction {
        cursor.advance();
        let before = cursor.offset();
        let _ = digits(cursor);
        if cursor.offset() == before {
            return Err(Error::InvalidNumber);
        }
    }
    let has_exp = match cursor.peek() {
        Some(c) => c == 'e' || c == 'E',
        None => false,
    };
    if has_exp {
        cursor.advance();
        let signed = match cursor.peek() {
            Some(c) => c == '+' || c == '-',
            None => false,
        };
        if signed {
            cursor.advance();
        }
        let before = cursor.offset();
        let _ = digits(cursor);
        if cursor.offset() == before {
            return Err(Error::InvalidNumber);
        }
    }
    let end = cursor.offset();
    let source = cursor.slice(start, end);
    let value = if has_fraction || has_exp {
        Number::Float(source.clone())
    } else {
        match magnitude {
            None => Number::Float(source.clone()),
            Some(m) => if !negative {
                Number::Unsigned(m)
            } else if m < 0x8000_0000_0000_0000 {
                Number::Integer(0 - (m as i64))
            } else if m == 0x8000_0000_0000_0000 {
                Number::Integer(i64::MIN)
            } else {
                Number::Float(source.clone())
            },
        }
    };
    Ok(Json::Number(value, source))
}

/// Reads one hex digit, or nothing where none stands.
fn hex_at(cursor: &mut Cursor) -> (value: Option<u32>)
    requires
        old(cursor).wf(),
    ensures
        final(cursor).wf(),
        final(cursor).text() == old(cursor).text(),
        final(cursor).depth_left() == old(cursor).depth_left(),
        match value {
            Some(v) => {
                &&& old(cursor).position() < old(cursor).text().len()
                &&& hex_value(old(cursor).text()[old(cursor).position()]) == Some(v)
                &&& final(cursor).position() == old(cursor).position() + 1
            },
            None => {
                &&& final(cursor).position() == old(cursor).position()
                &&& (old(cursor).position() >= old(cursor).text().len() || hex_value(
                    old(cursor).text()[old(cursor).position()],
                ) is None)
            },
        },
{
    match cursor.peek() {
        None => None,
        Some(c) => match hex_digit(c) {
            None => None,
            Some(v) => {
                cursor.advance();
                Some(v)
            },
        },
    }
}

/// Reads four hex digits and returns their value; `None` where fewer stand.
fn hex_run(cursor: &mut Cursor) -> (value: Option<u32>)
    requires
        old(cursor).wf(),
    ensures
        final(cursor).wf(),
        final(cursor).text() == old(cursor).text(),
        final(cursor).depth_left() == old(cursor).depth_left(),
        value == hex4(old(cursor).text(), old(cursor).position()),
        value is Some ==> final(cursor).position() == old(cursor).position() + 4,
{
    let a: u32 = match hex_at(cursor) {
        Some(v) => v,
        None => {
            return None;
        },
    };
    let b: u32 = match hex_at(cursor) {
        Some(v) => v,
        None => {
            return None;
        },
    };
    let c: u32 = match hex_at(cursor) {
        Some(v) => v,
        None => {
            return None;
        },
    };
    let d: u32 = match hex_at(cursor) {
        Some(v) => v,
        None => {
            return None;
        },
    };
    Some(a * 4096 + b * 256 + c * 16 + d)
}

/// Whether `c` stands next.
fn next_is(cursor: &Cursor, c: char) -> (yes: bool)
    requires
        cursor.wf(),
    ensures
        yes == has(cursor.text(), cursor.position(), c),
{
    match cursor.peek() {
        Some(found) => found == c,
        None => false,
    }
}

/// Reads what follows `\u`: four hex digits, and for a lead surrogate the
/// escape of its trail surrogate as well.
fn unicode(cursor: &mut Cursor) -> (r: Result<char, Error>)
    requires
        old(cursor).wf(),
    ensures
        final(cursor).wf(),
        final(cursor).text() == old(cursor).text(),
        final(cursor).depth_left() == old(cursor).depth_left(),
        match r {
            Ok(c) => unicode_escape(old(cursor).text(), old(cursor).position()) == Ok::<
                (char, int),
                Error,
            >((c, final(cursor).position())),
            Err(e) => unicode_escape(old(cursor).text(), old(cursor).position()) == Err::<
                (char, int),
                Error,
            >(e),
        },
{
    let u: u32 = match hex_run(cursor) {
        Some(u) => u,
        None => {
            return Err(Error::InvalidUnicodeEscape);
        },
    };
    if 0xD800 <= u && u <= 0xDBFF {
        if !next_is(cursor, '\\') {
            return Err(Error::InvalidUnicodeEscape);
        }
        cursor.advance();
        if !next_is(cursor, 'u') {
            return Err(Error::InvalidUnicodeEscape);
        }
        cursor.advance();
        let t: u32 = match hex_run(cursor) {
            Some(t) => t,
            None => {
                return Err(Error::InvalidUnicodeEscape);
            },
        };
        if !(0xDC00 <= t && t <= 0xDFFF) {
            return Err(Error::InvalidUnicodeEscape);
        }
        let code: u32 = 0x10000 + (u - 0xD800) * 0x400 + (t - 0xDC00);
        match char::from_u32(code) {
            Some(c) => Ok(c),
            None => Err(Error::InvalidUnicodeEscape),
        }
    } else if 0xDC00 <= u && u <= 0xDFFF {
        Err(Error::InvalidUnicodeEscape)
    } else {
        match char::from_u32(u) {
            Some(c) => Ok(c),
            None => Err(Error::InvalidUnicodeEscape),
        }
    }
}

/// The character that the one-letter escape `c` stands for.
fn escape(c: char) -> (decoded: Option<char>)
    ensures
        decoded == simple_escape(c),
{
    if c == '"' {
        Some('"')
    } else if c == '\\' {
        Some('\\')
    } else if c == '/' {
        Some('/')
    } else if c == 'b' {
        Some('\u{8}')
    } else if c == 'f' {
        Some('\u{c}')
    } else if c == 'n' {
        Some('\n')
    } else if c == 'r' {
        Some('\r')
    } else if c == 't' {
        Some('\t')
    } else {
        None
    }
}

/// Reads a string: the opening quote, the characters and escapes, and the
/// closing quote.
pub fn string(cursor: &mut Cursor) -> (r: Result<Json, Error>)
    requires
        old(cursor).wf(),
    ensures
        final(cursor).wf(),
        final(cursor).text() == old(cursor).text(),
        final(cursor).depth_left() == old(cursor).depth_left(),
        outcome(
            r,
            old(cursor).text(),
            old(cursor).position(),
            final(cursor).position(),
            string_node_at(old(cursor).text(), old(cursor).position()),
        ),
{
    let ghost s = cursor.text();
    let start = cursor.offset();
    match cursor.peek() {
        None => {
            return Err(Error::UnexpectedEndOfInput);
        },
        Some(c) => if c != '"' {
            return Err(Error::InvalidCharacter(c, Context::String));
        },
    }
    cursor.advance();
    let mut value = String::new();
    loop
        invariant
            cursor.wf(),
            cursor.text() == s,
            cursor.depth_left() == old(cursor).depth_left(),
            s == old(cursor).text(),
            start == old(cursor).position(),
            start < cursor.position() <= s.len(),
            string_at(s, start as int) == string_body(s, cursor.position(), value@),
        decreases s.len() - cursor.position(),
    {
        let c = match cursor.peek() {
            None => {
                return Err(Error::UnexpectedEndOfInput);
            },
            Some(c) => c,
        };
        cursor.advance();
        if c == '"' {
            let source = cursor.slice(start, cursor.offset());
            return Ok(Json::String(value, source));
        } else if c != '\\' {
            value.push(c);
        } else {
            let e = match cursor.peek() {
                None => {
                    return Err(Error::UnexpectedEndOfInput);
                },
                Some(e) => e,
            };
            cursor.advance();
            if e == 'u' {
                match unicode(cursor) {
                    Ok(decoded) => {
                        value.push(decoded);
                    },
                    Err(err) => {
                        return Err(err);
                    },
                }
            } else {
                match escape(e) {
                    Some(decoded) => {
                        value.push(decoded);
                    },
                    None => {
                        return Err(Error::InvalidEscapeSequence);
                    },
                }
            }
        }
    }
}

/// Reads the value that starts at the cursor, chosen by its first character:
/// `{` an object, `[` an array, `"` a string, `-` or a digit a number, and
/// `t`, `f`, `n` the three keywords.
pub fn node(cursor: &mut Cursor) -> (r: Result<Json, Error>)
    requires
        old(cursor).wf(),
    ensures
        final(cursor).wf(),
        final(cursor).text() == old(cursor).text(),
        r is Ok ==> final(cursor).depth_left() == old(cursor).depth_left(),
        outcome(
            r,
            old(cursor).text(),
            old(cursor).position(),
            final(cursor).position(),
            node_at(old(cursor).text(), old(cursor).position(), old(cursor).depth_left()),
        ),
    decreases old(cursor).text().len() - old(cursor).position(), 1int,
{
    let c = match cursor.peek() {
        None => {
            return Err(Error::UnexpectedEndOfInput);
        },
        Some(c) => c,
    };
    if c == '{' {
        object(cursor)
    } else if c == '[' {
        array(cursor)
    } else if c == '"' {
        string(cursor)
    } else if c == '-' || digit(c) {
        number(cursor)
    } else if c == 't' {
        match keyword(cursor, &vec!['t', 'r', 'u', 'e']) {
            Ok(source) => Ok(Json::Boolean(true, source)),
            Err(e) => Err(e),
        }
    } else if c == 'f' {
        match keyword(cursor, &vec!['f', 'a', 'l', 's', 'e']) {
            Ok(source) => Ok(Json::Boolean(false, source)),
            Err(e) => Err(e),
        }
    } else if c == 'n' {
        match keyword(cursor, &vec!['n', 'u', 'l', 'l']) {
            Ok(source) => Ok(Json::Null(source)),
            Err(e) => Err(e),
        }
    } else {
        Err(Error::InvalidCharacter(c, Context::Value))
    }
}

} // verus!
