//! Characters and strings: what the parser needs of them beyond vstd.
use vstd::prelude::*;
use vstd::std_specs::iter::IteratorSpec;
use vstd::string::{axiom_spec_iter, next_postcondition};
use crate::grammar::{hex_value, is_digit, is_space};

verus! {

/// Whether `u` is the code of a character: no surrogate, and in range.
pub open spec fn is_scalar(u: u32) -> bool {
    u < 0xD800 || 0xE000 <= u <= 0x10FFFF
}

/// `char::from_u32` of std: the character with code `i`, and `None` where
/// `i` is a surrogate or lies above `0x10FFFF`.
pub assume_specification[ char::from_u32 ](i: u32) -> (c: Option<char>)
    ensures
        c == (if is_scalar(i) {
            Some(i as char)
        } else {
            None
        }),
;

/// `String::push` of std: appends one character.
pub assume_specification[ std::string::String::push ](s: &mut std::string::String, ch: char)
    ensures
        final(s)@ == old(s)@.push(ch),
;

/// The characters of `text` in order.
pub fn chars_of(text: &str) -> (out: Vec<char>)
    ensures
        out@ == text@,
{
    broadcast use axiom_spec_iter, next_postcondition;

    let mut out: Vec<char> = Vec::new();
    let mut rest = text.chars();
    loop
        invariant
            out@ + rest.remaining() == text@,
            rest.obeys_prophetic_iter_laws(),
            rest.decrease() is Some,
        decreases rest.decrease()->0,
    {
        match rest.next() {
            Some(c) => {
                proof {
                    assert(out@.push(c) + rest.remaining() =~= text@);
                }
                out.push(c);
            },
            None => {
                proof {
                    assert(out@ =~= text@);
                }
                return out;
            },
        }
    }
}

/// Whether `c` may stand between tokens.
pub fn space(c: char) -> (yes: bool)
    ensures
        yes == is_space(c),
{
    c == ' ' || c == '\r' || c == '\n' || c == '\t'
}

/// Whether `c` is a decimal digit.
pub fn digit(c: char) -> (yes: bool)
    ensures
        yes == is_digit(c),
{
    let n: u32 = c as u32;
    48 <= n && n <= 57
}

/// The value of the hex digit `c`.
pub fn hex_digit(c: char) -> (value: Option<u32>)
    ensures
        value == hex_value(c),
{
    let n: u32 = c as u32;
    if 48 <= n && n <= 57 {
        Some(n - 48)
    } else if 97 <= n && n <= 102 {
        Some(n - 87)
    } else if 65 <= n && n <= 70 {
        Some(n - 55)
    } else {
        None
    }
}

} // verus!
