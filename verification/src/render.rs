//! The canonical form: a value written from its payload alone, with no
//! space between tokens and every string escaped anew.
use vstd::prelude::*;
use vstd::string::StringExecFns;
use vstd::std_specs::vec::axiom_vec_index_decreases;
use crate::json::{lemma_array_view, lemma_object_view, member_views, views, Json, JsonView};
use crate::number::{Number, NumberView};
use crate::text::chars_of;

verus! {

/// The character of a digit below sixteen: `0` to `9`, then `a` to `f`.
pub open spec fn digit_char(d: int) -> char {
    if d < 10 {
        ((48 + d) as u8) as char
    } else {
        ((87 + d) as u8) as char
    }
}

/// `n` in base ten, without leading zeros.
pub open spec fn decimal_text(n: nat) -> Seq<char>
    decreases n,
{
    if n < 10 {
        seq![digit_char(n as int)]
    } else {
        decimal_text(n / 10).push(digit_char((n % 10) as int))
    }
}

/// `i` in base ten, with a minus sign where it is negative.
pub open spec fn integer_text(i: int) -> Seq<char> {
    if i < 0 {
        seq!['-'] + decimal_text((0 - i) as nat)
    } else {
        decimal_text(i as nat)
    }
}

/// A number as text: integers in base ten, a float as it was written.
pub open spec fn number_text(n: NumberView) -> Seq<char> {
    match n {
        NumberView::Unsigned(u) => decimal_text(u as nat),
        NumberView::Integer(i) => integer_text(i as int),
        NumberView::Float(text) => text,
    }
}

/// How one character of a string is written: the quote, the backslash and
/// the control characters escaped, every other character as itself.
pub open spec fn escaped_char(c: char) -> Seq<char> {
    if c == '"' {
        seq!['\\', '"']
    } else if c == '\\' {
        seq!['\\', '\\']
    } else if c == '\u{8}' {
        seq!['\\', 'b']
    } else if c == '\u{c}' {
        seq!['\\', 'f']
    } else if c == '\n' {
        seq!['\\', 'n']
    } else if c == '\r' {
        seq!['\\', 'r']
    } else if c == '\t' {
        seq!['\\', 't']
    } else if (c as u32) < 32 {
        seq!['\\', 'u', '0', '0', digit_char((c as u32 / 16) as int), digit_char((c as u32 % 16) as int)]
    } else {
        seq![c]
    }
}

/// The characters of `text`, each written as [`escaped_char`] says.
pub open spec fn escaped(text: Seq<char>) -> Seq<char>
    decreases text.len(),
{
    if text.len() == 0 {
        Seq::empty()
    } else {
        escaped(text.drop_last()) + escaped_char(text.last())
    }
}

/// `text` escaped and between quotes.
pub open spec fn quoted(text: Seq<char>) -> Seq<char> {
    seq!['"'] + escaped(text) + seq!['"']
}

/// The first `n` of `parts`, with a comma between each two.
pub open spec fn joined(parts: Seq<Seq<char>>, n: int) -> Seq<char>
    decreases n,
{
    if n <= 0 {
        Seq::empty()
    } else if n == 1 {
        parts[0]
    } else {
        joined(parts, n - 1) + seq![','] + parts[n - 1]
    }
}

/// The canonical form of a value.
pub open spec fn canonical(value: JsonView) -> Seq<char>
    decreases value, 1int,
{
    match value {
        JsonView::Null(_) => seq!['n', 'u', 'l', 'l'],
        JsonView::Boolean(truth, _) => if truth {
            seq!['t', 'r', 'u', 'e']
        } else {
            seq!['f', 'a', 'l', 's', 'e']
        },
        JsonView::Number(n, _) => number_text(n),
        JsonView::String(text, _) => quoted(text),
        JsonView::Array(items, _) => seq!['['] + joined(parts(value), items.len() as int) + seq![
            ']',
        ],
        JsonView::Object(members, _) => seq!['{'] + joined(parts(value), members.len() as int)
            + seq!['}'],
    }
}

/// The canonical forms of what an array or an object holds: of an array
/// its items, of an object its members as key, colon, value.
pub open spec fn parts(value: JsonView) -> Seq<Seq<char>>
    decreases value, 0int,
{
    match value {
        JsonView::Array(items, _) => Seq::new(
            items.len(),
            |i: int|
                if 0 <= i < items.len() {
                    canonical(items[i])
                } else {
                    Seq::empty()
                },
        ),
        JsonView::Object(members, _) => Seq::new(
            members.len(),
            |i: int|
                if 0 <= i < members.len() {
                    quoted(members[i].0) + seq![':'] + canonical(members[i].1)
                } else {
                    Seq::empty()
                },
        ),
        _ => Seq::empty(),
    }
}

/// The canonical forms of `items`, one by one.
pub open spec fn item_texts(items: Seq<JsonView>) -> Seq<Seq<char>> {
    Seq::new(items.len(), |i: int| canonical(items[i]))
}

/// The canonical forms of `members`, one by one: key, colon, value.
pub open spec fn member_texts(members: Seq<(Seq<char>, JsonView)>) -> Seq<Seq<char>> {
    Seq::new(members.len(), |i: int| quoted(members[i].0) + seq![':'] + canonical(members[i].1))
}

/// An array's canonical form is its items' forms between brackets, with
/// commas between them.
pub proof fn lemma_canonical_array(items: Seq<JsonView>, source: Seq<char>)
    ensures
        canonical(JsonView::Array(items, source)) == seq!['['] + joined(
            item_texts(items),
            items.len() as int,
        ) + seq![']'],
{
    assert(parts(JsonView::Array(items, source)) =~= item_texts(items));
}

/// An object's canonical form is its members' forms between braces, with
/// commas between them.
pub proof fn lemma_canonical_object(members: Seq<(Seq<char>, JsonView)>, source: Seq<char>)
    ensures
        canonical(JsonView::Object(members, source)) == seq!['{'] + joined(
            member_texts(members),
            members.len() as int,
        ) + seq!['}'],
{
    assert(parts(JsonView::Object(members, source)) =~= member_texts(members));
}

/// The character of a digit below sixteen.
fn digit_of(d: u8) -> (c: char)
    requires
        d < 16,
    ensures
        c == digit_char(d as int),
{
    if d < 10 {
        (48 + d) as char
    } else {
        (87 + d) as char
    }
}

/// Appends `n` in base ten.
pub fn push_decimal(out: &mut String, n: u64)
    ensures
        final(out)@ == old(out)@ + decimal_text(n as nat),
    decreases n,
{
    if n >= 10 {
        push_decimal(out, n / 10);
    }
    out.push(digit_of((n % 10) as u8));
    proof {
        if n < 10 {
            assert(old(out)@.push(digit_char(n as int)) =~= old(out)@ + decimal_text(n as nat));
        } else {
            assert((old(out)@ + decimal_text((n / 10) as nat)).push(digit_char((n % 10) as int))
                =~= old(out)@ + decimal_text(n as nat));
        }
    }
}

/// Appends `i` in base ten, with its sign.
pub fn push_integer(out: &mut String, i: i64)
    ensures
        final(out)@ == old(out)@ + integer_text(i as int),
{
    if i < 0 {
        out.push('-');
        let magnitude: u64 = if i == i64::MIN {
            0x8000_0000_0000_0000
        } else {
            (0 - i) as u64
        };
        push_decimal(out, magnitude);
        proof {
            assert(old(out)@.push('-') + decimal_text(magnitude as nat) =~= old(out)@
                + integer_text(i as int));
        }
    } else {
        push_decimal(out, i as u64);
    }
}

/// Appends one character of a string, escaped where it must be.
fn push_escaped_char(out: &mut String, c: char)
    ensures
        final(out)@ == old(out)@ + escaped_char(c),
{
    let code: u32 = c as u32;
    if c == '"' {
        out.push('\\');
        out.push('"');
    } else if c == '\\' {
        out.push('\\');
        out.push('\\');
    } else if c == '\u{8}' {
        out.push('\\');
        out.push('b');
    } else if c == '\u{c}' {
        out.push('\\');
        out.push('f');
    } else if c == '\n' {
        out.push('\\');
        out.push('n');
    } else if c == '\r' {
        out.push('\\');
        out.push('r');
    } else if c == '\t' {
        out.push('\\');
        out.push('t');
    } else if code < 32 {
        out.push('\\');
        out.push('u');
        out.push('0');
        out.push('0');
        out.push(digit_of((code / 16) as u8));
        out.push(digit_of((code % 16) as u8));
    } else {
        out.push(c);
    }
    proof {
        assert(final(out)@ =~= old(out)@ + escaped_char(c));
    }
}

/// Appends `text` escaped and between quotes.
pub fn push_quoted(out: &mut String, text: &str)
    ensures
        final(out)@ == old(out)@ + quoted(text@),
{
    let chars = chars_of(text);
    out.push('"');
    let mut i: usize = 0;
    proof {
        assert(chars@.subrange(0, 0) =~= Seq::<char>::empty());
        assert(old(out)@.push('"') =~= old(out)@ + seq!['"'] + escaped(Seq::<char>::empty()));
    }
    while i < chars.len()
        invariant
            i <= chars.len(),
            chars@ == text@,
            out@ == old(out)@ + seq!['"'] + escaped(chars@.subrange(0, i as int)),
        decreases chars.len() - i,
    {
        let ghost before = out@;
        push_escaped_char(out, chars[i]);
        proof {
            let next = chars@.subrange(0, i + 1);
            assert(next.drop_last() =~= chars@.subrange(0, i as int));
            assert(next.last() == chars@[i as int]);
            assert(out@ =~= old(out)@ + seq!['"'] + escaped(next));
        }
        i = i + 1;
    }
    out.push('"');
    proof {
        assert(chars@.subrange(0, i as int) =~= text@);
        assert(out@ =~= old(out)@ + quoted(text@));
    }
}

impl Json {
    /// The canonical form of the value: written from the payload alone,
    /// with no space between tokens, strings escaped anew, and the members
    /// of an object in the order they are held in.
    pub fn render(&self) -> (out: String)
        ensures
            out@ == canonical(self@),
        decreases self,
    {
        let mut out = String::new();
        match self {
            Json::Null(_) => {
                out.push('n');
                out.push('u');
                out.push('l');
                out.push('l');
                proof {
                    assert(out@ =~= canonical(self@));
                }
            },
            Json::Boolean(truth, _) => {
                if *truth {
                    out.push('t');
                    out.push('r');
                    out.push('u');
                    out.push('e');
                } else {
                    out.push('f');
                    out.push('a');
                    out.push('l');
                    out.push('s');
                    out.push('e');
                }
                proof {
                    assert(out@ =~= canonical(self@));
                }
            },
            Json::Number(number, _) => {
                match number {
                    Number::Unsigned(n) => push_decimal(&mut out, *n),
                    Number::Integer(n) => push_integer(&mut out, *n),
                    Number::Float(text) => out.append(text.as_str()),
                }
                proof {
                    assert(out@ =~= canonical(self@));
                }
            },
            Json::String(text, _) => {
                push_quoted(&mut out, text.as_str());
                proof {
                    assert(out@ =~= canonical(self@));
                }
            },
            Json::Array(items, source) => {
                let ghost texts = item_texts(views(items@));
                out.push('[');
                let mut i: usize = 0;
                proof {
                    assert(out@ =~= seq!['['] + joined(texts, 0));
                }
                while i < items.len()
                    invariant
                        i <= items.len(),
                        *self == Json::Array(*items, *source),
                        texts == item_texts(views(items@)),
                        out@ == seq!['['] + joined(texts, i as int),
                    decreases items.len() - i,
                {
                    if i > 0 {
                        out.push(',');
                    }
                    proof {
                        axiom_vec_index_decreases(*items, i as int);
                        assert(self->Array_0 == *items);
                        assert(decreases_to!(*self => self->Array_0));
                    }
                    let part = items[i].render();
                    out.append(part.as_str());
                    proof {
                        assert(texts[i as int] == part@);
                        assert(out@ =~= seq!['['] + joined(texts, i + 1));
                    }
                    i = i + 1;
                }
                out.push(']');
                proof {
                    lemma_array_view(*items, *source);
                    lemma_canonical_array(views(items@), source@);
                }
            },
            Json::Object(members, source) => {
                let ghost texts = member_texts(member_views(members@));
                out.push('{');
                let mut i: usize = 0;
                proof {
                    assert(out@ =~= seq!['{'] + joined(texts, 0));
                }
                while i < members.len()
                    invariant
                        i <= members.len(),
                        *self == Json::Object(*members, *source),
                        texts == member_texts(member_views(members@)),
                        out@ == seq!['{'] + joined(texts, i as int),
                    decreases members.len() - i,
                {
                    if i > 0 {
                        out.push(',');
                    }
                    let ghost before = out@;
                    push_quoted(&mut out, members[i].0.as_str());
                    out.push(':');
                    proof {
                        axiom_vec_index_decreases(*members, i as int);
                        assert(self->Object_0 == *members);
                        assert(decreases_to!(*self => self->Object_0));
                        assert(decreases_to!(members[i as int] => members[i as int].1));
                    }
                    let part = members[i].1.render();
                    out.append(part.as_str());
                    proof {
                        assert(texts[i as int] == quoted(members[i as int].0@) + seq![':'] + part@);
                        assert(out@ =~= before + texts[i as int]);
                        assert(out@ =~= seq!['{'] + joined(texts, i + 1));
                    }
                    i = i + 1;
                }
                out.push('}');
                proof {
                    lemma_object_view(*members, *source);
                    lemma_canonical_object(member_views(members@), source@);
                }
            },
        }
        out
    }
}

} // verus!
