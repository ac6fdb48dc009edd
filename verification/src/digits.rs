//! Writing a number in base ten and reading it are inverse.
use vstd::prelude::*;
use crate::error::Error;
use crate::grammar::{
    decimal, digit_value, digits_end, exponent_digits, fraction_end, has, has_exponent,
    integer_start, is_digit, number_at, number_end, number_value,
};
use crate::json::JsonView;
use crate::number::NumberView;
use crate::render::{decimal_text, digit_char, integer_text};

verus! {

/// Whether `piece` stands in `t` from `at` on.
pub open spec fn holds(t: Seq<char>, at: int, piece: Seq<char>) -> bool {
    &&& 0 <= at
    &&& at + piece.len() <= t.len()
    &&& t.subrange(at, at + piece.len()) == piece
}

/// Whether a number that ends before `at` cannot go on there: the text
/// ends, or the character is no digit, point or exponent mark.
pub open spec fn delimited(t: Seq<char>, at: int) -> bool {
    at >= t.len() || !(is_digit(t[at]) || t[at] == '.' || t[at] == 'e' || t[at] == 'E')
}

/// Where three pieces stand one behind the other, each of them stands in
/// its place.
pub proof fn lemma_holds_parts(t: Seq<char>, at: int, a: Seq<char>, b: Seq<char>, c: Seq<char>)
    requires
        holds(t, at, a + b + c),
    ensures
        holds(t, at, a),
        holds(t, at + a.len(), b),
        holds(t, at + a.len() + b.len(), c),
{
    let whole = a + b + c;
    assert forall|i: int| 0 <= i < whole.len() implies t[at + i] == whole[i] by {
        assert(t[at + i] == t.subrange(at, at + whole.len())[i]);
    }
    assert(t.subrange(at, at + a.len()) =~= a);
    assert forall|i: int| 0 <= i < b.len() implies t[at + a.len() + i] == b[i] by {
        assert(whole[a.len() + i] == b[i]);
    }
    assert(t.subrange(at + a.len(), at + a.len() + b.len()) =~= b);
    assert forall|i: int| 0 <= i < c.len() implies t[at + a.len() + b.len() + i] == c[i] by {
        assert(whole[a.len() + b.len() + i] == c[i]);
    }
    assert(t.subrange(at + a.len() + b.len(), at + a.len() + b.len() + c.len()) =~= c);
}

/// What is written for a number is digits only, at least one, and starts
/// with a zero only where the number is zero.
pub proof fn lemma_decimal_text_digits(n: nat)
    ensures
        decimal_text(n).len() >= 1,
        forall|i: int| 0 <= i < decimal_text(n).len() ==> is_digit(#[trigger] decimal_text(n)[i]),
        decimal_text(n)[0] == '0' ==> n == 0,
        n == 0 ==> decimal_text(n).len() == 1,
    decreases n,
{
    if n >= 10 {
        lemma_decimal_text_digits(n / 10);
    }
}

/// A run of digits that is followed by none ends where it ends.
pub proof fn lemma_digits_end_at(t: Seq<char>, from: int, to: int)
    requires
        0 <= from <= to <= t.len(),
        forall|i: int| from <= i < to ==> is_digit(#[trigger] t[i]),
        to >= t.len() || !is_digit(t[to]),
    ensures
        digits_end(t, from) == to,
    decreases to - from,
{
    if from < to {
        lemma_digits_end_at(t, from + 1, to);
    }
}

/// The digits written for `n` spell `n`.
pub proof fn lemma_decimal_of_text(t: Seq<char>, at: int, n: nat)
    requires
        holds(t, at, decimal_text(n)),
    ensures
        decimal(t, at, at + decimal_text(n).len()) == n,
    decreases n,
{
    let text = decimal_text(n);
    let to = at + text.len();
    assert(t[to - 1] == t.subrange(at, to)[text.len() - 1]);
    if n >= 10 {
        let shorter = decimal_text(n / 10);
        assert(text == shorter.push(digit_char((n % 10) as int)));
        assert(t.subrange(at, at + shorter.len()) =~= shorter);
        lemma_decimal_of_text(t, at, n / 10);
        assert(digit_value(t[to - 1]) == n % 10);
    } else {
        assert(decimal(t, at, to - 1) == 0);
        assert(digit_value(t[to - 1]) == n);
    }
}

/// Where the digits of `n` stand and no number can go on behind them, they
/// are a run of digits that spells `n` and starts with no needless zero.
pub proof fn lemma_digits_read_back(t: Seq<char>, at: int, n: nat)
    requires
        holds(t, at, decimal_text(n)),
        delimited(t, at + decimal_text(n).len()),
    ensures
        digits_end(t, at) == at + decimal_text(n).len(),
        decimal(t, at, at + decimal_text(n).len()) == n,
        is_digit(t[at]),
        t[at] == '0' ==> decimal_text(n).len() == 1,
{
    let text = decimal_text(n);
    let to = at + text.len();
    lemma_decimal_text_digits(n);
    assert forall|i: int| at <= i < to implies is_digit(#[trigger] t[i]) by {
        assert(t[i] == t.subrange(at, to)[i - at]);
    }
    assert(t[at] == t.subrange(at, to)[0]);
    lemma_digits_end_at(t, at, to);
    lemma_decimal_of_text(t, at, n);
}

/// An unsigned number written in base ten reads back as itself.
pub proof fn lemma_unsigned_reads_back(t: Seq<char>, at: int, n: u64)
    requires
        holds(t, at, decimal_text(n as nat)),
        delimited(t, at + decimal_text(n as nat).len()),
    ensures
        number_at(t, at) == Ok::<(JsonView, int), Error>(
            (
                JsonView::Number(NumberView::Unsigned(n), decimal_text(n as nat)),
                at + decimal_text(n as nat).len(),
            ),
        ),
        is_digit(t[at]),
{
    lemma_digits_read_back(t, at, n as nat);
}

/// A signed number written in base ten reads back with the same value:
/// as an integer where it has a minus sign, as an unsigned number where it
/// has none.
pub proof fn lemma_integer_reads_back(t: Seq<char>, at: int, i: i64)
    requires
        holds(t, at, integer_text(i as int)),
        delimited(t, at + integer_text(i as int).len()),
    ensures
        number_at(t, at) == Ok::<(JsonView, int), Error>(
            (
                JsonView::Number(
                    if i < 0 {
                        NumberView::Integer(i)
                    } else {
                        NumberView::Unsigned(i as u64)
                    },
                    integer_text(i as int),
                ),
                at + integer_text(i as int).len(),
            ),
        ),
        t[at] == '-' || is_digit(t[at]),
{
    let text = integer_text(i as int);
    if i < 0 {
        let digits = decimal_text((0 - i) as nat);
        assert(text == seq!['-'] + digits);
        assert(t[at] == t.subrange(at, at + text.len())[0]);
        assert(text.len() == digits.len() + 1);
        assert forall|j: int| 0 <= j < digits.len() implies t[at + 1 + j] == digits[j] by {
            assert(t[at + 1 + j] == t.subrange(at, at + text.len())[1 + j]);
            assert(text[1 + j] == digits[j]);
        }
        assert(t.subrange(at + 1, at + 1 + digits.len()) =~= digits);
        lemma_digits_read_back(t, at + 1, (0 - i) as nat);
    } else {
        lemma_digits_read_back(t, at, i as nat);
    }
}

/// A run of digits ends at the same place in every text that holds the
/// same characters up to `end` and no digit there.
pub proof fn lemma_digits_move(s: Seq<char>, from: int, end: int, t: Seq<char>, shift: int)
    requires
        0 <= from <= end <= s.len(),
        0 <= from + shift,
        end + shift <= t.len(),
        forall|i: int| from <= i < end ==> #[trigger] t[i + shift] == s[i],
        end + shift >= t.len() || !is_digit(t[end + shift]),
        digits_end(s, from) <= end,
    ensures
        digits_end(t, from + shift) == digits_end(s, from) + shift,
    decreases end - from,
{
    if from < end {
        assert(t[from + shift] == s[from]);
        if is_digit(s[from]) {
            lemma_digits_move(s, from + 1, end, t, shift);
        }
    } else {
        if end < s.len() && is_digit(s[end]) {
            lemma_digits_bounds(s, end + 1);
        }
    }
}

/// A run of digits ends at or behind where it starts, inside the text.
pub proof fn lemma_digits_bounds(s: Seq<char>, at: int)
    requires
        0 <= at <= s.len(),
    ensures
        at <= digits_end(s, at) <= s.len(),
    decreases s.len() - at,
{
    if at < s.len() {
        lemma_digits_bounds(s, at + 1);
    }
}

/// The same digits spell the same number in every text.
pub proof fn lemma_decimal_move(s: Seq<char>, from: int, to: int, t: Seq<char>, shift: int)
    requires
        0 <= from,
        to <= s.len(),
        0 <= from + shift,
        to + shift <= t.len(),
        forall|i: int| from <= i < to ==> #[trigger] t[i + shift] == s[i],
    ensures
        decimal(t, from + shift, to + shift) == decimal(s, from, to),
    decreases to - from,
{
    if from < to {
        lemma_decimal_move(s, from, to - 1, t, shift);
        assert(t[to - 1 + shift] == s[to - 1]);
    }
}

/// A number literal is read alike wherever it stands with no number going
/// on behind it: it ends where it ends, and has the same kind and value.
pub proof fn lemma_number_moves(s: Seq<char>, at: int, t: Seq<char>, to: int)
    requires
        0 <= at < s.len(),
        number_end(s, at) is Ok,
        holds(t, to, s.subrange(at, number_end(s, at)->Ok_0)),
        delimited(t, to + (number_end(s, at)->Ok_0 - at)),
        at <= number_end(s, at)->Ok_0 <= s.len(),
    ensures
        number_end(t, to) == Ok::<int, Error>(to + (number_end(s, at)->Ok_0 - at)),
        number_value(t, to, to + (number_end(s, at)->Ok_0 - at)) == number_value(
            s,
            at,
            number_end(s, at)->Ok_0,
        ),
{
    let end = number_end(s, at)->Ok_0;
    let shift = to - at;
    let piece = s.subrange(at, end);
    assert forall|i: int| at <= i < end implies #[trigger] t[i + shift] == s[i] by {
        assert(t[i + shift] == t.subrange(to, to + piece.len())[i - at]);
        assert(piece[i - at] == s[i]);
    }
    assert(t.subrange(to, to + (end - at)) == s.subrange(at, end));
    let a = integer_start(s, at);
    lemma_digits_bounds(s, a);
    let b = digits_end(s, a);
    if b < s.len() {
        lemma_digits_bounds(s, b + 1);
    }
    let c = fraction_end(s, b);
    let d = exponent_digits(s, c);
    if d <= s.len() {
        lemma_digits_bounds(s, d);
    }
    assert(at < end);
    assert(t[at + shift] == s[at]);
    assert(a + shift == integer_start(t, to));
    lemma_digits_move(s, a, end, t, shift);
    lemma_decimal_move(s, a, b, t, shift);
    if has(s, b, '.') && b < end {
        lemma_digits_move(s, b + 1, end, t, shift);
    }
    assert(c + shift == fraction_end(t, b + shift));
    if has_exponent(s, c) && c < end {
        assert(end == digits_end(s, d));
        assert(c + 1 < end);
        assert(t[c + shift] == s[c]);
        assert(t[c + 1 + shift] == s[c + 1]);
        assert(d + shift == exponent_digits(t, c + shift));
        lemma_digits_move(s, d, end, t, shift);
    }
}

} // verus!
