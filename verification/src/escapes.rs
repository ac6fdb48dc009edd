//! Escaping and decoding are inverse: a string written in canonical form
//! reads back as the text it was written from.
use vstd::prelude::*;
use crate::digits::holds;
use crate::error::Error;
use crate::grammar::{hex4, hex_value, simple_escape, string_at, string_body, unicode_escape};
use crate::render::{digit_char, escaped, escaped_char, quoted};

verus! {

/// Escaping a text one character longer appends that character's escape.
pub proof fn lemma_escaped_step(text: Seq<char>, k: int)
    requires
        0 <= k < text.len(),
    ensures
        escaped(text.take(k + 1)) == escaped(text.take(k)) + escaped_char(text[k]),
{
    assert(text.take(k + 1).drop_last() =~= text.take(k));
}

/// What a shorter part of a text is escaped to is the start of what a
/// longer part is escaped to.
pub proof fn lemma_escaped_prefix(text: Seq<char>, k: int, m: int)
    requires
        0 <= k <= m <= text.len(),
    ensures
        escaped(text.take(k)).len() <= escaped(text.take(m)).len(),
        escaped(text.take(m)).subrange(0, escaped(text.take(k)).len() as int) == escaped(
            text.take(k),
        ),
    decreases m - k,
{
    if k < m {
        lemma_escaped_prefix(text, k, m - 1);
        lemma_escaped_step(text, m - 1);
        assert(escaped(text.take(m)).subrange(0, escaped(text.take(k)).len() as int) =~= escaped(
            text.take(k),
        ));
    } else {
        assert(escaped(text.take(m)).subrange(0, escaped(text.take(k)).len() as int) =~= escaped(
            text.take(k),
        ));
    }
}

/// The hex digit written for `d` has the value `d`.
pub proof fn lemma_digit_char_value(d: int)
    requires
        0 <= d < 16,
    ensures
        hex_value(digit_char(d)) == Some(d as u32),
{
}

/// Where the escape of `c` stands at `at`, reading it decodes `c` and goes
/// on behind the escape.
pub proof fn lemma_char_reads_back(q: Seq<char>, at: int, acc: Seq<char>, c: char)
    requires
        0 <= at,
        at + escaped_char(c).len() <= q.len(),
        forall|j: int| 0 <= j < escaped_char(c).len() ==> q[at + j] == escaped_char(c)[j],
    ensures
        string_body(q, at, acc) == string_body(q, at + escaped_char(c).len(), acc.push(c)),
{
    let e = escaped_char(c);
    assert(q[at] == e[0]);
    if c == '"' || c == '\\' || c == '\u{8}' || c == '\u{c}' || c == '\n' || c == '\r' || c
        == '\t' {
        assert(q[at + 1] == e[1]);
        assert(simple_escape(q[at + 1]) == Some(c));
    } else if (c as u32) < 32 {
        lemma_control_reads_back(q, at, c);
        assert(q[at + 1] == e[1]);
    } else {
    }
}

/// Where the six-character escape of a control character stands at `at`,
/// its hex digits decode to the character.
pub proof fn lemma_control_reads_back(q: Seq<char>, at: int, c: char)
    requires
        0 <= at,
        (c as u32) < 32,
        at + 6 <= q.len(),
        escaped_char(c).len() == 6,
        forall|j: int| 0 <= j < 6 ==> q[at + j] == escaped_char(c)[j],
    ensures
        unicode_escape(q, at + 2) == Ok::<(char, int), Error>((c, at + 6)),
{
    let e = escaped_char(c);
    assert(q[at + 2] == e[2]);
    assert(q[at + 3] == e[3]);
    assert(q[at + 4] == e[4]);
    assert(q[at + 5] == e[5]);
    lemma_digit_char_value((c as u32 / 16) as int);
    lemma_digit_char_value((c as u32 % 16) as int);
    assert(hex_value('0') == Some(0u32));
    assert(hex4(q, at + 2) == Some(c as u32));
    assert((c as u32) as char == c);
}

/// Reading on inside a written string that stands at `base`, with the
/// first `k` characters of `text` decoded, ends at the closing quote with
/// all of `text` decoded.
pub proof fn lemma_body_reads_back(t: Seq<char>, base: int, text: Seq<char>, k: int)
    requires
        0 <= k <= text.len(),
        holds(t, base, quoted(text)),
    ensures
        string_body(t, base + 1 + escaped(text.take(k)).len() as int, text.take(k)) == Ok::<
            (Seq<char>, int),
            Error,
        >((text, base + quoted(text).len() as int)),
    decreases text.len() - k,
{
    let q = quoted(text);
    let at: int = base + 1 + escaped(text.take(k)).len() as int;
    assert(text.take(text.len() as int) =~= text);
    assert(q.len() == escaped(text).len() + 2);
    assert forall|i: int| 0 <= i < q.len() implies t[base + i] == q[i] by {
        assert(t[base + i] == t.subrange(base, base + q.len())[i]);
    }
    assert forall|i: int| 0 <= i < escaped(text).len() implies q[1 + i] == escaped(text)[i] by {}
    if k == text.len() {
        assert(t[at] == q[at - base]);
        assert(text.take(k) =~= text);
    } else {
        let c = text[k];
        let e = escaped_char(c);
        lemma_escaped_step(text, k);
        lemma_escaped_prefix(text, k + 1, text.len() as int);
        lemma_body_reads_back(t, base, text, k + 1);
        assert(text.take(k).push(c) =~= text.take(k + 1));
        assert forall|j: int| 0 <= j < e.len() implies t[at + j] == e[j] by {
            let longer = escaped(text.take(k + 1));
            assert(longer[escaped(text.take(k)).len() + j] == e[j]);
            assert(escaped(text).subrange(0, longer.len() as int)[escaped(text.take(k)).len() + j]
                == escaped(text)[escaped(text.take(k)).len() + j]);
            assert(t[at + j] == q[at - base + j]);
        }
        assert(at + e.len() == base + 1 + escaped(text.take(k + 1)).len());
        lemma_char_reads_back(t, at, text.take(k), c);
    }
}

/// Escape correctness: wherever a text stands written between quotes with
/// its escapes, it reads back, from the opening quote to the closing one,
/// as the text itself.
pub proof fn lemma_quoted_reads_back(t: Seq<char>, at: int, text: Seq<char>)
    requires
        holds(t, at, quoted(text)),
    ensures
        string_at(t, at) == Ok::<(Seq<char>, int), Error>((text, at + quoted(text).len() as int)),
{
    lemma_body_reads_back(t, at, text, 0);
    assert(text.take(0) =~= Seq::<char>::empty());
    assert(t[at] == t.subrange(at, at + quoted(text).len())[0]);
}

} // verus!
