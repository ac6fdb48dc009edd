//! What holds of every text: the source of a value is the text it was read
//! from, a key holds the value that was written to it last, and the
//! canonical form of what was read reads back to the same canonical form.
use vstd::prelude::*;
use crate::digits::{delimited, holds, lemma_digits_bounds, lemma_number_moves};
use crate::error::Error;
use crate::grammar::{
    array_from, digits_end, distinct_keys, document, exponent_digits, fraction_end, has_key,
    integer_start, is_digit, is_first_index, is_space, keyword_at, node_at, number_at, number_end,
    number_value, object_from, simple_escape, string_at, string_body, unicode_escape, upsert,
    value_of, word_false, word_mismatch, word_null, word_true, ArrayStage, Member, ObjectStage,
};
use crate::json::JsonView;
use crate::number::NumberView;
use crate::readback::{float_literal, lemma_canonical_reads_back, normal};
use crate::render::canonical;

verus! {

/// A text that is one value from its first character to its last, with
/// arrays and objects nested at most `depth` deep.
pub open spec fn is_document(s: Seq<char>, depth: nat) -> bool {
    node_at(s, 0, depth) matches Ok((_, end)) && end == s.len()
}

/// Whether `spans` are parts of `from..to`, none of them empty.
pub open spec fn laid_out(spans: Seq<(int, int)>, from: int, to: int) -> bool {
    forall|i: int| 0 <= i < spans.len() ==> from <= (#[trigger] spans[i]).0 < spans[i].1 <= to
}

/// Whether each of `spans` ends before the next one starts.
pub open spec fn in_order(spans: Seq<(int, int)>) -> bool {
    forall|i: int, j: int|
        0 <= i < j < spans.len() ==> (#[trigger] spans[i]).1 <= (#[trigger] spans[j]).0
}

/// Whether no two of `spans` overlap.
pub open spec fn apart(spans: Seq<(int, int)>) -> bool {
    forall|i: int, j: int|
        0 <= i < spans.len() && 0 <= j < spans.len() && i != j ==> (#[trigger] spans[i]).1 <= (
        #[trigger] spans[j]).0 || spans[j].1 <= spans[i].0
}

/// Whether `value` was read from `from..to` of `s`: its source is that part
/// of the text, and the values it holds were in turn read from parts of
/// `from..to`. The items of an array lie one behind the other in the order
/// of the array; the values of an object's members do not overlap.
pub open spec fn located(value: JsonView, s: Seq<char>, from: int, to: int) -> bool
    decreases value, 1int,
{
    &&& 0 <= from <= to <= s.len()
    &&& value.source() == s.subrange(from, to)
    &&& match value {
        JsonView::Array(items, _) => exists|spans: Seq<(int, int)>|
            #![trigger laid_out(spans, from, to)]
            laid_out(spans, from, to) && spans.len() == items.len() && in_order(spans) && placed(
                value,
                s,
                spans,
            ),
        JsonView::Object(members, _) => exists|spans: Seq<(int, int)>|
            #![trigger laid_out(spans, from, to)]
            laid_out(spans, from, to) && spans.len() == members.len() && apart(spans) && placed(
                value,
                s,
                spans,
            ),
        _ => true,
    }
}

/// Whether each value that `value` holds was read from the one of `spans`
/// that has its place.
pub open spec fn placed(value: JsonView, s: Seq<char>, spans: Seq<(int, int)>) -> bool
    decreases value, 0int,
{
    match value {
        JsonView::Array(items, _) => forall|i: int|
            0 <= i < items.len() ==> located(#[trigger] items[i], s, spans[i].0, spans[i].1),
        JsonView::Object(members, _) => forall|i: int|
            0 <= i < members.len() ==> located((#[trigger] members[i]).1, s, spans[i].0, spans[i].1),
        _ => true,
    }
}

/// An array whose items were read one behind the other from parts of
/// `from..to` was itself read from `from..to`.
pub proof fn lemma_array_located(
    items: Seq<JsonView>,
    spans: Seq<(int, int)>,
    s: Seq<char>,
    from: int,
    to: int,
)
    requires
        0 <= from <= to <= s.len(),
        laid_out(spans, from, to),
        spans.len() == items.len(),
        in_order(spans),
        forall|i: int|
            0 <= i < items.len() ==> located(#[trigger] items[i], s, spans[i].0, spans[i].1),
    ensures
        located(JsonView::Array(items, s.subrange(from, to)), s, from, to),
{
    let value = JsonView::Array(items, s.subrange(from, to));
    assert(placed(value, s, spans));
    assert(laid_out(spans, from, to));
}

/// An object whose values were read from parts of `from..to` that do not
/// overlap was itself read from `from..to`.
pub proof fn lemma_object_located(
    members: Seq<Member>,
    spans: Seq<(int, int)>,
    s: Seq<char>,
    from: int,
    to: int,
)
    requires
        0 <= from <= to <= s.len(),
        laid_out(spans, from, to),
        spans.len() == members.len(),
        apart(spans),
        forall|i: int|
            0 <= i < members.len() ==> located((#[trigger] members[i]).1, s, spans[i].0, spans[i].1),
    ensures
        located(JsonView::Object(members, s.subrange(from, to)), s, from, to),
{
    assert(placed(JsonView::Object(members, s.subrange(from, to)), s, spans));
    assert(laid_out(spans, from, to));
}

/// The spans of an object's values after a value read from `span` was put
/// under `key`: in the place of the value that the key had, or at the end.
pub open spec fn upsert_span(
    members: Seq<Member>,
    key: Seq<char>,
    spans: Seq<(int, int)>,
    span: (int, int),
) -> Seq<(int, int)> {
    if has_key(members, key) {
        spans.update(choose|i: int| is_first_index(members, key, i), span)
    } else {
        spans.push(span)
    }
}

/// A keyword that is matched from `k` on lies in the text, letter for letter.
pub proof fn lemma_keyword_span(s: Seq<char>, at: int, word: Seq<char>, k: int)
    requires
        0 <= at,
        0 <= k <= word.len(),
        word_mismatch(s, at, word, k) is None,
    ensures
        k < word.len() ==> at + word.len() <= s.len(),
        forall|j: int| k <= j < word.len() ==> s[at + j] == word[j],
    decreases word.len() - k,
{
    if k < word.len() {
        lemma_keyword_span(s, at, word, k + 1);
    }
}

/// A number takes up at least one character and ends inside the text.
pub proof fn lemma_number_span(s: Seq<char>, at: int)
    requires
        0 <= at < s.len(),
    ensures
        number_end(s, at) matches Ok(end) ==> at < end <= s.len(),
{
    let a = integer_start(s, at);
    lemma_digits_bounds(s, a);
    let b = digits_end(s, a);
    if b < s.len() {
        lemma_digits_bounds(s, b + 1);
    }
    let c = fraction_end(s, b);
    let d = exponent_digits(s, c);
    if d <= s.len() {
        lemma_digits_bounds(s, d);
    }
}

/// A string's closing quote lies inside the text, behind where reading
/// went on.
pub proof fn lemma_string_span(s: Seq<char>, at: int, acc: Seq<char>)
    requires
        0 <= at,
    ensures
        string_body(s, at, acc) matches Ok((_, end)) ==> at < end <= s.len(),
    decreases s.len() - at,
{
    if at < s.len() && s[at] != '"' {
        if s[at] != '\\' {
            lemma_string_span(s, at + 1, acc.push(s[at]));
        } else if at + 1 < s.len() {
            if s[at + 1] == 'u' {
                match unicode_escape(s, at + 2) {
                    Ok((c, next)) => {
                        lemma_string_span(s, next, acc.push(c));
                    },
                    Err(_) => {},
                }
            } else {
                match simple_escape(s[at + 1]) {
                    Some(c) => {
                        lemma_string_span(s, at + 2, acc.push(c));
                    },
                    None => {},
                }
            }
        }
    }
}

/// Among members with distinct keys, every place that holds a key is the
/// first to hold it.
pub proof fn lemma_first_index(members: Seq<Member>, key: Seq<char>, i: int)
    requires
        distinct_keys(members),
        0 <= i < members.len(),
        members[i].0 == key,
    ensures
        is_first_index(members, key, i),
        (choose|k: int| is_first_index(members, key, k)) == i,
        value_of(members, key) == Some(members[i].1),
{
    assert(is_first_index(members, key, i));
    let k = choose|k: int| is_first_index(members, key, k);
    assert(is_first_index(members, key, k));
}

/// Where some member has the key, one is the first to have it.
pub proof fn lemma_least_index(members: Seq<Member>, key: Seq<char>, i: int)
    requires
        0 <= i < members.len(),
        members[i].0 == key,
    ensures
        exists|k: int| is_first_index(members, key, k),
    decreases i,
{
    if exists|j: int| 0 <= j < i && (#[trigger] members[j]).0 == key {
        let j = choose|j: int| 0 <= j < i && (#[trigger] members[j]).0 == key;
        lemma_least_index(members, key, j);
    } else {
        assert(is_first_index(members, key, i));
    }
}

/// Every member after `value` was put under `key` is the new one or one
/// that was there before, in its place.
pub proof fn lemma_upsert_members(members: Seq<Member>, key: Seq<char>, value: JsonView)
    ensures
        forall|i: int|
            0 <= i < upsert(members, key, value).len() ==> #[trigger] upsert(members, key, value)[i]
                == (key, value) || (i < members.len() && upsert(members, key, value)[i]
                == members[i]),
{
    if has_key(members, key) {
        let w = choose|i: int| 0 <= i < members.len() && (#[trigger] members[i]).0 == key;
        lemma_least_index(members, key, w);
        let k = choose|k: int| is_first_index(members, key, k);
        assert(is_first_index(members, key, k));
    }
}

/// Last write wins: after `value` was put under `key`, the key holds
/// `value`, every other key holds what it held, the keys are still distinct,
/// and a member was added only where the key was new.
pub proof fn lemma_upsert(members: Seq<Member>, key: Seq<char>, value: JsonView)
    requires
        distinct_keys(members),
    ensures
        distinct_keys(upsert(members, key, value)),
        value_of(upsert(members, key, value), key) == Some(value),
        forall|other: Seq<char>|
            other != key ==> #[trigger] value_of(upsert(members, key, value), other) == value_of(
                members,
                other,
            ),
        upsert(members, key, value).len() == (if has_key(members, key) {
            members.len()
        } else {
            members.len() + 1
        }),
{
    let after = upsert(members, key, value);
    if has_key(members, key) {
        let w = choose|i: int| 0 <= i < members.len() && (#[trigger] members[i]).0 == key;
        lemma_first_index(members, key, w);
        assert(after == members.update(w, (key, value)));
        assert(distinct_keys(after));
        lemma_first_index(after, key, w);
    } else {
        assert(after == members.push((key, value)));
        assert(distinct_keys(after));
        lemma_first_index(after, key, members.len() as int);
    }
    assert forall|other: Seq<char>| other != key implies #[trigger] value_of(after, other)
        == value_of(members, other) by {
        if has_key(members, other) {
            let j = choose|i: int| 0 <= i < members.len() && (#[trigger] members[i]).0 == other;
            lemma_first_index(members, other, j);
            assert(after[j] == members[j]);
            lemma_first_index(after, other, j);
        } else if has_key(after, other) {
            let j = choose|i: int| 0 <= i < after.len() && (#[trigger] after[i]).0 == other;
            assert(j < members.len() && members[j] == after[j]);
        }
    }
}

/// Putting a value read from `at..next` under a key, among members whose
/// values were read from parts of `from..at` that do not overlap, leaves
/// members whose values were read from parts of `from..next` that do not
/// overlap.
pub proof fn lemma_upsert_span(
    members: Seq<Member>,
    key: Seq<char>,
    value: JsonView,
    spans: Seq<(int, int)>,
    s: Seq<char>,
    from: int,
    at: int,
    next: int,
)
    requires
        from <= at < next,
        located(value, s, at, next),
        laid_out(spans, from, at),
        spans.len() == members.len(),
        apart(spans),
        forall|i: int|
            0 <= i < members.len() ==> located((#[trigger] members[i]).1, s, spans[i].0, spans[i].1),
    ensures
        laid_out(upsert_span(members, key, spans, (at, next)), from, next),
        upsert_span(members, key, spans, (at, next)).len() == upsert(members, key, value).len(),
        apart(upsert_span(members, key, spans, (at, next))),
        forall|i: int|
            0 <= i < upsert(members, key, value).len() ==> located(
                (#[trigger] upsert(members, key, value)[i]).1,
                s,
                upsert_span(members, key, spans, (at, next))[i].0,
                upsert_span(members, key, spans, (at, next))[i].1,
            ),
{
    let after = upsert(members, key, value);
    let moved = upsert_span(members, key, spans, (at, next));
    if has_key(members, key) {
        let w = choose|i: int| 0 <= i < members.len() && (#[trigger] members[i]).0 == key;
        lemma_least_index(members, key, w);
        let k = choose|k: int| is_first_index(members, key, k);
        assert(is_first_index(members, key, k));
        assert(after == members.update(k, (key, value)));
        assert(moved == spans.update(k, (at, next)));
    } else {
        assert(after == members.push((key, value)));
        assert(moved == spans.push((at, next)));
    }
    assert forall|i: int| 0 <= i < moved.len() implies from <= (#[trigger] moved[i]).0 < moved[i].1
        <= next by {
        if i < spans.len() {
            assert(from <= spans[i].0 < spans[i].1 <= at);
        }
    }
    assert forall|i: int, j: int| 0 <= i < moved.len() && 0 <= j < moved.len() && i != j implies (
    #[trigger] moved[i]).1 <= (#[trigger] moved[j]).0 || moved[j].1 <= moved[i].0 by {
        if i < spans.len() {
            assert(from <= spans[i].0 < spans[i].1 <= at);
        }
        if j < spans.len() {
            assert(from <= spans[j].0 < spans[j].1 <= at);
        }
    }
    assert forall|i: int| 0 <= i < after.len() implies located(
        (#[trigger] after[i]).1,
        s,
        moved[i].0,
        moved[i].1,
    ) by {
        if i < members.len() && after[i] == members[i] {
            assert(located(members[i].1, s, spans[i].0, spans[i].1));
        }
    }
}

/// A number that is read as a float is a float literal: it is read alike
/// wherever it stands with no number going on behind it.
pub proof fn lemma_float_literal(s: Seq<char>, at: int)
    requires
        0 <= at < s.len(),
    ensures
        number_at(s, at) matches Ok((JsonView::Number(NumberView::Float(text), _), _))
            ==> float_literal(text),
{
    if number_end(s, at) is Ok {
        let end = number_end(s, at)->Ok_0;
        lemma_number_span(s, at);
        if number_value(s, at, end) is Float {
            let text = s.subrange(at, end);
            assert(number_value(s, at, end) == NumberView::Float(text));
            assert(text[0] == s[at]);
            assert forall|t: Seq<char>, to: int|
                holds(t, to, text) && delimited(t, to + text.len()) implies #[trigger] number_at(
                t,
                to,
            ) == Ok::<(JsonView, int), Error>(
                (JsonView::Number(NumberView::Float(text), text), to + text.len()),
            ) by {
                lemma_number_moves(s, at, t, to);
            }
        }
    }
}

/// The value read at `at` takes up at least one character, ends inside the
/// text, and has as its source exactly the characters it was read from; so
/// has every value nested in it, the items of an array one behind the other
/// and the values of an object without overlap.
pub proof fn lemma_node_span(s: Seq<char>, at: int, depth: nat)
    requires
        0 <= at,
    ensures
        node_at(s, at, depth) matches Ok((value, end)) ==> at < end <= s.len() && value.source()
            == s.subrange(at, end) && located(value, s, at, end) && value.wf() && normal(
            value,
            depth,
        ),
    decreases s.len() - at, 1int,
{
    if at < s.len() {
        let c = s[at];
        if c == '{' {
            lemma_object_span(
                s,
                at,
                ObjectStage::Start,
                Seq::empty(),
                Seq::empty(),
                at,
                depth,
                Seq::empty(),
            );
        } else if c == '[' {
            lemma_array_span(s, at, ArrayStage::Start, Seq::empty(), at, depth, Seq::empty());
        } else if c == '"' {
            lemma_string_span(s, at + 1, Seq::empty());
        } else if c == '-' || is_digit(c) {
            lemma_number_span(s, at);
            lemma_float_literal(s, at);
        } else if c == 't' || c == 'f' || c == 'n' {
            let word = if c == 't' {
                word_true()
            } else if c == 'f' {
                word_false()
            } else {
                word_null()
            };
            if keyword_at(s, at, word) is Ok {
                lemma_keyword_span(s, at, word, 0);
                assert(s.subrange(at, at + word.len()) =~= word);
            }
        }
    }
}

/// An array read on from `at`, with `items` read from `spans`, ends behind
/// `at`, inside the text, and has as its source the text from `start` to
/// its end; its items were read one behind the other.
pub proof fn lemma_array_span(
    s: Seq<char>,
    at: int,
    stage: ArrayStage,
    items: Seq<JsonView>,
    start: int,
    depth: nat,
    spans: Seq<(int, int)>,
)
    requires
        0 <= start <= at,
        laid_out(spans, start, at),
        spans.len() == items.len(),
        in_order(spans),
        forall|i: int|
            0 <= i < items.len() ==> located(#[trigger] items[i], s, spans[i].0, spans[i].1),
        forall|i: int| 0 <= i < items.len() ==> (#[trigger] items[i]).wf(),
        forall|i: int| 0 <= i < items.len() ==> normal(#[trigger] items[i], depth),
        stage is Start ==> items.len() == 0,
    ensures
        array_from(s, at, stage, items, start, depth) matches Ok((value, end)) ==> at < end <= s.len()
            && value.source() == s.subrange(start, end) && located(value, s, start, end)
            && value.wf() && normal(
            value,
            if stage is Start {
                depth
            } else {
                depth + 1
            },
        ),
    decreases s.len() - at, stage.rank(),
{
    if at < s.len() {
        assert(laid_out(spans, start, at + 1));
        if is_space(s[at]) {
            lemma_array_span(s, at + 1, stage, items, start, depth, spans);
        } else {
            match stage {
                ArrayStage::Start => if s[at] == '[' && depth > 0 {
                    lemma_array_span(
                        s,
                        at + 1,
                        ArrayStage::FirstValue,
                        items,
                        start,
                        (depth - 1) as nat,
                        spans,
                    );
                },
                ArrayStage::FirstValue => if s[at] == ']' {
                    lemma_array_span(s, at, ArrayStage::End, items, start, depth, spans);
                } else {
                    lemma_array_span(s, at, ArrayStage::Value, items, start, depth, spans);
                },
                ArrayStage::Value => match node_at(s, at, depth) {
                    Ok((item, next)) => if at < next <= s.len() {
                        lemma_node_span(s, at, depth);
                        let longer = items.push(item);
                        let more = spans.push((at, next));
                        assert forall|i: int| 0 <= i < more.len() implies start <= (
                        #[trigger] more[i]).0 < more[i].1 <= next by {
                            if i < spans.len() {
                                assert(start <= spans[i].0 < spans[i].1 <= at);
                            }
                        }
                        assert forall|i: int, j: int| 0 <= i < j < more.len() implies (
                        #[trigger] more[i]).1 <= (#[trigger] more[j]).0 by {
                            assert(start <= spans[i].0 < spans[i].1 <= at);
                        }
                        assert forall|i: int| 0 <= i < longer.len() implies located(
                            #[trigger] longer[i],
                            s,
                            more[i].0,
                            more[i].1,
                        ) by {
                            if i < items.len() {
                                assert(located(items[i], s, spans[i].0, spans[i].1));
                            }
                        }
                        lemma_array_span(s, next, ArrayStage::Comma, longer, start, depth, more);
                    },
                    Err(_) => {},
                },
                ArrayStage::Comma => if s[at] == ',' {
                    lemma_array_span(s, at + 1, ArrayStage::Value, items, start, depth, spans);
                } else if s[at] == ']' {
                    lemma_array_span(s, at, ArrayStage::End, items, start, depth, spans);
                },
                ArrayStage::End => if s[at] == ']' {
                    lemma_array_located(items, spans, s, start, at + 1);
                },
            }
        }
    }
}

/// An object read on from `at`, with the values of `members` read from
/// `spans`, ends behind `at`, inside the text, and has as its source the
/// text from `start` to its end; its values were read from parts that do
/// not overlap.
pub proof fn lemma_object_span(
    s: Seq<char>,
    at: int,
    stage: ObjectStage,
    members: Seq<Member>,
    key: Seq<char>,
    start: int,
    depth: nat,
    spans: Seq<(int, int)>,
)
    requires
        0 <= start <= at,
        laid_out(spans, start, at),
        spans.len() == members.len(),
        apart(spans),
        forall|i: int|
            0 <= i < members.len() ==> located((#[trigger] members[i]).1, s, spans[i].0, spans[i].1),
        forall|i: int| 0 <= i < members.len() ==> (#[trigger] members[i]).1.wf(),
        forall|i: int| 0 <= i < members.len() ==> normal((#[trigger] members[i]).1, depth),
        stage is Start ==> members.len() == 0,
        distinct_keys(members),
    ensures
        object_from(s, at, stage, members, key, start, depth) matches Ok((value, end)) ==> at < end
            <= s.len() && value.source() == s.subrange(start, end) && located(
            value,
            s,
            start,
            end,
        ) && value.wf() && normal(
            value,
            if stage is Start {
                depth
            } else {
                depth + 1
            },
        ),
    decreases s.len() - at, stage.rank(),
{
    if at < s.len() {
        assert(laid_out(spans, start, at + 1));
        let space = is_space(s[at]);
        match stage {
            ObjectStage::Start => if s[at] == '{' && depth > 0 {
                lemma_object_span(
                    s,
                    at + 1,
                    ObjectStage::Index,
                    members,
                    key,
                    start,
                    (depth - 1) as nat,
                    spans,
                );
            },
            ObjectStage::Index => if space {
                lemma_object_span(s, at + 1, stage, members, key, start, depth, spans);
            } else if s[at] == '}' && members.len() == 0 {
                lemma_object_span(s, at, ObjectStage::End, members, key, start, depth, spans);
            } else if s[at] == '"' {
                match string_at(s, at) {
                    Ok((name, next)) => if at < next <= s.len() {
                        lemma_string_span(s, at + 1, Seq::empty());
                        assert(laid_out(spans, start, next));
                        lemma_object_span(
                            s,
                            next,
                            ObjectStage::Colon,
                            members,
                            name,
                            start,
                            depth,
                            spans,
                        );
                    },
                    Err(_) => {},
                }
            },
            ObjectStage::Colon => if space {
                lemma_object_span(s, at + 1, stage, members, key, start, depth, spans);
            } else if s[at] == ':' {
                lemma_object_span(s, at + 1, ObjectStage::Value, members, key, start, depth, spans);
            },
            ObjectStage::Value => if space {
                lemma_object_span(s, at + 1, stage, members, key, start, depth, spans);
            } else {
                match node_at(s, at, depth) {
                    Ok((value, next)) => if at < next <= s.len() {
                        lemma_node_span(s, at, depth);
                        lemma_upsert_span(members, key, value, spans, s, start, at, next);
                        lemma_upsert(members, key, value);
                        lemma_upsert_members(members, key, value);
                        lemma_object_span(
                            s,
                            next,
                            ObjectStage::Comma,
                            upsert(members, key, value),
                            key,
                            start,
                            depth,
                            upsert_span(members, key, spans, (at, next)),
                        );
                    },
                    Err(_) => {},
                }
            },
            ObjectStage::Comma => if space {
                lemma_object_span(s, at + 1, stage, members, key, start, depth, spans);
            } else if s[at] == ',' {
                lemma_object_span(s, at + 1, ObjectStage::Index, members, key, start, depth, spans);
            } else if s[at] == '}' {
                lemma_object_span(s, at, ObjectStage::End, members, key, start, depth, spans);
            },
            ObjectStage::End => if s[at] == '}' {
                lemma_object_located(members, spans, s, start, at + 1);
            },
        }
    }
}

/// Behind the opening brace of an object a space may stand before every
/// token: before a key, the colon, a value, a comma and the closing brace.
/// It is skipped, and what is read is the same.
pub proof fn lemma_object_skips_space(
    s: Seq<char>,
    at: int,
    stage: ObjectStage,
    members: Seq<Member>,
    key: Seq<char>,
    start: int,
    depth: nat,
)
    requires
        0 <= at < s.len(),
        is_space(s[at]),
        !(stage is Start),
        !(stage is End),
    ensures
        object_from(s, at, stage, members, key, start, depth) == object_from(
            s,
            at + 1,
            stage,
            members,
            key,
            start,
            depth,
        ),
{
}

/// In an array a space may stand before every token, the opening bracket
/// included. It is skipped, and what is read is the same.
pub proof fn lemma_array_skips_space(
    s: Seq<char>,
    at: int,
    stage: ArrayStage,
    items: Seq<JsonView>,
    start: int,
    depth: nat,
)
    requires
        0 <= at < s.len(),
        is_space(s[at]),
    ensures
        array_from(s, at, stage, items, start, depth) == array_from(
            s,
            at + 1,
            stage,
            items,
            start,
            depth,
        ),
{
}

/// Reading a document and writing its source gives the document back:
/// where `s` is one value from end to end, the value's source is `s`, and
/// every value nested in it, at any depth, has as its source the part of `s`
/// that it was read from.
pub proof fn lemma_round_trip(s: Seq<char>, depth: nat)
    requires
        is_document(s, depth),
    ensures
        document(s, depth) matches Ok(value) && value.source() == s && located(
            value,
            s,
            0,
            s.len() as int,
        ),
{
    lemma_node_span(s, 0, depth);
    assert(s.subrange(0, s.len() as int) =~= s);
}

/// Idempotence of the canonical form: the canonical form of a value that
/// was read is a text that reads as a value with the same canonical form,
/// so that writing, reading and writing again changes nothing.
pub proof fn lemma_canonical_idempotent(s: Seq<char>, depth: nat)
    requires
        document(s, depth) is Ok,
    ensures
        document(canonical(document(s, depth)->Ok_0), depth) matches Ok(again) && canonical(again)
            == canonical(document(s, depth)->Ok_0),
{
    let value = document(s, depth)->Ok_0;
    lemma_node_span(s, 0, depth);
    lemma_canonical_reads_back(value, depth);
}

} // verus!
