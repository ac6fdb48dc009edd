//! The canonical form reads back: what a value is written as is a text
//! that the grammar reads as a value with the same canonical form.
use vstd::prelude::*;
use crate::digits::{
    delimited, holds, lemma_decimal_text_digits, lemma_holds_parts, lemma_integer_reads_back,
    lemma_unsigned_reads_back,
};
use crate::error::Error;
use crate::escapes::lemma_quoted_reads_back;
use crate::grammar::{
    array_from, distinct_keys, has_key, is_digit, node_at, number_at, object_from, upsert,
    word_false, word_mismatch, word_null, word_true, ArrayStage, Member, ObjectStage,
};
use crate::json::JsonView;
use crate::number::NumberView;
use crate::render::{
    canonical, item_texts, joined, lemma_canonical_array, lemma_canonical_object, member_texts,
    quoted,
};

verus! {

/// Whether a value can start with `c`.
pub open spec fn starts_value(c: char) -> bool {
    c == 'n' || c == 't' || c == 'f' || c == '"' || c == '[' || c == '{' || c == '-' || is_digit(c)
}

/// A float literal: a text that starts as a number does and that, wherever
/// it stands with no number going on behind it, is read as the float that it
/// spells.
pub open spec fn float_literal(text: Seq<char>) -> bool {
    &&& text.len() > 0
    &&& text[0] == '-' || is_digit(text[0])
    &&& forall|t: Seq<char>, at: int|
        holds(t, at, text) && delimited(t, at + text.len()) ==> #[trigger] number_at(t, at) == Ok::<
            (JsonView, int),
            Error,
        >((JsonView::Number(NumberView::Float(text), text), at + text.len()))
}

/// A value as reading gives it: every float in it is a float literal, no
/// object holds a key twice, and arrays and objects are nested at most
/// `depth` deep.
pub open spec fn normal(value: JsonView, depth: nat) -> bool
    decreases value,
{
    match value {
        JsonView::Number(NumberView::Float(text), _) => float_literal(text),
        JsonView::Array(items, _) => depth > 0 && forall|i: int|
            0 <= i < items.len() ==> normal(#[trigger] items[i], (depth - 1) as nat),
        JsonView::Object(members, _) => depth > 0 && distinct_keys(members) && forall|i: int|
            0 <= i < members.len() ==> normal((#[trigger] members[i]).1, (depth - 1) as nat),
        _ => true,
    }
}

/// A keyword that stands in the text is matched.
pub proof fn lemma_keyword_reads_back(t: Seq<char>, at: int, word: Seq<char>, k: int)
    requires
        holds(t, at, word),
        0 <= k <= word.len(),
    ensures
        word_mismatch(t, at, word, k) is None,
    decreases word.len() - k,
{
    if k < word.len() {
        assert(t[at + k] == t.subrange(at, at + word.len())[k]);
        lemma_keyword_reads_back(t, at, word, k + 1);
    }
}

/// The canonical form of a normal value is not empty and starts as a value
/// does.
pub proof fn lemma_canonical_start(value: JsonView, depth: nat)
    requires
        normal(value, depth),
    ensures
        canonical(value).len() > 0,
        starts_value(canonical(value)[0]),
{
    match value {
        JsonView::Number(NumberView::Unsigned(n), _) => {
            lemma_decimal_text_digits(n as nat);
        },
        JsonView::Number(NumberView::Integer(i), _) => {
            if i < 0 {
                lemma_decimal_text_digits((0 - i) as nat);
            } else {
                lemma_decimal_text_digits(i as nat);
            }
        },
        _ => {},
    }
}

/// One part more is joined on behind a comma.
pub proof fn lemma_joined_prefix(parts: Seq<Seq<char>>, k: int, m: int)
    requires
        0 <= k <= m,
    ensures
        joined(parts, k).len() <= joined(parts, m).len(),
        joined(parts, m).subrange(0, joined(parts, k).len() as int) == joined(parts, k),
    decreases m - k,
{
    if k < m {
        lemma_joined_prefix(parts, k, m - 1);
    }
    assert(joined(parts, m).subrange(0, joined(parts, k).len() as int) =~= joined(parts, k));
}

/// Where the first `n` parts stand joined from `base` on, part `k` stands
/// in its place, behind a comma where it is not the first, and what is
/// joined up to it ends where it ends.
pub proof fn lemma_part_at(t: Seq<char>, base: int, parts: Seq<Seq<char>>, n: int, k: int)
    requires
        holds(t, base, joined(parts, n)),
        0 <= k < n,
    ensures
        holds(t, base + offset(parts, k), parts[k]),
        offset(parts, k) + parts[k].len() == joined(parts, k + 1).len(),
        joined(parts, k + 1).len() <= joined(parts, n).len(),
        k > 0 ==> t[base + joined(parts, k).len()] == ',',
{
    let whole = joined(parts, n);
    let upto = joined(parts, k + 1);
    lemma_joined_prefix(parts, k + 1, n);
    lemma_joined_prefix(parts, k, k + 1);
    assert forall|i: int| 0 <= i < upto.len() implies t[base + i] == upto[i] by {
        assert(t[base + i] == t.subrange(base, base + whole.len())[i]);
        assert(whole.subrange(0, upto.len() as int)[i] == whole[i]);
    }
    assert forall|j: int| 0 <= j < parts[k].len() implies t[base + offset(parts, k) + j]
        == parts[k][j] by {
        assert(upto[offset(parts, k) + j] == parts[k][j]);
    }
    assert(t.subrange(base + offset(parts, k), base + offset(parts, k) + parts[k].len())
        =~= parts[k]);
    if k > 0 {
        assert(upto[joined(parts, k).len() as int] == ',');
    }
}

/// Where part `k` starts in what is joined.
pub open spec fn offset(parts: Seq<Seq<char>>, k: int) -> int {
    if k <= 0 {
        0
    } else {
        joined(parts, k).len() as int + 1
    }
}

/// Where item `k` of a written array stands: behind the bracket or a
/// comma, with a comma or the closing bracket behind it.
pub proof fn lemma_item_layout(value: JsonView, t: Seq<char>, at: int, k: int)
    requires
        value is Array,
        holds(t, at, canonical(value)),
        0 <= k < value->Array_0.len(),
    ensures
        ({
            let parts = item_texts(value->Array_0);
            let start = at + 1 + offset(parts, k);
            let stop = start + parts[k].len();
            &&& t[at] == '['
            &&& holds(t, start, parts[k])
            &&& stop < t.len()
            &&& if k + 1 < value->Array_0.len() {
                t[stop] == ',' && stop + 1 == at + 1 + offset(parts, k + 1)
            } else {
                t[stop] == ']' && stop + 1 == at + canonical(value).len()
            }
        }),
{
    let items = value->Array_0;
    let parts = item_texts(items);
    let n = items.len() as int;
    let start = at + 1 + offset(parts, k);
    lemma_canonical_array(items, value->Array_1);
    lemma_holds_parts(t, at, seq!['['], joined(parts, n), seq![']']);
    assert(t[at] == t.subrange(at, at + 1)[0]);
    lemma_part_at(t, at + 1, parts, n, k);
    let stop = start + parts[k].len();
    if k + 1 < n {
        lemma_part_at(t, at + 1, parts, n, k + 1);
    } else {
        assert(t[stop] == t.subrange(stop, stop + 1)[0]);
    }
}

/// Where member `k` of a written object stands: its key behind the brace
/// or a comma, then a colon, then its value, with a comma or the closing
/// brace behind it.
pub proof fn lemma_member_layout(value: JsonView, t: Seq<char>, at: int, k: int)
    requires
        value is Object,
        holds(t, at, canonical(value)),
        0 <= k < value->Object_0.len(),
    ensures
        ({
            let parts = member_texts(value->Object_0);
            let name = value->Object_0[k].0;
            let inner = value->Object_0[k].1;
            let start = at + 1 + offset(parts, k);
            let colon = start + quoted(name).len();
            let stop = colon + 1 + canonical(inner).len();
            &&& t[at] == '{'
            &&& holds(t, start, quoted(name))
            &&& t[start] == '"'
            &&& t[colon] == ':'
            &&& holds(t, colon + 1, canonical(inner))
            &&& stop < t.len()
            &&& if k + 1 < value->Object_0.len() {
                t[stop] == ',' && stop + 1 == at + 1 + offset(parts, k + 1)
            } else {
                t[stop] == '}' && stop + 1 == at + canonical(value).len()
            }
        }),
{
    let members = value->Object_0;
    let parts = member_texts(members);
    let n = members.len() as int;
    let start = at + 1 + offset(parts, k);
    let name = members[k].0;
    let inner = members[k].1;
    lemma_canonical_object(members, value->Object_1);
    lemma_holds_parts(t, at, seq!['{'], joined(parts, n), seq!['}']);
    assert(t[at] == t.subrange(at, at + 1)[0]);
    lemma_part_at(t, at + 1, parts, n, k);
    let stop = start + parts[k].len();
    assert(parts[k] == quoted(name) + seq![':'] + canonical(inner));
    lemma_holds_parts(t, start, quoted(name), seq![':'], canonical(inner));
    let colon = start + quoted(name).len();
    assert(t[start] == t.subrange(start, start + quoted(name).len())[0]);
    assert(t[colon] == t.subrange(colon, colon + 1)[0]);
    if k + 1 < n {
        lemma_part_at(t, at + 1, parts, n, k + 1);
    } else {
        assert(t[stop] == t.subrange(stop, stop + 1)[0]);
    }
}

/// Whether what was read ends at `end` and has `text` as its canonical
/// form.
pub open spec fn same_form(
    found: Result<(JsonView, int), Error>,
    end: int,
    text: Seq<char>,
) -> bool {
    found matches Ok((again, stop)) && stop == end && canonical(again) == text
}

/// The canonical form of a normal value, wherever it stands with no number
/// going on behind it, is read as a value of the same canonical form.
pub proof fn lemma_reads_back(value: JsonView, t: Seq<char>, at: int, depth: nat)
    requires
        normal(value, depth),
        holds(t, at, canonical(value)),
        delimited(t, at + canonical(value).len()),
    ensures
        same_form(node_at(t, at, depth), at + canonical(value).len(), canonical(value)),
    decreases value, 1int, 0int,
{
    let text = canonical(value);
    lemma_canonical_start(value, depth);
    assert(t[at] == t.subrange(at, at + text.len())[0]);
    let d1 = (depth - 1) as nat;
    match value {
        JsonView::Null(_) => {
            lemma_keyword_reads_back(t, at, word_null(), 0);
            assert(canonical(JsonView::Null(word_null())) == text);
        },
        JsonView::Boolean(truth, _) => {
            if truth {
                lemma_keyword_reads_back(t, at, word_true(), 0);
            } else {
                lemma_keyword_reads_back(t, at, word_false(), 0);
            }
        },
        JsonView::Number(NumberView::Unsigned(n), _) => {
            lemma_unsigned_reads_back(t, at, n);
        },
        JsonView::Number(NumberView::Integer(i), _) => {
            lemma_integer_reads_back(t, at, i);
        },
        JsonView::Number(NumberView::Float(literal), _) => {},
        JsonView::String(content, _) => {
            lemma_quoted_reads_back(t, at, content);
        },
        JsonView::Array(items, source) => {
            let none = Seq::<JsonView>::empty();
            lemma_canonical_array(items, source);
            assert(node_at(t, at, depth) == array_from(t, at, ArrayStage::Start, none, at, depth));
            assert(array_from(t, at, ArrayStage::Start, none, at, depth) == array_from(
                t,
                at + 1,
                ArrayStage::FirstValue,
                none,
                at,
                d1,
            ));
            if items.len() == 0 {
                assert(text =~= seq!['[', ']']);
                assert(t[at + 1] == t.subrange(at, at + text.len())[1]);
                assert(array_from(t, at + 1, ArrayStage::FirstValue, none, at, d1) == array_from(
                    t,
                    at + 1,
                    ArrayStage::End,
                    none,
                    at,
                    d1,
                ));
                assert(item_texts(none) =~= item_texts(items));
                lemma_canonical_array(none, t.subrange(at, at + 2));
            } else {
                lemma_item_layout(value, t, at, 0);
                lemma_canonical_start(items[0], d1);
                assert(t[at + 1] == t.subrange(at + 1, at + 1 + canonical(items[0]).len())[0]);
                assert(array_from(t, at + 1, ArrayStage::FirstValue, none, at, d1) == array_from(
                    t,
                    at + 1,
                    ArrayStage::Value,
                    none,
                    at,
                    d1,
                ));
                lemma_items_read_back(value, t, at, depth, 0, none);
            }
        },
        JsonView::Object(members, source) => {
            let none = Seq::<Member>::empty();
            let key = Seq::<char>::empty();
            lemma_canonical_object(members, source);
            assert(node_at(t, at, depth) == object_from(
                t,
                at,
                ObjectStage::Start,
                none,
                key,
                at,
                depth,
            ));
            assert(object_from(t, at, ObjectStage::Start, none, key, at, depth) == object_from(
                t,
                at + 1,
                ObjectStage::Index,
                none,
                key,
                at,
                d1,
            ));
            if members.len() == 0 {
                assert(text =~= seq!['{', '}']);
                assert(t[at + 1] == t.subrange(at, at + text.len())[1]);
                assert(object_from(t, at + 1, ObjectStage::Index, none, key, at, d1) == object_from(
                    t,
                    at + 1,
                    ObjectStage::End,
                    none,
                    key,
                    at,
                    d1,
                ));
                assert(member_texts(none) =~= member_texts(members));
                lemma_canonical_object(none, t.subrange(at, at + 2));
            } else {
                lemma_members_read_back(value, t, at, depth, 0, none, key);
            }
        },
    }
}

/// Reading the items of a written array from item `k` on, with the items
/// before it read as `read`, ends behind the closing bracket with an array
/// of the same canonical form.
pub proof fn lemma_items_read_back(
    value: JsonView,
    t: Seq<char>,
    at: int,
    depth: nat,
    k: int,
    read: Seq<JsonView>,
)
    requires
        value is Array,
        normal(value, depth),
        holds(t, at, canonical(value)),
        0 <= k < value->Array_0.len(),
        read.len() == k,
        forall|i: int| 0 <= i < k ==> canonical(#[trigger] read[i]) == canonical(value->Array_0[i]),
    ensures
        same_form(
            array_from(
                t,
                at + 1 + offset(item_texts(value->Array_0), k),
                ArrayStage::Value,
                read,
                at,
                (depth - 1) as nat,
            ),
            at + canonical(value).len(),
            canonical(value),
        ),
    decreases value, 0int, value->Array_0.len() - k,
{
    let items = value->Array_0;
    let parts = item_texts(items);
    let n = items.len() as int;
    let d1 = (depth - 1) as nat;
    let start = at + 1 + offset(parts, k);
    let stop = start + parts[k].len();
    lemma_item_layout(value, t, at, k);
    lemma_canonical_start(items[k], d1);
    assert(t[start] == t.subrange(start, start + parts[k].len())[0]);
    lemma_reads_back(items[k], t, start, d1);
    let item = node_at(t, start, d1)->Ok_0.0;
    let longer = read.push(item);
    assert(array_from(t, start, ArrayStage::Value, read, at, d1) == array_from(
        t,
        stop,
        ArrayStage::Comma,
        longer,
        at,
        d1,
    ));
    if k + 1 < n {
        assert(array_from(t, stop, ArrayStage::Comma, longer, at, d1) == array_from(
            t,
            stop + 1,
            ArrayStage::Value,
            longer,
            at,
            d1,
        ));
        lemma_items_read_back(value, t, at, depth, k + 1, longer);
    } else {
        assert(array_from(t, stop, ArrayStage::Comma, longer, at, d1) == array_from(
            t,
            stop,
            ArrayStage::End,
            longer,
            at,
            d1,
        ));
        assert(item_texts(longer) =~= parts);
        lemma_canonical_array(longer, t.subrange(at, stop + 1));
        lemma_canonical_array(items, value->Array_1);
    }
}

/// Reading the members of a written object from member `k` on, with the
/// members before it read as `read` and `key` the last key read, ends
/// behind the closing brace with an object of the same canonical form.
pub proof fn lemma_members_read_back(
    value: JsonView,
    t: Seq<char>,
    at: int,
    depth: nat,
    k: int,
    read: Seq<Member>,
    key: Seq<char>,
)
    requires
        value is Object,
        normal(value, depth),
        holds(t, at, canonical(value)),
        0 <= k < value->Object_0.len(),
        read.len() == k,
        forall|i: int|
            0 <= i < k ==> (#[trigger] read[i]).0 == value->Object_0[i].0 && canonical(read[i].1)
                == canonical(value->Object_0[i].1),
    ensures
        same_form(
            object_from(
                t,
                at + 1 + offset(member_texts(value->Object_0), k),
                ObjectStage::Index,
                read,
                key,
                at,
                (depth - 1) as nat,
            ),
            at + canonical(value).len(),
            canonical(value),
        ),
    decreases value, 0int, value->Object_0.len() - k,
{
    let members = value->Object_0;
    let parts = member_texts(members);
    let n = members.len() as int;
    let d1 = (depth - 1) as nat;
    let name = members[k].0;
    let inner = members[k].1;
    let start = at + 1 + offset(parts, k);
    let colon = start + quoted(name).len();
    let stop = colon + 1 + canonical(inner).len();
    lemma_member_layout(value, t, at, k);
    lemma_quoted_reads_back(t, start, name);
    assert(object_from(t, start, ObjectStage::Index, read, key, at, d1) == object_from(
        t,
        colon,
        ObjectStage::Colon,
        read,
        name,
        at,
        d1,
    ));
    assert(object_from(t, colon, ObjectStage::Colon, read, name, at, d1) == object_from(
        t,
        colon + 1,
        ObjectStage::Value,
        read,
        name,
        at,
        d1,
    ));
    lemma_canonical_start(inner, d1);
    assert(t[colon + 1] == t.subrange(colon + 1, colon + 1 + canonical(inner).len())[0]);
    lemma_reads_back(inner, t, colon + 1, d1);
    let item = node_at(t, colon + 1, d1)->Ok_0.0;
    assert(!has_key(read, name));
    let longer = upsert(read, name, item);
    assert(longer == read.push((name, item)));
    assert(object_from(t, colon + 1, ObjectStage::Value, read, name, at, d1) == object_from(
        t,
        stop,
        ObjectStage::Comma,
        longer,
        name,
        at,
        d1,
    ));
    if k + 1 < n {
        assert(object_from(t, stop, ObjectStage::Comma, longer, name, at, d1) == object_from(
            t,
            stop + 1,
            ObjectStage::Index,
            longer,
            name,
            at,
            d1,
        ));
        lemma_members_read_back(value, t, at, depth, k + 1, longer, name);
    } else {
        assert(object_from(t, stop, ObjectStage::Comma, longer, name, at, d1) == object_from(
            t,
            stop,
            ObjectStage::End,
            longer,
            name,
            at,
            d1,
        ));
        assert(member_texts(longer) =~= parts);
        lemma_canonical_object(longer, t.subrange(at, stop + 1));
        lemma_canonical_object(members, value->Object_1);
    }
}

/// The canonical form of a normal value is a text that reads, from its
/// first character to its last, as a value of the same canonical form.
pub proof fn lemma_canonical_reads_back(value: JsonView, depth: nat)
    requires
        normal(value, depth),
    ensures
        same_form(
            node_at(canonical(value), 0, depth),
            canonical(value).len() as int,
            canonical(value),
        ),
{
    let text = canonical(value);
    assert(text.subrange(0, text.len() as int) =~= text);
    lemma_reads_back(value, text, 0, depth);
}

} // verus!
