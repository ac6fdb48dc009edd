//! Values made from native ones, with a source written for them.
use vstd::prelude::*;
use vstd::std_specs::convert::FromSpecImpl;
use vstd::std_specs::vec::axiom_vec_index_decreases;
use vstd::string::StringExecFns;
use crate::grammar::{upsert, Member};
use crate::json::{lemma_array_view, lemma_object_view, member_views, views, Json, JsonView};
use crate::number::{Number, NumberView};
use crate::parser::object::insert;
use crate::render::{
    canonical, decimal_text, integer_text, joined, push_decimal, push_integer, push_quoted, quoted,
};

verus! {

/// The sources of `items`, one by one.
pub open spec fn item_sources(items: Seq<JsonView>) -> Seq<Seq<char>> {
    Seq::new(items.len(), |i: int| items[i].source())
}

/// What each of `members` is written as: its key between quotes, a colon,
/// and the source of its value.
pub open spec fn member_sources(members: Seq<Member>) -> Seq<Seq<char>> {
    Seq::new(members.len(), |i: int| quoted(members[i].0) + seq![':'] + members[i].1.source())
}

/// The first `n` of `pairs` put into an empty object one after the other.
pub open spec fn collected(pairs: Seq<Member>, n: int) -> Seq<Member>
    decreases n,
{
    if n <= 0 {
        Seq::empty()
    } else {
        upsert(collected(pairs, n - 1), pairs[n - 1].0, pairs[n - 1].1)
    }
}

impl Clone for Json {
    /// A copy that is equal to the value in every part.
    fn clone(&self) -> (out: Json)
        ensures
            out@ == self@,
        decreases self,
    {
        match self {
            Json::Null(source) => Json::Null(source.clone()),
            Json::Boolean(value, source) => Json::Boolean(*value, source.clone()),
            Json::Number(value, source) => {
                let copy = match value {
                    Number::Unsigned(n) => Number::Unsigned(*n),
                    Number::Integer(n) => Number::Integer(*n),
                    Number::Float(text) => Number::Float(text.clone()),
                };
                Json::Number(copy, source.clone())
            },
            Json::String(value, source) => Json::String(value.clone(), source.clone()),
            Json::Array(items, source) => {
                let mut copy: Vec<Json> = Vec::new();
                let mut i: usize = 0;
                while i < items.len()
                    invariant
                        i <= items.len(),
                        *self == Json::Array(*items, *source),
                        copy.len() == i,
                        forall|j: int| 0 <= j < i ==> (#[trigger] copy[j])@ == items[j]@,
                    decreases items.len() - i,
                {
                    proof {
                        axiom_vec_index_decreases(*items, i as int);
                        assert(self->Array_0 == *items);
                        assert(decreases_to!(*self => self->Array_0));
                    }
                    let item = items[i].clone();
                    copy.push(item);
                    i = i + 1;
                }
                let text = source.clone();
                proof {
                    lemma_array_view(*items, *source);
                    lemma_array_view(copy, text);
                    assert(views(copy@) =~= views(items@));
                }
                Json::Array(copy, text)
            },
            Json::Object(members, source) => {
                let mut copy: Vec<(String, Json)> = Vec::new();
                let mut i: usize = 0;
                while i < members.len()
                    invariant
                        i <= members.len(),
                        *self == Json::Object(*members, *source),
                        copy.len() == i,
                        forall|j: int|
                            0 <= j < i ==> (#[trigger] copy[j]).0@ == members[j].0@ && copy[j].1@
                                == members[j].1@,
                    decreases members.len() - i,
                {
                    proof {
                        axiom_vec_index_decreases(*members, i as int);
                        assert(self->Object_0 == *members);
                        assert(decreases_to!(*self => self->Object_0));
                        assert(decreases_to!(members[i as int] => members[i as int].1));
                    }
                    let value = members[i].1.clone();
                    copy.push((members[i].0.clone(), value));
                    i = i + 1;
                }
                let text = source.clone();
                proof {
                    lemma_object_view(*members, *source);
                    lemma_object_view(copy, text);
                    assert(member_views(copy@) =~= member_views(members@));
                }
                Json::Object(copy, text)
            },
        }
    }
}

impl Json {
    /// Null, with `null` as its source.
    pub fn null() -> (out: Json)
        ensures
            out@ == JsonView::Null(canonical(out@)),
    {
        let mut source = String::new();
        source.push('n');
        source.push('u');
        source.push('l');
        source.push('l');
        proof {
            assert(source@ =~= seq!['n', 'u', 'l', 'l']);
        }
        Json::Null(source)
    }

    /// A boolean, with `true` or `false` as its source.
    pub fn from_bool(value: bool) -> (out: Json)
        ensures
            out@ == JsonView::Boolean(value, canonical(out@)),
    {
        let mut source = String::new();
        if value {
            source.push('t');
            source.push('r');
            source.push('u');
            source.push('e');
            proof {
                assert(source@ =~= seq!['t', 'r', 'u', 'e']);
            }
        } else {
            source.push('f');
            source.push('a');
            source.push('l');
            source.push('s');
            source.push('e');
            proof {
                assert(source@ =~= seq!['f', 'a', 'l', 's', 'e']);
            }
        }
        Json::Boolean(value, source)
    }

    /// An unsigned number, with its digits in base ten as its source.
    pub fn from_u64(number: u64) -> (out: Json)
        ensures
            out@ == JsonView::Number(NumberView::Unsigned(number), decimal_text(number as nat)),
    {
        let mut source = String::new();
        push_decimal(&mut source, number);
        proof {
            assert(source@ =~= decimal_text(number as nat));
        }
        Json::Number(Number::Unsigned(number), source)
    }

    /// A signed number, with its sign and digits in base ten as its source.
    pub fn from_i64(number: i64) -> (out: Json)
        ensures
            out@ == JsonView::Number(NumberView::Integer(number), integer_text(number as int)),
    {
        let mut source = String::new();
        push_integer(&mut source, number);
        proof {
            assert(source@ =~= integer_text(number as int));
        }
        Json::Number(Number::Integer(number), source)
    }

    /// A string, with the text escaped and between quotes as its source.
    pub fn from_text(text: String) -> (out: Json)
        ensures
            out@ == JsonView::String(text@, quoted(text@)),
    {
        let mut source = String::new();
        push_quoted(&mut source, text.as_str());
        proof {
            assert(source@ =~= quoted(text@));
        }
        Json::String(text, source)
    }

    /// An array of `items`, with their sources between brackets and commas
    /// between them as its source.
    pub fn from_items(items: Vec<Json>) -> (out: Json)
        ensures
            out@ == JsonView::Array(
                views(items@),
                seq!['['] + joined(item_sources(views(items@)), items.len() as int) + seq![']'],
            ),
    {
        let ghost texts = item_sources(views(items@));
        let mut source = String::new();
        source.push('[');
        let mut i: usize = 0;
        proof {
            assert(source@ =~= seq!['['] + joined(texts, 0));
        }
        while i < items.len()
            invariant
                i <= items.len(),
                texts == item_sources(views(items@)),
                source@ == seq!['['] + joined(texts, i as int),
            decreases items.len() - i,
        {
            if i > 0 {
                source.push(',');
            }
            let part = items[i].to_source();
            source.append(part.as_str());
            proof {
                assert(texts[i as int] == part@);
                assert(source@ =~= seq!['['] + joined(texts, i + 1));
            }
            i = i + 1;
        }
        source.push(']');
        proof {
            lemma_array_view(items, source);
            assert(source@ =~= seq!['['] + joined(texts, items.len() as int) + seq![']']);
        }
        Json::Array(items, source)
    }

    /// An object of `pairs`, put in one after the other, so that of two
    /// pairs with one key the later value stays. Its source is what the
    /// members are written as, between braces and with commas between them.
    pub fn from_pairs(pairs: Vec<(String, Json)>) -> (out: Json)
        ensures
            out@ == JsonView::Object(
                collected(member_views(pairs@), pairs.len() as int),
                seq!['{'] + joined(
                    member_sources(collected(member_views(pairs@), pairs.len() as int)),
                    collected(member_views(pairs@), pairs.len() as int).len() as int,
                ) + seq!['}'],
            ),
    {
        let mut members: Vec<(String, Json)> = Vec::new();
        let mut k: usize = 0;
        proof {
            assert(member_views(members@) =~= collected(member_views(pairs@), 0));
        }
        while k < pairs.len()
            invariant
                k <= pairs.len(),
                member_views(members@) == collected(member_views(pairs@), k as int),
            decreases pairs.len() - k,
        {
            insert(&mut members, pairs[k].0.clone(), pairs[k].1.clone());
            k = k + 1;
        }
        let ghost texts = member_sources(member_views(members@));
        let mut source = String::new();
        source.push('{');
        let mut i: usize = 0;
        proof {
            assert(source@ =~= seq!['{'] + joined(texts, 0));
        }
        while i < members.len()
            invariant
                i <= members.len(),
                texts == member_sources(member_views(members@)),
                source@ == seq!['{'] + joined(texts, i as int),
            decreases members.len() - i,
        {
            if i > 0 {
                source.push(',');
            }
            let ghost before = source@;
            push_quoted(&mut source, members[i].0.as_str());
            source.push(':');
            let part = members[i].1.to_source();
            source.append(part.as_str());
            proof {
                assert(texts[i as int] == quoted(members[i as int].0@) + seq![':'] + part@);
                assert(source@ =~= before + texts[i as int]);
                assert(source@ =~= seq!['{'] + joined(texts, i + 1));
            }
            i = i + 1;
        }
        source.push('}');
        proof {
            lemma_object_view(members, source);
            assert(member_views(members@).len() == members.len());
            assert(source@ =~= seq!['{'] + joined(texts, members.len() as int) + seq!['}']);
        }
        Json::Object(members, source)
    }
}

impl From<bool> for Json {
    fn from(value: bool) -> (out: Json)
        ensures
            out@ == JsonView::Boolean(value, canonical(out@)),
    {
        Json::from_bool(value)
    }
}

impl FromSpecImpl<bool> for Json {
    open spec fn obeys_from_spec() -> bool {
        false
    }

    open spec fn from_spec(value: bool) -> Json {
        arbitrary()
    }
}

impl From<()> for Json {
    fn from(unit: ()) -> (out: Json)
        ensures
            out@ == JsonView::Null(canonical(out@)),
    {
        Json::null()
    }
}

impl FromSpecImpl<()> for Json {
    open spec fn obeys_from_spec() -> bool {
        false
    }

    open spec fn from_spec(unit: ()) -> Json {
        arbitrary()
    }
}

impl From<u64> for Json {
    fn from(number: u64) -> (out: Json)
        ensures
            out@ == JsonView::Number(NumberView::Unsigned(number), decimal_text(number as nat)),
    {
        Json::from_u64(number)
    }
}

impl FromSpecImpl<u64> for Json {
    open spec fn obeys_from_spec() -> bool {
        false
    }

    open spec fn from_spec(number: u64) -> Json {
        arbitrary()
    }
}

impl From<i64> for Json {
    fn from(number: i64) -> (out: Json)
        ensures
            out@ == JsonView::Number(NumberView::Integer(number), integer_text(number as int)),
    {
        Json::from_i64(number)
    }
}

impl FromSpecImpl<i64> for Json {
    open spec fn obeys_from_spec() -> bool {
        false
    }

    open spec fn from_spec(number: i64) -> Json {
        arbitrary()
    }
}

impl From<i32> for Json {
    fn from(number: i32) -> (out: Json)
        ensures
            out@ == JsonView::Number(NumberView::Integer(number as i64), integer_text(number as int)),
    {
        Json::from_i64(number as i64)
    }
}

impl FromSpecImpl<i32> for Json {
    open spec fn obeys_from_spec() -> bool {
        false
    }

    open spec fn from_spec(number: i32) -> Json {
        arbitrary()
    }
}

impl From<String> for Json {
    fn from(text: String) -> (out: Json)
        ensures
            out@ == JsonView::String(text@, quoted(text@)),
    {
        Json::from_text(text)
    }
}

impl FromSpecImpl<String> for Json {
    open spec fn obeys_from_spec() -> bool {
        false
    }

    open spec fn from_spec(text: String) -> Json {
        arbitrary()
    }
}

impl<'a> From<&'a str> for Json {
    fn from(text: &'a str) -> (out: Json)
        ensures
            out@ == JsonView::String(text@, quoted(text@)),
    {
        Json::from_text(String::from_str(text))
    }
}

impl<'a> FromSpecImpl<&'a str> for Json {
    open spec fn obeys_from_spec() -> bool {
        false
    }

    open spec fn from_spec(text: &'a str) -> Json {
        arbitrary()
    }
}

impl From<Vec<Json>> for Json {
    fn from(items: Vec<Json>) -> (out: Json)
        ensures
            out@ == JsonView::Array(
                views(items@),
                seq!['['] + joined(item_sources(views(items@)), items.len() as int) + seq![']'],
            ),
    {
        Json::from_items(items)
    }
}

impl FromSpecImpl<Vec<Json>> for Json {
    open spec fn obeys_from_spec() -> bool {
        false
    }

    open spec fn from_spec(items: Vec<Json>) -> Json {
        arbitrary()
    }
}

impl From<Vec<(String, Json)>> for Json {
    fn from(pairs: Vec<(String, Json)>) -> (out: Json)
        ensures
            out@ == JsonView::Object(
                collected(member_views(pairs@), pairs.len() as int),
                seq!['{'] + joined(
                    member_sources(collected(member_views(pairs@), pairs.len() as int)),
                    collected(member_views(pairs@), pairs.len() as int).len() as int,
                ) + seq!['}'],
            ),
    {
        Json::from_pairs(pairs)
    }
}

impl FromSpecImpl<Vec<(String, Json)>> for Json {
    open spec fn obeys_from_spec() -> bool {
        false
    }

    open spec fn from_spec(pairs: Vec<(String, Json)>) -> Json {
        arbitrary()
    }
}

} // verus!
