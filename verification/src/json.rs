use vstd::prelude::*;
use crate::cursor::{Cursor, DEFAULT_DEPTH};
use crate::error::{Error, Kind};
use crate::grammar::{distinct_keys, document, node_at};
use crate::laws::{lemma_node_span, located};
use crate::number::{Number, NumberView};
use crate::parser::node;
use crate::text::chars_of;

verus! {

/// A JSON value with the text it was read from.
///
/// The last field of every variant is the source text. The members of an
/// object are kept in the order of their first appearance, one per key.
#[derive(Debug, PartialEq)]
pub enum Json {
    Object(Vec<(String, Json)>, String),
    Array(Vec<Json>, String),
    String(String, String),
    Number(Number, String),
    Boolean(bool, String),
    Null(String),
}

/// The mathematical value of a [`Json`].
pub enum JsonView {
    Object(Seq<(Seq<char>, JsonView)>, Seq<char>),
    Array(Seq<JsonView>, Seq<char>),
    String(Seq<char>, Seq<char>),
    Number(NumberView, Seq<char>),
    Boolean(bool, Seq<char>),
    Null(Seq<char>),
}

impl JsonView {
    /// Whether no object in the value, at any depth, holds a key twice.
    pub open spec fn wf(self) -> bool
        decreases self,
    {
        match self {
            JsonView::Object(members, _) => {
                &&& distinct_keys(members)
                &&& forall|i: int| 0 <= i < members.len() ==> (#[trigger] members[i]).1.wf()
            },
            JsonView::Array(items, _) => forall|i: int|
                0 <= i < items.len() ==> (#[trigger] items[i]).wf(),
            _ => true,
        }
    }

    /// Which of the six kinds the value is of.
    pub open spec fn kind(self) -> Kind {
        match self {
            JsonView::Object(_, _) => Kind::Object,
            JsonView::Array(_, _) => Kind::Array,
            JsonView::String(_, _) => Kind::String,
            JsonView::Number(_, _) => Kind::Number,
            JsonView::Boolean(_, _) => Kind::Boolean,
            JsonView::Null(_) => Kind::Null,
        }
    }

    /// The source text of the value.
    pub open spec fn source(self) -> Seq<char> {
        match self {
            JsonView::Object(_, text) => text,
            JsonView::Array(_, text) => text,
            JsonView::String(_, text) => text,
            JsonView::Number(_, text) => text,
            JsonView::Boolean(_, text) => text,
            JsonView::Null(text) => text,
        }
    }
}

impl View for Json {
    type V = JsonView;

    open spec fn view(&self) -> JsonView {
        self.model()
    }
}

impl Json {
    /// The value with every string and sequence in it as mathematics.
    pub open spec fn model(&self) -> JsonView
        decreases self,
    {
        match self {
            Json::Object(members, text) => JsonView::Object(
                Seq::new(
                    members@.len(),
                    |i: int|
                        if 0 <= i < members@.len() {
                            (members@[i].0@, members@[i].1.model())
                        } else {
                            (Seq::empty(), JsonView::Null(Seq::empty()))
                        },
                ),
                text@,
            ),
            Json::Array(items, text) => JsonView::Array(
                Seq::new(
                    items@.len(),
                    |i: int|
                        if 0 <= i < items@.len() {
                            items@[i].model()
                        } else {
                            JsonView::Null(Seq::empty())
                        },
                ),
                text@,
            ),
            Json::String(value, text) => JsonView::String(value@, text@),
            Json::Number(value, text) => JsonView::Number(value@, text@),
            Json::Boolean(value, text) => JsonView::Boolean(*value, text@),
            Json::Null(text) => JsonView::Null(text@),
        }
    }
}

/// The values of `items`, one by one.
pub open spec fn views(items: Seq<Json>) -> Seq<JsonView> {
    Seq::new(items.len(), |i: int| items[i]@)
}

/// The members of an object as pairs of key text and value.
pub open spec fn member_views(members: Seq<(String, Json)>) -> Seq<(Seq<char>, JsonView)> {
    Seq::new(members.len(), |i: int| (members[i].0@, members[i].1@))
}

/// The view of an array is the views of its items, with its source.
pub proof fn lemma_array_view(items: Vec<Json>, source: String)
    ensures
        Json::Array(items, source)@ == JsonView::Array(views(items@), source@),
{
    let whole = Json::Array(items, source)@;
    assert(whole matches JsonView::Array(inner, text) && inner =~= views(items@) && text
        == source@);
}

/// The view of an object is the views of its members, with its source.
pub proof fn lemma_object_view(members: Vec<(String, Json)>, source: String)
    ensures
        Json::Object(members, source)@ == JsonView::Object(member_views(members@), source@),
{
    let whole = Json::Object(members, source)@;
    assert(whole matches JsonView::Object(inner, text) && inner =~= member_views(members@) && text
        == source@);
}

/// What a successful or failed result is in the model.
pub open spec fn result_view(r: Result<Json, Error>) -> Result<JsonView, Error> {
    match r {
        Ok(value) => Ok(value@),
        Err(e) => Err(e),
    }
}

/// How many characters of `s` the value at its start takes up; 0 where
/// there is none.
pub open spec fn consumed(s: Seq<char>, depth: nat) -> int {
    match node_at(s, 0, depth) {
        Ok((_, end)) => end,
        Err(_) => 0,
    }
}

impl Json {
    /// Reads the value that `text` starts with, with arrays and objects
    /// nested at most [`DEFAULT_DEPTH`] deep.
    ///
    /// The value's source is the part of `text` that was read; what follows
    /// the value is not looked at. No space is skipped before the value.
    pub fn parse(text: &str) -> (r: Result<Json, Error>)
        ensures
            result_view(r) == document(text@, DEFAULT_DEPTH as nat),
            r matches Ok(value) ==> {
                &&& 0 < consumed(text@, DEFAULT_DEPTH as nat) <= text@.len()
                &&& value@.source() == text@.subrange(0, consumed(text@, DEFAULT_DEPTH as nat))
                &&& located(value@, text@, 0, consumed(text@, DEFAULT_DEPTH as nat))
                &&& value@.wf()
            },
    {
        Json::parse_within(text, DEFAULT_DEPTH)
    }

    /// Reads the value that `text` starts with, with arrays and objects
    /// nested at most `depth` deep; one level more is `TooDeep`.
    pub fn parse_within(text: &str, depth: usize) -> (r: Result<Json, Error>)
        ensures
            result_view(r) == document(text@, depth as nat),
            r matches Ok(value) ==> {
                &&& 0 < consumed(text@, depth as nat) <= text@.len()
                &&& value@.source() == text@.subrange(0, consumed(text@, depth as nat))
                &&& located(value@, text@, 0, consumed(text@, depth as nat))
                &&& value@.wf()
            },
    {
        proof {
            lemma_node_span(text@, 0, depth as nat);
        }
        let mut cursor = Cursor::with_depth(chars_of(text), depth);
        node(&mut cursor)
    }

    /// The value's source text; the same as [`Json::to_source`].
    pub fn to_string(&self) -> (out: String)
        ensures
            out@ == self@.source(),
    {
        self.to_source()
    }

    /// Which of the six kinds the value is of.
    pub fn kind(&self) -> (kind: Kind)
        ensures
            kind == self@.kind(),
    {
        match self {
            Json::Object(_, _) => Kind::Object,
            Json::Array(_, _) => Kind::Array,
            Json::String(_, _) => Kind::String,
            Json::Number(_, _) => Kind::Number,
            Json::Boolean(_, _) => Kind::Boolean,
            Json::Null(_) => Kind::Null,
        }
    }

    /// The truth value of a boolean; `TypeMismatch` for any other kind.
    pub fn as_bool(&self) -> (r: Result<bool, Error>)
        ensures
            r == (match self@ {
                JsonView::Boolean(value, _) => Ok::<bool, Error>(value),
                _ => Err::<bool, Error>(Error::TypeMismatch(Kind::Boolean, self@.kind())),
            }),
    {
        match self {
            Json::Boolean(value, _) => Ok(*value),
            _ => Err(Error::TypeMismatch(Kind::Boolean, self.kind())),
        }
    }

    /// Succeeds on null; `TypeMismatch` for any other kind.
    pub fn as_null(&self) -> (r: Result<(), Error>)
        ensures
            r == (match self@ {
                JsonView::Null(_) => Ok::<(), Error>(()),
                _ => Err::<(), Error>(Error::TypeMismatch(Kind::Null, self@.kind())),
            }),
    {
        match self {
            Json::Null(_) => Ok(()),
            _ => Err(Error::TypeMismatch(Kind::Null, self.kind())),
        }
    }

    /// The number as a `u64`: `TypeMismatch` for any other kind,
    /// `InvalidNumber` for a number that is negative or a float.
    pub fn as_u64(&self) -> (r: Result<u64, Error>)
        ensures
            r == (match self@ {
                JsonView::Number(NumberView::Unsigned(n), _) => Ok::<u64, Error>(n),
                JsonView::Number(NumberView::Integer(n), _) => if n >= 0 {
                    Ok::<u64, Error>(n as u64)
                } else {
                    Err::<u64, Error>(Error::InvalidNumber)
                },
                JsonView::Number(NumberView::Float(_), _) => Err::<u64, Error>(Error::InvalidNumber),
                _ => Err::<u64, Error>(Error::TypeMismatch(Kind::Number, self@.kind())),
            }),
    {
        match self {
            Json::Number(number, _) => number.to_u64(),
            _ => Err(Error::TypeMismatch(Kind::Number, self.kind())),
        }
    }

    /// The number as an `i64`: `TypeMismatch` for any other kind,
    /// `InvalidNumber` for a number above `i64::MAX` or a float.
    pub fn as_i64(&self) -> (r: Result<i64, Error>)
        ensures
            r == (match self@ {
                JsonView::Number(NumberView::Integer(n), _) => Ok::<i64, Error>(n),
                JsonView::Number(NumberView::Unsigned(n), _) => if n <= i64::MAX {
                    Ok::<i64, Error>(n as i64)
                } else {
                    Err::<i64, Error>(Error::InvalidNumber)
                },
                JsonView::Number(NumberView::Float(_), _) => Err::<i64, Error>(Error::InvalidNumber),
                _ => Err::<i64, Error>(Error::TypeMismatch(Kind::Number, self@.kind())),
            }),
    {
        match self {
            Json::Number(number, _) => number.to_i64(),
            _ => Err(Error::TypeMismatch(Kind::Number, self.kind())),
        }
    }

    /// The decoded text of a string; `TypeMismatch` for any other kind.
    pub fn as_string(&self) -> (r: Result<String, Error>)
        ensures
            match self@ {
                JsonView::String(value, _) => r matches Ok(text) && text@ == value,
                _ => r == Err::<String, Error>(Error::TypeMismatch(Kind::String, self@.kind())),
            },
    {
        match self {
            Json::String(value, _) => Ok(value.clone()),
            _ => Err(Error::TypeMismatch(Kind::String, self.kind())),
        }
    }

    /// The items of an array; `TypeMismatch` for any other kind.
    pub fn as_array(&self) -> (r: Result<&Vec<Json>, Error>)
        ensures
            match self@ {
                JsonView::Array(items, _) => r matches Ok(found) && views(found@) == items,
                _ => r == Err::<&Vec<Json>, Error>(Error::TypeMismatch(Kind::Array, self@.kind())),
            },
    {
        match self {
            Json::Array(items, source) => {
                proof {
                    lemma_array_view(*items, *source);
                }
                Ok(items)
            },
            _ => Err(Error::TypeMismatch(Kind::Array, self.kind())),
        }
    }

    /// The members of an object; `TypeMismatch` for any other kind.
    pub fn as_object(&self) -> (r: Result<&Vec<(String, Json)>, Error>)
        ensures
            match self@ {
                JsonView::Object(members, _) => r matches Ok(found) && member_views(found@)
                    == members,
                _ => r == Err::<&Vec<(String, Json)>, Error>(
                    Error::TypeMismatch(Kind::Object, self@.kind()),
                ),
            },
    {
        match self {
            Json::Object(members, source) => {
                proof {
                    lemma_object_view(*members, *source);
                }
                Ok(members)
            },
            _ => Err(Error::TypeMismatch(Kind::Object, self.kind())),
        }
    }

    /// The text this value was read from, unchanged.
    pub fn to_source(&self) -> (out: String)
        ensures
            out@ == self@.source(),
    {
        match self {
            Json::Null(source) => source.clone(),
            Json::Boolean(_, source) => source.clone(),
            Json::Number(_, source) => source.clone(),
            Json::String(_, source) => source.clone(),
            Json::Array(_, source) => source.clone(),
            Json::Object(_, source) => source.clone(),
        }
    }
}

} // verus!
