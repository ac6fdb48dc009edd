//! The array parser.
use vstd::prelude::*;
use vstd::string::StringExecFns;
use crate::cursor::Cursor;
use crate::error::{Context, Error};
use crate::grammar::{array_from, ArrayStage};
use crate::json::{lemma_array_view, views, Json};
use crate::parser::{node, outcome};
use crate::text::space;

verus! {

/// Reads an array: `[`, elements separated by commas, `]`.
///
/// Spaces may stand before every token, the opening bracket included, and
/// become part of the array's source. A comma must be followed by an
/// element. The array takes one of the levels of nesting that the cursor
/// has left, and gives it back when it is read.
pub fn array(cursor: &mut Cursor) -> (r: Result<Json, Error>)
    requires
        old(cursor).wf(),
    ensures
        final(cursor).wf(),
        final(cursor).text() == old(cursor).text(),
        r is Ok ==> final(cursor).depth_left() == old(cursor).depth_left(),
        outcome(
            r,
            old(cursor).text(),
            old(cursor).position(),
            final(cursor).position(),
            array_from(
                old(cursor).text(),
                old(cursor).position(),
                ArrayStage::Start,
                Seq::empty(),
                old(cursor).position(),
                old(cursor).depth_left(),
            ),
        ),
    decreases old(cursor).text().len() - old(cursor).position(), 0int,
{
    let ghost s = cursor.text();
    let ghost at = cursor.position();
    let mut items: Vec<Json> = Vec::new();
    let mut source = String::new();
    let mut stage = ArrayStage::Start;
    proof {
        assert(views(items@) =~= Seq::empty());
        assert(source@ =~= s.subrange(at, at));
    }
    loop
        invariant
            cursor.wf(),
            cursor.text() == s,
            s == old(cursor).text(),
            at == old(cursor).position(),
            0 <= at <= cursor.position() <= s.len(),
            stage.rank() >= 2 ==> at < cursor.position(),
            source@ == s.subrange(at, cursor.position()),
            old(cursor).wf(),
            cursor.depth_left() == (if stage is Start {
                old(cursor).depth_left() as int
            } else {
                old(cursor).depth_left() - 1
            }),
            array_from(s, at, ArrayStage::Start, Seq::empty(), at, old(cursor).depth_left())
                == array_from(s, cursor.position(), stage, views(items@), at, cursor.depth_left()),
        decreases s.len() - cursor.position(), stage.rank(),
    {
        let ghost pos = cursor.position();
        let c = match cursor.peek() {
            None => {
                return Err(Error::UnexpectedEndOfInput);
            },
            Some(c) => c,
        };
        if space(c) {
            source.push(c);
            cursor.advance();
            proof {
                assert(s.subrange(at, pos).push(c) =~= s.subrange(at, pos + 1));
            }
        } else {
            match stage {
                ArrayStage::Start => {
                    if c != '[' {
                        return Err(Error::InvalidCharacter(c, Context::Array(stage)));
                    }
                    if !cursor.enter() {
                        return Err(Error::TooDeep);
                    }
                    source.push(c);
                    cursor.advance();
                    stage = ArrayStage::FirstValue;
                    proof {
                        assert(s.subrange(at, pos).push(c) =~= s.subrange(at, pos + 1));
                    }
                },
                ArrayStage::FirstValue => {
                    if c == ']' {
                        stage = ArrayStage::End;
                    } else {
                        stage = ArrayStage::Value;
                    }
                },
                ArrayStage::Value => {
                    let item = match node(cursor) {
                        Ok(item) => item,
                        Err(e) => {
                            return Err(e);
                        },
                    };
                    let text = item.to_source();
                    source.append(text.as_str());
                    proof {
                        assert(s.subrange(at, pos) + s.subrange(pos, cursor.position())
                            =~= s.subrange(at, cursor.position()));
                        assert(views(items@.push(item)) =~= views(items@).push(item@));
                    }
                    items.push(item);
                    stage = ArrayStage::Comma;
                },
                ArrayStage::Comma => {
                    if c == ',' {
                        source.push(c);
                        cursor.advance();
                        stage = ArrayStage::Value;
                        proof {
                            assert(s.subrange(at, pos).push(c) =~= s.subrange(at, pos + 1));
                        }
                    } else if c == ']' {
                        stage = ArrayStage::End;
                    } else {
                        return Err(Error::InvalidCharacter(c, Context::Array(stage)));
                    }
                },
                ArrayStage::End => {
                    if c != ']' {
                        return Err(Error::InvalidCharacter(c, Context::Array(stage)));
                    }
                    source.push(c);
                    cursor.advance();
                    cursor.leave();
                    proof {
                        assert(s.subrange(at, pos).push(c) =~= s.subrange(at, pos + 1));
                        lemma_array_view(items, source);
                    }
                    return Ok(Json::Array(items, source));
                },
            }
        }
    }
}

} // verus!
