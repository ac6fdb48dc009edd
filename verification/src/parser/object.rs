//! The object parser.
use vstd::prelude::*;
use vstd::string::StringExecFns;
use crate::cursor::Cursor;
use crate::error::{Context, Error};
use crate::grammar::{has_key, is_first_index, object_from, upsert, ObjectStage};
use crate::json::{lemma_object_view, member_views, Json};
use crate::parser::{node, outcome, string};
use crate::text::space;

verus! {

/// Puts `value` under `key`: in the place of the member that has the key,
/// or at the end where none has it.
pub fn insert(members: &mut Vec<(String, Json)>, key: String, value: Json)
    ensures
        member_views(final(members)@) == upsert(member_views(old(members)@), key@, value@),
{
    let ghost before = member_views(members@);
    let mut i: usize = 0;
    while i < members.len()
        invariant
            i <= members.len(),
            *members == *old(members),
            before == member_views(members@),
            forall|j: int| 0 <= j < i ==> (#[trigger] before[j]).0 != key@,
        decreases members.len() - i,
    {
        if members[i].0 == key {
            proof {
                assert(is_first_index(before, key@, i as int));
                assert(before[i as int].0 == key@);
                assert(has_key(before, key@));
                let chosen = choose|k: int| is_first_index(before, key@, k);
                assert(is_first_index(before, key@, chosen));
                assert(chosen == i);
            }
            members[i] = (key, value);
            proof {
                assert(member_views(members@) =~= before.update(i as int, (key@, value@)));
            }
            return ;
        }
        i = i + 1;
    }
    proof {
        assert(!has_key(before, key@));
        assert(member_views(members@.push((key, value))) =~= before.push((key@, value@)));
    }
    members.push((key, value));
}

/// Reads an object: `{`, members `"key": value` separated by commas, `}`.
///
/// Spaces may stand before every token behind the opening brace, and become
/// part of the object's source. A comma must be followed by a key. Of two members with one key the later
/// value stays.
pub fn object(cursor: &mut Cursor) -> (r: Result<Json, Error>)
    requires
        old(cursor).wf(),
    ensures
        final(cursor).wf(),
        final(cursor).text() == old(cursor).text(),
        r is Ok ==> final(cursor).depth_left() == old(cursor).depth_left(),
        outcome(
            r,
            old(cursor).text(),
            old(cursor).position(),
            final(cursor).position(),
            object_from(
                old(cursor).text(),
                old(cursor).position(),
                ObjectStage::Start,
                Seq::empty(),
                Seq::empty(),
                old(cursor).position(),
                old(cursor).depth_left(),
            ),
        ),
    decreases old(cursor).text().len() - old(cursor).position(), 0int,
{
    let ghost s = cursor.text();
    let ghost at = cursor.position();
    let mut members: Vec<(String, Json)> = Vec::new();
    let mut index = String::new();
    let mut source = String::new();
    let mut stage = ObjectStage::Start;
    proof {
        assert(member_views(members@) =~= Seq::empty());
        assert(source@ =~= s.subrange(at, at));
    }
    loop
        invariant
            cursor.wf(),
            cursor.text() == s,
            s == old(cursor).text(),
            at == old(cursor).position(),
            0 <= at <= cursor.position() <= s.len(),
            stage.rank() >= 2 ==> at < cursor.position(),
            source@ == s.subrange(at, cursor.position()),
            old(cursor).wf(),
            cursor.depth_left() == (if stage is Start {
                old(cursor).depth_left() as int
            } else {
                old(cursor).depth_left() - 1
            }),
            object_from(
                s,
                at,
                ObjectStage::Start,
                Seq::empty(),
                Seq::empty(),
                at,
                old(cursor).depth_left(),
            ) == object_from(
                s,
                cursor.position(),
                stage,
                member_views(members@),
                index@,
                at,
                cursor.depth_left(),
            ),
        decreases s.len() - cursor.position(), stage.rank(),
    {
        let ghost pos = cursor.position();
        let c = match cursor.peek() {
            None => {
                return Err(Error::UnexpectedEndOfInput);
            },
            Some(c) => c,
        };
        match stage {
            ObjectStage::Start => {
                if c != '{' {
                    return Err(Error::InvalidCharacter(c, Context::Object(stage)));
                }
                if !cursor.enter() {
                    return Err(Error::TooDeep);
                }
                source.push(c);
                cursor.advance();
                stage = ObjectStage::Index;
                proof {
                    assert(s.subrange(at, pos).push(c) =~= s.subrange(at, pos + 1));
                }
            },
            ObjectStage::Index => {
                if space(c) {
                    source.push(c);
                    cursor.advance();
                    proof {
                        assert(s.subrange(at, pos).push(c) =~= s.subrange(at, pos + 1));
                    }
                } else if c == '}' && members.len() == 0 {
                    stage = ObjectStage::End;
                } else if c != '"' {
                    return Err(Error::InvalidCharacter(c, Context::Object(stage)));
                } else {
                    match string(cursor) {
                        Ok(Json::String(name, text)) => {
                            source.append(text.as_str());
                            index = name;
                            stage = ObjectStage::Colon;
                            proof {
                                assert(s.subrange(at, pos) + s.subrange(pos, cursor.position())
                                    =~= s.subrange(at, cursor.position()));
                            }
                        },
                        Ok(_) => {
                            return Err(Error::InvalidCharacter(c, Context::Object(stage)));
                        },
                        Err(e) => {
                            return Err(e);
                        },
                    }
                }
            },
            ObjectStage::Colon => {
                if space(c) {
                    source.push(c);
                    cursor.advance();
                    proof {
                        assert(s.subrange(at, pos).push(c) =~= s.subrange(at, pos + 1));
                    }
                } else if c == ':' {
                    source.push(c);
                    cursor.advance();
                    stage = ObjectStage::Value;
                    proof {
                        assert(s.subrange(at, pos).push(c) =~= s.subrange(at, pos + 1));
                    }
                } else {
                    return Err(Error::InvalidCharacter(c, Context::Object(stage)));
                }
            },
            ObjectStage::Value => {
                if space(c) {
                    source.push(c);
                    cursor.advance();
                    proof {
                        assert(s.subrange(at, pos).push(c) =~= s.subrange(at, pos + 1));
                    }
                } else {
                    let value = match node(cursor) {
                        Ok(value) => value,
                        Err(e) => {
                            return Err(e);
                        },
                    };
                    let text = value.to_source();
                    source.append(text.as_str());
                    proof {
                        assert(s.subrange(at, pos) + s.subrange(pos, cursor.position())
                            =~= s.subrange(at, cursor.position()));
                    }
                    insert(&mut members, index.clone(), value);
                    stage = ObjectStage::Comma;
                }
            },
            ObjectStage::Comma => {
                if space(c) {
                    source.push(c);
                    cursor.advance();
                    proof {
                        assert(s.subrange(at, pos).push(c) =~= s.subrange(at, pos + 1));
                    }
                } else if c == ',' {
                    source.push(c);
                    cursor.advance();
                    stage = ObjectStage::Index;
                    proof {
                        assert(s.subrange(at, pos).push(c) =~= s.subrange(at, pos + 1));
                    }
                } else if c == '}' {
                    stage = ObjectStage::End;
                } else {
                    return Err(Error::InvalidCharacter(c, Context::Object(stage)));
                }
            },
            ObjectStage::End => {
                if c != '}' {
                    return Err(Error::InvalidCharacter(c, Context::Object(stage)));
                }
                source.push(c);
                cursor.advance();
                cursor.leave();
                proof {
                    assert(s.subrange(at, pos).push(c) =~= s.subrange(at, pos + 1));
                    lemma_object_view(members, source);
                }
                return Ok(Json::Object(members, source));
            },
        }
    }
}

} // verus!
