use vstd::prelude::*;
use crate::error::Error;

verus! {

/// A JSON number.
///
/// A literal with a fraction or an exponent, or an integer literal too large
/// for 64 bits, is kept as `Float` with its digits as written.
#[derive(Clone, Debug, PartialEq)]
pub enum Number {
    Unsigned(u64),
    Integer(i64),
    Float(String),
}

/// The mathematical value of a [`Number`].
pub enum NumberView {
    Unsigned(u64),
    Integer(i64),
    Float(Seq<char>),
}

impl View for Number {
    type V = NumberView;

    open spec fn view(&self) -> NumberView {
        match self {
            Number::Unsigned(n) => NumberView::Unsigned(*n),
            Number::Integer(n) => NumberView::Integer(*n),
            Number::Float(text) => NumberView::Float(text@),
        }
    }
}

impl Number {
    /// The number as a `u64`; `InvalidNumber` where it is negative or a
    /// float.
    pub fn to_u64(&self) -> (r: Result<u64, Error>)
        ensures
            r == (match self@ {
                NumberView::Unsigned(n) => Ok::<u64, Error>(n),
                NumberView::Integer(n) => if n >= 0 {
                    Ok::<u64, Error>(n as u64)
                } else {
                    Err::<u64, Error>(Error::InvalidNumber)
                },
                NumberView::Float(_) => Err::<u64, Error>(Error::InvalidNumber),
            }),
    {
        match self {
            Number::Unsigned(n) => Ok(*n),
            Number::Integer(n) => if *n >= 0 {
                Ok(*n as u64)
            } else {
                Err(Error::InvalidNumber)
            },
            Number::Float(_) => Err(Error::InvalidNumber),
        }
    }

    /// The number as an `i64`; `InvalidNumber` where it is above `i64::MAX`
    /// or a float.
    pub fn to_i64(&self) -> (r: Result<i64, Error>)
        ensures
            r == (match self@ {
                NumberView::Integer(n) => Ok::<i64, Error>(n),
                NumberView::Unsigned(n) => if n <= i64::MAX {
                    Ok::<i64, Error>(n as i64)
                } else {
                    Err::<i64, Error>(Error::InvalidNumber)
                },
                NumberView::Float(_) => Err::<i64, Error>(Error::InvalidNumber),
            }),
    {
        match self {
            Number::Integer(n) => Ok(*n),
            Number::Unsigned(n) => if *n <= 0x7fff_ffff_ffff_ffff {
                Ok(*n as i64)
            } else {
                Err(Error::InvalidNumber)
            },
            Number::Float(_) => Err(Error::InvalidNumber),
        }
    }
}

} // verus!
