//! The dynamic scalar value model: five variants with explicit, total
//! cross-type coercions.
//!
//! A float literal is carried as its source text (`Numbar` holds the literal
//! as written, e.g. `"4.2"`): the scanner's job is classification, and the
//! text determines the number. Coercions that need a machine float value
//! belong to callers that can hold one.

use vstd::prelude::*;
use crate::numtext::{i64_dec, is_float_text, parse_i64_val, i64_to_dec, float_text_check,
    parse_i64_exec, spec_numbar_i64, numbar_i64, spec_numbar_zero, numbar_zero_check};

verus! {

/// What casting a value to text yields: nothing for the absent value, the
/// text itself for a text, the decimal rendering for a number, the literal
/// text for a float literal, and the words `true` / `false` for a boolean.
pub open spec fn spec_cast_yarn(v: ValueModel) -> Option<Seq<char>> {
    match v {
        ValueModel::Noob => None,
        ValueModel::Yarn(s) => Some(s),
        ValueModel::Numbr(n) => Some(i64_dec(n)),
        ValueModel::Numbar(s) => Some(s),
        ValueModel::Troof(b) => Some(
            if b {
                seq!['t', 'r', 'u', 'e']
            } else {
                seq!['f', 'a', 'l', 's', 'e']
            },
        ),
    }
}

/// What casting a value to a signed 64-bit integer yields: nothing for the
/// absent value; a text parses as a decimal integer, silently defaulting
/// to zero where it is no such number; a float literal truncates toward
/// zero, saturating at the 64-bit bounds; a boolean counts as zero or one.
pub open spec fn spec_cast_numbr(v: ValueModel) -> Option<int> {
    match v {
        ValueModel::Noob => None,
        ValueModel::Yarn(s) => Some(
            match parse_i64_val(s) {
                Some(n) => n,
                None => 0,
            },
        ),
        ValueModel::Numbr(n) => Some(n),
        ValueModel::Numbar(s) => Some(spec_numbar_i64(s)),
        ValueModel::Troof(b) => Some(
            if b {
                1int
            } else {
                0int
            },
        ),
    }
}

/// What casting a value to a boolean yields: the absent value is false, a
/// text is true exactly when it is empty, a number is true exactly when it
/// is not zero, a boolean is itself.
pub open spec fn spec_cast_troof(v: ValueModel) -> bool {
    match v {
        ValueModel::Noob => false,
        ValueModel::Yarn(s) => s.len() == 0,
        ValueModel::Numbr(n) => n != 0,
        ValueModel::Numbar(s) => !spec_numbar_zero(s),
        ValueModel::Troof(b) => b,
    }
}

/// Whether a value is float-like: a float literal, or a text the float
/// grammar accepts.
pub open spec fn spec_is_numbar(v: ValueModel) -> bool {
    match v {
        ValueModel::Yarn(s) => is_float_text(s),
        ValueModel::Numbar(_) => true,
        _ => false,
    }
}

/// A dynamic scalar value.
///
/// `Noob` is the absent value, `Yarn` a text, `Numbr` a 64-bit signed
/// integer, `Numbar` a float literal carried as its text, `Troof` a boolean.
#[derive(Clone, Debug, PartialEq)]
pub enum Value {
    Noob,
    Yarn(String),
    Numbr(i64),
    Numbar(String),
    Troof(bool),
}

/// The mathematical model of a `Value`: texts become character sequences
/// and the integer becomes an unbounded one.
pub enum ValueModel {
    Noob,
    Yarn(Seq<char>),
    Numbr(int),
    Numbar(Seq<char>),
    Troof(bool),
}

impl View for Value {
    type V = ValueModel;

    open spec fn view(&self) -> ValueModel {
        match self {
            Value::Noob => ValueModel::Noob,
            Value::Yarn(s) => ValueModel::Yarn(s@),
            Value::Numbr(n) => ValueModel::Numbr(*n as int),
            Value::Numbar(s) => ValueModel::Numbar(s@),
            Value::Troof(b) => ValueModel::Troof(*b),
        }
    }
}

impl Value {
    /// The value as text, where it has one.
    pub fn cast_yarn(self) -> (r: Option<String>)
        ensures
            match (r, spec_cast_yarn(self@)) {
                (Some(s), Some(m)) => s@ == m,
                (None, None) => true,
                _ => false,
            },
    {
        match self {
            Value::Noob => None,
            Value::Yarn(inner) => Some(inner),
            Value::Numbr(n) => Some(i64_to_dec(n)),
            Value::Numbar(inner) => Some(inner),
            Value::Troof(b) => {
                let s = if b {
                    String::from_str("true")
                } else {
                    String::from_str("false")
                };
                proof {
                    reveal_strlit("true");
                    reveal_strlit("false");
                    assert("true"@ =~= seq!['t', 'r', 'u', 'e']);
                    assert("false"@ =~= seq!['f', 'a', 'l', 's', 'e']);
                }
                Some(s)
            },
        }
    }

    /// The value as a signed 64-bit integer, where it has one. The
    /// coercion is total over the variants that yield one: a text that is
    /// no number counts as zero rather than failing.
    pub fn cast_numbr(&self) -> (r: Option<i64>)
        ensures
            match (r, spec_cast_numbr(self@)) {
                (Some(a), Some(b)) => a as int == b,
                (None, None) => true,
                _ => false,
            },
    {
        match self {
            Value::Noob => None,
            Value::Yarn(inner) => match parse_i64_exec(inner.as_str()) {
                Some(n) => Some(n),
                None => Some(0),
            },
            Value::Numbr(n) => Some(*n),
            Value::Numbar(inner) => Some(numbar_i64(inner.as_str())),
            Value::Troof(b) => Some(
                if *b {
                    1
                } else {
                    0
                },
            ),
        }
    }

    /// The value as a boolean.
    pub fn cast_troof(&self) -> (r: bool)
        ensures
            r == spec_cast_troof(self@),
    {
        match self {
            Value::Noob => false,
            Value::Yarn(inner) => inner.as_str().is_empty(),
            Value::Numbr(n) => *n != 0,
            Value::Numbar(inner) => !numbar_zero_check(inner.as_str()),
            Value::Troof(b) => *b,
        }
    }

    /// Whether the value is float-like: a float literal, or a text that
    /// parses as a float.
    pub fn is_numbar(&self) -> (r: bool)
        ensures
            r == spec_is_numbar(self@),
    {
        match self {
            Value::Yarn(inner) => float_text_check(inner.as_str()),
            Value::Numbar(_) => true,
            _ => false,
        }
    }
}

impl Default for Value {
    /// The default value is the absent one.
    fn default() -> (r: Self)
        ensures
            r == Value::Noob,
    {
        Value::Noob
    }
}

} // verus!
