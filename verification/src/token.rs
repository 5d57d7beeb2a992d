//! Lexical tokens and lexical errors, with their mathematical models.

use vstd::prelude::*;
use crate::value::Value;
use crate::value::ValueModel;

verus! {

/// A lexical error. Each variant carries the offending character or text
/// where one exists. The scan that produced an error is over: the scanner
/// reports the first error and nothing after it.
#[derive(Clone, Debug, PartialEq)]
pub enum Error {
    /// An identifier holds a character that is not a letter, digit or
    /// underscore; the payload is the first offending character.
    InvalidIdent(char),
    /// A word starting with a digit is neither an integer nor a float
    /// literal; the payload is the whole word.
    InvalidNumber(String),
    /// A block comment is never closed by a `TLDR` line.
    UnclosedComment,
    /// The input ends inside a string literal.
    UnclosedString,
    /// Reserved: no scanning path produces it today.
    UnexpectedEOF,
    /// A `:` escape is followed by a character outside the escape table;
    /// the payload is that character.
    UnknownEscape(char),
    /// A word is neither a keyword, an identifier nor a number.
    UnknownToken,
}

/// The mathematical model of an `Error`.
pub enum ErrorModel {
    InvalidIdent(char),
    InvalidNumber(Seq<char>),
    UnclosedComment,
    UnclosedString,
    UnexpectedEOF,
    UnknownEscape(char),
    UnknownToken,
}

impl View for Error {
    type V = ErrorModel;

    open spec fn view(&self) -> ErrorModel {
        match self {
            Error::InvalidIdent(c) => ErrorModel::InvalidIdent(*c),
            Error::InvalidNumber(s) => ErrorModel::InvalidNumber(s@),
            Error::UnclosedComment => ErrorModel::UnclosedComment,
            Error::UnclosedString => ErrorModel::UnclosedString,
            Error::UnexpectedEOF => ErrorModel::UnexpectedEOF,
            Error::UnknownEscape(c) => ErrorModel::UnknownEscape(*c),
            Error::UnknownToken => ErrorModel::UnknownToken,
        }
    }
}

/// A lexical token. `Ident` and `Value` carry a payload; `Separator` stands
/// for a statement boundary (a newline or a comma); the rest are the fixed
/// keywords of the language.
#[derive(Clone, Debug, PartialEq)]
pub enum Token {
    Ident(String),
    Value(Value),
    Separator,
    IHasA,
    Itz,
    R,
    SumOf,
    DiffOf,
    ProduktOf,
    QuoshuntOf,
    ModOf,
    BiggrOf,
    SmallrOf,
    BothOf,
    EitherOf,
    WonOf,
    Not,
    AllOf,
    AnyOf,
    BothSaem,
    Diffrint,
    An,
    Mkay,
    ORly,
    YaRly,
    Mebbe,
    NoWai,
    Oic,
    Visible,
    Exclamation,
    Gimmeh,
}

/// The mathematical model of a `Token`.
pub enum TokenModel {
    Ident(Seq<char>),
    Value(ValueModel),
    Separator,
    IHasA,
    Itz,
    R,
    SumOf,
    DiffOf,
    ProduktOf,
    QuoshuntOf,
    ModOf,
    BiggrOf,
    SmallrOf,
    BothOf,
    EitherOf,
    WonOf,
    Not,
    AllOf,
    AnyOf,
    BothSaem,
    Diffrint,
    An,
    Mkay,
    ORly,
    YaRly,
    Mebbe,
    NoWai,
    Oic,
    Visible,
    Exclamation,
    Gimmeh,
}

impl View for Token {
    type V = TokenModel;

    open spec fn view(&self) -> TokenModel {
        match self {
            Token::Ident(s) => TokenModel::Ident(s@),
            Token::Value(v) => TokenModel::Value(v@),
            Token::Separator => TokenModel::Separator,
            Token::IHasA => TokenModel::IHasA,
            Token::Itz => TokenModel::Itz,
            Token::R => TokenModel::R,
            Token::SumOf => TokenModel::SumOf,
            Token::DiffOf => TokenModel::DiffOf,
            Token::ProduktOf => TokenModel::ProduktOf,
            Token::QuoshuntOf => TokenModel::QuoshuntOf,
            Token::ModOf => TokenModel::ModOf,
            Token::BiggrOf => TokenModel::BiggrOf,
            Token::SmallrOf => TokenModel::SmallrOf,
            Token::BothOf => TokenModel::BothOf,
            Token::EitherOf => TokenModel::EitherOf,
            Token::WonOf => TokenModel::WonOf,
            Token::Not => TokenModel::Not,
            Token::AllOf => TokenModel::AllOf,
            Token::AnyOf => TokenModel::AnyOf,
            Token::BothSaem => TokenModel::BothSaem,
            Token::Diffrint => TokenModel::Diffrint,
            Token::An => TokenModel::An,
            Token::Mkay => TokenModel::Mkay,
            Token::ORly => TokenModel::ORly,
            Token::YaRly => TokenModel::YaRly,
            Token::Mebbe => TokenModel::Mebbe,
            Token::NoWai => TokenModel::NoWai,
            Token::Oic => TokenModel::Oic,
            Token::Visible => TokenModel::Visible,
            Token::Exclamation => TokenModel::Exclamation,
            Token::Gimmeh => TokenModel::Gimmeh,
        }
    }
}

} // verus!
