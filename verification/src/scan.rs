//! The mathematical model of the scan: what one call of the scanner
//! consumes and produces, stated over the remaining character sequence.
//!
//! `spec_next` models one scanning step: it yields the step's outcome and,
//! for a successful step, the remaining input. `spec_tokenize` folds
//! `spec_next` over the whole input. The executable scanner in `tokenizer`
//! is proved to follow these functions exactly.

use vstd::prelude::*;
use crate::chars::{is_space_char, is_digit_char, is_ident_start_char, is_ident_char};
use crate::numtext::{all_digits, digits_val, is_float_text};
use crate::token::{ErrorModel, TokenModel};
use crate::value::ValueModel;

verus! {

/// Drop leading horizontal whitespace.
pub open spec fn spec_trim(s: Seq<char>) -> Seq<char>
    decreases s.len(),
{
    if s.len() > 0 && is_space_char(s[0]) {
        spec_trim(s.skip(1))
    } else {
        s
    }
}

/// The next significant character, after horizontal whitespace.
pub open spec fn spec_peek(s: Seq<char>) -> Option<char> {
    let t = spec_trim(s);
    if t.len() == 0 {
        None
    } else {
        Some(t[0])
    }
}

/// One word: the characters up to the next horizontal whitespace, newline,
/// comma or the end; a run of trailing whitespace is consumed as well, a
/// newline or comma never. Yields the word and the remaining input.
pub open spec fn spec_word(s: Seq<char>) -> (Seq<char>, Seq<char>)
    decreases s.len(),
{
    if s.len() == 0 {
        (Seq::<char>::empty(), s)
    } else if is_space_char(s[0]) {
        (Seq::<char>::empty(), spec_trim(s))
    } else if s[0] == '\n' || s[0] == ',' {
        (Seq::<char>::empty(), s)
    } else {
        let (w, r) = spec_word(s.skip(1));
        (seq![s[0]] + w, r)
    }
}

/// Everything up to and including the next newline is dropped.
pub open spec fn spec_skip_line(s: Seq<char>) -> Seq<char>
    decreases s.len(),
{
    if s.len() == 0 {
        s
    } else if s[0] == '\n' {
        s.skip(1)
    } else {
        spec_skip_line(s.skip(1))
    }
}

pub proof fn lemma_trim_le(s: Seq<char>)
    ensures
        spec_trim(s).len() <= s.len(),
    decreases s.len(),
{
    if s.len() > 0 && is_space_char(s[0]) {
        lemma_trim_le(s.skip(1));
    }
}

pub proof fn lemma_trim_first(s: Seq<char>)
    ensures
        spec_trim(s).len() > 0 ==> !is_space_char(spec_trim(s)[0]),
    decreases s.len(),
{
    if s.len() > 0 && is_space_char(s[0]) {
        lemma_trim_first(s.skip(1));
    }
}

pub proof fn lemma_word_le(s: Seq<char>)
    ensures
        spec_word(s).0.len() + spec_word(s).1.len() <= s.len(),
    decreases s.len(),
{
    if s.len() == 0 {
    } else if is_space_char(s[0]) {
        lemma_trim_le(s);
    } else if s[0] == '\n' || s[0] == ',' {
    } else {
        lemma_word_le(s.skip(1));
    }
}

pub proof fn lemma_skip_line_le(s: Seq<char>)
    ensures
        spec_skip_line(s).len() <= s.len(),
    decreases s.len(),
{
    if s.len() == 0 {
    } else if s[0] == '\n' {
    } else {
        lemma_skip_line_le(s.skip(1));
    }
}

/// The escape table: the character a legal `:`-escape decodes to.
pub open spec fn escape_char(c: char) -> Option<char> {
    if c == ')' {
        Some('\n')
    } else if c == '>' {
        Some('\t')
    } else if c == 'o' {
        Some('\u{7}')
    } else if c == '"' {
        Some('"')
    } else if c == ':' {
        Some(':')
    } else {
        None
    }
}

/// Scanning a string literal, after its opening quote: the decoded text and
/// the remaining input, or the first error. The input ending before the
/// closing quote is an unclosed string.
pub open spec fn spec_string(s: Seq<char>) -> Result<(Seq<char>, Seq<char>), ErrorModel>
    decreases s.len(),
{
    if s.len() == 0 {
        Err(ErrorModel::UnclosedString)
    } else if s[0] == '"' {
        Ok((Seq::<char>::empty(), s.skip(1)))
    } else if s[0] == ':' {
        if s.len() == 1 {
            Err(ErrorModel::UnclosedString)
        } else {
            match escape_char(s[1]) {
                Some(d) => match spec_string(s.skip(2)) {
                    Ok((dec, r)) => Ok((seq![d] + dec, r)),
                    Err(e) => Err(e),
                },
                None => Err(ErrorModel::UnknownEscape(s[1])),
            }
        }
    } else {
        match spec_string(s.skip(1)) {
            Ok((dec, r)) => Ok((seq![s[0]] + dec, r)),
            Err(e) => Err(e),
        }
    }
}

pub proof fn lemma_string_le(s: Seq<char>)
    ensures
        spec_string(s) matches Ok(p) ==> p.1.len() < s.len(),
    decreases s.len(),
{
    if s.len() == 0 {
    } else if s[0] == '"' {
    } else if s[0] == ':' {
        if s.len() > 1 {
            lemma_string_le(s.skip(2));
        }
    } else {
        lemma_string_le(s.skip(1));
    }
}

/// The first character of `w` that may not stand in an identifier.
pub open spec fn first_non_ident(w: Seq<char>) -> Option<char>
    decreases w.len(),
{
    if w.len() == 0 {
        None
    } else if !is_ident_char(w[0]) {
        Some(w[0])
    } else {
        first_non_ident(w.skip(1))
    }
}

/// The operator keyword that `w` opens, completed by a following `OF`.
pub open spec fn of_token(w: Seq<char>) -> Option<TokenModel> {
    if w == "SUM"@ {
        Some(TokenModel::SumOf)
    } else if w == "DIFF"@ {
        Some(TokenModel::DiffOf)
    } else if w == "PRODUKT"@ {
        Some(TokenModel::ProduktOf)
    } else if w == "QUOSHUNT"@ {
        Some(TokenModel::QuoshuntOf)
    } else if w == "MOD"@ {
        Some(TokenModel::ModOf)
    } else if w == "BIGGR"@ {
        Some(TokenModel::BiggrOf)
    } else if w == "SMALLR"@ {
        Some(TokenModel::SmallrOf)
    } else if w == "BOTH"@ {
        Some(TokenModel::BothOf)
    } else if w == "EITHER"@ {
        Some(TokenModel::EitherOf)
    } else if w == "WON"@ {
        Some(TokenModel::WonOf)
    } else if w == "ALL"@ {
        Some(TokenModel::AllOf)
    } else if w == "ANY"@ {
        Some(TokenModel::AnyOf)
    } else {
        None
    }
}

/// The keyword that `w` is on its own.
pub open spec fn single_kw(w: Seq<char>) -> Option<TokenModel> {
    if w == "ITZ"@ {
        Some(TokenModel::Itz)
    } else if w == "R"@ {
        Some(TokenModel::R)
    } else if w == "NOT"@ {
        Some(TokenModel::Not)
    } else if w == "DIFFRINT"@ {
        Some(TokenModel::Diffrint)
    } else if w == "AN"@ {
        Some(TokenModel::An)
    } else if w == "MKAY"@ {
        Some(TokenModel::Mkay)
    } else if w == "MEBBE"@ {
        Some(TokenModel::Mebbe)
    } else if w == "OIC"@ {
        Some(TokenModel::Oic)
    } else if w == "VISIBLE"@ {
        Some(TokenModel::Visible)
    } else if w == "!"@ {
        Some(TokenModel::Exclamation)
    } else if w == "GIMMEH"@ {
        Some(TokenModel::Gimmeh)
    } else {
        None
    }
}

/// Classification of a word that is no keyword: by its first character an
/// identifier, a number, or nothing the scanner knows.
pub open spec fn spec_classify(w: Seq<char>) -> Result<Option<TokenModel>, ErrorModel> {
    if w.len() == 0 {
        Err(ErrorModel::UnknownToken)
    } else if is_ident_start_char(w[0]) {
        match first_non_ident(w) {
            Some(c) => Err(ErrorModel::InvalidIdent(c)),
            None => Ok(Some(TokenModel::Ident(w))),
        }
    } else if is_digit_char(w[0]) {
        if all_digits(w) && digits_val(w) <= i64::MAX as nat {
            Ok(Some(TokenModel::Value(ValueModel::Numbr(digits_val(w) as int))))
        } else if is_float_text(w) {
            Ok(Some(TokenModel::Value(ValueModel::Numbar(w))))
        } else {
            Err(ErrorModel::InvalidNumber(w))
        }
    } else {
        Err(ErrorModel::UnknownToken)
    }
}

/// One scanning step. The pair holds the outcome and the remaining input;
/// on an error the remaining input is not meaningful.
pub open spec fn spec_next(s: Seq<char>) -> (Result<Option<TokenModel>, ErrorModel>, Seq<char>)
    decreases s.len(),
{
    let t = spec_trim(s);
    if t.len() == 0 {
        (Ok(None), t)
    } else if t[0] == '"' {
        match spec_string(t.skip(1)) {
            Ok((dec, r)) => (Ok(Some(TokenModel::Value(ValueModel::Yarn(dec)))), r),
            Err(e) => (Err(e), t),
        }
    } else if t[0] == '\n' || t[0] == ',' {
        (Ok(Some(TokenModel::Separator)), t.skip(1))
    } else {
        let (w, r) = spec_word(t);
        if w == "BTW"@ {
            proof {
                lemma_trim_le(s);
                lemma_trim_first(s);
                lemma_word_le(t);
                lemma_skip_line_le(r);
            }
            spec_next(spec_skip_line(r))
        } else if w == "OBTW"@ {
            proof {
                lemma_trim_le(s);
                lemma_trim_first(s);
                lemma_word_le(t);
            }
            spec_obtw(r)
        } else if w == "I"@ {
            let (w2, r2) = spec_word(r);
            let (w3, r3) = spec_word(r2);
            if w2 == "HAS"@ && w3 == "A"@ {
                (Ok(Some(TokenModel::IHasA)), r3)
            } else {
                (spec_classify(w), r)
            }
        } else {
            match of_token(w) {
                Some(op) => {
                    let (w2, r2) = spec_word(r);
                    if w2 == "OF"@ {
                        (Ok(Some(op)), r2)
                    } else if w == "BOTH"@ && w2 == "SAEM"@ {
                        (Ok(Some(TokenModel::BothSaem)), r2)
                    } else {
                        (spec_classify(w), r)
                    }
                },
                None => {
                    if w == "O"@ {
                        let (w2, r2) = spec_word(r);
                        if w2 == "RLY?"@ {
                            (Ok(Some(TokenModel::ORly)), r2)
                        } else {
                            (spec_classify(w), r)
                        }
                    } else if w == "YA"@ {
                        let (w2, r2) = spec_word(r);
                        if w2 == "RLY"@ {
                            (Ok(Some(TokenModel::YaRly)), r2)
                        } else {
                            (spec_classify(w), r)
                        }
                    } else if w == "NO"@ {
                        let (w2, r2) = spec_word(r);
                        if w2 == "WAI"@ {
                            (Ok(Some(TokenModel::NoWai)), r2)
                        } else {
                            (spec_classify(w), r)
                        }
                    } else {
                        match single_kw(w) {
                            Some(k) => (Ok(Some(k)), r),
                            None => (spec_classify(w), r),
                        }
                    }
                },
            }
        }
    }
}

/// Scanning inside an `OBTW` block comment: the input is dropped until a
/// word that is exactly `TLDR`, then the scan resumes; after a word that
/// merely begins with `T` and is not `TLDR`, one further character is
/// dropped as well. The input ending first is an unclosed comment.
pub open spec fn spec_obtw(s: Seq<char>) -> (Result<Option<TokenModel>, ErrorModel>, Seq<char>)
    decreases s.len(),
{
    let t = spec_trim(s);
    if t.len() == 0 {
        (Err(ErrorModel::UnclosedComment), t)
    } else if t[0] == 'T' {
        let (w, r) = spec_word(t);
        if w == "TLDR"@ {
            proof {
                lemma_trim_le(s);
                lemma_word_le(t);
            }
            spec_next(r)
        } else {
            proof {
                lemma_trim_le(s);
                lemma_word_le(t);
            }
            spec_obtw(if r.len() > 0 {
                r.skip(1)
            } else {
                r
            })
        }
    } else {
        proof {
            lemma_trim_le(s);
        }
        spec_obtw(t.skip(1))
    }
}

pub proof fn lemma_next_progress(s: Seq<char>)
    ensures
        spec_next(s).1.len() <= s.len(),
        spec_next(s).0 matches Ok(Some(_)) ==> spec_next(s).1.len() < s.len(),
    decreases s.len(),
{
    let t = spec_trim(s);
    lemma_trim_le(s);
    lemma_trim_first(s);
    if t.len() == 0 {
    } else if t[0] == '"' {
        lemma_string_le(t.skip(1));
    } else if t[0] == '\n' || t[0] == ',' {
    } else {
        let (w, r) = spec_word(t);
        lemma_word_le(t);
        if w == "BTW"@ {
            lemma_skip_line_le(r);
            lemma_next_progress(spec_skip_line(r));
        } else if w == "OBTW"@ {
            lemma_obtw_progress(r);
        } else if w == "I"@ {
            lemma_word_le(r);
            lemma_word_le(spec_word(r).1);
        } else {
            lemma_word_le(r);
        }
    }
}

pub proof fn lemma_obtw_progress(s: Seq<char>)
    ensures
        spec_obtw(s).1.len() <= s.len(),
        spec_obtw(s).0 matches Ok(Some(_)) ==> spec_obtw(s).1.len() < s.len(),
    decreases s.len(),
{
    let t = spec_trim(s);
    lemma_trim_le(s);
    if t.len() == 0 {
    } else if t[0] == 'T' {
        let (w, r) = spec_word(t);
        lemma_word_le(t);
        if w == "TLDR"@ {
            lemma_next_progress(r);
        } else {
            lemma_obtw_progress(
                if r.len() > 0 {
                    r.skip(1)
                } else {
                    r
                },
            );
        }
    } else {
        lemma_obtw_progress(t.skip(1));
    }
}

/// The whole scan: the token sequence of the input, or its first error.
/// An error discards every token scanned before it.
pub open spec fn spec_tokenize(s: Seq<char>) -> Result<Seq<TokenModel>, ErrorModel>
    decreases s.len(),
{
    match spec_next(s) {
        (Err(e), _) => Err(e),
        (Ok(None), _) => Ok(Seq::<TokenModel>::empty()),
        (Ok(Some(tok)), r) => {
            proof {
                lemma_next_progress(s);
            }
            match spec_tokenize(r) {
                Ok(ts) => Ok(seq![tok] + ts),
                Err(e) => Err(e),
            }
        },
    }
}

} // verus!
