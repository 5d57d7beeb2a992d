//! The executable scanner, proved to follow the model in `scan`.
//!
//! The scanner holds the input as characters and a position into it; a
//! speculative look-ahead is a saved position, restored when the looked-for
//! words are not there. One call of `next` yields one token, the end of the
//! input, or the first lexical error; `tokenize` drives `next` over the
//! whole input.

use vstd::prelude::*;
use vstd::string::StrSliceExecFns;
use crate::chars::is_space_char;
use crate::chars::{digit_check, ident_start_check, ident_char_check};
use crate::numtext::{parse_digits_i64, float_text_check};
use crate::scan::{
    spec_trim, spec_peek, spec_word, spec_skip_line, spec_string, first_non_ident, of_token,
    single_kw, spec_classify, spec_next, spec_obtw, spec_tokenize, lemma_trim_le,
    lemma_trim_first, lemma_word_le, lemma_skip_line_le, lemma_next_progress,
};
use crate::token::{Error, ErrorModel, Token, TokenModel};
use crate::value::{Value, ValueModel};

verus! {

/// Horizontal whitespace: space or tab.
pub fn is_space(c: char) -> (b: bool)
    ensures
        b == is_space_char(c),
{
    c == ' ' || c == '\t'
}

/// Relies on String::push: appends exactly the one character at the end.
#[verifier::external_body]
pub(crate) fn push_char(s: &mut String, c: char)
    ensures
        final(s)@ == old(s)@ + seq![c],
{
    s.push(c);
}

/// Character-for-character equality of two string slices.
fn str_eq(a: &str, b: &str) -> (r: bool)
    ensures
        r == (a@ == b@),
{
    let n = a.unicode_len();
    let m = b.unicode_len();
    if n != m {
        return false;
    }
    let mut i: usize = 0;
    while i < n
        invariant
            n == a@.len(),
            n == b@.len(),
            i <= n,
            forall|k: int| 0 <= k < i ==> a@[k] == b@[k],
        decreases n - i,
    {
        if a.get_char(i) != b.get_char(i) {
            return false;
        }
        i = i + 1;
    }
    proof {
        assert(a@ =~= b@);
    }
    true
}

fn of_token_exec(w: &str) -> (r: Option<Token>)
    ensures
        match (r, of_token(w@)) {
            (Some(t), Some(m)) => t@ == m,
            (None, None) => true,
            _ => false,
        },
{
    if str_eq(w, "SUM") {
        Some(Token::SumOf)
    } else if str_eq(w, "DIFF") {
        Some(Token::DiffOf)
    } else if str_eq(w, "PRODUKT") {
        Some(Token::ProduktOf)
    } else if str_eq(w, "QUOSHUNT") {
        Some(Token::QuoshuntOf)
    } else if str_eq(w, "MOD") {
        Some(Token::ModOf)
    } else if str_eq(w, "BIGGR") {
        Some(Token::BiggrOf)
    } else if str_eq(w, "SMALLR") {
        Some(Token::SmallrOf)
    } else if str_eq(w, "BOTH") {
        Some(Token::BothOf)
    } else if str_eq(w, "EITHER") {
        Some(Token::EitherOf)
    } else if str_eq(w, "WON") {
        Some(Token::WonOf)
    } else if str_eq(w, "ALL") {
        Some(Token::AllOf)
    } else if str_eq(w, "ANY") {
        Some(Token::AnyOf)
    } else {
        None
    }
}

fn single_kw_exec(w: &str) -> (r: Option<Token>)
    ensures
        match (r, single_kw(w@)) {
            (Some(t), Some(m)) => t@ == m,
            (None, None) => true,
            _ => false,
        },
{
    if str_eq(w, "ITZ") {
        Some(Token::Itz)
    } else if str_eq(w, "R") {
        Some(Token::R)
    } else if str_eq(w, "NOT") {
        Some(Token::Not)
    } else if str_eq(w, "DIFFRINT") {
        Some(Token::Diffrint)
    } else if str_eq(w, "AN") {
        Some(Token::An)
    } else if str_eq(w, "MKAY") {
        Some(Token::Mkay)
    } else if str_eq(w, "MEBBE") {
        Some(Token::Mebbe)
    } else if str_eq(w, "OIC") {
        Some(Token::Oic)
    } else if str_eq(w, "VISIBLE") {
        Some(Token::Visible)
    } else if str_eq(w, "!") {
        Some(Token::Exclamation)
    } else if str_eq(w, "GIMMEH") {
        Some(Token::Gimmeh)
    } else {
        None
    }
}

/// Generic classification of a word that matched no keyword form: an
/// identifier, a number, or an error, by the word's first character.
#[verifier::loop_isolation(false)]
fn classify_word(w: String) -> (r: Result<Option<Token>, Error>)
    ensures
        ({
            let res = spec_classify(w@);
            match (r, res) {
                (Ok(Some(t)), Ok(Some(m))) => t@ == m,
                (Ok(None), Ok(None)) => true,
                (Err(e), Err(em)) => e@ == em,
                _ => false,
            }
        }),
{
    let n = w.as_str().unicode_len();
    if n == 0 {
        return Err(Error::UnknownToken);
    }
    let c0 = w.as_str().get_char(0);
    if ident_start_check(c0) {
        let mut i: usize = 0;
        proof {
            assert(w@.skip(0) =~= w@);
        }
        while i < n
            invariant
                n == w@.len(),
                i <= n,
                first_non_ident(w@) == first_non_ident(w@.skip(i as int)),
            decreases n - i,
        {
            let c = w.as_str().get_char(i);
            proof {
                assert(w@.skip(i as int)[0] == w@[i as int]);
            }
            if !ident_char_check(c) {
                proof {
                    assert(first_non_ident(w@.skip(i as int)) == Some(c));
                }
                return Err(Error::InvalidIdent(c));
            }
            proof {
                assert(w@.skip(i as int).skip(1) =~= w@.skip(i as int + 1));
            }
            i = i + 1;
        }
        proof {
            assert(w@.skip(n as int).len() == 0);
        }
        Ok(Some(Token::Ident(w)))
    } else if digit_check(c0) {
        match parse_digits_i64(w.as_str()) {
            Some(v) => Ok(Some(Token::Value(Value::Numbr(v)))),
            None => {
                if float_text_check(w.as_str()) {
                    Ok(Some(Token::Value(Value::Numbar(w))))
                } else {
                    Err(Error::InvalidNumber(w))
                }
            },
        }
    } else {
        Err(Error::UnknownToken)
    }
}

/// The scanning state: the input characters and the position reached.
/// A look-ahead forks by saving the position; dropping the saved position
/// commits, restoring it backtracks.
#[derive(Clone)]
pub struct Tokenizer {
    input: Vec<char>,
    pos: usize,
}

impl Tokenizer {
    /// The position never passes the end of the input.
    pub closed spec fn wf(self) -> bool {
        self.pos <= self.input.len()
    }

    /// The whole input.
    pub closed spec fn src(self) -> Seq<char> {
        self.input@
    }

    /// The input not yet consumed.
    pub closed spec fn rest(self) -> Seq<char> {
        self.input@.skip(self.pos as int)
    }

    /// A scanner at the start of `input`.
    pub fn new(input: &str) -> (tk: Tokenizer)
        ensures
            tk.wf(),
            tk.rest() == input@,
    {
        let n = input.unicode_len();
        let mut v: Vec<char> = Vec::new();
        let mut i: usize = 0;
        while i < n
            invariant
                n == input@.len(),
                i <= n,
                v@ == input@.take(i as int),
            decreases n - i,
        {
            let c = input.get_char(i);
            v.push(c);
            proof {
                assert(v@ =~= input@.take(i as int + 1));
            }
            i = i + 1;
        }
        let tk = Tokenizer { input: v, pos: 0 };
        proof {
            assert(input@.take(n as int) =~= input@);
            assert(tk.rest() =~= input@);
        }
        tk
    }

    /// Consume leading horizontal whitespace.
    pub fn trim(&mut self)
        requires
            old(self).wf(),
        ensures
            final(self).wf(),
            final(self).src() == old(self).src(),
            final(self).rest() == spec_trim(old(self).rest()),
    {
        loop
            invariant
                self.wf(),
                self.src() == old(self).src(),
                spec_trim(self.rest()) == spec_trim(old(self).rest()),
            decreases self.input.len() - self.pos,
        {
            if self.pos == self.input.len() {
                proof {
                    assert(self.rest().len() == 0);
                }
                return ;
            }
            let c = self.input[self.pos];
            proof {
                assert(self.rest()[0] == self.input@[self.pos as int]);
            }
            if !is_space(c) {
                return ;
            }
            proof {
                assert(self.rest().skip(1) =~= self.input@.skip(self.pos as int + 1));
            }
            self.pos = self.pos + 1;
        }
    }

    /// The next significant character, without consuming it; the
    /// whitespace before it is consumed.
    pub fn peek(&mut self) -> (r: Option<char>)
        requires
            old(self).wf(),
        ensures
            final(self).wf(),
            final(self).src() == old(self).src(),
            final(self).rest() == spec_trim(old(self).rest()),
            r == spec_peek(old(self).rest()),
    {
        self.trim();
        if self.pos == self.input.len() {
            proof {
                assert(self.rest().len() == 0);
            }
            None
        } else {
            proof {
                assert(self.rest()[0] == self.input@[self.pos as int]);
            }
            Some(self.input[self.pos])
        }
    }

    /// One word: the characters up to the next whitespace, newline, comma
    /// or the end of the input; trailing whitespace is consumed as well.
    pub fn word(&mut self) -> (w: String)
        requires
            old(self).wf(),
        ensures
            final(self).wf(),
            final(self).src() == old(self).src(),
            w@ == spec_word(old(self).rest()).0,
            final(self).rest() == spec_word(old(self).rest()).1,
    {
        let mut w = String::new();
        loop
            invariant
                self.wf(),
                self.src() == old(self).src(),
                spec_word(old(self).rest()).0 == w@ + spec_word(self.rest()).0,
                spec_word(old(self).rest()).1 == spec_word(self.rest()).1,
            decreases self.input.len() - self.pos,
        {
            if self.pos == self.input.len() {
                proof {
                    assert(self.rest().len() == 0);
                    assert(w@ + Seq::<char>::empty() =~= w@);
                }
                return w;
            }
            let c = self.input[self.pos];
            proof {
                assert(self.rest()[0] == self.input@[self.pos as int]);
            }
            if is_space(c) {
                self.trim();
                proof {
                    assert(w@ + Seq::<char>::empty() =~= w@);
                }
                return w;
            }
            if c == '\n' || c == ',' {
                proof {
                    assert(w@ + Seq::<char>::empty() =~= w@);
                }
                return w;
            }
            let ghost cur = self.rest();
            let ghost w_old = w@;
            proof {
                assert(cur.skip(1) =~= self.input@.skip(self.pos as int + 1));
            }
            self.pos = self.pos + 1;
            push_char(&mut w, c);
            proof {
                let (w2, r2) = spec_word(cur.skip(1));
                assert(spec_word(cur).0 == seq![c] + w2);
                assert(w_old + (seq![c] + w2) =~= (w_old + seq![c]) + w2);
            }
        }
    }

    /// One scanning step: the next token, `Ok(None)` at the end of the
    /// input, or the first lexical error. Comments are consumed here and
    /// never yield a token.
    #[verifier::loop_isolation(false)]
    #[verifier::rlimit(60)]
    pub fn next(&mut self) -> (r: Result<Option<Token>, Error>)
        requires
            old(self).wf(),
        ensures
            final(self).wf(),
            final(self).src() == old(self).src(),
            ({
                let (res, rest) = spec_next(old(self).rest());
                &&& match (r, res) {
                    (Ok(Some(tok)), Ok(Some(m))) => tok@ == m,
                    (Ok(None), Ok(None)) => true,
                    (Err(e), Err(em)) => e@ == em,
                    _ => false,
                }
                &&& res is Ok ==> final(self).rest() == rest
            }),
    {
        loop
            invariant
                self.wf(),
                self.src() == old(self).src(),
                spec_next(self.rest()) == spec_next(old(self).rest()),
            decreases self.input.len() - self.pos,
        {
            let ghost entry = self.rest();
            let copt = self.peek();
            let ghost t = spec_trim(entry);
            proof {
                lemma_trim_le(entry);
                lemma_trim_first(entry);
            }
            let c = match copt {
                None => {
                    return Ok(None);
                },
                Some(c) => c,
            };
            if c == '"' {
                proof {
                    assert(t.skip(1) =~= self.input@.skip(self.pos as int + 1));
                }
                self.pos = self.pos + 1;
                let ghost s0 = t.skip(1);
                let mut out = String::new();
                loop
                    invariant
                        self.wf(),
                        self.src() == old(self).src(),
                        spec_string(s0) == (match spec_string(self.rest()) {
                            Ok(p) => Ok::<(Seq<char>, Seq<char>), ErrorModel>((out@ + p.0, p.1)),
                            Err(e) => Err(e),
                        }),
                    decreases self.input.len() - self.pos,
                {
                    if self.pos == self.input.len() {
                        proof {
                            assert(self.rest().len() == 0);
                        }
                        return Err(Error::UnclosedString);
                    }
                    let ghost cur = self.rest();
                    let c2 = self.input[self.pos];
                    proof {
                        assert(cur[0] == self.input@[self.pos as int]);
                        assert(cur.skip(1) =~= self.input@.skip(self.pos as int + 1));
                    }
                    self.pos = self.pos + 1;
                    if c2 == '"' {
                        proof {
                            assert(out@ + Seq::<char>::empty() =~= out@);
                        }
                        return Ok(Some(Token::Value(Value::Yarn(out))));
                    } else if c2 == ':' {
                        if self.pos == self.input.len() {
                            proof {
                                assert(self.rest().len() == 0);
                                assert(cur.len() == 1);
                            }
                            return Err(Error::UnclosedString);
                        }
                        let e2 = self.input[self.pos];
                        proof {
                            assert(cur[1] == self.input@[self.pos as int]);
                            assert(cur.skip(2) =~= self.input@.skip(self.pos as int + 1));
                        }
                        self.pos = self.pos + 1;
                        let d: char;
                        if e2 == ')' {
                            d = '\n';
                        } else if e2 == '>' {
                            d = '\t';
                        } else if e2 == 'o' {
                            d = '\u{7}';
                        } else if e2 == '"' {
                            d = '"';
                        } else if e2 == ':' {
                            d = ':';
                        } else {
                            return Err(Error::UnknownEscape(e2));
                        }
                        let ghost out_old = out@;
                        push_char(&mut out, d);
                        proof {
                            match spec_string(cur.skip(2)) {
                                Ok(p) => {
                                    assert(out_old + (seq![d] + p.0) =~= (out_old + seq![d])
                                        + p.0);
                                },
                                Err(_) => {},
                            }
                        }
                    } else {
                        let ghost out_old = out@;
                        push_char(&mut out, c2);
                        proof {
                            match spec_string(cur.skip(1)) {
                                Ok(p) => {
                                    assert(out_old + (seq![c2] + p.0) =~= (out_old + seq![c2])
                                        + p.0);
                                },
                                Err(_) => {},
                            }
                        }
                    }
                }
            } else if c == '\n' || c == ',' {
                proof {
                    assert(t.skip(1) =~= self.input@.skip(self.pos as int + 1));
                }
                self.pos = self.pos + 1;
                return Ok(Some(Token::Separator));
            } else {
                let w = self.word();
                let ghost ws = spec_word(t);
                proof {
                    lemma_word_le(t);
                    assert(ws.0.len() >= 1);
                }
                if str_eq(w.as_str(), "BTW") {
                    let ghost r0 = self.rest();
                    while self.pos < self.input.len() && self.input[self.pos] != '\n'
                        invariant
                            self.wf(),
                            self.src() == old(self).src(),
                            self.rest().len() <= r0.len(),
                            spec_skip_line(r0) == spec_skip_line(self.rest()),
                        decreases self.input.len() - self.pos,
                    {
                        proof {
                            assert(self.rest()[0] == self.input@[self.pos as int]);
                            assert(self.rest().skip(1) =~= self.input@.skip(self.pos as int + 1));
                        }
                        self.pos = self.pos + 1;
                    }
                    if self.pos < self.input.len() {
                        proof {
                            assert(self.rest()[0] == self.input@[self.pos as int]);
                            assert(self.rest().skip(1) =~= self.input@.skip(self.pos as int + 1));
                        }
                        self.pos = self.pos + 1;
                    } else {
                        proof {
                            assert(self.rest().len() == 0);
                        }
                    }
                    proof {
                        assert(self.rest() == spec_skip_line(r0));
                        lemma_skip_line_le(r0);
                        assert(self.rest().len() < entry.len());
                    }
                } else if str_eq(w.as_str(), "OBTW") {
                    let ghost r0 = self.rest();
                    proof {
                        assert(spec_next(entry) == spec_obtw(r0));
                    }
                    let mut found = false;
                    while !found
                        invariant
                            self.wf(),
                            self.src() == old(self).src(),
                            self.rest().len() <= r0.len(),
                            !found ==> spec_obtw(self.rest()) == spec_obtw(r0),
                            found ==> spec_next(self.rest()) == spec_obtw(r0),
                        decreases self.input.len() - self.pos,
                    {
                        let ghost cur = self.rest();
                        let p2 = self.peek();
                        let ghost t2 = spec_trim(cur);
                        proof {
                            lemma_trim_le(cur);
                            lemma_trim_first(cur);
                        }
                        match p2 {
                            None => {
                                return Err(Error::UnclosedComment);
                            },
                            Some(c2) => {
                                if c2 == 'T' {
                                    let w2 = self.word();
                                    proof {
                                        lemma_word_le(t2);
                                        assert(spec_word(t2).0.len() >= 1);
                                    }
                                    if str_eq(w2.as_str(), "TLDR") {
                                        found = true;
                                    } else {
                                        if self.pos < self.input.len() {
                                            proof {
                                                assert(self.rest().skip(1)
                                                    =~= self.input@.skip(self.pos as int + 1));
                                            }
                                            self.pos = self.pos + 1;
                                        } else {
                                            proof {
                                                assert(self.rest().len() == 0);
                                            }
                                        }
                                    }
                                } else {
                                    proof {
                                        assert(t2[0] == self.input@[self.pos as int]);
                                        assert(t2.skip(1) =~= self.input@.skip(
                                            self.pos as int + 1,
                                        ));
                                    }
                                    self.pos = self.pos + 1;
                                }
                            },
                        }
                    }
                    proof {
                        assert(self.rest().len() < entry.len());
                    }
                } else if str_eq(w.as_str(), "I") {
                    let saved = self.pos;
                    let ghost r1 = self.rest();
                    let w2 = self.word();
                    let w3 = self.word();
                    if str_eq(w2.as_str(), "HAS") && str_eq(w3.as_str(), "A") {
                        return Ok(Some(Token::IHasA));
                    }
                    self.pos = saved;
                    proof {
                        assert(self.rest() == r1);
                    }
                    return classify_word(w);
                } else {
                    match of_token_exec(w.as_str()) {
                        Some(op) => {
                            let saved = self.pos;
                            let ghost r1 = self.rest();
                            let w2 = self.word();
                            if str_eq(w2.as_str(), "OF") {
                                return Ok(Some(op));
                            }
                            if str_eq(w.as_str(), "BOTH") && str_eq(w2.as_str(), "SAEM") {
                                return Ok(Some(Token::BothSaem));
                            }
                            self.pos = saved;
                            proof {
                                assert(self.rest() == r1);
                            }
                            return classify_word(w);
                        },
                        None => {
                            if str_eq(w.as_str(), "O") {
                                let saved = self.pos;
                                let ghost r1 = self.rest();
                                let w2 = self.word();
                                if str_eq(w2.as_str(), "RLY?") {
                                    return Ok(Some(Token::ORly));
                                }
                                self.pos = saved;
                                proof {
                                    assert(self.rest() == r1);
                                }
                                return classify_word(w);
                            } else if str_eq(w.as_str(), "YA") {
                                let saved = self.pos;
                                let ghost r1 = self.rest();
                                let w2 = self.word();
                                if str_eq(w2.as_str(), "RLY") {
                                    return Ok(Some(Token::YaRly));
                                }
                                self.pos = saved;
                                proof {
                                    assert(self.rest() == r1);
                                }
                                return classify_word(w);
                            } else if str_eq(w.as_str(), "NO") {
                                let saved = self.pos;
                                let ghost r1 = self.rest();
                                let w2 = self.word();
                                if str_eq(w2.as_str(), "WAI") {
                                    return Ok(Some(Token::NoWai));
                                }
                                self.pos = saved;
                                proof {
                                    assert(self.rest() == r1);
                                }
                                return classify_word(w);
                            } else {
                                match single_kw_exec(w.as_str()) {
                                    Some(k) => {
                                        return Ok(Some(k));
                                    },
                                    None => {
                                        return classify_word(w);
                                    },
                                }
                            }
                        },
                    }
                }
            }
        }
    }
}

/// The whole scan in one call: the token sequence of `input`, or the
/// first lexical error, in which case no tokens are handed out.
#[verifier::loop_isolation(false)]
pub fn tokenize(input: &str) -> (r: Result<Vec<Token>, Error>)
    ensures
        ({
            let m = spec_tokenize(input@);
            match (r, m) {
                (Ok(v), Ok(ts)) => v@.map_values(|tok: Token| tok@) == ts,
                (Err(e), Err(em)) => e@ == em,
                _ => false,
            }
        }),
{
    let mut tk = Tokenizer::new(input);
    let mut out: Vec<Token> = Vec::new();
    loop
        invariant
            tk.wf(),
            spec_tokenize(input@) == (match spec_tokenize(tk.rest()) {
                Ok(ts) => Ok::<Seq<TokenModel>, ErrorModel>(
                    out@.map_values(|tok: Token| tok@) + ts,
                ),
                Err(e) => Err(e),
            }),
        decreases tk.rest().len(),
    {
        let ghost prev = tk.rest();
        match tk.next() {
            Ok(Some(tok)) => {
                let ghost out_old = out@;
                proof {
                    lemma_next_progress(prev);
                }
                out.push(tok);
                proof {
                    assert(out@.map_values(|x: Token| x@) =~= out_old.map_values(|x: Token| x@)
                        + seq![tok@]);
                    let (res, rest2) = spec_next(prev);
                    match spec_tokenize(rest2) {
                        Ok(ts) => {
                            assert(out_old.map_values(|x: Token| x@) + (seq![tok@] + ts) =~= (
                            out_old.map_values(|x: Token| x@) + seq![tok@]) + ts);
                        },
                        Err(_) => {},
                    }
                }
            },
            Ok(None) => {
                proof {
                    assert(out@.map_values(|x: Token| x@) + Seq::<TokenModel>::empty()
                        =~= out@.map_values(|x: Token| x@));
                }
                return Ok(out);
            },
            Err(e) => {
                return Err(e);
            },
        }
    }
}

} // verus!
