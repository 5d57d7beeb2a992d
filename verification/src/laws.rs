//! Laws of the scanner, proved against the model in `scan`.

use vstd::prelude::*;
use crate::chars::is_space_char;
use crate::scan::{
    spec_trim, spec_word, spec_skip_line, spec_string, escape_char, spec_next, spec_obtw,
    spec_tokenize, of_token, spec_classify, lemma_trim_le, lemma_trim_first, lemma_word_le,
    lemma_skip_line_le, lemma_next_progress,
};
use crate::token::{ErrorModel, TokenModel};

verus! {

proof fn lemma_trim_concat(u: Seq<char>, e: Seq<char>)
    ensures
        spec_trim(u + e) == (if spec_trim(u).len() > 0 {
            spec_trim(u) + e
        } else {
            spec_trim(e)
        }),
    decreases u.len(),
{
    if u.len() == 0 {
        assert(u + e =~= e);
        assert(spec_trim(u) == u);
    } else if is_space_char(u[0]) {
        assert((u + e)[0] == u[0]);
        assert((u + e).skip(1) =~= u.skip(1) + e);
        lemma_trim_concat(u.skip(1), e);
    } else {
        assert((u + e)[0] == u[0]);
        assert(spec_trim(u) == u);
        assert(spec_trim(u + e) == u + e);
    }
}

proof fn lemma_trim_idem(u: Seq<char>)
    ensures
        spec_trim(spec_trim(u)) == spec_trim(u),
{
    lemma_trim_first(u);
    let t = spec_trim(u);
    if t.len() == 0 {
        assert(spec_trim(t) == t);
    } else {
        assert(!is_space_char(t[0]));
        assert(spec_trim(t) == t);
    }
}

proof fn lemma_trim_keeps_no_newline(u: Seq<char>)
    requires
        forall|i: int| 0 <= i < u.len() ==> u[i] != '\n',
    ensures
        forall|i: int| 0 <= i < spec_trim(u).len() ==> spec_trim(u)[i] != '\n',
    decreases u.len(),
{
    if u.len() > 0 && is_space_char(u[0]) {
        assert(forall|i: int| 0 <= i < u.skip(1).len() ==> u.skip(1)[i] == u[i + 1]);
        lemma_trim_keeps_no_newline(u.skip(1));
        assert(spec_trim(u) == spec_trim(u.skip(1)));
    } else {
        assert(spec_trim(u) == u);
    }
}

proof fn lemma_skip_line_none(u: Seq<char>)
    requires
        forall|i: int| 0 <= i < u.len() ==> u[i] != '\n',
    ensures
        spec_skip_line(u).len() == 0,
    decreases u.len(),
{
    if u.len() > 0 {
        assert(forall|i: int| 0 <= i < u.skip(1).len() ==> u.skip(1)[i] == u[i + 1]);
        lemma_skip_line_none(u.skip(1));
    }
}

proof fn lemma_skip_line_concat2(u: Seq<char>, e: Seq<char>)
    requires
        exists|i: int| 0 <= i < u.len() && u[i] == '\n',
    ensures
        spec_skip_line(u + e) == spec_skip_line(u) + e,
    decreases u.len(),
{
    assert((u + e)[0] == u[0]);
    if u[0] == '\n' {
        assert((u + e).skip(1) =~= u.skip(1) + e);
    } else {
        assert((u + e).skip(1) =~= u.skip(1) + e);
        let i = choose|i: int| 0 <= i < u.len() && u[i] == '\n';
        assert(u.skip(1)[i - 1] == u[i]);
        lemma_skip_line_concat2(u.skip(1), e);
    }
}

proof fn lemma_string_concat(x: Seq<char>, e: Seq<char>)
    requires
        spec_string(x) is Ok,
    ensures
        match (spec_string(x), spec_string(x + e)) {
            (Ok(p), Ok(q)) => q.0 == p.0 && q.1 == p.1 + e,
            _ => false,
        },
    decreases x.len(),
{
    assert((x + e)[0] == x[0]);
    if x[0] == '"' {
        assert((x + e).skip(1) =~= x.skip(1) + e);
    } else if x[0] == ':' {
        assert((x + e)[1] == x[1]);
        assert((x + e).skip(2) =~= x.skip(2) + e);
        lemma_string_concat(x.skip(2), e);
    } else {
        assert((x + e).skip(1) =~= x.skip(1) + e);
        lemma_string_concat(x.skip(1), e);
    }
}

proof fn lemma_word_concat(u: Seq<char>, e: Seq<char>)
    requires
        e.len() > 0,
        is_space_char(e[0]),
    ensures
        spec_word(u + e).0 == spec_word(u).0,
        spec_word(u).1.len() > 0 ==> spec_word(u + e).1 == spec_word(u).1 + e,
        spec_word(u).1.len() == 0 ==> spec_word(u + e).1 == spec_trim(e),
    decreases u.len(),
{
    if u.len() == 0 {
        assert(u + e =~= e);
    } else if is_space_char(u[0]) {
        assert((u + e)[0] == u[0]);
        lemma_trim_concat(u, e);
    } else if u[0] == '\n' || u[0] == ',' {
        assert((u + e)[0] == u[0]);
    } else {
        assert((u + e)[0] == u[0]);
        assert((u + e).skip(1) =~= u.skip(1) + e);
        lemma_word_concat(u.skip(1), e);
    }
}

proof fn lemma_next_of_trim(x: Seq<char>)
    ensures
        spec_next(spec_trim(x)) == spec_next(x),
        spec_tokenize(spec_trim(x)) == spec_tokenize(x),
{
    lemma_trim_idem(x);
}

proof fn lemma_word_after(r: Seq<char>, e: Seq<char>)
    requires
        e.len() > 0,
        is_space_char(e[0]),
        spec_word(spec_trim(e)).0 == "BTW"@,
    ensures
        ({
            let rx = if r.len() > 0 {
                r + e
            } else {
                spec_trim(e)
            };
            &&& (r.len() > 0 ==> spec_word(rx).0 == spec_word(r).0)
            &&& (r.len() == 0 ==> spec_word(rx).0 == "BTW"@ && spec_word(r).0.len() == 0)
            &&& (r.len() > 0 && spec_word(r).1.len() > 0 ==> spec_word(rx).1 == spec_word(r).1
                + e)
            &&& (r.len() > 0 && spec_word(r).1.len() == 0 ==> spec_word(rx).1 == spec_trim(e))
        }),
{
    if r.len() > 0 {
        lemma_word_concat(r, e);
    }
}

proof fn lemma_rest_equiv(rr: Seq<char>, rx: Seq<char>, e: Seq<char>)
    requires
        rx == (if rr.len() > 0 {
            rr + e
        } else {
            spec_trim(e)
        }),
    ensures
        spec_trim(rx) == spec_trim(rr + e),
{
    if rr.len() == 0 {
        assert(rr + e =~= e);
        lemma_trim_idem(e);
    }
}

#[verifier::rlimit(100)]
proof fn lemma_next_append(s: Seq<char>, e: Seq<char>)
    requires
        e.len() > 0,
        is_space_char(e[0]),
        spec_word(spec_trim(e)).0 == "BTW"@,
        spec_next(s).0 matches Ok(Some(_)),
    ensures
        spec_next(s + e).0 == spec_next(s).0,
        spec_trim(spec_next(s + e).1) == spec_trim(spec_next(s).1 + e),
    decreases s.len(),
{
    reveal_strlit("BTW");
    reveal_strlit("OBTW");
    reveal_strlit("HAS");
    reveal_strlit("A");
    reveal_strlit("OF");
    reveal_strlit("SAEM");
    reveal_strlit("RLY?");
    reveal_strlit("RLY");
    reveal_strlit("WAI");
    assert("BTW"@.len() == 3);
    assert("A"@.len() == 1);
    assert("HAS"@.len() == 3 && "HAS"@[0] == 'H');
    assert("OF"@.len() == 2);
    assert("SAEM"@.len() == 4);
    assert("RLY?"@.len() == 4);
    assert("RLY"@.len() == 3 && "RLY"@[0] == 'R');
    assert("WAI"@.len() == 3 && "WAI"@[0] == 'W');
    let t = spec_trim(s);
    lemma_trim_concat(s, e);
    lemma_trim_le(s);
    lemma_trim_first(s);
    assert(t.len() > 0);
    let t2 = spec_trim(s + e);
    assert(t2 == t + e);
    assert(t2[0] == t[0]);
    if t[0] == '"' {
        assert(spec_string(t.skip(1)) is Ok);
        assert(t2.skip(1) =~= t.skip(1) + e);
        lemma_string_concat(t.skip(1), e);
    } else if t[0] == '\n' || t[0] == ',' {
        assert(t2.skip(1) =~= t.skip(1) + e);
    } else {
        let (w, r) = spec_word(t);
        lemma_word_concat(t, e);
        lemma_word_le(t);
        assert(w.len() >= 1);
        let rx = if r.len() > 0 {
            r + e
        } else {
            spec_trim(e)
        };
        assert(spec_word(t2).0 == w);
        assert(spec_word(t2).1 == rx);
        lemma_word_after(r, e);
        if w == "BTW"@ {
            if exists|i: int| 0 <= i < r.len() && r[i] == '\n' {
                assert(r.len() > 0);
                lemma_skip_line_concat2(r, e);
                lemma_skip_line_le(r);
                lemma_next_append(spec_skip_line(r), e);
            } else {
                lemma_skip_line_none(r);
                assert(spec_trim(spec_skip_line(r)).len() == 0);
                assert(false);
            }
        } else if w == "OBTW"@ {
            if r.len() == 0 {
                assert(spec_trim(r).len() == 0);
                assert(false);
            }
            lemma_obtw_append(r, e);
        } else if w == "I"@ {
            let (wa, ra) = spec_word(r);
            let (wb, rb) = spec_word(ra);
            let wa2 = spec_word(rx).0;
            let ra2 = spec_word(rx).1;
            if r.len() > 0 {
                assert(wa2 == wa);
                lemma_word_after(ra, e);
                let rax = if ra.len() > 0 {
                    ra + e
                } else {
                    spec_trim(e)
                };
                assert(ra2 == rax);
                let wb2 = spec_word(rax).0;
                let rb2 = spec_word(rax).1;
                if ra.len() > 0 {
                    assert(wb2 == wb);
                    if wa == "HAS"@ && wb == "A"@ {
                        lemma_word_after(rb, e);
                        lemma_rest_equiv(rb, rb2, e);
                    } else {
                        lemma_rest_equiv(r, rx, e);
                    }
                } else {
                    assert(wb.len() == 0);
                    assert(wb2 == "BTW"@);
                    assert(wb != "A"@);
                    assert(wb2 != "A"@);
                    lemma_rest_equiv(r, rx, e);
                }
            } else {
                assert(wa.len() == 0);
                assert(wa2 == "BTW"@);
                assert(wa != "HAS"@);
                assert(wa2 != "HAS"@);
                lemma_rest_equiv(r, rx, e);
            }
        } else {
            match of_token(w) {
                Some(op) => {
                    let (wa, ra) = spec_word(r);
                    let wa2 = spec_word(rx).0;
                    let ra2 = spec_word(rx).1;
                    if r.len() > 0 {
                        assert(wa2 == wa);
                        if wa == "OF"@ || (w == "BOTH"@ && wa == "SAEM"@) {
                            lemma_rest_equiv(ra, ra2, e);
                        } else {
                            lemma_rest_equiv(r, rx, e);
                        }
                    } else {
                        assert(wa.len() == 0);
                        assert(wa2 == "BTW"@);
                        assert(wa != "OF"@ && wa2 != "OF"@);
                        assert(wa != "SAEM"@ && wa2 != "SAEM"@);
                        lemma_rest_equiv(r, rx, e);
                    }
                },
                None => {
                    if w == "O"@ || w == "YA"@ || w == "NO"@ {
                        let (wa, ra) = spec_word(r);
                        let wa2 = spec_word(rx).0;
                        let ra2 = spec_word(rx).1;
                        if r.len() > 0 {
                            assert(wa2 == wa);
                            if wa == "RLY?"@ || wa == "RLY"@ || wa == "WAI"@ {
                                lemma_rest_equiv(ra, ra2, e);
                            } else {
                                lemma_rest_equiv(r, rx, e);
                            }
                        } else {
                            assert(wa.len() == 0);
                            assert(wa2 == "BTW"@);
                            assert(wa != "RLY?"@ && wa2 != "RLY?"@);
                            assert(wa != "RLY"@ && wa2 != "RLY"@);
                            assert(wa != "WAI"@ && wa2 != "WAI"@);
                            lemma_rest_equiv(r, rx, e);
                        }
                    } else {
                        lemma_rest_equiv(r, rx, e);
                    }
                },
            }
        }
    }
}

#[verifier::rlimit(100)]
proof fn lemma_obtw_append(s: Seq<char>, e: Seq<char>)
    requires
        e.len() > 0,
        is_space_char(e[0]),
        spec_word(spec_trim(e)).0 == "BTW"@,
        spec_obtw(s).0 matches Ok(Some(_)),
    ensures
        spec_obtw(s + e).0 == spec_obtw(s).0,
        spec_trim(spec_obtw(s + e).1) == spec_trim(spec_obtw(s).1 + e),
    decreases s.len(),
{
    reveal_strlit("TLDR");
    let t = spec_trim(s);
    lemma_trim_concat(s, e);
    lemma_trim_le(s);
    lemma_trim_first(s);
    assert(t.len() > 0);
    let t2 = spec_trim(s + e);
    assert(t2 == t + e);
    assert(t2[0] == t[0]);
    if t[0] == 'T' {
        let (w, r) = spec_word(t);
        lemma_word_concat(t, e);
        lemma_word_le(t);
        assert(w.len() >= 1);
        assert(spec_word(t2).0 == w);
        if w == "TLDR"@ {
            if r.len() == 0 {
                assert(spec_trim(r).len() == 0);
                assert(spec_next(r).0 matches Ok(None));
                assert(false);
            }
            assert(spec_word(t2).1 == r + e);
            lemma_next_append(r, e);
        } else {
            if r.len() == 0 {
                reveal_with_fuel(spec_obtw, 2);
                assert(spec_trim(r).len() == 0);
                assert(false);
            }
            assert(spec_word(t2).1 == r + e);
            assert((r + e).len() > 0);
            assert((r + e).skip(1) =~= r.skip(1) + e);
            lemma_obtw_append(r.skip(1), e);
        }
    } else {
        assert(t2.skip(1) =~= t.skip(1) + e);
        lemma_obtw_append(t.skip(1), e);
    }
}

proof fn lemma_word_btw(x: Seq<char>)
    ensures
        spec_word(seq!['B', 'T', 'W', ' '] + x).0 == "BTW"@,
        spec_word(seq!['B', 'T', 'W', ' '] + x).1 == spec_trim(x),
{
    reveal_strlit("BTW");
    let s = seq!['B', 'T', 'W', ' '] + x;
    let s1 = seq!['T', 'W', ' '] + x;
    let s2 = seq!['W', ' '] + x;
    let s3 = seq![' '] + x;
    assert(s[0] == 'B');
    assert(s1[0] == 'T');
    assert(s2[0] == 'W');
    assert(s3[0] == ' ');
    assert(s.skip(1) =~= s1);
    assert(s1.skip(1) =~= s2);
    assert(s2.skip(1) =~= s3);
    assert(s3.skip(1) =~= x);
    assert(spec_trim(s3) == spec_trim(x));
    assert(spec_word(s3) == (Seq::<char>::empty(), spec_trim(x)));
    assert(spec_word(s2).0 == seq!['W'] + spec_word(s3).0);
    assert(spec_word(s2).1 == spec_word(s3).1);
    assert(spec_word(s1).0 == seq!['T'] + spec_word(s2).0);
    assert(spec_word(s1).1 == spec_word(s2).1);
    assert(spec_word(s).0 == seq!['B'] + spec_word(s1).0);
    assert(spec_word(s).1 == spec_word(s1).1);
    assert(spec_word(s).0 =~= "BTW"@);
}

proof fn lemma_next_btw_tail(t: Seq<char>)
    requires
        forall|i: int| 0 <= i < t.len() ==> t[i] != '\n',
    ensures
        spec_next(seq!['B', 'T', 'W', ' '] + t).0 matches Ok(None),
{
    reveal_with_fuel(spec_next, 2);
    reveal_strlit("BTW");
    let x = seq!['B', 'T', 'W', ' '] + t;
    assert(x[0] == 'B');
    assert(!is_space_char(x[0]));
    assert(spec_trim(x) == x);
    lemma_word_btw(t);
    lemma_trim_keeps_no_newline(t);
    lemma_skip_line_none(spec_trim(t));
    let z = spec_skip_line(spec_trim(t));
    assert(z.len() == 0);
    assert(spec_trim(z).len() == 0);
}

#[verifier::rlimit(100)]
proof fn lemma_next_append_none(s: Seq<char>, e: Seq<char>)
    requires
        e.len() > 0,
        is_space_char(e[0]),
        spec_word(spec_trim(e)).0 == "BTW"@,
        forall|i: int| 0 <= i < e.len() ==> e[i] != '\n',
        spec_next(spec_trim(e)).0 matches Ok(None),
        spec_next(s).0 matches Ok(None),
    ensures
        spec_next(s + e).0 matches Ok(None),
    decreases s.len(),
{
    reveal_with_fuel(spec_next, 2);
    reveal_strlit("BTW");
    reveal_strlit("OBTW");
    let t = spec_trim(s);
    lemma_trim_concat(s, e);
    lemma_trim_le(s);
    lemma_trim_first(s);
    if t.len() == 0 {
        lemma_next_of_trim(s + e);
        assert(spec_trim(s + e) == spec_trim(e));
    } else {
        let t2 = spec_trim(s + e);
        assert(t2 == t + e);
        assert(t2[0] == t[0]);
        if t[0] == '"' {
            match spec_string(t.skip(1)) {
                Ok(_) => {
                    assert(false);
                },
                Err(_) => {
                    assert(false);
                },
            }
        } else if t[0] == '\n' || t[0] == ',' {
            assert(false);
        } else {
            let (w, r) = spec_word(t);
            lemma_word_concat(t, e);
            lemma_word_le(t);
            lemma_word_after(r, e);
            let rx = if r.len() > 0 {
                r + e
            } else {
                spec_trim(e)
            };
            assert(spec_word(t2).0 == w);
            assert(spec_word(t2).1 == rx);
            if w == "BTW"@ {
                if exists|i: int| 0 <= i < r.len() && r[i] == '\n' {
                    assert(r.len() > 0);
                    lemma_skip_line_concat2(r, e);
                    lemma_skip_line_le(r);
                    lemma_next_append_none(spec_skip_line(r), e);
                } else {
                    if r.len() > 0 {
                        assert(forall|i: int|
                            0 <= i < (r + e).len() ==> (r + e)[i] != '\n') by {
                            assert(forall|i: int| 0 <= i < r.len() ==> (r + e)[i] == r[i]);
                            assert(forall|i: int|
                                r.len() <= i < (r + e).len() ==> (r + e)[i] == e[
                                    i - r.len()
                                ]);
                        }
                        lemma_skip_line_none(r + e);
                    } else {
                        lemma_trim_keeps_no_newline(e);
                        lemma_skip_line_none(spec_trim(e));
                    }
                    assert(spec_skip_line(rx).len() == 0);
                    assert(spec_trim(spec_skip_line(rx)).len() == 0);
                }
            } else if w == "OBTW"@ {
                if r.len() == 0 {
                    assert(spec_trim(r).len() == 0);
                    assert(false);
                }
                lemma_obtw_append_none(r, e);
            } else {
                assert(!(spec_classify(w) matches Ok(None)));
                assert(false);
            }
        }
    }
}

#[verifier::rlimit(100)]
proof fn lemma_obtw_append_none(s: Seq<char>, e: Seq<char>)
    requires
        e.len() > 0,
        is_space_char(e[0]),
        spec_word(spec_trim(e)).0 == "BTW"@,
        forall|i: int| 0 <= i < e.len() ==> e[i] != '\n',
        spec_next(spec_trim(e)).0 matches Ok(None),
        spec_obtw(s).0 matches Ok(None),
    ensures
        spec_obtw(s + e).0 matches Ok(None),
    decreases s.len(),
{
    reveal_strlit("TLDR");
    let t = spec_trim(s);
    lemma_trim_concat(s, e);
    lemma_trim_le(s);
    lemma_trim_first(s);
    assert(t.len() > 0);
    let t2 = spec_trim(s + e);
    assert(t2 == t + e);
    assert(t2[0] == t[0]);
    if t[0] == 'T' {
        let (w, r) = spec_word(t);
        lemma_word_concat(t, e);
        lemma_word_le(t);
        lemma_word_after(r, e);
        assert(spec_word(t2).0 == w);
        if w == "TLDR"@ {
            if r.len() > 0 {
                assert(spec_word(t2).1 == r + e);
                lemma_next_append_none(r, e);
            } else {
                assert(spec_word(t2).1 == spec_trim(e));
            }
        } else {
            if r.len() == 0 {
                reveal_with_fuel(spec_obtw, 2);
                assert(spec_trim(r).len() == 0);
                assert(false);
            }
            assert(spec_word(t2).1 == r + e);
            assert((r + e).len() > 0);
            assert((r + e).skip(1) =~= r.skip(1) + e);
            lemma_obtw_append_none(r.skip(1), e);
        }
    } else {
        assert(t2.skip(1) =~= t.skip(1) + e);
        lemma_obtw_append_none(t.skip(1), e);
    }
}

/// A trailing line comment is invisible: where a scan succeeds, appending
/// ` BTW ` and then anything without a newline leaves its tokens exactly
/// as they were.
pub proof fn lemma_trailing_comment_invisible(s: Seq<char>, t: Seq<char>)
    requires
        spec_tokenize(s) is Ok,
        forall|i: int| 0 <= i < t.len() ==> t[i] != '\n',
    ensures
        spec_tokenize(s + (seq![' ', 'B', 'T', 'W', ' '] + t)) == spec_tokenize(s),
    decreases s.len(),
{
    let e = seq![' ', 'B', 'T', 'W', ' '] + t;
    assert(e[0] == ' ');
    assert(is_space_char(e[0]));
    let e1 = seq!['B', 'T', 'W', ' '] + t;
    assert(e.skip(1) =~= e1);
    assert(e1[0] == 'B');
    assert(spec_trim(e1) == e1);
    assert(spec_trim(e) == spec_trim(e1));
    lemma_word_btw(t);
    lemma_next_btw_tail(t);
    assert(forall|i: int| 0 <= i < e.len() ==> e[i] != '\n') by {
        assert(e[1] == 'B' && e[2] == 'T' && e[3] == 'W' && e[4] == ' ');
        assert(forall|i: int| 5 <= i < e.len() ==> e[i] == t[i - 5]);
    }
    let (res, r) = spec_next(s);
    match res {
        Ok(opt) => match opt {
            Some(_) => {
                lemma_next_append(s, e);
                lemma_next_progress(s);
                assert(spec_tokenize(r) is Ok);
                lemma_trailing_comment_invisible(r, t);
                let r2 = spec_next(s + e).1;
                lemma_next_of_trim(r2);
                lemma_next_of_trim(r + e);
                assert(spec_tokenize(r2) == spec_tokenize(r + e));
            },
            None => {
                lemma_next_append_none(s, e);
            },
        },
        Err(_) => {
            assert(false);
        },
    }
}

/// The escape table holds exactly its five documented pairs: `:)` is a
/// newline, `:>` a tab, `:o` a bell, `:"` a quote, `::` a colon, and no
/// other character is a legal escape.
pub proof fn lemma_escape_table()
    ensures
        escape_char(')') == Some('\n'),
        escape_char('>') == Some('\t'),
        escape_char('o') == Some('\u{7}'),
        escape_char('"') == Some('"'),
        escape_char(':') == Some(':'),
        forall|c: char|
            !(c == ')' || c == '>' || c == 'o' || c == '"' || c == ':') ==> escape_char(c)
                is None,
{
}

/// Decoding a legal escape is deterministic and total: a string literal
/// holding just that escape scans to exactly the documented character.
pub proof fn lemma_escape_decodes(c: char, d: char)
    requires
        escape_char(c) == Some(d),
    ensures
        spec_string(seq![':', c, '"']) == Ok::<(Seq<char>, Seq<char>), ErrorModel>(
            (seq![d], Seq::<char>::empty()),
        ),
{
    let s = seq![':', c, '"'];
    assert(s.skip(2) =~= seq!['"']);
    assert(seq!['"'].skip(1) =~= Seq::<char>::empty());
    assert(spec_string(seq!['"']) == Ok::<(Seq<char>, Seq<char>), ErrorModel>(
        (Seq::<char>::empty(), Seq::<char>::empty()),
    ));
    assert(seq![d] + Seq::<char>::empty() =~= seq![d]);
}

/// A newline or a comma at the head of the input yields exactly one
/// separator token and consumes exactly that one character.
pub proof fn lemma_separator(s: Seq<char>)
    requires
        s.len() > 0,
        s[0] == '\n' || s[0] == ',',
    ensures
        spec_next(s) == (
            Ok::<Option<TokenModel>, ErrorModel>(Some(TokenModel::Separator)),
            s.skip(1),
        ),
{
}

proof fn lemma_skip_line_concat(u: Seq<char>, r: Seq<char>)
    requires
        forall|i: int| 0 <= i < u.len() ==> u[i] != '\n',
    ensures
        spec_skip_line(u + seq!['\n'] + r) == r,
    decreases u.len(),
{
    let x = u + seq!['\n'] + r;
    if u.len() == 0 {
        assert(x[0] == '\n');
        assert(x.skip(1) =~= r);
    } else {
        assert(x[0] == u[0]);
        assert(x.skip(1) =~= u.skip(1) + seq!['\n'] + r);
        lemma_skip_line_concat(u.skip(1), r);
    }
}

proof fn lemma_comment_skip(t: Seq<char>, r: Seq<char>)
    requires
        forall|i: int| 0 <= i < t.len() ==> t[i] != '\n',
    ensures
        spec_skip_line(spec_trim(t + seq!['\n'] + r)) == r,
    decreases t.len(),
{
    let x = t + seq!['\n'] + r;
    if t.len() == 0 {
        assert(x =~= seq!['\n'] + r);
        assert(x[0] == '\n');
        assert(!is_space_char(x[0]));
        assert(spec_trim(x) == x);
        assert(x.skip(1) =~= r);
    } else if is_space_char(t[0]) {
        assert(x[0] == t[0]);
        assert(x.skip(1) =~= t.skip(1) + seq!['\n'] + r);
        lemma_comment_skip(t.skip(1), r);
    } else {
        assert(x[0] == t[0]);
        assert(spec_trim(x) == x);
        assert(x.skip(1) =~= t.skip(1) + seq!['\n'] + r);
        lemma_skip_line_concat(t.skip(1), r);
    }
}

/// A line comment is invisible to the token stream: a `BTW` word, then
/// anything without a newline, then the newline itself, scans exactly as
/// the input after that newline does. In particular the comment never
/// yields a separator of its own.
pub proof fn lemma_line_comment_invisible(t: Seq<char>, r: Seq<char>)
    requires
        forall|i: int| 0 <= i < t.len() ==> t[i] != '\n',
    ensures
        spec_next(seq!['B', 'T', 'W', ' '] + t + seq!['\n'] + r) == spec_next(r),
{
    reveal_strlit("BTW");
    let x = t + seq!['\n'] + r;
    let s = seq!['B', 'T', 'W', ' '] + t + seq!['\n'] + r;
    assert(s =~= seq!['B', 'T', 'W', ' '] + x);
    assert(s[0] == 'B');
    assert(!is_space_char(s[0]));
    assert(spec_trim(s) == s);
    lemma_word_btw(x);
    lemma_comment_skip(t, r);
    assert(spec_next(s) == spec_next(spec_skip_line(spec_trim(x))));
}

} // verus!
