//! Numeric text: what a run of digits is worth, which words are integer
//! literals, and which words the float grammar accepts.
//!
//! The float grammar is the one of ordinary decimal literals: an optional
//! sign, then either a special word (`inf`, `infinity`, `nan`, in any case)
//! or a mantissa of digits with at most one point and at least one digit,
//! then an optional exponent `e`/`E` with an optional sign and at least one
//! digit.

use vstd::prelude::*;
use crate::chars::{is_digit_char, digit_val, lower_char};
use crate::chars::{digit_check, digit_value, lower};

verus! {

/// Every character of `s` is a decimal digit.
pub open spec fn all_digits(s: Seq<char>) -> bool {
    forall|i: int| 0 <= i < s.len() ==> is_digit_char(s[i])
}

/// The value of a run of decimal digits, most significant first.
pub open spec fn digits_val(s: Seq<char>) -> nat
    decreases s.len(),
{
    if s.len() == 0 {
        0
    } else {
        digits_val(s.take(s.len() - 1)) * 10 + digit_val(s.last())
    }
}

pub proof fn lemma_digits_val_step(s: Seq<char>, i: int)
    requires
        0 <= i < s.len(),
    ensures
        digits_val(s.take(i + 1)) == digits_val(s.take(i)) * 10 + digit_val(s[i]),
{
    let t = s.take(i + 1);
    assert(t.take(i) =~= s.take(i));
    assert(t.last() == s[i]);
}

pub proof fn lemma_digits_val_prefix_le(s: Seq<char>, k: int)
    requires
        0 <= k <= s.len(),
    ensures
        digits_val(s.take(k)) <= digits_val(s),
    decreases s.len(),
{
    if k == s.len() {
        assert(s.take(k) =~= s);
    } else {
        let t = s.take(s.len() - 1);
        assert(t.take(k) =~= s.take(k));
        lemma_digits_val_prefix_le(t, k);
    }
}

/// What may follow the `e` of an exponent: an optional sign, then at least
/// one digit and nothing else.
pub open spec fn is_exp_tail(s: Seq<char>) -> bool {
    if s.len() > 0 && (s[0] == '+' || s[0] == '-') {
        s.len() > 1 && all_digits(s.skip(1))
    } else {
        s.len() > 0 && all_digits(s)
    }
}

/// The mantissa-and-exponent recognizer, one character at a time.
/// `seen_digit` and `seen_dot` say what the already-consumed prefix held.
pub open spec fn num_tail(s: Seq<char>, seen_digit: bool, seen_dot: bool) -> bool
    decreases s.len(),
{
    if s.len() == 0 {
        seen_digit
    } else if is_digit_char(s[0]) {
        num_tail(s.skip(1), true, seen_dot)
    } else if s[0] == '.' && !seen_dot {
        num_tail(s.skip(1), seen_digit, true)
    } else if (s[0] == 'e' || s[0] == 'E') && seen_digit {
        is_exp_tail(s.skip(1))
    } else {
        false
    }
}

/// `s` lower-cased character by character.
pub open spec fn lower_seq(s: Seq<char>) -> Seq<char> {
    Seq::new(s.len(), |i: int| lower_char(s[i]))
}

/// The special float words, in any case.
pub open spec fn is_special_float(s: Seq<char>) -> bool {
    ||| lower_seq(s) == seq!['i', 'n', 'f']
    ||| lower_seq(s) == seq!['i', 'n', 'f', 'i', 'n', 'i', 't', 'y']
    ||| lower_seq(s) == seq!['n', 'a', 'n']
}

/// The body of a float literal, after the optional leading sign.
pub open spec fn is_float_tail(s: Seq<char>) -> bool {
    is_special_float(s) || num_tail(s, false, false)
}

/// `s` is a float literal: what a standard decimal-to-float parse accepts.
pub open spec fn is_float_text(s: Seq<char>) -> bool {
    if s.len() > 0 && (s[0] == '+' || s[0] == '-') {
        is_float_tail(s.skip(1))
    } else {
        is_float_tail(s)
    }
}

fn all_digits_from(s: &str, n: usize, i: usize) -> (b: bool)
    requires
        n == s@.len(),
        i <= n,
    ensures
        b == all_digits(s@.skip(i as int)),
{
    let mut j: usize = i;
    while j < n
        invariant
            n == s@.len(),
            i <= j <= n,
            forall|k: int| i <= k < j ==> is_digit_char(s@[k]),
        decreases n - j,
    {
        let c = s.get_char(j);
        if !digit_check(c) {
            assert(s@.skip(i as int)[j - i] == s@[j as int]);
            return false;
        }
        j = j + 1;
    }
    assert forall|m: int| 0 <= m < s@.skip(i as int).len() implies is_digit_char(
        s@.skip(i as int)[m],
    ) by {
        assert(s@.skip(i as int)[m] == s@[i + m]);
        assert(is_digit_char(s@[i + m]));
    }
    true
}

fn exp_tail_from(s: &str, n: usize, i: usize) -> (b: bool)
    requires
        n == s@.len(),
        i <= n,
    ensures
        b == is_exp_tail(s@.skip(i as int)),
{
    let ghost t = s@.skip(i as int);
    if i < n {
        let c = s.get_char(i);
        if c == '+' || c == '-' {
            proof {
                assert(t.skip(1) =~= s@.skip(i as int + 1));
            }
            return i + 1 < n && all_digits_from(s, n, i + 1);
        }
    }
    i < n && all_digits_from(s, n, i)
}

fn num_tail_from(s: &str, n: usize, i: usize, seen_digit: bool, seen_dot: bool) -> (b: bool)
    requires
        n == s@.len(),
        i <= n,
    ensures
        b == num_tail(s@.skip(i as int), seen_digit, seen_dot),
    decreases n - i,
{
    if i == n {
        return seen_digit;
    }
    let c = s.get_char(i);
    proof {
        assert(s@.skip(i as int).skip(1) =~= s@.skip(i as int + 1));
    }
    if digit_check(c) {
        num_tail_from(s, n, i + 1, true, seen_dot)
    } else if c == '.' && !seen_dot {
        num_tail_from(s, n, i + 1, seen_digit, true)
    } else if (c == 'e' || c == 'E') && seen_digit {
        exp_tail_from(s, n, i + 1)
    } else {
        false
    }
}

fn special_float_from(s: &str, n: usize, i: usize) -> (b: bool)
    requires
        n == s@.len(),
        i <= n,
    ensures
        b == is_special_float(s@.skip(i as int)),
{
    let ghost t = s@.skip(i as int);
    let m = n - i;
    if m == 3 {
        let c0 = lower(s.get_char(i));
        let c1 = lower(s.get_char(i + 1));
        let c2 = lower(s.get_char(i + 2));
        let inf = c0 == 'i' && c1 == 'n' && c2 == 'f';
        let nan = c0 == 'n' && c1 == 'a' && c2 == 'n';
        proof {
            assert(lower_seq(t).len() == 3);
            assert(lower_seq(t)[0] == lower_char(s@[i as int]));
            assert(lower_seq(t)[1] == lower_char(s@[i as int + 1]));
            assert(lower_seq(t)[2] == lower_char(s@[i as int + 2]));
            if inf {
                assert(lower_seq(t) =~= seq!['i', 'n', 'f']);
            }
            if nan {
                assert(lower_seq(t) =~= seq!['n', 'a', 'n']);
            }
        }
        inf || nan
    } else if m == 8 {
        let c0 = lower(s.get_char(i));
        let c1 = lower(s.get_char(i + 1));
        let c2 = lower(s.get_char(i + 2));
        let c3 = lower(s.get_char(i + 3));
        let c4 = lower(s.get_char(i + 4));
        let c5 = lower(s.get_char(i + 5));
        let c6 = lower(s.get_char(i + 6));
        let c7 = lower(s.get_char(i + 7));
        let infy = c0 == 'i' && c1 == 'n' && c2 == 'f' && c3 == 'i' && c4 == 'n' && c5 == 'i'
            && c6 == 't' && c7 == 'y';
        proof {
            assert(lower_seq(t).len() == 8);
            assert forall|k: int| 0 <= k < 8 implies lower_seq(t)[k] == lower_char(
                s@[i + k],
            ) by {}
            if infy {
                assert(lower_seq(t) =~= seq!['i', 'n', 'f', 'i', 'n', 'i', 't', 'y']);
            }
        }
        infy
    } else {
        proof {
            assert(lower_seq(t).len() == m);
        }
        false
    }
}

/// Whether the float grammar accepts `s`.
pub fn float_text_check(s: &str) -> (b: bool)
    ensures
        b == is_float_text(s@),
{
    let n = s.unicode_len();
    if n > 0 {
        let c = s.get_char(0);
        if c == '+' || c == '-' {
            proof {
                assert(s@.skip(1) =~= s@.skip(0).skip(1));
                assert(s@.skip(0) =~= s@);
            }
            return special_float_from(s, n, 1) || num_tail_from(s, n, 1, false, false);
        }
    }
    proof {
        assert(s@.skip(0) =~= s@);
    }
    special_float_from(s, n, 0) || num_tail_from(s, n, 0, false, false)
}

/// If `s` is all digits and their value fits a signed 64-bit integer, that
/// value; `None` otherwise.
pub fn parse_digits_i64(s: &str) -> (r: Option<i64>)
    ensures
        match r {
            Some(v) => all_digits(s@) && v >= 0 && v as nat == digits_val(s@),
            None => !(all_digits(s@) && digits_val(s@) <= i64::MAX as nat),
        },
{
    let n = s.unicode_len();
    let mut i: usize = 0;
    let mut acc: u64 = 0;
    while i < n
        invariant
            n == s@.len(),
            0 <= i <= n,
            all_digits(s@.take(i as int)),
            acc <= i64::MAX as u64,
            acc as nat == digits_val(s@.take(i as int)),
        decreases n - i,
    {
        let c = s.get_char(i);
        if !digit_check(c) {
            return None;
        }
        let d = digit_value(c);
        let wide: u128 = (acc as u128) * 10 + (d as u128);
        proof {
            lemma_digits_val_step(s@, i as int);
        }
        if wide > i64::MAX as u128 {
            proof {
                lemma_digits_val_prefix_le(s@, i as int + 1);
            }
            return None;
        }
        acc = wide as u64;
        i = i + 1;
        proof {
            assert(all_digits(s@.take(i as int))) by {
                assert(forall|k: int|
                    0 <= k < i ==> s@.take(i as int)[k] == s@.take(i as int - 1).push(
                        s@[i - 1],
                    )[k]);
                assert(s@.take(i as int) =~= s@.take(i as int - 1).push(s@[i - 1]));
            }
        }
    }
    proof {
        assert(s@.take(n as int) =~= s@);
    }
    Some(acc as i64)
}

/// The character of one decimal digit.
pub open spec fn digit_char(d: nat) -> char {
    (48 + d) as char
}

/// The decimal rendering of an unsigned number, most significant first.
pub open spec fn u64_dec(n: nat) -> Seq<char>
    decreases n,
{
    if n < 10 {
        seq![digit_char(n)]
    } else {
        u64_dec(n / 10) + seq![digit_char(n % 10)]
    }
}

/// The decimal rendering of a signed number.
pub open spec fn i64_dec(n: int) -> Seq<char> {
    if n < 0 {
        seq!['-'] + u64_dec((-n) as nat)
    } else {
        u64_dec(n as nat)
    }
}

fn push_u64_dec(out: &mut String, n: u64)
    ensures
        final(out)@ == old(out)@ + u64_dec(n as nat),
    decreases n,
{
    if n >= 10 {
        push_u64_dec(out, n / 10);
    }
    let d: u8 = (n % 10) as u8 + 48;
    crate::tokenizer::push_char(out, d as char);
    proof {
        assert(d as char == digit_char((n % 10) as nat));
        if n >= 10 {
            assert(old(out)@ + (u64_dec((n / 10) as nat) + seq![digit_char((n % 10) as nat)])
                =~= (old(out)@ + u64_dec((n / 10) as nat)) + seq![digit_char((n % 10) as nat)]);
        }
    }
}

/// The decimal text of a signed 64-bit number.
pub fn i64_to_dec(n: i64) -> (s: String)
    ensures
        s@ == i64_dec(n as int),
{
    let mut out = String::new();
    if n < 0 {
        crate::tokenizer::push_char(&mut out, '-');
        let mag: u64 = ((-(n + 1)) as u64) + 1;
        proof {
            assert(mag as nat == (-(n as int)) as nat);
            assert(Seq::<char>::empty() + seq!['-'] =~= seq!['-']);
        }
        push_u64_dec(&mut out, mag);
    } else {
        push_u64_dec(&mut out, n as u64);
        proof {
            assert(Seq::<char>::empty() + u64_dec(n as nat) =~= u64_dec(n as nat));
        }
    }
    out
}

/// The signed-integer parse of a text: an optional sign, then at least one
/// digit and nothing else, with the value in the 64-bit signed range.
pub open spec fn parse_i64_val(s: Seq<char>) -> Option<int> {
    let neg = s.len() > 0 && s[0] == '-';
    let ds = if s.len() > 0 && (s[0] == '-' || s[0] == '+') {
        s.skip(1)
    } else {
        s
    };
    if ds.len() > 0 && all_digits(ds) {
        let v: int = if neg {
            -(digits_val(ds) as int)
        } else {
            digits_val(ds) as int
        };
        if i64::MIN <= v <= i64::MAX {
            Some(v)
        } else {
            None
        }
    } else {
        None
    }
}

/// Parses a signed 64-bit integer from its decimal text; `None` where the
/// text is not such a number.
#[verifier::loop_isolation(false)]
pub fn parse_i64_exec(s: &str) -> (r: Option<i64>)
    ensures
        match r {
            Some(v) => parse_i64_val(s@) == Some(v as int),
            None => parse_i64_val(s@) is None,
        },
{
    let n = s.unicode_len();
    if n == 0 {
        return None;
    }
    let c0 = s.get_char(0);
    let neg = c0 == '-';
    let start: usize = if c0 == '-' || c0 == '+' {
        1
    } else {
        0
    };
    let ghost ds = if start == 1 {
        s@.skip(1)
    } else {
        s@
    };
    proof {
        assert(s@.skip(0) =~= s@);
    }
    if start == n {
        return None;
    }
    let bound: u64 = if neg {
        9223372036854775808
    } else {
        9223372036854775807
    };
    let mut i: usize = start;
    let mut acc: u64 = 0;
    while i < n
        invariant
            start <= i <= n,
            all_digits(ds.take(i - start)),
            acc <= bound,
            acc as nat == digits_val(ds.take(i - start)),
        decreases n - i,
    {
        let c = s.get_char(i);
        proof {
            assert(ds[i - start] == s@[i as int]);
        }
        if !digit_check(c) {
            return None;
        }
        let d = digit_value(c);
        let wide: u128 = (acc as u128) * 10 + (d as u128);
        proof {
            lemma_digits_val_step(ds, i - start);
        }
        if wide > bound as u128 {
            proof {
                lemma_digits_val_prefix_le(ds, i - start + 1);
            }
            return None;
        }
        acc = wide as u64;
        i = i + 1;
        proof {
            assert(ds.take(i - start) =~= ds.take(i - start - 1).push(ds[i - start - 1]));
        }
    }
    proof {
        assert(ds.take(n - start) =~= ds);
    }
    if neg {
        if acc == 9223372036854775808 {
            Some(i64::MIN)
        } else {
            Some(-(acc as i64))
        }
    } else {
        Some(acc as i64)
    }
}

/// The length of the leading run of digits.
pub open spec fn span_digits(s: Seq<char>) -> int
    decreases s.len(),
{
    if s.len() > 0 && is_digit_char(s[0]) {
        1 + span_digits(s.skip(1))
    } else {
        0
    }
}

pub proof fn lemma_span_digits(s: Seq<char>)
    ensures
        0 <= span_digits(s) <= s.len(),
        forall|i: int| 0 <= i < span_digits(s) ==> is_digit_char(s[i]),
        span_digits(s) < s.len() ==> !is_digit_char(s[span_digits(s)]),
    decreases s.len(),
{
    if s.len() > 0 && is_digit_char(s[0]) {
        lemma_span_digits(s.skip(1));
        assert forall|i: int| 0 <= i < span_digits(s) implies is_digit_char(s[i]) by {
            if i > 0 {
                assert(s.skip(1)[i - 1] == s[i]);
            }
        }
        if span_digits(s) < s.len() {
            assert(s.skip(1)[span_digits(s) - 1] == s[span_digits(s)]);
        }
    }
}

/// Whether `s` has a leading sign, and `s` without it.
pub open spec fn sign_neg(s: Seq<char>) -> bool {
    s.len() > 0 && s[0] == '-'
}

pub open spec fn sign_body(s: Seq<char>) -> Seq<char> {
    if s.len() > 0 && (s[0] == '-' || s[0] == '+') {
        s.skip(1)
    } else {
        s
    }
}

/// The index just past the mantissa: the integer digits, one optional
/// point, and the fraction digits.
pub open spec fn after_mantissa(u: Seq<char>) -> int {
    let k = span_digits(u);
    let rest = u.skip(k);
    if rest.len() > 0 && rest[0] == '.' {
        k + 1 + span_digits(rest.skip(1))
    } else {
        k
    }
}

/// All digits of the mantissa, the point dropped.
pub open spec fn mantissa_digits(u: Seq<char>) -> Seq<char> {
    let k = span_digits(u);
    let rest = u.skip(k);
    if rest.len() > 0 && rest[0] == '.' {
        let f = rest.skip(1);
        u.take(k) + f.take(span_digits(f))
    } else {
        u.take(k)
    }
}

/// The value of a run of exponent digits, capped at a billion; beyond the
/// cap the truncation below saturates or vanishes anyway.
pub open spec fn exp_val_capped(s: Seq<char>, acc: nat) -> nat
    decreases s.len(),
{
    if s.len() == 0 {
        acc
    } else {
        let a2 = acc * 10 + digit_val(s[0]);
        exp_val_capped(
            s.skip(1),
            if a2 > 1000000000 {
                1000000000
            } else {
                a2
            },
        )
    }
}

/// The signed exponent written after the mantissa, zero where none is.
pub open spec fn exponent_of(u: Seq<char>) -> int {
    let rest2 = u.skip(after_mantissa(u));
    if rest2.len() > 0 && (rest2[0] == 'e' || rest2[0] == 'E') {
        let e1 = rest2.skip(1);
        let eneg = e1.len() > 0 && e1[0] == '-';
        let ed = if e1.len() > 0 && (e1[0] == '-' || e1[0] == '+') {
            e1.skip(1)
        } else {
            e1
        };
        let ev = exp_val_capped(ed.take(span_digits(ed)), 0) as int;
        if eneg {
            -ev
        } else {
            ev
        }
    } else {
        0
    }
}

/// The magnitude of the integer part of `0.d * 10^p`: the first `p` digits
/// of `d`, zero-padded on the right, saturating at `2^63`.
pub open spec fn trunc_mag(d: Seq<char>, j: int, p: int, acc: nat) -> nat
    decreases (if p - j > 0 {
        p - j
    } else {
        0
    }),
{
    if j >= p {
        acc
    } else {
        let dg = if j < d.len() {
            digit_val(d[j])
        } else {
            0
        };
        let a2 = acc * 10 + dg;
        trunc_mag(
            d,
            j + 1,
            p,
            if a2 > 0x8000000000000000 {
                0x8000000000000000
            } else {
                a2
            },
        )
    }
}

proof fn lemma_trunc_mag_sat(d: Seq<char>, j: int, p: int)
    ensures
        trunc_mag(d, j, p, 0x8000000000000000) == 0x8000000000000000,
    decreases (if p - j > 0 {
        p - j
    } else {
        0
    }),
{
    if j < p {
        lemma_trunc_mag_sat(d, j + 1, p);
    }
}

proof fn lemma_trunc_mag_zero(d: Seq<char>, j: int, p: int)
    requires
        j >= d.len(),
    ensures
        trunc_mag(d, j, p, 0) == 0,
    decreases (if p - j > 0 {
        p - j
    } else {
        0
    }),
{
    if j < p {
        lemma_trunc_mag_zero(d, j + 1, p);
    }
}

fn span_digits_from(s: &str, n: usize, i: usize) -> (j: usize)
    requires
        n == s@.len(),
        i <= n,
    ensures
        i <= j <= n,
        j - i == span_digits(s@.skip(i as int)),
    decreases n - i,
{
    if i < n && digit_check(s.get_char(i)) {
        proof {
            assert(s@.skip(i as int)[0] == s@[i as int]);
            assert(s@.skip(i as int).skip(1) =~= s@.skip(i as int + 1));
        }
        span_digits_from(s, n, i + 1)
    } else {
        proof {
            if i < n {
                assert(s@.skip(i as int)[0] == s@[i as int]);
            }
        }
        i
    }
}

/// The digits of the mantissa beginning at `start`, the count of its
/// integer digits, and the index just past the mantissa.
#[verifier::loop_isolation(false)]
fn mantissa_collect(s: &str, n: usize, start: usize) -> (res: (Vec<char>, usize, usize))
    requires
        n == s@.len(),
        start <= n,
    ensures
        res.0@ == mantissa_digits(s@.skip(start as int)),
        all_digits(res.0@),
        res.1 - start == span_digits(s@.skip(start as int)),
        start <= res.1 <= res.2 <= n,
        res.2 - start == after_mantissa(s@.skip(start as int)),
{
    let ghost body = s@.skip(start as int);
    let k_end = span_digits_from(s, n, start);
    proof {
        lemma_span_digits(body);
    }
    let mut v: Vec<char> = Vec::new();
    let mut i: usize = start;
    while i < k_end
        invariant
            start <= i <= k_end,
            v@ =~= body.take(i - start),
        decreases k_end - i,
    {
        let c = s.get_char(i);
        proof {
            assert(body[i - start] == s@[i as int]);
        }
        v.push(c);
        proof {
            assert(v@ =~= body.take(i + 1 - start));
        }
        i = i + 1;
    }
    proof {
        assert(body.skip(k_end - start).len() == n - k_end);
        if k_end < n {
            assert(body.skip(k_end - start)[0] == s@[k_end as int]);
        }
        assert forall|m: int| 0 <= m < v@.len() implies is_digit_char(v@[m]) by {
            assert(v@[m] == body[m]);
        }
    }
    if k_end < n && s.get_char(k_end) == '.' {
        let ghost f = body.skip(k_end - start).skip(1);
        proof {
            assert(f =~= s@.skip(k_end as int + 1));
            lemma_span_digits(f);
        }
        let f_end = span_digits_from(s, n, k_end + 1);
        let ghost intd = v@;
        let mut i2: usize = k_end + 1;
        while i2 < f_end
            invariant
                k_end + 1 <= i2 <= f_end,
                v@ =~= intd + f.take(i2 - (k_end + 1)),
            decreases f_end - i2,
        {
            let c = s.get_char(i2);
            proof {
                assert(f[i2 - (k_end + 1)] == s@[i2 as int]);
            }
            v.push(c);
            proof {
                assert(v@ =~= intd + f.take(i2 + 1 - (k_end + 1)));
            }
            i2 = i2 + 1;
        }
        proof {
            assert(v@ =~= body.take(k_end - start) + f.take(span_digits(f)));
            assert forall|m: int| 0 <= m < v@.len() implies is_digit_char(v@[m]) by {
                if m >= k_end - start {
                    assert(v@[m] == f.take(span_digits(f))[m - (k_end - start)]);
                    assert(v@[m] == f[m - (k_end - start)]);
                } else {
                    assert(v@[m] == body[m]);
                }
            }
        }
        (v, k_end, f_end)
    } else {
        proof {
            assert(v@ =~= body.take(k_end - start));
        }
        (v, k_end, k_end)
    }
}

#[verifier::loop_isolation(false)]
fn trunc_mag_exec(d: &Vec<char>, p: u128) -> (m: u64)
    requires
        all_digits(d@),
    ensures
        m as nat == trunc_mag(d@, 0, p as int, 0),
        m <= 0x8000000000000000,
{
    let dn = d.len();
    let mut j: usize = 0;
    let mut acc: u64 = 0;
    while j < dn && (j as u128) < p
        invariant
            j <= dn,
            j as u128 <= p,
            acc <= 0x8000000000000000,
            trunc_mag(d@, 0, p as int, 0) == trunc_mag(d@, j as int, p as int, acc as nat),
        decreases dn - j,
    {
        let dg: u64 = crate::chars::digit_value(d[j]) as u64;
        let wide: u128 = (acc as u128) * 10 + (dg as u128);
        let a2: u64 = if wide > 9223372036854775808u128 {
            9223372036854775808u64
        } else {
            wide as u64
        };
        proof {
            let a2s: nat = (acc as nat) * 10 + (dg as nat);
            assert(wide as nat == a2s);
            assert(dg as nat == digit_val(d@[j as int]));
            assert(a2 as nat == (if a2s > 0x8000000000000000 {
                0x8000000000000000 as nat
            } else {
                a2s
            }));
            assert(trunc_mag(d@, j as int, p as int, acc as nat) == trunc_mag(
                d@,
                j as int + 1,
                p as int,
                a2 as nat,
            ));
        }
        acc = a2;
        j = j + 1;
    }
    let mut jz: u128 = j as u128;
    while jz < p
        invariant
            jz <= p,
            acc <= 0x8000000000000000,
            jz as int >= d@.len() || jz >= p,
            trunc_mag(d@, 0, p as int, 0) == trunc_mag(d@, jz as int, p as int, acc as nat),
        decreases p - jz,
    {
        if acc == 9223372036854775808u64 {
            proof {
                lemma_trunc_mag_sat(d@, jz as int, p as int);
            }
            return acc;
        }
        if acc == 0 {
            proof {
                lemma_trunc_mag_zero(d@, jz as int, p as int);
            }
            return 0;
        }
        let wide: u128 = (acc as u128) * 10;
        let a2: u64 = if wide > 9223372036854775808u128 {
            9223372036854775808u64
        } else {
            wide as u64
        };
        proof {
            let a2s: nat = (acc as nat) * 10;
            assert(wide as nat == a2s);
            assert(a2 as nat == (if a2s > 0x8000000000000000 {
                0x8000000000000000 as nat
            } else {
                a2s
            }));
            assert(trunc_mag(d@, jz as int, p as int, acc as nat) == trunc_mag(
                d@,
                jz as int + 1,
                p as int,
                a2 as nat,
            ));
        }
        acc = a2;
        jz = jz + 1;
    }
    acc
}

/// What a float literal is worth as a signed 64-bit integer: the integer
/// part of the written decimal, truncated toward zero and saturating at
/// the 64-bit bounds; a text that is no decimal number counts as zero.
pub open spec fn spec_numbar_i64(s: Seq<char>) -> int {
    let body = sign_body(s);
    if num_tail(body, false, false) {
        let d = mantissa_digits(body);
        let p = span_digits(body) + exponent_of(body);
        let mag = trunc_mag(d, 0, p, 0);
        if sign_neg(s) {
            if mag >= 0x8000000000000000 {
                i64::MIN as int
            } else {
                -(mag as int)
            }
        } else {
            if mag >= 0x8000000000000000 {
                i64::MAX as int
            } else {
                mag as int
            }
        }
    } else {
        0
    }
}

/// Whether a float literal denotes exactly zero: a decimal number all of
/// whose mantissa digits are zero, whatever its exponent.
pub open spec fn spec_numbar_zero(s: Seq<char>) -> bool {
    let body = sign_body(s);
    num_tail(body, false, false) && (forall|i: int|
        0 <= i < mantissa_digits(body).len() ==> mantissa_digits(body)[i] == '0')
}

fn sign_split(s: &str, n: usize) -> (res: (bool, usize))
    requires
        n == s@.len(),
    ensures
        res.0 == sign_neg(s@),
        res.1 <= 1,
        res.1 as int <= n,
        s@.skip(res.1 as int) == sign_body(s@),
        (res.1 == 1) == (s@.len() > 0 && (s@[0] == '-' || s@[0] == '+')),
{
    proof {
        assert(s@.skip(0) =~= s@);
    }
    if n > 0 {
        let c0 = s.get_char(0);
        if c0 == '-' || c0 == '+' {
            return (c0 == '-', 1);
        }
    }
    (false, 0)
}

/// The saturating truncation of a float literal to a signed 64-bit
/// integer.
#[verifier::loop_isolation(false)]
#[verifier::rlimit(100)]
pub fn numbar_i64(s: &str) -> (r: i64)
    ensures
        r as int == spec_numbar_i64(s@),
{
    let n = s.unicode_len();
    let (neg, start) = sign_split(s, n);
    let ghost body = sign_body(s@);
    if !num_tail_from(s, n, start, false, false) {
        return 0;
    }
    let collected = mantissa_collect(s, n, start);
    let d = collected.0;
    let k_end = collected.1;
    let after = collected.2;
    let mut e_neg = false;
    let mut e: u64 = 0;
    if after < n {
        let ce = s.get_char(after);
        proof {
            assert(body.skip(after - start)[0] == s@[after as int]);
        }
        if ce == 'e' || ce == 'E' {
            let mut j = after + 1;
            proof {
                assert(body.skip(after - start).skip(1) =~= s@.skip(after as int + 1));
            }
            if j < n {
                let cs = s.get_char(j);
                proof {
                    assert(s@.skip(after as int + 1)[0] == s@[j as int]);
                }
                if cs == '-' {
                    e_neg = true;
                    j = j + 1;
                } else if cs == '+' {
                    j = j + 1;
                }
            }
            let ghost ed = s@.skip(j as int);
            proof {
                if after + 1 < n && (s@[after + 1] == '-' || s@[after + 1] == '+') {
                    assert(s@.skip(after as int + 1).skip(1) =~= s@.skip(after as int + 2));
                }
            }
            let je = span_digits_from(s, n, j);
            let ghost edspan = ed.take(span_digits(ed));
            proof {
                lemma_span_digits(ed);
            }
            let mut j2 = j;
            proof {
                assert(edspan.skip(0) =~= edspan);
            }
            while j2 < je
                invariant
                    j <= j2 <= je,
                    je - j == span_digits(ed),
                    je <= n,
                    n == s@.len(),
                    ed == s@.skip(j as int),
                    edspan == ed.take(span_digits(ed)),
                    e <= 1000000000,
                    exp_val_capped(edspan, 0) == exp_val_capped(
                        edspan.skip(j2 - j),
                        e as nat,
                    ),
                decreases je - j2,
            {
                let c = s.get_char(j2);
                proof {
                    assert(edspan.skip(j2 - j)[0] == edspan[j2 - j]);
                    assert(edspan[j2 - j] == ed[j2 - j]);
                    assert(ed[j2 - j] == s@[j2 as int]);
                    assert(is_digit_char(c));
                    assert(edspan.skip(j2 - j).skip(1) =~= edspan.skip(j2 + 1 - j));
                }
                let dg = crate::chars::digit_value(c) as u64;
                let a2: u64 = e * 10 + dg;
                e = if a2 > 1000000000 {
                    1000000000
                } else {
                    a2
                };
                j2 = j2 + 1;
            }
            proof {
                assert(edspan.skip(je - j).len() == 0);
            }
        }
    }
    proof {
        assert(after - start == after_mantissa(body));
        assert(body.skip(after_mantissa(body)) =~= s@.skip(after as int));
        if e_neg {
            assert(exponent_of(body) == -(e as int));
        } else {
            assert(exponent_of(body) == e as int);
        }
    }
    let k: u128 = (k_end - start) as u128;
    let p: u128 = if e_neg {
        if (e as u128) >= k {
            0
        } else {
            k - (e as u128)
        }
    } else {
        k + (e as u128)
    };
    proof {
        let p_spec = span_digits(body) + exponent_of(body);
        if e_neg && (e as u128) >= k {
            assert(p_spec <= 0);
        } else {
            assert(p as int == p_spec);
        }
    }
    let mag = trunc_mag_exec(&d, p);
    proof {
        let ghost p_spec = span_digits(body) + exponent_of(body);
        if p_spec <= 0 {
            assert(trunc_mag(d@, 0, p_spec, 0) == 0);
        }
        if p as int != p_spec {
            assert(p == 0);
            assert(trunc_mag(d@, 0, 0, 0) == 0);
        }
    }
    if neg {
        if mag >= 9223372036854775808u64 {
            i64::MIN
        } else {
            -(mag as i64)
        }
    } else {
        if mag >= 9223372036854775808u64 {
            i64::MAX
        } else {
            mag as i64
        }
    }
}

/// Whether the float grammar accepts `s` as a number denoting zero.
#[verifier::loop_isolation(false)]
pub fn numbar_zero_check(s: &str) -> (b: bool)
    ensures
        b == spec_numbar_zero(s@),
{
    let n = s.unicode_len();
    let (_, start) = sign_split(s, n);
    let ghost body = sign_body(s@);
    if !num_tail_from(s, n, start, false, false) {
        return false;
    }
    let collected = mantissa_collect(s, n, start);
    let d = collected.0;
    let mut i: usize = 0;
    while i < d.len()
        invariant
            i <= d@.len(),
            d@ == mantissa_digits(body),
            forall|m: int| 0 <= m < i ==> d@[m] == '0',
        decreases d@.len() - i,
    {
        if d[i] != '0' {
            return false;
        }
        i = i + 1;
    }
    true
}

} // verus!
