//! What the integer parser reads from a byte sequence, stated over whole runs
//! of digits, and the arithmetic facts that its wrapping accumulator rests on.
use vstd::prelude::*;
use vstd::arithmetic::div_mod::{
    lemma_fundamental_div_mod,
    lemma_mod_add_multiples_vanish,
    lemma_mod_multiples_vanish,
    lemma_small_mod,
};

verus! {

/// Where the integer parser stands between two chunks of input.
#[derive(Clone, Copy, Debug, PartialEq, Eq)]
pub enum IntParse {
    /// Nothing read yet: the next byte opens the number.
    Start,
    /// Inside the digits: `value` is what they give so far, wrapped to `i32`,
    /// and `last` the last byte examined.
    Digits { value: i32, negative: bool, last: u8 },
}

/// What the integer parser hands back.
#[derive(Clone, Copy, Debug, PartialEq, Eq)]
pub enum IntStep {
    /// The number, with its terminating byte, or `None` where no number starts.
    Done(Option<(i32, i32)>),
    /// The buffered bytes ran out inside the number and another chunk is due.
    Pending(IntParse),
}

/// What the fraction reader hands back: the digit bytes read so far.
#[derive(Debug, PartialEq, Eq)]
pub enum FracStep {
    Done(Vec<u8>),
    Pending(Vec<u8>),
}

/// Two to the 32: the modulus of `i32` arithmetic.
pub open spec fn modulus() -> int {
    0x1_0000_0000
}

/// The `i32` that `x` wraps to.
pub open spec fn wrap_i32(x: int) -> int {
    let m = x % modulus();
    if m > i32::MAX as int {
        m - modulus()
    } else {
        m
    }
}

pub open spec fn is_digit(b: u8) -> bool {
    48 <= b <= 57
}

/// A byte that may open a number: a digit or a sign.
pub open spec fn starts_number(b: u8) -> bool {
    is_digit(b) || b == 45 || b == 43
}

/// Length of the run of digits at the start of `s`.
pub open spec fn digit_run(s: Seq<u8>) -> nat
    decreases s.len(),
{
    if s.len() > 0 && is_digit(s[0]) {
        1 + digit_run(s.drop_first())
    } else {
        0
    }
}

/// The integer that the digits `ds` give when appended, in base ten, to `v`.
pub open spec fn accumulate(v: int, ds: Seq<u8>) -> int
    decreases ds.len(),
{
    if ds.len() == 0 {
        v
    } else {
        accumulate(v, ds.drop_last()) * 10 + (ds.last() - 48)
    }
}

/// The decimal digits of `m`, most significant first, without leading zeros.
pub open spec fn decimal_digits(m: nat) -> Seq<u8>
    decreases m,
{
    if m < 10 {
        seq![(48 + m) as u8]
    } else {
        decimal_digits(m / 10).push((48 + m % 10) as u8)
    }
}

/// The decimal text of `n`, with a leading `-` when it is negative.
pub open spec fn decimal(n: int) -> Seq<u8> {
    if n < 0 {
        seq![45u8] + decimal_digits((-n) as nat)
    } else {
        decimal_digits(n as nat)
    }
}

/// The magnitude `acc` with its sign applied, wrapped to `i32`.
pub open spec fn signed_value(acc: int, negative: bool) -> i32 {
    wrap_i32(if negative { -acc } else { acc }) as i32
}

/// Bytes that a run of digits at the start of `s` takes: the digits and the byte after them.
pub open spec fn digits_used(s: Seq<u8>) -> nat {
    if digit_run(s) < s.len() {
        digit_run(s) + 1
    } else {
        digit_run(s)
    }
}

/// The parser inside the digits, with `value` so far, reading `s`; `more` says
/// whether another chunk follows `s`.
pub open spec fn digits_step(value: i32, negative: bool, last: u8, s: Seq<u8>, more: bool) -> IntStep {
    let k = digit_run(s);
    let acc = accumulate(value as int, s.take(k as int));
    if k < s.len() {
        IntStep::Done(Some((signed_value(acc, negative), s[k as int] as i32)))
    } else {
        let l = if k > 0 { s[k - 1] } else { last };
        if more {
            IntStep::Pending(IntParse::Digits { value: wrap_i32(acc) as i32, negative, last: l })
        } else {
            IntStep::Done(Some((signed_value(acc, negative), l as i32)))
        }
    }
}

/// What the integer parser, in state `st`, makes of the bytes `s`.
pub open spec fn int_step(st: IntParse, s: Seq<u8>, more: bool) -> IntStep {
    match st {
        IntParse::Start => {
            if s.len() == 0 {
                if more {
                    IntStep::Pending(IntParse::Start)
                } else {
                    IntStep::Done(None)
                }
            } else if !starts_number(s[0]) {
                IntStep::Done(None)
            } else if is_digit(s[0]) {
                digits_step(0, false, 48, s, more)
            } else {
                digits_step(0, s[0] == 45, 48, s.drop_first(), more)
            }
        },
        IntParse::Digits { value, negative, last } => digits_step(value, negative, last, s, more),
    }
}

/// How many bytes of `s` the integer parser, in state `st`, takes.
pub open spec fn int_used(st: IntParse, s: Seq<u8>) -> nat {
    match st {
        IntParse::Start => {
            if s.len() == 0 {
                0
            } else if !starts_number(s[0]) {
                1
            } else if is_digit(s[0]) {
                digits_used(s)
            } else {
                1 + digits_used(s.drop_first())
            }
        },
        IntParse::Digits { .. } => digits_used(s),
    }
}

/// The number at the start of `s`, with its terminator, where `s` is all the input.
pub open spec fn int_result(s: Seq<u8>) -> Option<(i32, i32)> {
    match int_step(IntParse::Start, s, false) {
        IntStep::Done(o) => o,
        IntStep::Pending(_) => None,
    }
}

/// The value alone of `int_result`.
pub open spec fn int_value(s: Seq<u8>) -> Option<i32> {
    match int_result(s) {
        Some(p) => Some(p.0),
        None => None,
    }
}

/// Whether the fraction reader, reading `s`, stops at the end of `s` to wait for
/// another chunk.
pub open spec fn frac_pending(s: Seq<u8>, more: bool) -> bool {
    digit_run(s) == s.len() && more
}

pub open spec fn abs(x: int) -> nat {
    if x < 0 {
        (-x) as nat
    } else {
        x as nat
    }
}

pub proof fn lemma_wrap_shift(x: int, k: int)
    ensures
        wrap_i32(x + modulus() * k) == wrap_i32(x),
{
    lemma_mod_multiples_vanish(k, x, modulus());
}

/// `wrap_i32(x)` differs from `x` by a multiple of the modulus.
pub proof fn lemma_wrap_offset(x: int) -> (k: int)
    ensures
        wrap_i32(x) == x + modulus() * k,
{
    lemma_fundamental_div_mod(x, modulus());
    if x % modulus() > i32::MAX as int {
        -(x / modulus()) - 1
    } else {
        -(x / modulus())
    }
}

pub proof fn lemma_wrap_id(x: int)
    requires
        i32::MIN <= x <= i32::MAX,
    ensures
        wrap_i32(x) == x,
{
    if x >= 0 {
        lemma_small_mod(x as nat, modulus() as nat);
    } else {
        lemma_mod_add_multiples_vanish(x, modulus());
        lemma_small_mod((modulus() + x) as nat, modulus() as nat);
    }
}

/// Wrapping after each step of the accumulator gives what wrapping once at the end gives.
pub proof fn lemma_wrap_step(a: int, d: int)
    ensures
        wrap_i32(wrap_i32(a) * 10 + d) == wrap_i32(a * 10 + d),
{
    let k = lemma_wrap_offset(a);
    assert(wrap_i32(a) * 10 + d == (a * 10 + d) + modulus() * (10 * k)) by (nonlinear_arith)
        requires
            wrap_i32(a) == a + modulus() * k,
    ;
    lemma_wrap_shift(a * 10 + d, 10 * k);
}

/// Negating after wrapping gives what wrapping the negation gives.
pub proof fn lemma_wrap_neg(a: int)
    ensures
        wrap_i32(-wrap_i32(a)) == wrap_i32(-a),
{
    let k = lemma_wrap_offset(a);
    assert(-wrap_i32(a) == -a + modulus() * (-k)) by (nonlinear_arith)
        requires
            wrap_i32(a) == a + modulus() * k,
    ;
    lemma_wrap_shift(-a, -k);
}

pub proof fn lemma_wrap_add(x: int, d: int)
    ensures
        wrap_i32(wrap_i32(x) + d) == wrap_i32(x + d),
{
    let k = lemma_wrap_offset(x);
    lemma_wrap_shift(x + d, k);
}

/// Appends the digit `b` to `value`, wrapping as `i32` arithmetic does.
pub fn push_digit(value: i32, b: u8) -> (r: i32)
    requires
        is_digit(b),
    ensures
        r as int == wrap_i32(value * 10 + (b - 48)),
{
    let w = value.wrapping_mul(10);
    let d = (b - 48) as i32;
    let r = w.wrapping_add(d);
    proof {
        assert(w as int == wrap_i32(value * 10));
        lemma_wrap_add(value * 10, d as int);
        let y = w + d;
        if y > i32::MAX {
            lemma_wrap_shift(y - modulus(), 1);
            lemma_wrap_id(y - modulus());
        } else {
            lemma_wrap_id(y);
        }
    }
    r
}

/// `value` negated when `negative` holds, wrapping as `i32` arithmetic does.
pub fn apply_sign(value: i32, negative: bool) -> (r: i32)
    ensures
        r as int == wrap_i32(if negative { -(value as int) } else { value as int }),
{
    proof {
        lemma_wrap_id(value as int);
    }
    if !negative {
        value
    } else if value == i32::MIN {
        proof {
            lemma_wrap_shift(-value - modulus(), 1);
            lemma_wrap_id(-value - modulus());
        }
        value
    } else {
        proof {
            lemma_wrap_id(-value);
        }
        -value
    }
}

/// The magnitude of `v`, which always fits in a `u32`.
pub fn unsigned_abs(v: i32) -> (r: u32)
    ensures
        r as int == abs(v as int),
{
    if v >= 0 {
        v as u32
    } else if v == i32::MIN {
        0x8000_0000u32
    } else {
        (-v) as u32
    }
}

/// A run of `j` digits followed by a non-digit, or by the end, has length `j`.
pub proof fn lemma_digit_run(s: Seq<u8>, j: int)
    requires
        0 <= j <= s.len(),
        forall|i: int| 0 <= i < j ==> is_digit(#[trigger] s[i]),
        j < s.len() ==> !is_digit(s[j]),
    ensures
        digit_run(s) == j,
    decreases j,
{
    if j > 0 {
        let t = s.drop_first();
        assert forall|i: int| 0 <= i < j - 1 implies is_digit(#[trigger] t[i]) by {
            assert(t[i] == s[i + 1]);
        }
        if j - 1 < t.len() {
            assert(t[j - 1] == s[j]);
        }
        lemma_digit_run(t, j - 1);
    }
}

} // verus!
