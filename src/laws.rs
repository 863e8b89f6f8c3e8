//! Properties of the integer parser that hold for every input.
use vstd::prelude::*;
use vstd::arithmetic::div_mod::lemma_fundamental_div_mod;
use crate::number::{
    accumulate, decimal, decimal_digits, digit_run, digits_used, int_result, int_step, int_used,
    is_digit, lemma_digit_run, lemma_wrap_id, IntParse, IntStep,
};

verus! {

/// The decimal digits of `m` are digits, and read back as `m`.
pub proof fn lemma_decimal_digits(m: nat)
    ensures
        decimal_digits(m).len() >= 1,
        forall|i: int| 0 <= i < decimal_digits(m).len() ==> is_digit(#[trigger] decimal_digits(m)[i]),
        accumulate(0, decimal_digits(m)) == m,
    decreases m,
{
    let d = decimal_digits(m);
    if m < 10 {
        assert(d.drop_last() =~= Seq::<u8>::empty());
        assert(accumulate(0, d.drop_last()) == 0);
    } else {
        lemma_decimal_digits(m / 10);
        assert(d.drop_last() =~= decimal_digits(m / 10));
        assert(d.last() == (48 + m % 10) as u8);
        lemma_fundamental_div_mod(m as int, 10);
        assert(accumulate(0, d) == accumulate(0, d.drop_last()) * 10 + (d.last() - 48));
        assert forall|i: int| 0 <= i < d.len() implies is_digit(#[trigger] d[i]) by {
            if i < d.len() - 1 {
                assert(d[i] == decimal_digits(m / 10)[i]);
            }
        }
    }
}

/// A run of zero digits reads as zero, whatever it starts from.
pub proof fn lemma_zeros(zeros: Seq<u8>)
    requires
        forall|i: int| 0 <= i < zeros.len() ==> #[trigger] zeros[i] == 48,
    ensures
        accumulate(0, zeros) == 0,
    decreases zeros.len(),
{
    if zeros.len() > 0 {
        lemma_zeros(zeros.drop_last());
    }
}

/// Reading the decimal text of any `i32`, followed by one byte that is not a
/// digit, gives that integer back with the separator as its terminator, and
/// takes exactly the text and the separator.
pub proof fn integer_round_trip(n: i32, sep: u8, more: bool)
    requires
        !is_digit(sep),
    ensures
        int_step(IntParse::Start, decimal(n as int) + seq![sep], more) == IntStep::Done(Some((n, sep as i32))),
        int_used(IntParse::Start, decimal(n as int) + seq![sep]) == decimal(n as int).len() + 1,
{
    let m: nat = if n < 0 { (-n) as nat } else { n as nat };
    let d = decimal_digits(m);
    lemma_decimal_digits(m);
    let t = d + seq![sep];
    assert forall|i: int| 0 <= i < d.len() implies is_digit(#[trigger] t[i]) by {
        assert(t[i] == d[i]);
    }
    assert(t[d.len() as int] == sep);
    lemma_digit_run(t, d.len() as int);
    assert(t.take(d.len() as int) =~= d);
    lemma_wrap_id(n as int);
    if n < 0 {
        assert((decimal(n as int) + seq![sep]).drop_first() =~= t);
    } else {
        assert(decimal(n as int) + seq![sep] =~= t);
        assert(is_digit(t[0]));
    }
}

/// A sign followed by zeros, any number of them, and one separator reads as zero.
pub proof fn signed_zero(sign: u8, zeros: Seq<u8>, sep: u8, more: bool)
    requires
        sign == 45 || sign == 43,
        forall|i: int| 0 <= i < zeros.len() ==> #[trigger] zeros[i] == 48,
        !is_digit(sep),
    ensures
        int_step(IntParse::Start, seq![sign] + zeros + seq![sep], more) == IntStep::Done(Some((0i32, sep as i32))),
{
    let s = seq![sign] + zeros + seq![sep];
    let t = zeros + seq![sep];
    assert(s.drop_first() =~= t);
    assert forall|i: int| 0 <= i < zeros.len() implies is_digit(#[trigger] t[i]) by {
        assert(t[i] == zeros[i]);
    }
    assert(t[zeros.len() as int] == sep);
    lemma_digit_run(t, zeros.len() as int);
    assert(t.take(zeros.len() as int) =~= zeros);
    lemma_zeros(zeros);
    lemma_wrap_id(0);
}

/// Spent input yields nothing and takes nothing: reading from it again gives
/// the same outcome, however often.
pub proof fn exhausted_input(s: Seq<u8>)
    requires
        s.len() == 0,
    ensures
        int_result(s) is None,
        int_used(IntParse::Start, s) == 0,
        digit_run(s) == 0,
        digits_used(s) == 0,
        s.skip(0) == s,
{
    assert(s.skip(0) =~= s);
}

} // verus!
