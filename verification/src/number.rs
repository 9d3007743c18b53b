//! Decimal numbers.
use vstd::prelude::*;

use crate::ascii;
use crate::ascii::is_digit;
use crate::encode::{EncodeContext, EncodeIntoContext, Token};
use crate::encode;
use crate::grammar as g;
use crate::grammar::{take_while1, IMAPParseError, IMAPResult, Outcome, Rule};
use crate::reading;

verus! {

/// The number that a sequence of digits stands for.
pub open spec fn digits_value(d: Seq<u8>) -> nat
    decreases d.len(),
{
    if d.len() == 0 {
        0
    } else {
        10 * digits_value(d.drop_last()) + (d.last() - '0' as u8) as nat
    }
}

/// The decimal digits of a number, without leading zeros.
pub open spec fn decimal(n: nat) -> Seq<u8>
    decreases n,
{
    if n < 10 {
        seq![('0' as u8 + n) as u8]
    } else {
        decimal(n / 10).push(('0' as u8 + n % 10) as u8)
    }
}

pub open spec fn all_digits(d: Seq<u8>) -> bool {
    ascii::all_bytes(d, |b: u8| is_digit(b))
}

pub open spec fn digits_rule() -> Rule<Seq<u8>> {
    g::take_while1_rule(|b: u8| is_digit(b))
}

/// `number = 1*DIGIT`, an unsigned 32-bit integer.
#[verifier::opaque]
pub open spec fn number_rule() -> Rule<u32> {
    g::map_opt(
        digits_rule(),
        |d: Seq<u8>|
            if digits_value(d) <= u32::MAX {
                Some(digits_value(d) as u32)
            } else {
                None
            },
    )
}

/// `number64 = 1*DIGIT`, an unsigned 64-bit integer.
#[verifier::opaque]
pub open spec fn number64_rule() -> Rule<u64> {
    g::map_opt(
        digits_rule(),
        |d: Seq<u8>|
            if digits_value(d) <= u64::MAX {
                Some(digits_value(d) as u64)
            } else {
                None
            },
    )
}

/// `nz-number`: a number other than zero.
#[verifier::opaque]
pub open spec fn nz_number_rule() -> Rule<u32> {
    g::verify(number_rule(), |n: u32| n > 0)
}

// ---------------------------------------------------------------------- lemmas

pub proof fn lemma_numbers_lawful()
    ensures
        g::lawful(number_rule()),
        g::lawful(number64_rule()),
        g::lawful(nz_number_rule()),
{
    broadcast use g::group_lawful;

    reveal(number_rule);
    reveal(number64_rule);
    reveal(nz_number_rule);
}

pub proof fn lemma_decimal(n: nat)
    ensures
        decimal(n).len() > 0,
        all_digits(decimal(n)),
        digits_value(decimal(n)) == n,
        n > 0 ==> decimal(n)[0] != '0' as u8,
    decreases n,
{
    if n < 10 {
        let d = decimal(n);
        assert(d.drop_last() =~= seq![]);
        assert(digits_value(d.drop_last()) == 0);
    } else {
        lemma_decimal(n / 10);
        let d = decimal(n);
        assert(d.drop_last() =~= decimal(n / 10));
        assert forall|i: int| 0 <= i < d.len() implies is_digit(#[trigger] d[i]) by {
            if i < d.len() - 1 {
                assert(d[i] == decimal(n / 10)[i]);
            }
        }
    }
}

/// The value never shrinks when digits are added.
proof fn lemma_value_grows(d: Seq<u8>, n: int)
    requires
        0 <= n <= d.len(),
        all_digits(d),
    ensures
        digits_value(d.take(n)) <= digits_value(d),
    decreases d.len(),
{
    if n == d.len() {
        assert(d.take(n) =~= d);
    } else {
        let e = d.drop_last();
        assert(all_digits(e)) by {
            assert forall|i: int| 0 <= i < e.len() implies is_digit(#[trigger] e[i]) by {
                assert(e[i] == d[i]);
            }
        }
        lemma_value_grows(e, n);
        assert(e.take(n) =~= d.take(n));
        assert(is_digit(d[d.len() - 1]));
    }
}

pub proof fn lemma_number_reads(n: u32, t: Seq<u8>)
    requires
        t.len() > 0,
        !is_digit(t[0]),
    ensures
        number_rule()(decimal(n as nat) + t) == Outcome::Done(t, n),
        n > 0 ==> nz_number_rule()(decimal(n as nat) + t) == Outcome::Done(t, n),
{
    reveal(number_rule);
    reveal(nz_number_rule);
    lemma_decimal(n as nat);
    reading::lemma_take_while1_reads(|b: u8| is_digit(b), decimal(n as nat), t);
}

pub proof fn lemma_number64_reads(n: u64, t: Seq<u8>)
    requires
        t.len() > 0,
        !is_digit(t[0]),
    ensures
        number64_rule()(decimal(n as nat) + t) == Outcome::Done(t, n),
{
    reveal(number64_rule);
    lemma_decimal(n as nat);
    reading::lemma_take_while1_reads(|b: u8| is_digit(b), decimal(n as nat), t);
}

pub proof fn lemma_number_rejects(s: Seq<u8>)
    requires
        s.len() > 0,
        !is_digit(s[0]),
    ensures
        number_rule()(s) == Outcome::<u32>::Reject,
        number64_rule()(s) == Outcome::<u64>::Reject,
        nz_number_rule()(s) == Outcome::<u32>::Reject,
{
    reveal(number_rule);
    reveal(number64_rule);
    reveal(nz_number_rule);
    reading::lemma_take_while1_rejects(|b: u8| is_digit(b), s);
}

// ------------------------------------------------------------------ executable

/// The value of the digits, if it fits.
pub fn parse_digits(d: &[u8]) -> (r: Option<u64>)
    requires
        all_digits(d@),
    ensures
        r == (if digits_value(d@) <= u64::MAX {
            Some(digits_value(d@) as u64)
        } else {
            None
        }),
{
    let mut n: u64 = 0;
    let mut i: usize = 0;
    assert(d@.take(0) =~= seq![]);
    while i < d.len()
        invariant
            i <= d@.len(),
            all_digits(d@),
            n == digits_value(d@.take(i as int)),
        decreases d@.len() - i,
    {
        let b: u8 = d[i];
        assert(is_digit(d@[i as int]));
        let digit: u64 = (b - '0' as u8) as u64;
        proof {
            lemma_value_grows(d@, i + 1);
            assert(d@.take(i + 1).drop_last() =~= d@.take(i as int));
        }
        if n > u64::MAX / 10 {
            return None;
        }
        let m: u64 = n * 10;
        if m > u64::MAX - digit {
            return None;
        }
        n = m + digit;
        i = i + 1;
    }
    assert(d@.take(i as int) =~= d@);
    Some(n)
}

/// Whether all bytes are digits.
pub fn are_digits(d: &[u8]) -> (r: bool)
    ensures
        r == all_digits(d@),
{
    let mut i: usize = 0;
    while i < d.len()
        invariant
            i <= d@.len(),
            forall|j: int| 0 <= j < i ==> is_digit(#[trigger] d@[j]),
        decreases d@.len() - i,
    {
        if !is_digit(d[i]) {
            return false;
        }
        i = i + 1;
    }
    true
}

pub fn digits<'a>(input: &'a [u8]) -> (res: IMAPResult<'a, Vec<u8>>)
    ensures
        g::agrees(res, digits_rule()(input@)),
        res matches Ok((_, d)) ==> all_digits(d@) && d@ == d.deep_view(),
{
    let (rest, d) = take_while1(input, is_digit, Ghost(|b: u8| is_digit(b)))?;
    proof {
        g::lemma_run_length(input@, |b: u8| is_digit(b));
        let n = g::run_length(input@, |b: u8| is_digit(b)) as int;
        assert(d.deep_view() =~= d@);
        assert forall|i: int| 0 <= i < d@.len() implies is_digit(#[trigger] d@[i]) by {
            assert(d.deep_view()[i] == input@.take(n)[i]);
            assert(is_digit(input@[i]));
        }
    }
    Ok((rest, d))
}

pub fn number64<'a>(input: &'a [u8]) -> (res: IMAPResult<'a, u64>)
    ensures
        g::agrees(res, number64_rule()(input@)),
{
    proof {
        reveal(number64_rule);
    }
    let (rest, d) = digits(input)?;
    match parse_digits(d.as_slice()) {
        Some(n) => Ok((rest, n)),
        None => Err(IMAPParseError::Error),
    }
}

pub fn number<'a>(input: &'a [u8]) -> (res: IMAPResult<'a, u32>)
    ensures
        g::agrees(res, number_rule()(input@)),
{
    proof {
        reveal(number_rule);
    }
    let (rest, d) = digits(input)?;
    match parse_digits(d.as_slice()) {
        Some(n) => if n <= u32::MAX as u64 {
            Ok((rest, n as u32))
        } else {
            Err(IMAPParseError::Error)
        },
        None => Err(IMAPParseError::Error),
    }
}

pub fn nz_number<'a>(input: &'a [u8]) -> (res: IMAPResult<'a, u32>)
    ensures
        g::agrees(res, nz_number_rule()(input@)),
{
    proof {
        reveal(nz_number_rule);
    }
    let (rest, n) = number(input)?;
    if n > 0 {
        Ok((rest, n))
    } else {
        Err(IMAPParseError::Error)
    }
}

/// The decimal digits of a number.
pub fn to_decimal(n: u64) -> (r: Vec<u8>)
    ensures
        r@ == decimal(n as nat),
    decreases n,
{
    if n < 10 {
        let mut r: Vec<u8> = Vec::new();
        r.push('0' as u8 + n as u8);
        assert(r@ =~= decimal(n as nat));
        r
    } else {
        let mut r: Vec<u8> = to_decimal(n / 10);
        r.push('0' as u8 + (n % 10) as u8);
        r
    }
}

/// Writes a number in decimal.
pub fn write_number(ctx: &mut EncodeContext, n: u64)
    ensures
        final(ctx)@ == old(ctx)@ + encode::plain(decimal(n as nat)),
{
    let d: Vec<u8> = to_decimal(n);
    ctx.write_bytes(d.as_slice());
}

impl EncodeIntoContext for u32 {
    open spec fn tokens(v: u32) -> Seq<Token> {
        encode::plain(decimal(v as nat))
    }

    fn encode_ctx(&self, ctx: &mut EncodeContext) {
        write_number(ctx, *self as u64);
        assert(ctx@ =~= old(ctx)@ + Self::tokens(self.deep_view()));
    }
}

} // verus!
