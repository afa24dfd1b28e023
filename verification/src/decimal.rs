//! Decimal numerals in a byte buffer: what they are, what they are worth,
//! and the two conversions that are left to `nom`.

use vstd::prelude::*;

verus! {

/// The digit `0`.
pub const DIGIT_ZERO: u8 = 0x30;

/// The digit `1`.
pub const DIGIT_ONE: u8 = 0x31;

/// The digit `9`.
pub const DIGIT_NINE: u8 = 0x39;

/// The minus sign, `-`.
pub const MINUS: u8 = 0x2d;

/// `b` is one of the ASCII digits `0` to `9`.
pub open spec fn is_digit(b: u8) -> bool {
    DIGIT_ZERO <= b <= DIGIT_NINE
}

/// `b` is one of the ASCII digits `1` to `9`.
pub open spec fn is_nonzero_digit(b: u8) -> bool {
    DIGIT_ONE <= b <= DIGIT_NINE
}

/// Every byte of `s` is a digit.
pub open spec fn all_digits(s: Seq<u8>) -> bool {
    forall|i: int| 0 <= i < s.len() ==> is_digit(#[trigger] s[i])
}

/// The length of the longest prefix of `s` that is made of digits.
pub open spec fn digit_run(s: Seq<u8>) -> nat
    decreases s.len(),
{
    if s.len() > 0 && is_digit(s[0]) {
        1 + digit_run(s.skip(1))
    } else {
        0
    }
}

/// The number that the digits `s` write in base ten.
pub open spec fn decimal_value(s: Seq<u8>) -> nat
    decreases s.len(),
{
    if s.len() == 0 {
        0
    } else {
        10 * decimal_value(s.drop_last()) + (s.last() - DIGIT_ZERO) as nat
    }
}

/// `s` is a run of one or more digits, with or without a minus sign in
/// front.
pub open spec fn is_signed_decimal(s: Seq<u8>) -> bool {
    ||| s.len() > 0 && all_digits(s)
    ||| s.len() > 1 && s[0] == MINUS && all_digits(s.skip(1))
}

/// The integer that a signed decimal numeral writes.
pub open spec fn signed_value(s: Seq<u8>) -> int {
    if s.len() > 0 && s[0] == MINUS {
        -(decimal_value(s.skip(1)) as int)
    } else {
        decimal_value(s) as int
    }
}

/// `s` is the one accepted way to write an integer: the single digit `0`, or
/// digits that begin with a non-zero one, with or without a minus sign in
/// front. No leading zero, no negative zero.
pub open spec fn is_canonical_integer(s: Seq<u8>) -> bool {
    ||| s =~= seq![DIGIT_ZERO]
    ||| s.len() > 0 && is_nonzero_digit(s[0]) && all_digits(s)
    ||| s.len() > 1 && s[0] == MINUS && is_nonzero_digit(s[1]) && all_digits(s.skip(1))
}

/// The run of leading digits lies within `s`, is made of digits, and ends
/// where `s` ends or at a byte that is no digit.
pub proof fn lemma_digit_run(s: Seq<u8>)
    ensures
        digit_run(s) <= s.len(),
        all_digits(s.take(digit_run(s) as int)),
        digit_run(s) < s.len() ==> !is_digit(s[digit_run(s) as int]),
    decreases s.len(),
{
    if s.len() > 0 && is_digit(s[0]) {
        let t = s.skip(1);
        lemma_digit_run(t);
        let n = digit_run(t) as int;
        assert forall|i: int| 0 <= i < n + 1 implies is_digit(#[trigger] s.take(n + 1)[i]) by {
            if i > 0 {
                assert(s.take(n + 1)[i] == t.take(n)[i - 1]);
            }
        }
        if n + 1 < s.len() {
            assert(s[n + 1] == t[n]);
        }
    }
}

/// A prefix of digits that ends where `s` ends, or at a byte that is no
/// digit, is the run of leading digits.
pub proof fn lemma_digit_run_is(s: Seq<u8>, k: int)
    requires
        0 <= k <= s.len(),
        forall|j: int| 0 <= j < k ==> is_digit(#[trigger] s[j]),
        k < s.len() ==> !is_digit(s[k]),
    ensures
        digit_run(s) == k,
{
    lemma_digit_run(s);
    let n = digit_run(s) as int;
    if n < k {
        assert(is_digit(s[n]));
    } else if n > k {
        assert(is_digit(s.take(n)[k]));
    }
}

/// The digits that write `n` in base ten without a leading zero.
pub open spec fn digits_of(n: nat) -> Seq<u8>
    decreases n,
{
    if n < 10 {
        seq![(DIGIT_ZERO + n) as u8]
    } else {
        digits_of(n / 10).push((DIGIT_ZERO + n % 10) as u8)
    }
}

/// The canonical numeral of `v`: its digits without a leading zero, after a
/// minus sign where `v` is negative.
pub open spec fn canonical_numeral(v: int) -> Seq<u8> {
    if v < 0 {
        seq![MINUS] + digits_of((-v) as nat)
    } else {
        digits_of(v as nat)
    }
}

/// The digits of `n` are digits, are worth `n`, and begin with a zero only
/// where `n` is zero.
pub proof fn lemma_digits_of(n: nat)
    ensures
        digits_of(n).len() > 0,
        all_digits(digits_of(n)),
        decimal_value(digits_of(n)) == n,
        n > 0 ==> is_nonzero_digit(digits_of(n)[0]),
        n == 0 ==> digits_of(n) =~= seq![DIGIT_ZERO],
    decreases n,
{
    if n < 10 {
        let d = digits_of(n);
        assert(d.drop_last() =~= Seq::<u8>::empty());
        assert(decimal_value(d.drop_last()) == 0);
    } else {
        let front = digits_of(n / 10);
        let d = digits_of(n);
        lemma_digits_of(n / 10);
        assert(d.drop_last() =~= front);
        assert(d[0] == front[0]);
    }
}

/// Digits that begin with a non-zero one are worth at least one.
pub proof fn lemma_leading_digit_counts(s: Seq<u8>)
    requires
        s.len() > 0,
        all_digits(s),
        is_nonzero_digit(s[0]),
    ensures
        decimal_value(s) >= 1,
    decreases s.len(),
{
    if s.len() > 1 {
        let front = s.drop_last();
        assert(front[0] == s[0]);
        assert forall|i: int| 0 <= i < front.len() implies is_digit(#[trigger] front[i]) by {
            assert(front[i] == s[i]);
        }
        lemma_leading_digit_counts(front);
    } else {
        assert(s.drop_last() =~= Seq::<u8>::empty());
        assert(decimal_value(s.drop_last()) == 0);
    }
}

/// Digits without a leading zero are the digits of what they are worth.
pub proof fn lemma_digits_of_value(s: Seq<u8>)
    requires
        s.len() > 0,
        all_digits(s),
        s.len() == 1 || is_nonzero_digit(s[0]),
    ensures
        digits_of(decimal_value(s)) == s,
    decreases s.len(),
{
    let front = s.drop_last();
    let last = s.last();
    assert(is_digit(s[s.len() - 1]));
    if s.len() == 1 {
        assert(front =~= Seq::<u8>::empty());
        assert(decimal_value(front) == 0);
        assert(digits_of(decimal_value(s)) =~= s);
    } else {
        assert(front[0] == s[0]);
        assert forall|i: int| 0 <= i < front.len() implies is_digit(#[trigger] front[i]) by {
            assert(front[i] == s[i]);
        }
        lemma_leading_digit_counts(front);
        lemma_digits_of_value(front);
        let v = decimal_value(s);
        assert(v == 10 * decimal_value(front) + (last - DIGIT_ZERO));
        assert(v / 10 == decimal_value(front));
        assert(v % 10 == last - DIGIT_ZERO);
        assert(digits_of(v) =~= s);
    }
}

/// The leading decimal numeral of `input`, read by
/// `nom::character::complete::u64`. That function walks over the longest run
/// of leading digits and accumulates their value with checked arithmetic. It
/// fails when the run is empty or the value does not fit in 64 bits, and
/// otherwise returns the value with the input after the run.
#[verifier::external_body]
pub(crate) fn leading_u64<'a>(input: &'a [u8]) -> (r: Option<(&'a [u8], u64)>)
    ensures
        match r {
            Some((rest, n)) => {
                &&& digit_run(input@) > 0
                &&& n == decimal_value(input@.take(digit_run(input@) as int))
                &&& rest@ == input@.skip(digit_run(input@) as int)
            },
            None => {
                ||| digit_run(input@) == 0
                ||| decimal_value(input@.take(digit_run(input@) as int)) > u64::MAX
            },
        },
{
    nom::character::complete::u64::<&[u8], nom::error::Error<&[u8]>>(input).ok()
}

/// The value of a signed decimal numeral as an `i64`, read by
/// `nom::ParseTo::parse_to`, which hands the bytes as text to the standard
/// library's `i64::from_str`. For a run of digits with an optional minus sign
/// in front that function returns the number written, and fails when it is
/// outside the 64-bit signed range. Nothing is claimed for other input.
#[verifier::external_body]
pub(crate) fn signed_decimal_to_i64(digits: &[u8]) -> (r: Option<i64>)
    ensures
        is_signed_decimal(digits@) ==> r == if i64::MIN <= signed_value(digits@) <= i64::MAX {
            Some(signed_value(digits@) as i64)
        } else {
            None
        },
{
    nom::ParseTo::parse_to(&digits)
}

} // verus!
