//! Decimal rendering of row counts and shape extents, and the inverse
//! reading of a decimal digit run out of a byte sequence.

use vstd::prelude::*;

verus! {

/// The ASCII decimal digits of `n`, most significant first.
pub open spec fn dec_digits(n: nat) -> Seq<u8>
    decreases n,
{
    if n < 10 {
        seq![(0x30 + n) as u8]
    } else {
        dec_digits(n / 10) + seq![(0x30 + n % 10) as u8]
    }
}

pub open spec fn is_digit(b: u8) -> bool {
    0x30 <= b <= 0x39
}

/// The value of a sequence of ASCII digits, read as a decimal numeral.
pub open spec fn digits_value(s: Seq<u8>) -> nat
    decreases s.len(),
{
    if s.len() == 0 {
        0
    } else {
        (digits_value(s.take(s.len() - 1)) * 10 + (s[s.len() - 1] - 0x30)) as nat
    }
}

/// The longest run of ASCII digits at the start of `s`.
pub open spec fn digit_run(s: Seq<u8>) -> Seq<u8>
    decreases s.len(),
{
    if s.len() == 0 || !is_digit(s[0]) {
        Seq::empty()
    } else {
        seq![s[0]] + digit_run(s.skip(1))
    }
}

/// The decimal value spelled by the digit run starting at position `pos`:
/// how a reader recovers the row count from a finished header.
pub open spec fn spec_parse_count_at(s: Seq<u8>, pos: int) -> nat {
    digits_value(digit_run(s.skip(pos)))
}

pub proof fn lemma_dec_digits_are_digits(n: nat)
    ensures
        dec_digits(n).len() >= 1,
        forall|i: int| 0 <= i < dec_digits(n).len() ==> is_digit(#[trigger] dec_digits(n)[i]),
    decreases n,
{
    if n >= 10 {
        lemma_dec_digits_are_digits(n / 10);
    }
}

/// Rendering a value as decimal digits and reading them back as a numeral
/// yields the value again.
pub proof fn lemma_dec_digits_value(n: nat)
    ensures
        digits_value(dec_digits(n)) == n,
    decreases n,
{
    if n < 10 {
        let s = dec_digits(n);
        assert(s.take(s.len() - 1) =~= Seq::<u8>::empty());
        assert(digits_value(s) == digits_value(s.take(s.len() - 1)) * 10 + (s[s.len() - 1]
            - 0x30));
    } else {
        lemma_dec_digits_value(n / 10);
        let s = dec_digits(n);
        assert(s.take(s.len() - 1) =~= dec_digits(n / 10));
        assert(s[s.len() - 1] == (0x30 + n % 10) as u8);
        assert(digits_value(s) == digits_value(s.take(s.len() - 1)) * 10 + (s[s.len() - 1]
            - 0x30));
        assert(digits_value(s) == (n / 10) * 10 + n % 10);
    }
}

/// A digit run stops exactly at the first byte that is not a digit.
pub proof fn lemma_digit_run_of_digits(d: Seq<u8>, rest: Seq<u8>)
    requires
        forall|i: int| 0 <= i < d.len() ==> is_digit(#[trigger] d[i]),
        rest.len() > 0,
        !is_digit(rest[0]),
    ensures
        digit_run(d + rest) == d,
    decreases d.len(),
{
    if d.len() == 0 {
        assert(d + rest =~= rest);
        assert(digit_run(d + rest) =~= d);
    } else {
        lemma_digit_run_of_digits(d.skip(1), rest);
        assert((d + rest).skip(1) =~= d.skip(1) + rest);
        assert((d + rest)[0] == d[0]);
        assert(digit_run(d + rest) =~= seq![d[0]] + d.skip(1));
        assert(seq![d[0]] + d.skip(1) =~= d);
    }
}

/// The ASCII decimal digits of `n`, as a byte vector.
pub fn dec_digits_vec(n: u64) -> (r: Vec<u8>)
    ensures
        r@ == dec_digits(n as nat),
    decreases n,
{
    if n < 10 {
        let mut v: Vec<u8> = Vec::new();
        v.push(0x30 + (n as u8));
        proof {
            assert(v@ =~= dec_digits(n as nat));
        }
        v
    } else {
        let mut v = dec_digits_vec(n / 10);
        v.push(0x30 + ((n % 10) as u8));
        proof {
            assert(v@ =~= dec_digits(n as nat));
        }
        v
    }
}

} // verus!
