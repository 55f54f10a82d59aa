//! Decimal notation: the digits of a natural number and the number that a run
//! of digits stands for.
use vstd::prelude::*;

verus! {

/// `true` for the ASCII digits `0` to `9`.
pub open spec fn is_digit(b: u8) -> bool {
    48 <= b <= 57
}

/// Every byte of `d` is an ASCII digit.
pub open spec fn all_digits(d: Seq<u8>) -> bool {
    forall|i: int| 0 <= i < d.len() ==> is_digit(#[trigger] d[i])
}

/// The decimal digits of `n`, most significant first, without leading zeros.
pub open spec fn dec_digits(n: nat) -> Seq<u8>
    decreases n,
{
    if n < 10 {
        seq![(48 + n) as u8]
    } else {
        dec_digits(n / 10).push((48 + n % 10) as u8)
    }
}

/// The digits of `n`, with a leading `-` for a negative number.
pub open spec fn dec_int(n: int) -> Seq<u8> {
    if n < 0 {
        seq![45u8] + dec_digits((-n) as nat)
    } else {
        dec_digits(n as nat)
    }
}

/// The number that the digits `d` stand for.
pub open spec fn dec_value(d: Seq<u8>) -> nat
    decreases d.len(),
{
    if d.len() == 0 {
        0
    } else {
        10 * dec_value(d.drop_last()) + (d.last() - 48) as nat
    }
}

/// `d` is how a number is written: at least one digit, no leading zero but in
/// `0` itself.
pub open spec fn is_canonical(d: Seq<u8>) -> bool {
    all_digits(d) && d.len() > 0 && (d.len() > 1 ==> d[0] != 48)
}

pub proof fn lemma_dec_digits_canonical(n: nat)
    ensures
        is_canonical(dec_digits(n)),
        n > 0 ==> dec_digits(n)[0] != 48,
    decreases n,
{
    if n >= 10 {
        lemma_dec_digits_canonical(n / 10);
    }
}

pub proof fn lemma_value_of_digits(n: nat)
    ensures
        dec_value(dec_digits(n)) == n,
    decreases n,
{
    if n >= 10 {
        lemma_value_of_digits(n / 10);
        assert(dec_digits(n).drop_last() =~= dec_digits(n / 10));
    } else {
        assert(dec_digits(n).drop_last() =~= Seq::<u8>::empty());
        assert(dec_value(Seq::<u8>::empty()) == 0);
    }
}

/// A canonical run of more than one digit stands for a positive number.
proof fn lemma_value_positive(d: Seq<u8>)
    requires
        is_canonical(d),
        d[0] != 48,
    ensures
        dec_value(d) > 0,
    decreases d.len(),
{
    if d.len() > 1 {
        assert(d.drop_last()[0] == d[0]);
        lemma_value_positive(d.drop_last());
    } else {
        assert(d.last() == d[0]);
    }
}

pub proof fn lemma_digits_of_value(d: Seq<u8>)
    requires
        is_canonical(d),
    ensures
        dec_digits(dec_value(d)) == d,
    decreases d.len(),
{
    let front = d.drop_last();
    assert(is_digit(d.last()));
    if d.len() == 1 {
        assert(front =~= Seq::<u8>::empty());
        assert(dec_value(front) == 0);
        assert(dec_digits(dec_value(d)) =~= d);
    } else {
        assert(front[0] == d[0]);
        lemma_digits_of_value(front);
        lemma_value_positive(front);
        let v: nat = dec_value(d);
        assert(v / 10 == dec_value(front));
        assert(v % 10 == (d.last() - 48) as nat);
        assert(dec_digits(v) =~= d);
    }
}

/// Reading more digits never makes the number smaller.
pub proof fn lemma_value_monotone(d: Seq<u8>, k: int)
    requires
        all_digits(d),
        0 <= k <= d.len(),
    ensures
        dec_value(d.take(k)) <= dec_value(d),
    decreases d.len(),
{
    if k < d.len() {
        lemma_value_monotone(d.drop_last(), k);
        assert(d.drop_last().take(k) =~= d.take(k));
    } else {
        assert(d.take(k) =~= d);
    }
}

/// Appends the decimal digits of `n`.
pub fn push_decimal(out: &mut Vec<u8>, n: u64)
    ensures
        final(out)@ == old(out)@ + dec_digits(n as nat),
    decreases n,
{
    if n >= 10 {
        push_decimal(out, n / 10);
    }
    out.push(48 + (n % 10) as u8);
    assert(out@ =~= old(out)@ + dec_digits(n as nat));
}

/// Appends the decimal digits of `n`, after a `-` when it is negative.
pub fn push_decimal_signed(out: &mut Vec<u8>, n: i64)
    ensures
        final(out)@ == old(out)@ + dec_int(n as int),
{
    if n < 0 {
        out.push(45);
        let magnitude: u64 = if n == i64::MIN { 0x8000_0000_0000_0000u64 } else { (-n) as u64 };
        push_decimal(out, magnitude);
        assert(out@ =~= old(out)@ + dec_int(n as int));
    } else {
        push_decimal(out, n as u64);
    }
}

/// Reads `d` as a number that must not exceed `limit`.
pub fn parse_decimal(d: &[u8], limit: u64) -> (r: Option<u64>)
    requires
        all_digits(d@),
    ensures
        match r {
            Some(v) => v == dec_value(d@) && v <= limit,
            None => dec_value(d@) > limit,
        },
{
    let mut acc: u64 = 0;
    let mut i: usize = 0;
    assert(d@.take(0) =~= Seq::<u8>::empty());
    while i < d.len()
        invariant
            i <= d.len(),
            all_digits(d@),
            acc == dec_value(d@.take(i as int)),
            acc <= limit,
        decreases d.len() - i,
    {
        assert(is_digit(d@[i as int]));
        let digit: u64 = (d[i] - 48) as u64;
        proof {
            lemma_value_monotone(d@, i + 1);
            assert(d@.take(i + 1).drop_last() =~= d@.take(i as int));
        }
        if acc > limit / 10 {
            return None;
        }
        let scaled: u64 = acc * 10;
        if digit > limit - scaled {
            return None;
        }
        acc = scaled + digit;
        i = i + 1;
    }
    assert(d@.take(i as int) =~= d@);
    Some(acc)
}

} // verus!
