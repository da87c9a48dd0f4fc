//! Decimal numbers as they stand on a data line.

use vstd::prelude::*;

verus! {

/// The plus sign that may stand before the digits.
pub const PLUS: u8 = 0x2b;

/// The digit `0`.
pub const ZERO: u8 = 0x30;

/// The digit `9`.
pub const NINE: u8 = 0x39;

/// A decimal digit.
pub open spec fn is_digit(b: u8) -> bool {
    ZERO <= b <= NINE
}

/// Every byte of `d` is a decimal digit.
pub open spec fn all_digits(d: Seq<u8>) -> bool {
    forall|i: int| 0 <= i < d.len() ==> is_digit(#[trigger] d[i])
}

/// The number that the digits `d` write, most significant digit first.
pub open spec fn digits_value(d: Seq<u8>) -> nat
    decreases d.len(),
{
    if d.len() == 0 {
        0
    } else {
        10 * digits_value(d.drop_last()) + (d.last() - ZERO) as nat
    }
}

/// The digits of `text`: what follows one leading plus sign, or all of it.
pub open spec fn unsigned_digits(text: Seq<u8>) -> Seq<u8> {
    if text.len() > 0 && text[0] == PLUS {
        text.skip(1)
    } else {
        text
    }
}

/// The number that `text` writes, if it is one and no larger than `max`:
/// an optional plus sign, then one or more decimal digits and nothing else.
pub open spec fn decimal_value(text: Seq<u8>, max: nat) -> Option<nat> {
    let d = unsigned_digits(text);
    if d.len() > 0 && all_digits(d) && digits_value(d) <= max {
        Some(digits_value(d))
    } else {
        None
    }
}

/// A number does not shrink when more digits follow it.
pub proof fn lemma_digits_value_grows(d: Seq<u8>, k: int)
    requires
        all_digits(d),
        0 <= k <= d.len(),
    ensures
        digits_value(d.take(k)) <= digits_value(d),
    decreases d.len() - k,
{
    if k < d.len() {
        let longer = d.take(k + 1);
        assert(longer.drop_last() =~= d.take(k));
        assert(is_digit(d[k]));
        assert(longer.last() == d[k]);
        lemma_digits_value_grows(d, k + 1);
    } else {
        assert(d.take(k) =~= d);
    }
}

/// Reads `text` as an unsigned 64-bit number.
pub fn parse_u64(text: &[u8]) -> (r: Option<u64>)
    ensures
        r matches Some(v) ==> decimal_value(text@, u64::MAX as nat) == Some(v as nat),
        r is None ==> decimal_value(text@, u64::MAX as nat) is None,
{
    let n = text.len();
    let first: usize = if n > 0 && text[0] == PLUS {
        1
    } else {
        0
    };
    if first == n {
        return None;
    }
    let ghost d = unsigned_digits(text@);
    let mut acc: u64 = 0;
    let mut i: usize = first;
    assert(d.take(0) =~= Seq::<u8>::empty());
    while i < n
        invariant
            n == text@.len(),
            first <= i <= n,
            d == unsigned_digits(text@),
            d == text@.skip(first as int),
            all_digits(d.take(i - first)),
            acc == digits_value(d.take(i - first)),
        decreases n - i,
    {
        let b = text[i];
        let ghost longer = d.take(i + 1 - first);
        assert(longer.drop_last() =~= d.take(i - first));
        assert(longer.last() == b);
        if b < ZERO || b > NINE {
            assert(!is_digit(d[i - first]));
            return None;
        }
        let digit: u64 = (b - ZERO) as u64;
        if acc > (u64::MAX - digit) / 10 {
            proof {
                assert(digits_value(longer) == 10 * acc + digit);
                if all_digits(d) {
                    lemma_digits_value_grows(d, i + 1 - first);
                }
            }
            return None;
        }
        acc = acc * 10 + digit;
        i = i + 1;
    }
    assert(d.take(n - first) =~= d);
    Some(acc)
}

/// Reads `text` as an unsigned 32-bit number.
pub fn parse_u32(text: &[u8]) -> (r: Option<u32>)
    ensures
        r matches Some(v) ==> decimal_value(text@, u32::MAX as nat) == Some(v as nat),
        r is None ==> decimal_value(text@, u32::MAX as nat) is None,
{
    match parse_u64(text) {
        None => None,
        Some(v) => if v <= 0xffff_ffff {
            Some(v as u32)
        } else {
            None
        },
    }
}

} // verus!
