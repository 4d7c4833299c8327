//! Scaled ledger amounts.
//!
//! The ledger stores token quantities as unsigned integers in their smallest
//! unit.  A table value is given as a plain unsigned integer together with a
//! denomination, a power-of-ten scale; converting it into the stored form
//! multiplies by that power of ten.  The model fixes the stored amount width
//! at 128 bits: a conversion whose result does not fit reports an overflow.

use vstd::prelude::*;

verus! {

use vstd::arithmetic::div_mod::{lemma_div_by_multiple, lemma_mod_multiples_basic, lemma_small_mod};
use vstd::arithmetic::mul::lemma_mul_inequality;

/// The power-of-ten multiplier for a denomination of `d` digits.
pub open spec fn pow10(d: nat) -> nat
    decreases d,
{
    if d == 0 {
        1
    } else {
        10 * pow10((d - 1) as nat)
    }
}

pub proof fn lemma_pow10_positive(d: nat)
    ensures
        pow10(d) >= 1,
    decreases d,
{
    if d > 0 {
        lemma_pow10_positive((d - 1) as nat);
    }
}

pub proof fn lemma_pow10_increases(i: nat, j: nat)
    requires
        i <= j,
    ensures
        pow10(i) <= pow10(j),
    decreases j,
{
    if i < j {
        lemma_pow10_increases(i, (j - 1) as nat);
        lemma_pow10_positive((j - 1) as nat);
    }
}

/// The scaled form of a table value, if it fits the stored amount width.
pub open spec fn spec_scale(value: u64, denomination: u8) -> Option<u128> {
    if value * pow10(denomination as nat) <= u128::MAX {
        Some((value * pow10(denomination as nat)) as u128)
    } else {
        None
    }
}

/// Converts a plain unsigned integer into the stored scaled amount,
/// multiplying by ten to the power of `denomination`.  Reports `None` when
/// the scaled value exceeds the stored amount width.
pub fn scale_amount(value: u64, denomination: u8) -> (r: Option<u128>)
    ensures
        r == spec_scale(value, denomination),
{
    if value == 0 {
        return Some(0);
    }
    let mut p: u128 = 1;
    let mut i: u8 = 0;
    while i < denomination
        invariant
            i <= denomination,
            value >= 1,
            p == pow10(i as nat),
        decreases denomination - i,
    {
        match p.checked_mul(10) {
            Some(next) => {
                p = next;
                i = i + 1;
            },
            None => {
                proof {
                    // pow10(i + 1) already exceeds the width, so the full
                    // multiplier does too, and value >= 1 keeps the product
                    // at least as large.
                    lemma_pow10_increases(i as nat + 1, denomination as nat);
                    lemma_pow10_positive(denomination as nat);
                    lemma_mul_inequality(1, value as int, pow10(denomination as nat) as int);
                }
                return None;
            },
        }
    }
    proof {
        lemma_pow10_positive(denomination as nat);
        lemma_mul_inequality(1, value as int, pow10(denomination as nat) as int);
    }
    value_times(value, p)
}

/// Multiplies the value by the computed power of ten, checking the width.
fn value_times(value: u64, p: u128) -> (r: Option<u128>)
    requires
        value >= 1,
    ensures
        value * p <= u128::MAX ==> r == Some((value * p) as u128),
        value * p > u128::MAX ==> r is None,
{
    (value as u128).checked_mul(p)
}

/// Decodes a stored scaled amount back to the plain unsigned integer at the
/// given denomination.  Reports `None` when the stored amount is not a
/// multiple of the scale or the decoded value exceeds the table value width.
pub fn unscale_amount(amount: u128, denomination: u8) -> (r: Option<u64>)
    ensures
        ({
            let p = pow10(denomination as nat);
            &&& (r is Some <==> (amount as int) % (p as int) == 0 && (amount as int) / (p as int) <= u64::MAX)
            &&& (r matches Some(v) ==> v == (amount as int) / (p as int))
        }),
{
    proof {
        lemma_pow10_positive(denomination as nat);
    }
    if amount == 0 {
        return Some(0);
    }
    let mut p: u128 = 1;
    let mut i: u8 = 0;
    while i < denomination
        invariant
            i <= denomination,
            amount >= 1,
            p == pow10(i as nat),
        decreases denomination - i,
    {
        match p.checked_mul(10) {
            Some(next) => {
                p = next;
                i = i + 1;
            },
            None => {
                proof {
                    // The full multiplier exceeds the width, so it is larger
                    // than the amount and the amount is no multiple of it.
                    lemma_pow10_increases(i as nat + 1, denomination as nat);
                    lemma_small_mod(amount as nat, pow10(denomination as nat));
                }
                return None;
            },
        }
    }
    let q: u128 = amount / p;
    let rem: u128 = amount % p;
    if rem == 0 && q <= u64::MAX as u128 {
        Some(q as u64)
    } else {
        None
    }
}

/// Round-trip law: a table value that fits the stored width at its
/// denomination decodes back from its scaled form to exactly the original
/// value.
pub proof fn lemma_scale_round_trip(value: u64, denomination: u8)
    ensures
        spec_scale(value, denomination) matches Some(a) ==> {
            let p = pow10(denomination as nat);
            &&& (a as int) % (p as int) == 0
            &&& (a as int) / (p as int) == value
        },
{
    let p = pow10(denomination as nat);
    lemma_pow10_positive(denomination as nat);
    if value * p <= u128::MAX {
        lemma_mod_multiples_basic(value as int, p as int);
        lemma_div_by_multiple(value as int, p as int);
    }
}

} // verus!
