//! Conversion of stake into voting or reward power.
use vstd::prelude::*;

verus! {

/// Atomic units of a multiplier that stand for `1.0` (eighteen decimal places).
pub const DECIMAL_FRACTIONAL: u128 = 1_000_000_000_000_000_000;

/// `stake * multiplier`, where the multiplier is given in atomic units, rounded down.
pub open spec fn scaled(stake: int, multiplier: int) -> int {
    stake * multiplier / (DECIMAL_FRACTIONAL as int)
}

/// Power of `stake` under `multiplier`: nothing below the minimum bond,
/// else the scaled stake divided by the tokens needed for one unit of power.
pub open spec fn power(min_bond: int, tokens_per_power: int, stake: int, multiplier: int) -> int {
    if stake < min_bond {
        0
    } else {
        scaled(stake, multiplier) / tokens_per_power
    }
}

/// Whether `power` of the given values fits in an unsigned 128-bit amount.
pub open spec fn power_fits(min_bond: int, stake: int, multiplier: int) -> bool {
    stake < min_bond || scaled(stake, multiplier) <= u128::MAX
}

/// Relies on cosmwasm_std::Uint128::checked_multiply_ratio, which is what
/// `Uint128 * Decimal` computes: `amount * atomics / 10^18` rounded down, or an
/// error when that does not fit in 128 bits.
#[verifier::external_body]
fn checked_mul_decimal(amount: u128, atomics: u128) -> (r: Option<u128>)
    ensures
        scaled(amount as int, atomics as int) <= u128::MAX ==> r == Some(
            scaled(amount as int, atomics as int) as u128,
        ),
        scaled(amount as int, atomics as int) > u128::MAX ==> r is None,
{
    cosmwasm_std::Uint128::new(amount).checked_multiply_ratio(atomics, DECIMAL_FRACTIONAL).ok().map(
        |v| v.u128(),
    )
}

/// Power of `stake` under `multiplier`; `None` when the scaled stake overflows.
pub fn calc_power(min_bond: u128, tokens_per_power: u128, stake: u128, multiplier: u128) -> (r:
    Option<u128>)
    requires
        tokens_per_power > 0,
    ensures
        power_fits(min_bond as int, stake as int, multiplier as int) ==> r == Some(
            power(min_bond as int, tokens_per_power as int, stake as int, multiplier as int) as u128,
        ),
        !power_fits(min_bond as int, stake as int, multiplier as int) ==> r is None,
{
    if stake < min_bond {
        Some(0)
    } else {
        match checked_mul_decimal(stake, multiplier) {
            Some(v) => Some(v / tokens_per_power),
            None => None,
        }
    }
}

} // verus!
