use vstd::prelude::*;
use crate::types::Error;

verus! {

/// True when `v` is representable as an `i128`.
pub open spec fn fits_i128(v: int) -> bool {
    i128::MIN <= v <= i128::MAX
}

/// A winner's prize share: the floor of `stake * losing / winning`.
/// Verus's `/` on `int` rounds toward negative infinity for a positive divisor.
pub open spec fn prize_share(stake: int, winning: int, losing: int) -> int
    recommends
        winning > 0,
{
    (stake * losing) / winning
}

/// What a winner receives: the own stake back plus the prize share.
pub open spec fn payout_amount(stake: int, winning: int, losing: int) -> int
    recommends
        winning > 0,
{
    stake + prize_share(stake, winning, losing)
}

/// The outcome of the payout computation on the given pools, errors included.
pub open spec fn payout_result(stake: i128, winning: i128, losing: i128) -> Result<i128, Error> {
    if stake <= 0 {
        Err(Error::NothingToClaim)
    } else if winning <= 0 {
        Err(Error::InvalidWinningPool)
    } else if !fits_i128(stake * losing) || !fits_i128(payout_amount(stake as int, winning as int, losing as int)) {
        Err(Error::ArithmeticError)
    } else {
        Ok(payout_amount(stake as int, winning as int, losing as int) as i128)
    }
}

proof fn lemma_floor_div_bounded(x: int, d: int)
    requires
        d >= 1,
    ensures
        x >= 0 ==> 0 <= x / d <= x,
        x < 0 ==> x <= x / d < 0,
{
    if x >= 0 {
        vstd::arithmetic::div_mod::lemma_div_pos_is_pos(x, d);
        vstd::arithmetic::div_mod::lemma_div_is_ordered_by_denominator(x, 1, d);
    } else {
        vstd::arithmetic::div_mod::lemma_fundamental_div_mod(x, d);
        assert(x / d < 0) by (nonlinear_arith)
            requires x < 0, d >= 1, x == d * (x / d) + x % d, 0 <= x % d < d;
        assert(x <= x / d) by (nonlinear_arith)
            requires x < 0, d >= 1, x == d * (x / d) + x % d, 0 <= x % d < d, x / d < 0;
    }
}

/// Computes a winner's payout: `stake + floor(stake * losing / winning)`.
///
/// Fails with `NothingToClaim` when `stake <= 0`, with `InvalidWinningPool`
/// when `winning <= 0`, and with `ArithmeticError` when the product or the
/// final sum leaves the `i128` range. Nothing is saturated or truncated.
pub fn compute_payout(stake: i128, winning: i128, losing: i128) -> (r: Result<i128, Error>)
    ensures
        r == payout_result(stake, winning, losing),
{
    if stake <= 0 {
        return Err(Error::NothingToClaim);
    }
    if winning <= 0 {
        return Err(Error::InvalidWinningPool);
    }
    let product = match stake.checked_mul(losing) {
        Some(p) => p,
        None => return Err(Error::ArithmeticError),
    };
    proof {
        lemma_floor_div_bounded(product as int, winning as int);
    }
    let share = match product.checked_div_euclid(winning) {
        Some(q) => q,
        None => return Err(Error::ArithmeticError),
    };
    match stake.checked_add(share) {
        Some(total) => Ok(total),
        None => Err(Error::ArithmeticError),
    }
}

} // verus!
