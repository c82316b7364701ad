//! The two-asset pool: reserves, liquidity ledger and market operations.
//!
//! Every operation reads the state, computes exclusively through the
//! fixed-point conversion engine, and either commits the whole transition or
//! fails with an error and mutates nothing. Rounding directions follow the
//! pool-favoring policy: a counterparty's credit rounds down, the pool's
//! collateral rounds up.

use vstd::prelude::*;
use vstd::arithmetic::div_mod::*;
use vstd::arithmetic::mul::*;
use crate::fixed::{div_up, full_mul, mul3_div_up, mul_div_down, mul_div_up};
use crate::fixed::{lemma_div_le, lemma_div_mul_le, lemma_div_up_bounds, lemma_div_up_le};
use crate::types::{AmmError, Liquidity, Percentage, Price, TokenAmount};
use crate::types::{LIQUIDITY_ONE, PERCENTAGE_ONE, PRICE_ONE, RATIO_ONE, RATIO_ONE_SQ};

verus! {

/// The mathematical shadow of a pool: raw unit counts of both reserves, the
/// issued liquidity and the fee, all as unbounded integers.
pub struct AmmView {
    pub x: int,
    pub y: int,
    pub l: int,
    pub fee: int,
}

/// The fraction `dx / x` at the ratio scale, rounded down: a contributor or
/// withdrawer is never credited more share than the amount represents.
pub open spec fn ratio_down(dx: int, x: int) -> int
    recommends
        x > 0,
{
    (dx * RATIO_ONE) / x
}

/// The growth factor `1 + dx / x` at the ratio scale.
pub open spec fn growth_alpha(x: int, dx: int) -> int {
    RATIO_ONE + ratio_down(dx, x)
}

/// The shrink factor `1 - dx / x` at the ratio scale.
pub open spec fn shrink_alpha(x: int, dx: int) -> int {
    RATIO_ONE - ratio_down(dx, x)
}

/// A value scaled by a ratio-scale factor, rounded down.
pub open spec fn scale_down(v: int, alpha: int) -> int {
    (v * alpha) / (RATIO_ONE as int)
}

/// A value scaled by a ratio-scale factor, rounded up.
pub open spec fn scale_up(v: int, alpha: int) -> int {
    div_up(v * alpha, RATIO_ONE as int)
}

/// A value scaled by a squared ratio-scale factor, with the one ceiling
/// applied at the combined scale, rounded up.
pub open spec fn scale_up_sq(v: int, alpha: int) -> int {
    div_up(v * alpha * alpha, RATIO_ONE_SQ as int)
}

/// The liquidity seeded by the bootstrap provision: the raw product of the
/// equal reserves, rescaled to the liquidity scale.
pub open spec fn bootstrap_liquidity(dx: int) -> int {
    dx * dx * LIQUIDITY_ONE
}

/// The X reserve after a subsequent provision of `dx`, rounded up: growing
/// reserves must never under-collateralize the pool.
pub open spec fn add_new_x(x: int, dx: int) -> int {
    scale_up(x, growth_alpha(x, dx))
}

/// The Y reserve after a subsequent provision of `dx`, rounded up.
pub open spec fn add_new_y(x: int, y: int, dx: int) -> int {
    scale_up(y, growth_alpha(x, dx))
}

/// The issued liquidity after a provision: scaled by the squared growth
/// factor, rounded up.
pub open spec fn add_new_l(x: int, l: int, dx: int) -> int {
    scale_up_sq(l, growth_alpha(x, dx))
}

/// The liquidity minted for the provider: the contribution ratio applied to
/// the grown supply, rounded up in the pool's favor.
pub open spec fn add_minted(x: int, l: int, dx: int) -> int {
    scale_up(add_new_l(x, l, dx), ratio_down(dx, x))
}

/// Whether every intermediate of a subsequent provision fits the backing
/// width; when one does not, the operation is rejected with `Overflow`.
pub open spec fn add_fits(x: int, y: int, l: int, dx: int) -> bool {
    &&& ratio_down(dx, x) <= u128::MAX
    &&& growth_alpha(x, dx) <= u128::MAX
    &&& add_new_x(x, dx) <= u128::MAX
    &&& add_new_y(x, y, dx) <= u128::MAX
    &&& add_new_l(x, l, dx) <= u128::MAX
    &&& add_minted(x, l, dx) <= u128::MAX
}

/// The X reserve after a withdrawal of `dx`, rounded down: shrinking
/// reserves shrink by at least the intended amount.
pub open spec fn remove_new_x(x: int, dx: int) -> int {
    scale_down(x, shrink_alpha(x, dx))
}

/// The Y reserve after a withdrawal of `dx`, rounded down.
pub open spec fn remove_new_y(x: int, y: int, dx: int) -> int {
    scale_down(y, shrink_alpha(x, dx))
}

/// The issued liquidity after a withdrawal: scaled by the squared shrink
/// factor, rounded up.
pub open spec fn remove_new_l(x: int, l: int, dx: int) -> int {
    scale_up_sq(l, shrink_alpha(x, dx))
}

/// The liquidity burned for the withdrawer, rounded up: redemption rounds in
/// the pool's favor.
pub open spec fn remove_burned(x: int, l: int, dx: int) -> int {
    scale_up(remove_new_l(x, l, dx), ratio_down(dx, x))
}

/// The fee-adjusted input of a swap, rounded up: the fee is charged
/// conservatively, in the pool's favor.
pub open spec fn effective_input(amount: int, fee: int) -> int
    recommends
        0 <= fee <= PERCENTAGE_ONE,
{
    div_up(amount * (PERCENTAGE_ONE - fee), PERCENTAGE_ONE as int)
}

/// What a swap pays out of the opposite reserve, rounded down: the pool never
/// pays more than the invariant strictly allows.
pub open spec fn swap_withdraw(amount: int, fee: int, new_in: int, out: int) -> int
    recommends
        new_in > 0,
{
    (effective_input(amount, fee) * out) / new_in
}

/// The spot price `y / x` at the price scale, rounded down.
pub open spec fn spot_price(x: int, y: int) -> int
    recommends
        x > 0,
{
    (y * PRICE_ONE) / x
}

/// Everything a swap computes stays within bounds: the fee-adjusted input
/// never exceeds the raw input, the withdrawal never exceeds the output-side
/// reserve, and the reserve product never decreases.
proof fn lemma_swap_fits(res_in: int, out: int, amount: int, fee: int)
    requires
        0 <= res_in,
        0 <= out,
        0 <= amount,
        0 <= fee <= PERCENTAGE_ONE,
        0 < res_in + amount,
    ensures
        0 <= effective_input(amount, fee) <= amount,
        0 <= swap_withdraw(amount, fee, res_in + amount, out) <= out,
        (res_in + amount) * (out - swap_withdraw(amount, fee, res_in + amount, out)) >= res_in
            * out,
        (out - swap_withdraw(amount, fee, res_in + amount, out)) * (res_in + amount) >= out
            * res_in,
{
    let p: int = PERCENTAGE_ONE as int;
    let d: int = res_in + amount;
    lemma_mul_nonnegative(amount, p - fee);
    if amount > 0 {
        lemma_mul_left_inequality(amount, p - fee, p);
    } else {
        lemma_mul_basics(p - fee);
    }
    lemma_mul_is_commutative(amount, p);
    lemma_div_up_bounds(amount * (p - fee), p);
    lemma_div_up_le(amount * (p - fee), amount, p);
    let eff: int = effective_input(amount, fee);
    lemma_mul_nonnegative(eff, out);
    lemma_div_pos_is_pos(eff * out, d);
    let w: int = swap_withdraw(amount, fee, d, out);
    lemma_mul_inequality(eff, d, out);
    lemma_div_is_ordered(eff * out, d * out, d);
    lemma_mul_is_commutative(d, out);
    lemma_div_by_multiple(out, d);
    assert(w <= out);
    lemma_div_mul_le(eff * out, d);
    assert(w * d <= eff * out);
    lemma_mul_is_distributive_sub(d, out, w);
    lemma_mul_is_commutative(d, w);
    lemma_mul_is_distributive_sub_other_way(out, d, eff);
    lemma_mul_inequality(res_in, d - eff, out);
    assert(d * (out - w) >= res_in * out);
    lemma_mul_is_commutative(d, out - w);
    lemma_mul_is_commutative(res_in, out);
}

/// Swap conservation: a swap charges its fee and rounds its payout in the
/// pool's favor, so the reserve product after paying out the withdrawal is
/// at least the product before, whichever side the input enters.
pub proof fn lemma_swap_preserves_product(res_in: int, out: int, amount: int, fee: int)
    requires
        0 <= res_in,
        0 <= out,
        0 <= amount,
        0 <= fee <= PERCENTAGE_ONE,
        0 < res_in + amount,
    ensures
        (res_in + amount) * (out - swap_withdraw(amount, fee, res_in + amount, out)) >= res_in
            * out,
{
    lemma_swap_fits(res_in, out, amount, fee);
}

/// A shrink factor is at most one whole ratio unit, so the ledger scaled by
/// its square at the combined scale never grows.
proof fn lemma_remove_new_l_bounded(l: int, alpha: int)
    requires
        0 <= l,
        0 <= alpha <= RATIO_ONE,
    ensures
        0 <= scale_up_sq(l, alpha) <= l,
{
    let rr: int = RATIO_ONE as int;
    let rsq: int = RATIO_ONE_SQ as int;
    assert(rsq == rr * rr) by (nonlinear_arith)
        requires
            rsq == 1_000_000_000_000_000_000,
            rr == 1_000_000_000,
    ;
    lemma_mul_upper_bound(alpha, rr, alpha, rr);
    lemma_mul_inequality(alpha * alpha, rr * rr, l);
    lemma_mul_is_commutative(alpha * alpha, l);
    lemma_mul_is_commutative(rr * rr, l);
    lemma_mul_is_associative(l, alpha, alpha);
    lemma_mul_nonnegative(l, alpha);
    lemma_mul_nonnegative(l * alpha, alpha);
    lemma_div_up_bounds(l * alpha * alpha, rsq);
    lemma_div_up_le(l * alpha * alpha, l, rsq);
}

/// While the reserves stay within one whole ratio unit, a provision of `dx`
/// grows the X reserve by exactly `dx`: the floor lost by the contribution
/// ratio is recovered by the ceiling applied to the reserve.
proof fn lemma_add_new_x_exact(x: int, dx: int)
    requires
        0 < x,
        0 <= dx,
        x + dx <= RATIO_ONE,
    ensures
        add_new_x(x, dx) == x + dx,
{
    let rr: int = RATIO_ONE as int;
    lemma_mul_nonnegative(dx, rr);
    lemma_fundamental_div_mod(dx * rr, x);
    lemma_div_pos_is_pos(dx * rr, x);
    let q: int = (dx * rr) / x;
    let s: int = (dx * rr) % x;
    lemma_mul_is_distributive_add(x, rr, q);
    assert(x * (rr + q) == (x + dx) * rr - s) by {
        lemma_mul_is_distributive_add_other_way(rr, x, dx);
    };
    if s == 0 {
        lemma_mod_multiples_basic(x + dx, rr);
        lemma_div_by_multiple(x + dx, rr);
    } else {
        assert(x * (rr + q) == (x + dx - 1) * rr + (rr - s)) by {
            lemma_mul_is_distributive_sub_other_way(rr, x + dx, 1);
        };
        lemma_fundamental_div_mod_converse(x * (rr + q), rr, x + dx - 1, rr - s);
    }
}

/// Round-trip bound: providing `dx` and immediately withdrawing `dx` again
/// restores the X reserve exactly — the rounding bias never inflates it —
/// while the combined reserves stay within one whole ratio unit.
pub proof fn lemma_add_remove_round_trip(x: int, dx: int)
    requires
        0 < x,
        0 <= dx,
        x + dx <= RATIO_ONE,
    ensures
        add_new_x(x, dx) == x + dx,
        dx < add_new_x(x, dx),
        remove_new_x(add_new_x(x, dx), dx) == x,
{
    let rr: int = RATIO_ONE as int;
    lemma_add_new_x_exact(x, dx);
    let x1: int = x + dx;
    lemma_mul_nonnegative(dx, rr);
    lemma_fundamental_div_mod(dx * rr, x1);
    lemma_div_pos_is_pos(dx * rr, x1);
    let q2: int = (dx * rr) / x1;
    let s2: int = (dx * rr) % x1;
    lemma_mul_is_distributive_sub(x1, rr, q2);
    assert(x1 * (rr - q2) == x * rr + s2) by {
        lemma_mul_is_distributive_add_other_way(rr, x, dx);
    };
    lemma_hoist_over_denominator(s2, x, RATIO_ONE as nat);
    lemma_basic_div(s2, rr);
}

/// Monotonicity: a withdrawal that registers at the ratio scale, from a pool
/// whose liquidity outweighs the ratio unit, strictly shrinks both reserves
/// and the issued liquidity.
pub proof fn lemma_remove_liquidity_decreases(x: int, y: int, l: int, dx: int)
    requires
        0 < dx < x,
        0 < y,
        0 < l,
        x <= dx * RATIO_ONE,
        RATIO_ONE <= l * ratio_down(dx, x),
    ensures
        remove_new_x(x, dx) < x,
        remove_new_y(x, y, dx) < y,
        remove_new_l(x, l, dx) < l,
{
    let rr: int = RATIO_ONE as int;
    let r: int = ratio_down(dx, x);
    lemma_mul_nonnegative(dx, rr);
    assert(1 <= r) by {
        lemma_div_is_ordered(x, dx * rr, x);
        lemma_div_basics(x);
    };
    assert(r < rr) by {
        lemma_mul_strict_inequality(dx, x, rr);
        lemma_multiply_divide_lt(dx * rr, x, rr);
    };
    let alpha: int = rr - r;
    assert(remove_new_x(x, dx) < x) by {
        lemma_mul_left_inequality(x, alpha, rr - 1);
        lemma_mul_is_distributive_sub(x, rr, 1);
        lemma_mul_is_commutative(x, rr);
        lemma_multiply_divide_lt(x * alpha, rr, x);
    };
    assert(remove_new_y(x, y, dx) < y) by {
        lemma_mul_left_inequality(y, alpha, rr - 1);
        lemma_mul_is_distributive_sub(y, rr, 1);
        lemma_mul_is_commutative(y, rr);
        lemma_multiply_divide_lt(y * alpha, rr, y);
    };
    let rsq: int = RATIO_ONE_SQ as int;
    assert(rsq == rr * rr) by (nonlinear_arith)
        requires
            rsq == 1_000_000_000_000_000_000,
            rr == 1_000_000_000,
    ;
    assert(l * alpha * alpha <= (l - 1) * rsq) by {
        lemma_mul_inequality(rr, l * r, 2 * rr - r);
        lemma_mul_left_inequality(rr, rr, 2 * rr - r);
        assert(l * alpha * alpha == l * (rr * rr) - (l * r) * (2 * rr - r)) by (nonlinear_arith)
            requires
                alpha == rr - r,
        ;
        lemma_mul_is_distributive_sub_other_way(rsq, l, 1);
        lemma_mul_basics(rsq);
    };
    lemma_mul_nonnegative(l, alpha);
    lemma_mul_nonnegative(l * alpha, alpha);
    lemma_div_up_le(l * alpha * alpha, l - 1, rsq);
}

/// Two equal ratios keep the same floor after both are scaled by `p`.
proof fn lemma_scaled_ratio_eq(p: int, a: int, b: int, c: int, d: int)
    requires
        0 <= p,
        0 <= a,
        0 < b,
        0 <= c,
        0 < d,
        a * d == c * b,
    ensures
        (a * p) / b == (c * p) / d,
{
    lemma_mul_nonnegative(a, p);
    lemma_fundamental_div_mod(a * p, b);
    lemma_div_pos_is_pos(a * p, b);
    let q: int = (a * p) / b;
    let m: int = (a * p) % b;
    let t: int = c * p - q * d;
    assert(b * t == m * d) by (nonlinear_arith)
        requires
            a * d == c * b,
            a * p == b * q + m,
            t == c * p - q * d,
    ;
    lemma_mul_nonnegative(m, d);
    assert(0 <= t) by (nonlinear_arith)
        requires
            b * t == m * d,
            0 <= m * d,
            0 < b,
    ;
    lemma_mul_strict_inequality(m, b, d);
    assert(t < d) by (nonlinear_arith)
        requires
            b * t == m * d,
            m * d < b * d,
            0 < b,
    ;
    lemma_fundamental_div_mod_converse(c * p, d, q, t);
}

/// Price invariance: when the contribution ratio and the Y-side scaling both
/// divide exactly — so no rounding is involved — a provision moves both
/// reserves by the same factor and the spot price does not change at all.
pub proof fn lemma_add_liquidity_preserves_price(x: int, y: int, dx: int)
    requires
        0 < x,
        0 <= y,
        0 <= dx,
        x + dx <= RATIO_ONE,
        (dx * RATIO_ONE) % x == 0,
        (y * dx) % x == 0,
    ensures
        spot_price(add_new_x(x, dx), add_new_y(x, y, dx)) == spot_price(x, y),
{
    let rr: int = RATIO_ONE as int;
    lemma_add_new_x_exact(x, dx);
    let q: int = ratio_down(dx, x);
    lemma_mul_nonnegative(dx, rr);
    lemma_fundamental_div_mod(dx * rr, x);
    assert(dx * rr == x * q);
    lemma_mul_nonnegative(y, dx);
    lemma_fundamental_div_mod(y * dx, x);
    lemma_div_pos_is_pos(y * dx, x);
    let k: int = (y * dx) / x;
    assert(y * dx == x * k);
    assert(x * (y * q) == x * (k * rr)) by (nonlinear_arith)
        requires
            dx * rr == x * q,
            y * dx == x * k,
    ;
    lemma_mul_equality_converse(x, y * q, k * rr);
    lemma_mul_is_distributive_add(y, rr, q);
    lemma_mul_is_distributive_add_other_way(rr, y, k);
    lemma_mod_multiples_basic(y + k, rr);
    lemma_div_by_multiple(y + k, rr);
    assert(add_new_y(x, y, dx) == y + k);
    assert((y + k) * x == y * (x + dx)) by (nonlinear_arith)
        requires
            y * dx == x * k,
    ;
    lemma_scaled_ratio_eq(PRICE_ONE as int, y + k, x + dx, y, x);
}

/// A two-asset constant-function market maker: reserve of token X, reserve
/// of token Y, total issued liquidity, and the static fee fixed at
/// construction.
pub struct AMM {
    x: TokenAmount,
    y: TokenAmount,
    l: Liquidity,
    fee: Percentage,
}

impl View for AMM {
    type V = AmmView;

    closed spec fn view(&self) -> AmmView {
        AmmView {
            x: self.x.0 as int,
            y: self.y.0 as int,
            l: self.l.v as int,
            fee: self.fee.v as int,
        }
    }
}

impl AMM {
    /// An empty pool with the given fee rate; the fee is never mutated
    /// afterwards, and no range validation of it is performed here.
    pub fn new(amm_fee: Percentage) -> (r: Self)
        ensures
            r@ == (AmmView { x: 0, y: 0, l: 0, fee: amm_fee.v as int }),
    {
        AMM { x: TokenAmount(0), y: TokenAmount(0), l: Liquidity { v: 0 }, fee: amm_fee }
    }

    /// The spot price of X in Y at the price scale, rounded down; fails with
    /// `DivideByZero` on an empty X reserve instead of returning a bogus
    /// value.
    pub fn get_price(&self) -> (r: Result<Price, AmmError>)
        ensures
            (self@.x == 0) <==> (r == Err::<Price, AmmError>(AmmError::DivideByZero)),
            self@.x != 0 && spot_price(self@.x, self@.y) <= u128::MAX ==> (r == Ok::<
                Price,
                AmmError,
            >(Price { v: spot_price(self@.x, self@.y) as u128 })),
            (self@.x != 0 && spot_price(self@.x, self@.y) > u128::MAX) <==> (r == Err::<
                Price,
                AmmError,
            >(AmmError::Overflow)),
    {
        match mul_div_down(self.y.0, PRICE_ONE, self.x.0) {
            Ok(v) => Ok(Price { v }),
            Err(e) => Err(e),
        }
    }

    /// Provides `delta_x` of token X. On an empty ledger this bootstraps the
    /// pool: both reserves become `delta_x` (a 1:1 initial price) and the
    /// ledger is seeded with the raw reserve product at the liquidity scale.
    /// Afterwards both reserves grow by `1 + delta_x / x` rounded up, the
    /// ledger by that factor squared rounded up, and the minted amount
    /// returned is the contribution ratio applied to the grown ledger,
    /// rounded up — every direction chosen so the pool is never
    /// under-collateralized and existing holders are never diluted.
    pub fn add_liquidity(&mut self, delta_x: TokenAmount) -> (r: Result<Liquidity, AmmError>)
        ensures
            old(self)@.l == 0 && bootstrap_liquidity(delta_x.0 as int) <= u128::MAX ==> {
                &&& final(self)@ == (AmmView {
                    x: delta_x.0 as int,
                    y: delta_x.0 as int,
                    l: bootstrap_liquidity(delta_x.0 as int),
                    fee: old(self)@.fee,
                })
                &&& r == Ok::<Liquidity, AmmError>(Liquidity {
                    v: bootstrap_liquidity(delta_x.0 as int) as u128,
                })
            },
            old(self)@.l == 0 && bootstrap_liquidity(delta_x.0 as int) > u128::MAX ==> final(self)@
                == old(self)@ && r == Err::<Liquidity, AmmError>(AmmError::Overflow),
            old(self)@.l != 0 && old(self)@.x == 0 ==> final(self)@ == old(self)@ && r == Err::<
                Liquidity,
                AmmError,
            >(AmmError::DivideByZero),
            old(self)@.l != 0 && old(self)@.x != 0 && add_fits(
                old(self)@.x,
                old(self)@.y,
                old(self)@.l,
                delta_x.0 as int,
            ) ==> {
                &&& final(self)@ == (AmmView {
                    x: add_new_x(old(self)@.x, delta_x.0 as int),
                    y: add_new_y(old(self)@.x, old(self)@.y, delta_x.0 as int),
                    l: add_new_l(old(self)@.x, old(self)@.l, delta_x.0 as int),
                    fee: old(self)@.fee,
                })
                &&& r == Ok::<Liquidity, AmmError>(Liquidity {
                    v: add_minted(old(self)@.x, old(self)@.l, delta_x.0 as int) as u128,
                })
            },
            old(self)@.l != 0 && old(self)@.x != 0 && !add_fits(
                old(self)@.x,
                old(self)@.y,
                old(self)@.l,
                delta_x.0 as int,
            ) ==> final(self)@ == old(self)@ && r == Err::<Liquidity, AmmError>(
                AmmError::Overflow,
            ),
            old(self)@.l != 0 && old(self)@.x != 0 ==> final(self)@.x >= old(self)@.x
                && final(self)@.y >= old(self)@.y && final(self)@.l >= old(self)@.l,
    {
        let xv: u128 = self.x.0;
        let yv: u128 = self.y.0;
        let lv: u128 = self.l.v;
        let dxv: u128 = delta_x.0;
        if lv == 0 {
            let sq: u128 = match mul_div_down(dxv, dxv, 1) {
                Ok(v) => v,
                Err(_) => {
                    proof {
                        lemma_div_basics(full_mul(dxv, dxv));
                        lemma_mul_inequality(1, LIQUIDITY_ONE as int,
                            (dxv as int) * (dxv as int));
                        lemma_mul_is_commutative((dxv as int) * (dxv as int),
                            LIQUIDITY_ONE as int);
                        lemma_mul_basics((dxv as int) * (dxv as int));
                    }
                    return Err(AmmError::Overflow);
                },
            };
            let seeded: u128 = match mul_div_down(sq, LIQUIDITY_ONE, 1) {
                Ok(v) => v,
                Err(_) => {
                    proof {
                        lemma_div_basics(full_mul(sq, LIQUIDITY_ONE));
                        lemma_div_basics(full_mul(dxv, dxv));
                    }
                    return Err(AmmError::Overflow);
                },
            };
            proof {
                lemma_div_basics(full_mul(dxv, dxv));
                lemma_div_basics(full_mul(sq, LIQUIDITY_ONE));
            }
            self.x = TokenAmount(dxv);
            self.y = TokenAmount(dxv);
            self.l = Liquidity { v: seeded };
            return Ok(Liquidity { v: seeded });
        }
        if xv == 0 {
            return Err(AmmError::DivideByZero);
        }
        let ratio: u128 = match mul_div_down(dxv, RATIO_ONE, xv) {
            Ok(v) => v,
            Err(e) => {
                return Err(e);
            },
        };
        if ratio > u128::MAX - RATIO_ONE {
            return Err(AmmError::Overflow);
        }
        let alpha: u128 = RATIO_ONE + ratio;
        let nx: u128 = match mul_div_up(xv, alpha, RATIO_ONE) {
            Ok(v) => v,
            Err(e) => {
                return Err(e);
            },
        };
        let ny: u128 = match mul_div_up(yv, alpha, RATIO_ONE) {
            Ok(v) => v,
            Err(e) => {
                return Err(e);
            },
        };
        let nl: u128 = match mul3_div_up(lv, alpha, alpha, RATIO_ONE_SQ) {
            Ok(v) => v,
            Err(e) => {
                return Err(e);
            },
        };
        let minted: u128 = match mul_div_up(nl, ratio, RATIO_ONE) {
            Ok(v) => v,
            Err(e) => {
                return Err(e);
            },
        };
        proof {
            let rr: int = RATIO_ONE as int;
            assert(nx >= xv) by {
                lemma_mul_inequality(rr, alpha as int, xv as int);
                lemma_mul_is_commutative(rr, xv as int);
                lemma_mul_is_commutative(alpha as int, xv as int);
                lemma_mul_nonnegative(xv as int, alpha as int);
                lemma_div_up_bounds((xv as int) * (alpha as int), rr);
                lemma_div_is_ordered((xv as int) * rr, (xv as int) * (alpha as int), rr);
                lemma_div_by_multiple(xv as int, rr);
            };
            assert(ny >= yv) by {
                lemma_mul_inequality(rr, alpha as int, yv as int);
                lemma_mul_is_commutative(rr, yv as int);
                lemma_mul_is_commutative(alpha as int, yv as int);
                lemma_mul_nonnegative(yv as int, alpha as int);
                lemma_div_up_bounds((yv as int) * (alpha as int), rr);
                lemma_div_is_ordered((yv as int) * rr, (yv as int) * (alpha as int), rr);
                lemma_div_by_multiple(yv as int, rr);
            };
            assert(nl >= lv) by {
                let rsq: int = RATIO_ONE_SQ as int;
                assert(rsq == rr * rr) by (nonlinear_arith)
        requires
            rsq == 1_000_000_000_000_000_000,
            rr == 1_000_000_000,
    ;
                lemma_mul_inequality(rr, alpha as int, rr);
                lemma_mul_inequality(rr, alpha as int, alpha as int);
                lemma_mul_is_commutative(alpha as int, rr);
                lemma_mul_inequality(rr * rr, (alpha as int) * (alpha as int), lv as int);
                lemma_mul_is_commutative(rr * rr, lv as int);
                lemma_mul_is_commutative((alpha as int) * (alpha as int), lv as int);
                lemma_mul_is_associative(lv as int, alpha as int, alpha as int);
                lemma_mul_nonnegative(lv as int, alpha as int);
                lemma_mul_nonnegative((lv as int) * (alpha as int), alpha as int);
                lemma_div_up_bounds((lv as int) * (alpha as int) * (alpha as int), rsq);
                lemma_div_is_ordered((lv as int) * (rr * rr),
                    (lv as int) * (alpha as int) * (alpha as int), rsq);
                lemma_div_by_multiple(lv as int, rr * rr);
            };
        }
        self.x = TokenAmount(nx);
        self.y = TokenAmount(ny);
        self.l = Liquidity { v: nl };
        Ok(Liquidity { v: minted })
    }

    /// Withdraws `delta_x` of the X reserve and the proportional share of Y,
    /// burning the proportional liquidity. Both reserves scale down by
    /// `1 - delta_x / x` rounded down; the remaining liquidity rounds up;
    /// the burned amount returned rounds up. Requesting the whole reserve or
    /// more is an invalid withdrawal and fails explicitly.
    pub fn remove_liquidity(&mut self, delta_x: TokenAmount) -> (r: Result<Liquidity, AmmError>)
        ensures
            old(self)@.x == 0 ==> final(self)@ == old(self)@ && r == Err::<
                Liquidity,
                AmmError,
            >(AmmError::DivideByZero),
            old(self)@.x != 0 && delta_x.0 >= old(self)@.x ==> final(self)@ == old(self)@ && r
                == Err::<Liquidity, AmmError>(AmmError::InvalidWithdrawal),
            old(self)@.x != 0 && delta_x.0 < old(self)@.x ==> {
                &&& final(self)@ == (AmmView {
                    x: remove_new_x(old(self)@.x, delta_x.0 as int),
                    y: remove_new_y(old(self)@.x, old(self)@.y, delta_x.0 as int),
                    l: remove_new_l(old(self)@.x, old(self)@.l, delta_x.0 as int),
                    fee: old(self)@.fee,
                })
                &&& r == Ok::<Liquidity, AmmError>(Liquidity {
                    v: remove_burned(old(self)@.x, old(self)@.l, delta_x.0 as int) as u128,
                })
            },
            final(self)@.x <= old(self)@.x && final(self)@.y <= old(self)@.y && final(self)@.l
                <= old(self)@.l,
    {
        let xv: u128 = self.x.0;
        let yv: u128 = self.y.0;
        let lv: u128 = self.l.v;
        let dxv: u128 = delta_x.0;
        if xv == 0 {
            return Err(AmmError::DivideByZero);
        }
        if dxv >= xv {
            return Err(AmmError::InvalidWithdrawal);
        }
        proof {
            lemma_mul_strict_inequality(dxv as int, xv as int, RATIO_ONE as int);
            lemma_multiply_divide_lt((dxv as int) * (RATIO_ONE as int), xv as int,
                RATIO_ONE as int);
        }
        let ratio: u128 = match mul_div_down(dxv, RATIO_ONE, xv) {
            Ok(v) => v,
            Err(e) => {
                proof {
                    lemma_div_pos_is_pos((dxv as int) * (RATIO_ONE as int), xv as int);
                }
                return Err(e);
            },
        };
        let alpha: u128 = RATIO_ONE - ratio;
        let nx: u128 = match mul_div_down(xv, alpha, RATIO_ONE) {
            Ok(v) => v,
            Err(e) => {
                proof {
                    lemma_mul_inequality(alpha as int, RATIO_ONE as int, xv as int);
                    lemma_mul_is_commutative(xv as int, alpha as int);
                    lemma_div_le((xv as int) * (alpha as int), xv as int, RATIO_ONE as int);
                }
                return Err(e);
            },
        };
        let ny: u128 = match mul_div_down(yv, alpha, RATIO_ONE) {
            Ok(v) => v,
            Err(e) => {
                proof {
                    lemma_mul_inequality(alpha as int, RATIO_ONE as int, yv as int);
                    lemma_mul_is_commutative(yv as int, alpha as int);
                    lemma_div_le((yv as int) * (alpha as int), yv as int, RATIO_ONE as int);
                }
                return Err(e);
            },
        };
        let nl: u128 = match mul3_div_up(lv, alpha, alpha, RATIO_ONE_SQ) {
            Ok(v) => v,
            Err(e) => {
                proof {
                    lemma_remove_new_l_bounded(lv as int, alpha as int);
                }
                return Err(e);
            },
        };
        let burned: u128 = match mul_div_up(nl, ratio, RATIO_ONE) {
            Ok(v) => v,
            Err(e) => {
                proof {
                    lemma_mul_inequality(ratio as int, RATIO_ONE as int, nl as int);
                    lemma_mul_is_commutative(nl as int, ratio as int);
                    lemma_div_up_le((nl as int) * (ratio as int), nl as int, RATIO_ONE as int);
                }
                return Err(e);
            },
        };
        proof {
            let rr: int = RATIO_ONE as int;
            assert(nx <= xv) by {
                lemma_mul_inequality(alpha as int, rr, xv as int);
                lemma_mul_is_commutative(alpha as int, xv as int);
                lemma_mul_is_commutative(rr, xv as int);
                lemma_div_is_ordered((xv as int) * (alpha as int), (xv as int) * rr, rr);
                lemma_div_by_multiple(xv as int, rr);
            };
            assert(ny <= yv) by {
                lemma_mul_inequality(alpha as int, rr, yv as int);
                lemma_mul_is_commutative(alpha as int, yv as int);
                lemma_mul_is_commutative(rr, yv as int);
                lemma_div_is_ordered((yv as int) * (alpha as int), (yv as int) * rr, rr);
                lemma_div_by_multiple(yv as int, rr);
            };
            assert(nl <= lv) by {
                lemma_remove_new_l_bounded(lv as int, alpha as int);
            };
        }
        self.x = TokenAmount(nx);
        self.y = TokenAmount(ny);
        self.l = Liquidity { v: nl };
        Ok(Liquidity { v: burned })
    }

    /// Swaps `amount` of one token for the other: the input side grows by the
    /// full amount, the fee-adjusted input (rounded up, charging the fee in
    /// the pool's favor) is priced against the constant product, and the
    /// output side pays out the withdrawal rounded down. The reserve product
    /// never decreases.
    pub fn swap(&mut self, amount: TokenAmount, in_x: bool) -> (r: Result<(), AmmError>)
        ensures
            old(self)@.fee > PERCENTAGE_ONE ==> final(self)@ == old(self)@ && r == Err::<
                (),
                AmmError,
            >(AmmError::Overflow),
            old(self)@.fee <= PERCENTAGE_ONE && in_x && old(self)@.x + amount.0 > u128::MAX
                ==> final(self)@ == old(self)@ && r == Err::<(), AmmError>(AmmError::Overflow),
            old(self)@.fee <= PERCENTAGE_ONE && !in_x && old(self)@.y + amount.0 > u128::MAX
                ==> final(self)@ == old(self)@ && r == Err::<(), AmmError>(AmmError::Overflow),
            old(self)@.fee <= PERCENTAGE_ONE && in_x && old(self)@.x + amount.0 == 0 ==> final(self)@ == old(self)@ && r == Err::<(), AmmError>(AmmError::DivideByZero),
            old(self)@.fee <= PERCENTAGE_ONE && !in_x && old(self)@.y + amount.0 == 0 ==> final(self)@ == old(self)@ && r == Err::<(), AmmError>(AmmError::DivideByZero),
            old(self)@.fee <= PERCENTAGE_ONE && in_x && 0 < old(self)@.x + amount.0
                <= u128::MAX ==> {
                &&& final(self)@ == (AmmView {
                    x: old(self)@.x + amount.0,
                    y: old(self)@.y - swap_withdraw(
                        amount.0 as int,
                        old(self)@.fee,
                        old(self)@.x + amount.0,
                        old(self)@.y,
                    ),
                    l: old(self)@.l,
                    fee: old(self)@.fee,
                })
                &&& r == Ok::<(), AmmError>(())
            },
            old(self)@.fee <= PERCENTAGE_ONE && !in_x && 0 < old(self)@.y + amount.0
                <= u128::MAX ==> {
                &&& final(self)@ == (AmmView {
                    x: old(self)@.x - swap_withdraw(
                        amount.0 as int,
                        old(self)@.fee,
                        old(self)@.y + amount.0,
                        old(self)@.x,
                    ),
                    y: old(self)@.y + amount.0,
                    l: old(self)@.l,
                    fee: old(self)@.fee,
                })
                &&& r == Ok::<(), AmmError>(())
            },
            r == Ok::<(), AmmError>(()) ==> final(self)@.x * final(self)@.y >= old(self)@.x * old(self)@.y,
    {
        let fee_v: u64 = self.fee.v;
        if fee_v > PERCENTAGE_ONE as u64 {
            return Err(AmmError::Overflow);
        }
        let one_minus_fee: u128 = PERCENTAGE_ONE - (fee_v as u128);
        if in_x {
            if amount.0 > u128::MAX - self.x.0 {
                return Err(AmmError::Overflow);
            }
            let new_in: u128 = self.x.0 + amount.0;
            if new_in == 0 {
                return Err(AmmError::DivideByZero);
            }
            let out: u128 = self.y.0;
            proof {
                lemma_swap_fits(self@.x, out as int, amount.0 as int, fee_v as int);
            }
            let eff: u128 = match mul_div_up(amount.0, one_minus_fee, PERCENTAGE_ONE) {
                Ok(v) => v,
                Err(e) => {
                    return Err(e);
                },
            };
            let w: u128 = match mul_div_down(eff, out, new_in) {
                Ok(v) => v,
                Err(e) => {
                    return Err(e);
                },
            };
            self.x = TokenAmount(new_in);
            self.y = TokenAmount(out - w);
            Ok(())
        } else {
            if amount.0 > u128::MAX - self.y.0 {
                return Err(AmmError::Overflow);
            }
            let new_in: u128 = self.y.0 + amount.0;
            if new_in == 0 {
                return Err(AmmError::DivideByZero);
            }
            let out: u128 = self.x.0;
            proof {
                lemma_swap_fits(self@.y, out as int, amount.0 as int, fee_v as int);
            }
            let eff: u128 = match mul_div_up(amount.0, one_minus_fee, PERCENTAGE_ONE) {
                Ok(v) => v,
                Err(e) => {
                    return Err(e);
                },
            };
            let w: u128 = match mul_div_down(eff, out, new_in) {
                Ok(v) => v,
                Err(e) => {
                    return Err(e);
                },
            };
            self.x = TokenAmount(out - w);
            self.y = TokenAmount(new_in);
            Ok(())
        }
    }

    pub fn get_x(&self) -> (r: TokenAmount)
        ensures
            r.0 == self@.x,
    {
        self.x
    }

    pub fn get_y(&self) -> (r: TokenAmount)
        ensures
            r.0 == self@.y,
    {
        self.y
    }

    pub fn get_l(&self) -> (r: Liquidity)
        ensures
            r.v == self@.l,
    {
        self.l
    }
}

} // verus!
