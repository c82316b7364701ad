//! The fixed-point conversion engine: scale-aware multiply/divide primitives.
//!
//! Every product of two raw values is formed in a 256-bit intermediate (a pair
//! of `u128` limbs) so that no legal input overflows it, and is then divided
//! with an explicit rounding direction — down (floor) or up (ceiling) — chosen
//! by each call site.

use vstd::prelude::*;
use vstd::arithmetic::div_mod::*;
use vstd::arithmetic::mul::*;
use crate::types::AmmError;

verus! {

/// One more than `u64::MAX`: the base of the 64-bit limbs used inside the
/// wide multiplication.
pub const POW_64: u128 = 0x1_0000_0000_0000_0000;

/// One more than `u128::MAX`: the weight of the high limb of a wide value.
pub open spec fn pow2_128() -> int {
    (POW_64 as int) * (POW_64 as int)
}

/// The value a (high, low) pair of 128-bit limbs stands for.
pub open spec fn wide_val(hi: u128, lo: u128) -> int {
    hi * pow2_128() + lo
}

/// The exact product of two raw values, as an unbounded integer.
pub open spec fn full_mul(a: u128, b: u128) -> int {
    (a as int) * (b as int)
}

/// The exact product of three raw values, as an unbounded integer.
pub open spec fn full_mul_3(a: u128, b: u128, c: u128) -> int {
    (a as int) * (b as int) * (c as int)
}

/// Ceiling division: the least integer no smaller than `n / d`.
pub open spec fn div_up(n: int, d: int) -> int
    recommends
        n >= 0,
        d > 0,
{
    if n % d == 0 {
        n / d
    } else {
        n / d + 1
    }
}

/// Multiplies two 128-bit values into a 256-bit result held as two limbs.
fn mul_wide(a: u128, b: u128) -> (r: (u128, u128))
    ensures
        wide_val(r.0, r.1) == full_mul(a, b),
{
    let a1: u128 = a / POW_64;
    let a0: u128 = a % POW_64;
    let b1: u128 = b / POW_64;
    let b0: u128 = b % POW_64;
    proof {
        lemma_fundamental_div_mod(a as int, POW_64 as int);
        lemma_fundamental_div_mod(b as int, POW_64 as int);
        assert(a1 <= 0xffff_ffff_ffff_ffff) by {
            lemma_div_is_ordered(a as int, u128::MAX as int, POW_64 as int);
        };
        assert(b1 <= 0xffff_ffff_ffff_ffff) by {
            lemma_div_is_ordered(b as int, u128::MAX as int, POW_64 as int);
        };
        lemma_mul_upper_bound(a0 as int, POW_64 - 1, b0 as int, POW_64 - 1);
        lemma_mul_upper_bound(a0 as int, POW_64 - 1, b1 as int, POW_64 - 1);
        lemma_mul_upper_bound(a1 as int, POW_64 - 1, b0 as int, POW_64 - 1);
        lemma_mul_upper_bound(a1 as int, POW_64 - 1, b1 as int, POW_64 - 1);
    }
    let p00: u128 = a0 * b0;
    let p01: u128 = a0 * b1;
    let p10: u128 = a1 * b0;
    let p11: u128 = a1 * b1;
    proof {
        lemma_div_is_ordered(p00 as int, (POW_64 - 1) * (POW_64 - 1), POW_64 as int);
        lemma_div_is_ordered(p01 as int, (POW_64 - 1) * (POW_64 - 1), POW_64 as int);
        lemma_div_is_ordered(p10 as int, (POW_64 - 1) * (POW_64 - 1), POW_64 as int);
    }
    let s: u128 = p00 / POW_64 + p01 % POW_64 + p10 % POW_64;
    proof {
        lemma_div_is_ordered(s as int, 3 * (POW_64 as int) - 4, POW_64 as int);
    }
    let lo: u128 = p00 % POW_64 + (s % POW_64) * POW_64;
    let hi: u128 = p11 + p01 / POW_64 + p10 / POW_64 + s / POW_64;
    proof {
        let p: int = POW_64 as int;
        let q00: int = p00 as int;
        let q01: int = p01 as int;
        let q10: int = p10 as int;
        let q11: int = p11 as int;
        let si: int = s as int;
        assert(full_mul(a, b) == q11 * pow2_128() + q01 * p + q10 * p + q00)
            by (nonlinear_arith)
            requires
                a as int == (a1 as int) * (POW_64 as int) + (a0 as int),
                b as int == (b1 as int) * (POW_64 as int) + (b0 as int),
                q00 == (a0 as int) * (b0 as int),
                q01 == (a0 as int) * (b1 as int),
                q10 == (a1 as int) * (b0 as int),
                q11 == (a1 as int) * (b1 as int),
                p == POW_64 as int,
                full_mul(a, b) == (a as int) * (b as int),
                pow2_128() == (POW_64 as int) * (POW_64 as int),
        ;
        lemma_fundamental_div_mod(q00, p);
        lemma_fundamental_div_mod(q01, p);
        lemma_fundamental_div_mod(q10, p);
        lemma_fundamental_div_mod(si, p);
        assert((hi as int) * (p * p) + (lo as int) == q11 * (p * p) + q01 * p + q10 * p + q00)
            by (nonlinear_arith)
            requires
                hi as int == q11 + q01 / p + q10 / p + si / p,
                lo as int == q00 % p + (si % p) * p,
                si == q00 / p + q01 % p + q10 % p,
                q00 == p * (q00 / p) + q00 % p,
                q01 == p * (q01 / p) + q01 % p,
                q10 == p * (q10 / p) + q10 % p,
                si == p * (si / p) + si % p,
        ;
        assert(wide_val(hi, lo) == full_mul(a, b));
    }
    (hi, lo)
}

/// Multiplies three 128-bit values into a 384-bit result held as three limbs.
fn mul_wide_3(a: u128, b: u128, c: u128) -> (r: (u128, u128, u128))
    ensures
        (r.0 as int) * pow2_128() * pow2_128() + (r.1 as int) * pow2_128() + (r.2 as int)
            == full_mul_3(a, b, c),
{
    let (p_hi, p_lo) = mul_wide(a, b);
    let (h2, l1) = mul_wide(p_hi, c);
    let (h1, l0) = mul_wide(p_lo, c);
    proof {
        assert(u128::MAX + 1 == pow2_128()) by (nonlinear_arith);
        assert(h2 < u128::MAX) by {
            lemma_mul_upper_bound(p_hi as int, u128::MAX as int, c as int, u128::MAX as int);
            assert((u128::MAX as int) * pow2_128() > (u128::MAX as int) * (u128::MAX as int))
                by (nonlinear_arith);
            assert((h2 as int) * pow2_128() < (u128::MAX as int) * pow2_128());
            lemma_mul_strict_inequality_converse(h2 as int, u128::MAX as int, pow2_128());
        };
    }
    let (n1, carry): (u128, u128) = if l1 <= u128::MAX - h1 {
        (l1 + h1, 0)
    } else {
        (l1 - (u128::MAX - h1) - 1, 1)
    };
    let n2: u128 = h2 + carry;
    proof {
        assert((n1 as int) + (carry as int) * pow2_128() == (l1 as int) + (h1 as int));
        assert((n2 as int) * (pow2_128() * pow2_128()) + (n1 as int) * pow2_128() + (l0 as int)
            == (a as int) * (b as int) * (c as int)) by (nonlinear_arith)
            requires
                (p_hi as int) * pow2_128() + (p_lo as int) == (a as int) * (b as int),
                (h2 as int) * pow2_128() + (l1 as int) == (p_hi as int) * (c as int),
                (h1 as int) * pow2_128() + (l0 as int) == (p_lo as int) * (c as int),
                (n1 as int) + (carry as int) * pow2_128() == (l1 as int) + (h1 as int),
                n2 == h2 + carry,
        ;
        lemma_mul_is_associative(n2 as int, pow2_128(), pow2_128());
    }
    (n2, n1, l0)
}

/// Compares two wide values limb by limb.
fn le_wide(a_hi: u128, a_lo: u128, b_hi: u128, b_lo: u128) -> (r: bool)
    ensures
        r == (wide_val(a_hi, a_lo) <= wide_val(b_hi, b_lo)),
{
    proof {
        if a_hi < b_hi {
            lemma_mul_inequality(a_hi + 1, b_hi as int, pow2_128());
        }
        if b_hi < a_hi {
            lemma_mul_inequality(b_hi + 1, a_hi as int, pow2_128());
        }
    }
    a_hi < b_hi || (a_hi == b_hi && a_lo <= b_lo)
}

/// Divides a wide value by `d`, rounding down. The quotient fits `u128`
/// because the high limb is below the divisor.
fn div_wide(n_hi: u128, n_lo: u128, d: u128) -> (q: u128)
    requires
        d > 0,
        n_hi < d,
    ensures
        q == wide_val(n_hi, n_lo) / (d as int),
{
    proof {
        lemma_mul_inequality(n_hi + 1, d as int, pow2_128());
        lemma_mul_is_commutative(d as int, pow2_128());
        assert(u128::MAX + 1 == pow2_128()) by (nonlinear_arith);
    }
    let mut low: u128 = 0;
    let mut high: u128 = u128::MAX;
    while low < high
        invariant
            d > 0,
            low <= high,
            (low as int) * (d as int) <= wide_val(n_hi, n_lo),
            wide_val(n_hi, n_lo) < ((high as int) + 1) * (d as int),
        decreases high - low,
    {
        let mid: u128 = low + (high - low) / 2 + (high - low) % 2;
        let (p_hi, p_lo) = mul_wide(mid, d);
        if le_wide(p_hi, p_lo, n_hi, n_lo) {
            low = mid;
        } else {
            high = mid - 1;
        }
    }
    proof {
        let n: int = wide_val(n_hi, n_lo);
        let r: int = n - (low as int) * (d as int);
        assert(r < d) by {
            assert(n < ((low as int) + 1) * (d as int));
            lemma_mul_is_distributive_add_other_way(d as int, low as int, 1);
        };
        lemma_fundamental_div_mod_converse_div(n, d as int, low as int, r);
    }
    low
}

/// Whether the quotient `q` recovers the wide value exactly, that is,
/// whether the division that produced it had remainder zero.
fn mul_rem_is_zero(q: u128, d: u128, n_hi: u128, n_lo: u128) -> (r: bool)
    ensures
        r == (full_mul(q, d) == wide_val(n_hi, n_lo)),
{
    let (p_hi, p_lo) = mul_wide(q, d);
    proof {
        if p_hi == n_hi && p_lo == n_lo {
        } else {
            assert(wide_val(p_hi, p_lo) != wide_val(n_hi, n_lo)) by {
                assert(u128::MAX + 1 == pow2_128()) by (nonlinear_arith);
                if p_hi < n_hi {
                    lemma_mul_inequality(p_hi + 1, n_hi as int, pow2_128());
                    lemma_mul_is_distributive_add_other_way(pow2_128(), p_hi as int, 1);
                }
                if n_hi < p_hi {
                    lemma_mul_inequality(n_hi + 1, p_hi as int, pow2_128());
                    lemma_mul_is_distributive_add_other_way(pow2_128(), n_hi as int, 1);
                }
            };
        }
    }
    p_hi == n_hi && p_lo == n_lo
}

/// Combines two raw values and divides by a third, rounding down: the
/// engine's floor-directed multiply-then-rescale primitive. The product is
/// formed wide, so the only overflow is a quotient beyond the backing width.
pub fn mul_div_down(a: u128, b: u128, d: u128) -> (r: Result<u128, AmmError>)
    ensures
        (d == 0) <==> (r == Err::<u128, AmmError>(AmmError::DivideByZero)),
        d != 0 && full_mul(a, b) / (d as int) <= u128::MAX ==> (r == Ok::<
            u128,
            AmmError,
        >((full_mul(a, b) / (d as int)) as u128)),
        (d != 0 && full_mul(a, b) / (d as int) > u128::MAX) <==> (r == Err::<
            u128,
            AmmError,
        >(AmmError::Overflow)),
{
    if d == 0 {
        return Err(AmmError::DivideByZero);
    }
    let (n_hi, n_lo) = mul_wide(a, b);
    if n_hi >= d {
        proof {
            lemma_mul_inequality(d as int, n_hi as int, pow2_128());
            assert((d as int) * pow2_128() <= wide_val(n_hi, n_lo));
            lemma_div_is_ordered((d as int) * pow2_128(), wide_val(n_hi, n_lo), d as int);
            lemma_div_by_multiple(pow2_128(), d as int);
            assert((pow2_128() * (d as int)) / (d as int) == pow2_128());
            assert(full_mul(a, b) / (d as int) >= pow2_128());
        }
        return Err(AmmError::Overflow);
    }
    let q: u128 = div_wide(n_hi, n_lo, d);
    proof {
        lemma_mul_inequality(n_hi + 1, d as int, pow2_128());
    }
    Ok(q)
}

/// Combines two raw values and divides by a third, rounding any non-zero
/// remainder up: the engine's ceiling-directed primitive.
pub fn mul_div_up(a: u128, b: u128, d: u128) -> (r: Result<u128, AmmError>)
    ensures
        (d == 0) <==> (r == Err::<u128, AmmError>(AmmError::DivideByZero)),
        d != 0 && div_up(full_mul(a, b), d as int) <= u128::MAX ==> (r == Ok::<
            u128,
            AmmError,
        >(div_up(full_mul(a, b), d as int) as u128)),
        (d != 0 && div_up(full_mul(a, b), d as int) > u128::MAX) <==> (r == Err::<
            u128,
            AmmError,
        >(AmmError::Overflow)),
{
    if d == 0 {
        return Err(AmmError::DivideByZero);
    }
    let (n_hi, n_lo) = mul_wide(a, b);
    if n_hi >= d {
        proof {
            lemma_mul_inequality(d as int, n_hi as int, pow2_128());
            lemma_div_is_ordered((d as int) * pow2_128(), wide_val(n_hi, n_lo), d as int);
            lemma_div_by_multiple(pow2_128(), d as int);
            lemma_mul_is_commutative(d as int, pow2_128());
            assert(full_mul(a, b) / (d as int) >= pow2_128());
            lemma_div_up_bounds(full_mul(a, b), d as int);
            assert(u128::MAX < pow2_128()) by (nonlinear_arith);
        }
        return Err(AmmError::Overflow);
    }
    let q: u128 = div_wide(n_hi, n_lo, d);
    proof {
        lemma_fundamental_div_mod(full_mul(a, b), d as int);
    }
    if mul_rem_is_zero(q, d, n_hi, n_lo) {
        Ok(q)
    } else {
        if q == u128::MAX {
            return Err(AmmError::Overflow);
        }
        Ok(q + 1)
    }
}

/// Combines three raw values and divides by a fourth, rounding any non-zero
/// remainder up: the engine's ceiling-directed primitive for a squared
/// scaling factor, whose product needs a 384-bit intermediate.
pub fn mul3_div_up(a: u128, b: u128, c: u128, d: u128) -> (r: Result<u128, AmmError>)
    ensures
        (d == 0) <==> (r == Err::<u128, AmmError>(AmmError::DivideByZero)),
        d != 0 && div_up(full_mul_3(a, b, c), d as int) <= u128::MAX ==> (r == Ok::<
            u128,
            AmmError,
        >(div_up(full_mul_3(a, b, c), d as int) as u128)),
        (d != 0 && div_up(full_mul_3(a, b, c), d as int) > u128::MAX) <==> (r == Err::<
            u128,
            AmmError,
        >(AmmError::Overflow)),
{
    if d == 0 {
        return Err(AmmError::DivideByZero);
    }
    let (n2, n1, n0) = mul_wide_3(a, b, c);
    if n2 > 0 || n1 >= d {
        proof {
            assert(u128::MAX < pow2_128()) by (nonlinear_arith);
            lemma_mul_nonnegative(n2 as int, pow2_128() * pow2_128());
            lemma_mul_nonnegative(n1 as int, pow2_128());
            lemma_mul_is_associative(n2 as int, pow2_128(), pow2_128());
            if n2 > 0 {
                lemma_mul_inequality(1, n2 as int, pow2_128() * pow2_128());
                lemma_mul_inequality(d as int, pow2_128(), pow2_128());
                lemma_mul_basics(pow2_128() * pow2_128());
            } else {
                lemma_mul_inequality(d as int, n1 as int, pow2_128());
            }
            assert((d as int) * pow2_128() <= full_mul_3(a, b, c));
            lemma_div_is_ordered((d as int) * pow2_128(), full_mul_3(a, b, c), d as int);
            lemma_div_by_multiple(pow2_128(), d as int);
            lemma_mul_is_commutative(d as int, pow2_128());
            assert(full_mul_3(a, b, c) / (d as int) >= pow2_128());
            lemma_div_up_bounds(full_mul_3(a, b, c), d as int);
        }
        return Err(AmmError::Overflow);
    }
    proof {
        lemma_mul_by_zero_is_zero(pow2_128());
        assert((n2 as int) * pow2_128() == 0);
        assert((n2 as int) * pow2_128() * pow2_128() == 0);
        assert(wide_val(n1, n0) == full_mul_3(a, b, c));
    }
    let q: u128 = div_wide(n1, n0, d);
    proof {
        lemma_fundamental_div_mod(full_mul_3(a, b, c), d as int);
        lemma_mul_is_commutative(q as int, d as int);
    }
    if mul_rem_is_zero(q, d, n1, n0) {
        Ok(q)
    } else {
        if q == u128::MAX {
            return Err(AmmError::Overflow);
        }
        Ok(q + 1)
    }
}

/// The floor of a non-negative division is non-negative and, scaled back by
/// the divisor, stays at or below the dividend.
pub proof fn lemma_div_mul_le(n: int, d: int)
    requires
        0 <= n,
        0 < d,
    ensures
        0 <= n / d,
        (n / d) * d <= n,
{
    lemma_fundamental_div_mod(n, d);
    lemma_div_pos_is_pos(n, d);
    lemma_mul_is_commutative(d, n / d);
}

/// If `n` is at most `k` multiples of `d`, its floor quotient is at most `k`.
pub proof fn lemma_div_le(n: int, k: int, d: int)
    requires
        0 <= n,
        0 <= k,
        0 < d,
        n <= k * d,
    ensures
        n / d <= k,
{
    lemma_div_is_ordered(n, k * d, d);
    lemma_div_by_multiple(k, d);
}

/// The ceiling quotient is the least multiple cover of the dividend.
pub proof fn lemma_div_up_bounds(n: int, d: int)
    requires
        0 <= n,
        0 < d,
    ensures
        0 <= div_up(n, d),
        n <= div_up(n, d) * d,
        div_up(n, d) * d < n + d,
        n / d <= div_up(n, d),
{
    lemma_fundamental_div_mod(n, d);
    lemma_div_pos_is_pos(n, d);
    lemma_mul_is_commutative(d, n / d);
    if n % d != 0 {
        lemma_mul_is_distributive_add_other_way(d, n / d, 1);
    }
}

/// If `n` is covered by `k` multiples of `d`, the ceiling is at most `k`.
pub proof fn lemma_div_up_le(n: int, k: int, d: int)
    requires
        0 <= n,
        0 <= k,
        0 < d,
        n <= k * d,
    ensures
        div_up(n, d) <= k,
{
    lemma_div_up_bounds(n, d);
    lemma_mul_is_distributive_add_other_way(d, k, 1);
    assert(div_up(n, d) * d < (k + 1) * d);
    lemma_mul_strict_inequality_converse(div_up(n, d), k + 1, d);
}

} // verus!
