//! The scaled decimal value family: each type is an opaque non-negative
//! integer count of `10^-S` units for its own static scale `S`, and every
//! operation on the pool is expressed through these types.

use vstd::prelude::*;

verus! {

/// How an operation fails: a division met a zero reserve, an arithmetic
/// result would exceed its backing width, or a withdrawal asked for at least
/// the whole reserve. A failed operation mutates nothing.
#[derive(Clone, Copy, Debug, PartialEq, Eq, Structural)]
pub enum AmmError {
    DivideByZero,
    Overflow,
    InvalidWithdrawal,
}

/// A token amount at scale 0: the smallest indivisible traded unit.
#[derive(Clone, Copy, Debug, PartialEq, Eq, Structural)]
pub struct TokenAmount(pub u128);

/// An issued liquidity-provider share at scale 2.
#[derive(Clone, Copy, Debug, PartialEq, Eq, Structural)]
pub struct Liquidity {
    pub v: u128,
}

/// A ratio of the Y reserve to the X reserve at scale 24.
#[derive(Clone, Copy, Debug, PartialEq, Eq, Structural)]
pub struct Price {
    pub v: u128,
}

/// The static fee rate at scale 6, conceptually restricted to `[0, 1]`.
#[derive(Clone, Copy, Debug, PartialEq, Eq, Structural)]
pub struct Percentage {
    pub v: u64,
}

/// A dimensionless intermediate at scale 9, used in proportional math.
#[derive(Clone, Copy, Debug, PartialEq, Eq, Structural)]
pub struct Ratio(pub u128);

/// Raw unit counts of one whole at each scale.
pub const LIQUIDITY_ONE: u128 = 100;
pub const PERCENTAGE_ONE: u128 = 1_000_000;
pub const RATIO_ONE: u128 = 1_000_000_000;
pub const RATIO_ONE_SQ: u128 = 1_000_000_000_000_000_000;
pub const PRICE_ONE: u128 = 1_000_000_000_000_000_000_000_000;

impl TokenAmount {
    pub fn new(v: u128) -> (r: Self)
        ensures
            r.0 == v,
    {
        TokenAmount(v)
    }

    /// At scale 0 an integer needs no rescaling.
    pub fn from_integer(i: u128) -> (r: Self)
        ensures
            r.0 == i,
    {
        TokenAmount(i)
    }

    pub fn is_zero(&self) -> (r: bool)
        ensures
            r == (self.0 == 0),
    {
        self.0 == 0
    }
}

impl Liquidity {
    pub fn new(v: u128) -> (r: Self)
        ensures
            r.v == v,
    {
        Liquidity { v }
    }

    pub fn from_integer(i: u128) -> (r: Self)
        requires
            i * LIQUIDITY_ONE <= u128::MAX,
        ensures
            r.v == i * LIQUIDITY_ONE,
    {
        Liquidity { v: i * LIQUIDITY_ONE }
    }

    pub fn is_zero(&self) -> (r: bool)
        ensures
            r == (self.v == 0),
    {
        self.v == 0
    }
}

impl Price {
    pub fn new(v: u128) -> (r: Self)
        ensures
            r.v == v,
    {
        Price { v }
    }

    pub fn from_integer(i: u128) -> (r: Self)
        requires
            i * PRICE_ONE <= u128::MAX,
        ensures
            r.v == i * PRICE_ONE,
    {
        Price { v: i * PRICE_ONE }
    }

    pub fn is_zero(&self) -> (r: bool)
        ensures
            r == (self.v == 0),
    {
        self.v == 0
    }
}

impl Percentage {
    pub fn new(v: u64) -> (r: Self)
        ensures
            r.v == v,
    {
        Percentage { v }
    }

    pub fn from_integer(i: u64) -> (r: Self)
        requires
            i * PERCENTAGE_ONE <= u64::MAX,
        ensures
            r.v == i * PERCENTAGE_ONE as u64,
    {
        Percentage { v: i * (PERCENTAGE_ONE as u64) }
    }

    /// Reads `val` as a decimal with `scale` fractional digits: the raw
    /// result counts `10^-6` units, so `val` gains `6 - scale` zeros.
    pub fn from_scale(val: u64, scale: u32) -> (r: Self)
        requires
            scale <= 6,
            val * pow10((6 - scale) as nat) <= u64::MAX,
        ensures
            r.v == val * pow10((6 - scale) as nat),
    {
        let mut factor: u64 = 1;
        let mut left: u32 = 6 - scale;
        proof {
            lemma_pow10_bound((6 - scale) as nat);
        }
        while left > 0
            invariant
                factor == pow10(((6 - scale) - left) as nat),
                left <= 6 - scale <= 6,
                val * pow10((6 - scale) as nat) <= u64::MAX,
                pow10((6 - scale) as nat) <= u64::MAX,
            decreases left,
        {
            proof {
                lemma_pow10_step(((6 - scale) - left) as nat, (6 - scale) as nat);
            }
            factor = factor * 10;
            left = left - 1;
        }
        proof {
            vstd::arithmetic::mul::lemma_mul_upper_bound(
                val as int,
                val as int,
                factor as int,
                pow10((6 - scale) as nat) as int,
            );
        }
        Percentage { v: val * factor }
    }

    pub fn is_zero(&self) -> (r: bool)
        ensures
            r == (self.v == 0),
    {
        self.v == 0
    }
}

impl Ratio {
    pub fn new(v: u128) -> (r: Self)
        ensures
            r.0 == v,
    {
        Ratio(v)
    }

    pub fn from_integer(i: u128) -> (r: Self)
        requires
            i * RATIO_ONE <= u128::MAX,
        ensures
            r.0 == i * RATIO_ONE,
    {
        Ratio(i * RATIO_ONE)
    }

    pub fn is_zero(&self) -> (r: bool)
        ensures
            r == (self.0 == 0),
    {
        self.0 == 0
    }
}

/// Ten to the `e`-th power, as an unbounded integer.
pub open spec fn pow10(e: nat) -> nat
    decreases e,
{
    if e == 0 {
        1
    } else {
        10 * pow10((e - 1) as nat)
    }
}

/// Powers of ten grow with the exponent.
proof fn lemma_pow10_mono(e1: nat, e2: nat)
    requires
        e1 <= e2,
    ensures
        pow10(e1) <= pow10(e2),
    decreases e2 - e1,
{
    if e1 < e2 {
        lemma_pow10_mono(e1, (e2 - 1) as nat);
        assert(pow10(e2) == 10 * pow10((e2 - 1) as nat));
    }
}

/// Up to six fractional digits, the rescaling factor fits a `u64`.
proof fn lemma_pow10_bound(e: nat)
    requires
        e <= 6,
    ensures
        pow10(e) <= 1_000_000,
{
    lemma_pow10_mono(e, 6);
    assert(pow10(6) == 1_000_000) by {
        reveal_with_fuel(pow10, 7);
    };
}

/// Multiplying one more ten onto a partial power stays within the full one.
proof fn lemma_pow10_step(k: nat, e: nat)
    requires
        k < e,
    ensures
        pow10(k) * 10 == pow10(k + 1),
        pow10(k + 1) <= pow10(e),
    decreases e - k,
{
    assert(pow10(k + 1) == 10 * pow10(k));
    if k + 1 < e {
        lemma_pow10_step(k + 1, e);
        vstd::arithmetic::mul::lemma_mul_upper_bound(
            1,
            10,
            pow10(k + 1) as int,
            pow10(k + 1) as int,
        );
        assert(pow10(k + 1) <= 10 * pow10(k + 1));
    }
}

} // verus!
