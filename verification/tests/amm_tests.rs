use cfmm::amm::AMM;
use cfmm::types::{AmmError, Liquidity, Percentage, Price, TokenAmount};

#[test]
fn initialize_works() {
    let fee = Percentage::from_scale(1, 2);
    let _ = AMM::new(fee);
}

#[test]
fn add_liquidity() {
    let fee = Percentage::from_scale(1, 2);
    let mut amm = AMM::new(fee);

    {
        let amm_x = amm.get_x();
        let amm_y = amm.get_y();
        let amm_l = amm.get_l();
        println!("x: {:?}, y: {:?}, l: {:?}", amm_x, amm_y, amm_l);
    }

    let delta_x = TokenAmount(5);
    amm.add_liquidity(delta_x).unwrap();

    {
        let amm_x = amm.get_x();
        let amm_y = amm.get_y();
        let amm_l = amm.get_l();
        println!("x: {:?}, y: {:?}, l: {:?}", amm_x, amm_y, amm_l);
    }

    let current_price = amm.get_price().unwrap();
    assert_eq!(current_price, Price::from_integer(1));
}

#[test]
fn remove_liquidity() {
    let fee = Percentage::from_scale(1, 2);
    let mut amm = AMM::new(fee);

    let delta_x = TokenAmount(100);
    amm.add_liquidity(delta_x).unwrap();

    {
        let amm_x = amm.get_x();
        let amm_y = amm.get_y();
        let amm_l = amm.get_l();
        println!("x: {:?}, y: {:?}, l: {:?}", amm_x, amm_y, amm_l);
    }

    let current_price = amm.get_price().unwrap();
    assert_eq!(current_price, Price::from_integer(1));

    let delta_x = TokenAmount(10);
    amm.remove_liquidity(delta_x).unwrap();

    {
        let amm_x = amm.get_x();
        let amm_y = amm.get_y();
        let amm_l = amm.get_l();
        println!("x: {:?}, y: {:?}, l: {:?}", amm_x, amm_y, amm_l);
    }

    let current_price = amm.get_price().unwrap();
    assert_eq!(current_price, Price::from_integer(1));
}

#[test]
fn swap() {
    let fee = Percentage::new(0);
    let mut amm = AMM::new(fee);

    let delta_x = TokenAmount(100);
    amm.add_liquidity(delta_x).unwrap();

    let current_price = amm.get_price().unwrap();
    assert_eq!(current_price, Price::from_integer(1));

    let amount = TokenAmount(50);
    amm.swap(amount, true).unwrap();
    {
        let amm_x = amm.get_x();
        let amm_y = amm.get_y();
        let amm_l = amm.get_l();
        println!("x: {:?}, y: {:?}, l: {:?}", amm_x, amm_y, amm_l);
    }
    let price = amm.get_price().unwrap();
    assert_eq!(price, Price::new(446666666666666666666666));
}

#[test]
fn bootstrap_seeds_equal_reserves_and_unit_price() {
    // A 1% fee is raw 10000 at scale 6.
    let fee = Percentage::from_scale(1, 2);
    assert_eq!(fee.v, 10000);
    let mut amm = AMM::new(fee);
    let seeded = amm.add_liquidity(TokenAmount(5)).unwrap();
    assert_eq!(amm.get_x(), TokenAmount(5));
    assert_eq!(amm.get_y(), TokenAmount(5));
    // The ledger is seeded with 25 rescaled to the liquidity scale.
    assert_eq!(amm.get_l(), Liquidity::from_integer(25));
    assert_eq!(seeded, Liquidity::from_integer(25));
    assert_eq!(amm.get_price().unwrap(), Price::from_integer(1));
}

#[test]
fn swap_on_unit_pool_matches_constant_product() {
    // 1:1 pool with reserves (100, 100) and no fee.
    let mut amm = AMM::new(Percentage::new(0));
    amm.add_liquidity(TokenAmount(100)).unwrap();
    amm.swap(TokenAmount(50), true).unwrap();
    assert_eq!(amm.get_x(), TokenAmount(150));
    assert_eq!(amm.get_y(), TokenAmount(67));
    // Adding to the X side makes X more abundant: the price of X in Y moves
    // strictly off 1.0, to the hand-computed constant-product value.
    let price = amm.get_price().unwrap();
    assert!(price.v < Price::from_integer(1).v);
    assert_eq!(price, Price::new(446666666666666666666666));
}

#[test]
fn get_price_on_empty_pool_fails_with_divide_by_zero() {
    let amm = AMM::new(Percentage::new(0));
    assert_eq!(amm.get_price(), Err(AmmError::DivideByZero));
}

#[test]
fn remove_from_empty_pool_fails_with_divide_by_zero() {
    let mut amm = AMM::new(Percentage::new(0));
    assert_eq!(amm.remove_liquidity(TokenAmount(5)), Err(AmmError::DivideByZero));
    assert_eq!(amm.get_x(), TokenAmount(0));
}

#[test]
fn removing_whole_reserve_is_an_invalid_withdrawal() {
    let mut amm = AMM::new(Percentage::new(0));
    amm.add_liquidity(TokenAmount(100)).unwrap();
    assert_eq!(amm.remove_liquidity(TokenAmount(100)), Err(AmmError::InvalidWithdrawal));
    assert_eq!(amm.remove_liquidity(TokenAmount(150)), Err(AmmError::InvalidWithdrawal));
    // The failed attempts mutated nothing.
    assert_eq!(amm.get_x(), TokenAmount(100));
    assert_eq!(amm.get_y(), TokenAmount(100));
}

#[test]
fn bootstrap_of_a_huge_amount_fails_with_overflow() {
    let mut amm = AMM::new(Percentage::new(0));
    assert_eq!(amm.add_liquidity(TokenAmount(u128::MAX)), Err(AmmError::Overflow));
    assert_eq!(amm.get_x(), TokenAmount(0));
    assert_eq!(amm.get_l(), Liquidity::new(0));
}

#[test]
fn provision_with_an_overflowing_ratio_fails_with_overflow() {
    let mut amm = AMM::new(Percentage::new(0));
    amm.add_liquidity(TokenAmount(1)).unwrap();
    assert_eq!(amm.add_liquidity(TokenAmount(u128::MAX)), Err(AmmError::Overflow));
    assert_eq!(amm.get_x(), TokenAmount(1));
}

#[test]
fn price_beyond_the_backing_width_fails_with_overflow() {
    // Pump the Y reserve until X shrinks to one unit: the 24-digit price no
    // longer fits 128 bits.
    let mut amm = AMM::new(Percentage::new(0));
    amm.add_liquidity(TokenAmount(1_000_000)).unwrap();
    amm.swap(TokenAmount(100_000_000_000_000_000_000), false).unwrap();
    assert_eq!(amm.get_x(), TokenAmount(1));
    assert_eq!(amm.get_price(), Err(AmmError::Overflow));
}

#[test]
fn swap_with_a_fee_above_one_fails_with_overflow() {
    let mut amm = AMM::new(Percentage::from_scale(2, 0));
    amm.add_liquidity(TokenAmount(100)).unwrap();
    assert_eq!(amm.swap(TokenAmount(10), true), Err(AmmError::Overflow));
    assert_eq!(amm.get_x(), TokenAmount(100));
    assert_eq!(amm.get_y(), TokenAmount(100));
}

#[test]
fn provision_ratio_rounds_down_and_reserves_round_up() {
    // On a (3, 3) pool a provision of 5 has ratio floor(5e9 / 3); the exact
    // grown reserve is 7.999999998, so rounding up must yield 8 and the
    // minted amount 10666.66... must round up to 10667.
    let mut amm = AMM::new(Percentage::new(0));
    amm.add_liquidity(TokenAmount(3)).unwrap();
    let minted = amm.add_liquidity(TokenAmount(5)).unwrap();
    assert_eq!(amm.get_x(), TokenAmount(8));
    assert_eq!(amm.get_y(), TokenAmount(8));
    assert_eq!(amm.get_l(), Liquidity::new(6400));
    assert_eq!(minted, Liquidity::new(10667));
}

#[test]
fn withdrawal_rounds_reserves_down_and_burn_up() {
    // On a (3, 3) pool a withdrawal of 1 shrinks the reserves to exactly
    // 2.000000001, so rounding down must yield 2; the remaining liquidity
    // 400.0000004000000001 rounds up to 401 and the burned amount 133.66...
    // up to 134.
    let mut amm = AMM::new(Percentage::new(0));
    amm.add_liquidity(TokenAmount(3)).unwrap();
    let burned = amm.remove_liquidity(TokenAmount(1)).unwrap();
    assert_eq!(amm.get_x(), TokenAmount(2));
    assert_eq!(amm.get_y(), TokenAmount(2));
    assert_eq!(amm.get_l(), Liquidity::new(401));
    assert_eq!(burned, Liquidity::new(134));
}

#[test]
fn swap_fee_is_charged_on_the_effective_input() {
    // A 50% fee on an input of 3 leaves an effective input of 1.5, which
    // rounds up to 2; the payout floor(2 * 100 / 103) is 1.
    let mut amm = AMM::new(Percentage::from_scale(5, 1));
    amm.add_liquidity(TokenAmount(100)).unwrap();
    amm.swap(TokenAmount(3), true).unwrap();
    assert_eq!(amm.get_x(), TokenAmount(103));
    assert_eq!(amm.get_y(), TokenAmount(99));
}

#[test]
fn price_is_unchanged_by_an_exactly_divisible_provision() {
    // An asymmetric (150, 67) pool; a provision of 150 divides both scalings
    // exactly, so the price must not move at all.
    let mut amm = AMM::new(Percentage::new(0));
    amm.add_liquidity(TokenAmount(100)).unwrap();
    amm.swap(TokenAmount(50), true).unwrap();
    let before = amm.get_price().unwrap();
    amm.add_liquidity(TokenAmount(150)).unwrap();
    assert_eq!(amm.get_x(), TokenAmount(300));
    assert_eq!(amm.get_y(), TokenAmount(134));
    let after = amm.get_price().unwrap();
    assert_eq!(before, after);
}

#[test]
fn provision_then_withdrawal_restores_the_reserve() {
    let mut amm = AMM::new(Percentage::new(0));
    amm.add_liquidity(TokenAmount(100)).unwrap();
    amm.add_liquidity(TokenAmount(7)).unwrap();
    assert_eq!(amm.get_x(), TokenAmount(107));
    amm.remove_liquidity(TokenAmount(7)).unwrap();
    assert_eq!(amm.get_x(), TokenAmount(100));
    assert_eq!(amm.get_y(), TokenAmount(100));
}

#[test]
fn withdrawal_strictly_decreases_reserves_and_liquidity() {
    let mut amm = AMM::new(Percentage::new(0));
    amm.add_liquidity(TokenAmount(100)).unwrap();
    amm.remove_liquidity(TokenAmount(10)).unwrap();
    assert!(amm.get_x().0 < 100);
    assert!(amm.get_y().0 < 100);
    assert!(amm.get_l().v < 1_000_000);
    assert_eq!(amm.get_x(), TokenAmount(90));
    assert_eq!(amm.get_y(), TokenAmount(90));
    assert_eq!(amm.get_l(), Liquidity::new(810_000));
}

#[test]
fn swap_never_decreases_the_reserve_product() {
    let mut amm = AMM::new(Percentage::from_scale(1, 2));
    amm.add_liquidity(TokenAmount(100)).unwrap();
    amm.swap(TokenAmount(7), true).unwrap();
    assert_eq!(amm.get_x(), TokenAmount(107));
    assert_eq!(amm.get_y(), TokenAmount(94));
    assert!(amm.get_x().0 * amm.get_y().0 >= 100 * 100);
}

#[test]
fn swap_in_y_is_symmetric() {
    let mut amm = AMM::new(Percentage::new(0));
    amm.add_liquidity(TokenAmount(100)).unwrap();
    amm.swap(TokenAmount(50), false).unwrap();
    assert_eq!(amm.get_y(), TokenAmount(150));
    assert_eq!(amm.get_x(), TokenAmount(67));
    assert!(amm.get_x().0 * amm.get_y().0 >= 100 * 100);
}

#[test]
fn liquidity_update_applies_one_ceiling_at_the_combined_scale() {
    // On a pool of a whole ratio unit per side, a provision of 1 has the
    // exact new liquidity 10^20 * (1 + 10^-9)^2 = 10^20 + 2*10^11 + 100: a
    // single ceiling at the combined scale keeps it exactly, where a second
    // ceiling on the squared factor alone would inflate it to
    // 10^20 + 3*10^11.
    let mut amm = AMM::new(Percentage::new(0));
    amm.add_liquidity(TokenAmount(1_000_000_000)).unwrap();
    assert_eq!(amm.get_l(), Liquidity::new(100_000_000_000_000_000_000));
    let minted = amm.add_liquidity(TokenAmount(1)).unwrap();
    assert_eq!(amm.get_x(), TokenAmount(1_000_000_001));
    assert_eq!(amm.get_l(), Liquidity::new(100_000_000_200_000_000_100));
    assert_eq!(minted, Liquidity::new(100_000_000_201));

    let mut amm = AMM::new(Percentage::new(0));
    amm.add_liquidity(TokenAmount(1_000_000_000)).unwrap();
    let burned = amm.remove_liquidity(TokenAmount(1)).unwrap();
    assert_eq!(amm.get_x(), TokenAmount(999_999_999));
    assert_eq!(amm.get_l(), Liquidity::new(99_999_999_800_000_000_100));
    assert_eq!(burned, Liquidity::new(99_999_999_801));
}
