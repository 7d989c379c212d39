//! Concrete checks of the pool's economic laws: the non-decreasing
//! reserve product, the bounded swap output, proportional redemption,
//! ratio preservation, the round trip, and first-deposit anchoring.

use radiswap::pool::{Bucket, PoolError, Radiswap, INITIAL_POOL_UNITS, SCALE};

const ASSET_A: u64 = 1;
const ASSET_B: u64 = 2;
const UNIT_TOKEN: u64 = 77;

fn bucket(resource: u64, amount: u64) -> Bucket {
    Bucket { resource, amount }
}

fn new_pool(reserve_a: u64, reserve_b: u64, fee_rate: u64) -> Radiswap {
    Radiswap::instantiate_radiswap(
        bucket(ASSET_A, reserve_a),
        bucket(ASSET_B, reserve_b),
        fee_rate,
        UNIT_TOKEN,
    )
    .unwrap()
    .0
}

fn product(pool: &Radiswap) -> u128 {
    (pool.reserve_a as u128) * (pool.reserve_b as u128)
}

#[test]
fn swap_product_strictly_increases_at_positive_fee() {
    let mut pool = new_pool(1000 * SCALE, 1000 * SCALE, 3_000);
    for amount in [1, 17, SCALE, 100 * SCALE] {
        let before = product(&pool);
        pool.swap(bucket(ASSET_A, amount)).unwrap();
        assert!(product(&pool) > before);
        let before = product(&pool);
        pool.swap(bucket(ASSET_B, amount)).unwrap();
        assert!(product(&pool) > before);
    }
}

#[test]
fn swap_product_never_decreases_at_zero_fee() {
    let mut pool = new_pool(1000 * SCALE, 1000 * SCALE, 0);
    for amount in [1, 3, 999, SCALE + 7, 500 * SCALE] {
        let before = product(&pool);
        pool.swap(bucket(ASSET_A, amount)).unwrap();
        assert!(product(&pool) >= before);
        // Any increase at zero fee is rounding only: below one unit of
        // the grown input-side reserve.
        assert!(product(&pool) < before + pool.reserve_a as u128);
    }
    // With an exact division the product stays exactly equal.
    let mut pool = new_pool(1000 * SCALE, 1000 * SCALE, 0);
    let before = product(&pool);
    let out = pool.swap(bucket(ASSET_A, 1000 * SCALE)).unwrap();
    assert_eq!(out.amount, 500 * SCALE);
    assert_eq!(product(&pool), before);
}

#[test]
fn swap_never_pays_more_than_the_output_reserve() {
    let mut pool = new_pool(10 * SCALE, 3 * SCALE, 0);
    let reserve_in_before = pool.reserve_a;
    let reserve_out_before = pool.reserve_b;
    // An enormous deposit cannot empty the output side.
    let out = pool.swap(bucket(ASSET_A, 1_000_000 * SCALE)).unwrap();
    assert!(out.amount < reserve_out_before);
    assert!(pool.reserve_b > 0);
    assert!(pool.reserve_a > reserve_in_before);
}

#[test]
fn remove_liquidity_is_exactly_proportional() {
    let mut pool = new_pool(900 * SCALE, 300 * SCALE, 3_000);
    let supply = pool.pool_units_supply as u128;
    let units: u64 = 33 * SCALE + 123;
    let (out_a, out_b) = pool.remove_liquidity(bucket(UNIT_TOKEN, units)).unwrap();
    let expect_a = (900u128 * SCALE as u128 * units as u128 / supply) as u64;
    let expect_b = (300u128 * SCALE as u128 * units as u128 / supply) as u64;
    assert_eq!(out_a.amount, expect_a);
    assert_eq!(out_b.amount, expect_b);
    assert_eq!(pool.pool_units_supply, INITIAL_POOL_UNITS - units);
}

#[test]
fn add_liquidity_preserves_the_reserve_ratio() {
    let mut pool = new_pool(2_000 * SCALE, 1_000 * SCALE, 0);
    let (m, n) = (pool.reserve_a as u128, pool.reserve_b as u128);
    pool.add_liquidity(bucket(ASSET_A, 500 * SCALE), bucket(ASSET_B, 250 * SCALE))
        .unwrap();
    // The deposit was exactly at the 2:1 ratio, so the ratio is kept exactly.
    assert_eq!(n * pool.reserve_a as u128, m * pool.reserve_b as u128);
    // An off-ratio deposit still keeps the ratio up to one rounding step.
    let (m, n) = (pool.reserve_a as u128, pool.reserve_b as u128);
    pool.add_liquidity(bucket(ASSET_A, 123_456_789), bucket(ASSET_B, 7))
        .unwrap();
    let lhs = n * pool.reserve_a as u128;
    let rhs = m * pool.reserve_b as u128;
    assert!(lhs <= rhs + m && rhs <= lhs + n);
}

#[test]
fn round_trip_at_ratio_returns_the_deposit_exactly() {
    let mut pool = new_pool(1000 * SCALE, 1000 * SCALE, 3_000);
    let (left_a, left_b, units) = pool
        .add_liquidity(bucket(ASSET_A, 10 * SCALE), bucket(ASSET_B, 10 * SCALE))
        .unwrap();
    assert_eq!((left_a.amount, left_b.amount), (0, 0));
    assert_eq!(units.amount, SCALE);
    let (out_a, out_b) = pool.remove_liquidity(units).unwrap();
    assert_eq!(out_a, bucket(ASSET_A, 10 * SCALE));
    assert_eq!(out_b, bucket(ASSET_B, 10 * SCALE));
    assert_eq!(pool.reserve_a, 1000 * SCALE);
    assert_eq!(pool.reserve_b, 1000 * SCALE);
    assert_eq!(pool.pool_units_supply, INITIAL_POOL_UNITS);
}

#[test]
fn round_trip_rounding_never_profits_the_caller() {
    // Seven millionths on each side force the minting to round down.
    let mut pool = new_pool(7, 7, 0);
    let (_, _, units) = pool
        .add_liquidity(bucket(ASSET_A, 3), bucket(ASSET_B, 3))
        .unwrap();
    let (out_a, out_b) = pool.remove_liquidity(units).unwrap();
    assert!(out_a.amount <= 3);
    assert!(out_b.amount <= 3);
    assert_eq!(out_a.amount, 2);
    assert_eq!(out_b.amount, 2);
}

#[test]
fn first_deposit_into_an_emptied_pool_mints_one_hundred_units() {
    let mut pool = new_pool(1000 * SCALE, 1000 * SCALE, 3_000);
    pool.remove_liquidity(bucket(UNIT_TOKEN, INITIAL_POOL_UNITS)).unwrap();
    assert_eq!(pool.pool_units_supply, 0);
    // Whatever the amounts, the fresh issue is exactly 100 units.
    let (left_a, left_b, units) = pool
        .add_liquidity(bucket(ASSET_A, 37), bucket(ASSET_B, 91 * SCALE))
        .unwrap();
    assert_eq!(units, bucket(UNIT_TOKEN, INITIAL_POOL_UNITS));
    assert_eq!((left_a.amount, left_b.amount), (0, 0));
    assert_eq!(pool.reserve_a, 37);
    assert_eq!(pool.reserve_b, 91 * SCALE);
}

#[test]
fn empty_pool_rejects_a_one_sided_deposit() {
    let mut pool = new_pool(SCALE, SCALE, 0);
    pool.remove_liquidity(bucket(UNIT_TOKEN, INITIAL_POOL_UNITS)).unwrap();
    let before = pool;
    let r = pool.add_liquidity(bucket(ASSET_A, SCALE), bucket(ASSET_B, 0));
    assert_eq!(r, Err(PoolError::InvalidInput));
    assert_eq!(pool, before);
}

#[test]
fn swapping_against_a_drained_pool_follows_the_formula() {
    let mut pool = new_pool(SCALE, SCALE, 0);
    pool.remove_liquidity(bucket(UNIT_TOKEN, INITIAL_POOL_UNITS)).unwrap();
    // Both reserves are empty: a deposit buys nothing and stays in the pool.
    let out = pool.swap(bucket(ASSET_A, 5)).unwrap();
    assert_eq!(out, bucket(ASSET_B, 0));
    assert_eq!((pool.reserve_a, pool.reserve_b), (5, 0));
    // With the input-side reserve at zero the formula pays the whole
    // output side: reserve_out * dx * (1 - fee) / (0 + dx * (1 - fee)).
    let out = pool.swap(bucket(ASSET_B, 10)).unwrap();
    assert_eq!(out, bucket(ASSET_A, 5));
    assert_eq!((pool.reserve_a, pool.reserve_b), (0, 10));
    assert_eq!(pool.pool_units_supply, 0);
}

#[test]
fn wrong_token_redemption_changes_nothing() {
    let mut pool = new_pool(1000 * SCALE, 1000 * SCALE, 3_000);
    let before = pool;
    let r = pool.remove_liquidity(bucket(UNIT_TOKEN + 1, 10 * SCALE));
    assert_eq!(r, Err(PoolError::WrongToken));
    assert_eq!(pool, before);
    assert_eq!(pool.pool_units_supply, before.pool_units_supply);
}
