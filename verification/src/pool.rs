//! The pool itself: reserves, fee, and pool-unit accounting, with the
//! constant-product swap formula and the ratio-preserving liquidity policy.

use vstd::prelude::*;

verus! {

use crate::arith::lemma_div_bounds;
use crate::arith::lemma_div_le;
use crate::arith::lemma_div_lt;
use crate::arith::lemma_div_exact;

/// Number of fractional units in one whole token: every amount in this
/// crate is an exact fixed-point decimal with six fractional digits,
/// held as a count of millionths.
pub const SCALE: u64 = 1_000_000;

/// Pool units handed out when liquidity first enters a pool whose unit
/// supply is zero: a fixed 100 whole units, re-anchoring the unit scale.
pub const INITIAL_POOL_UNITS: u64 = 100 * SCALE;

/// A quantity of one fungible resource. The resource id stands for the
/// ledger identity of the asset; the amount is in millionths.
#[derive(Clone, Copy, Debug, PartialEq, Eq, Structural)]
pub struct Bucket {
    pub resource: u64,
    pub amount: u64,
}

/// Why a pool operation rejected its input. Every rejection leaves the
/// pool exactly as it was.
#[derive(Clone, Copy, Debug, PartialEq, Eq, Structural)]
pub enum PoolError {
    /// A seed deposit was zero, or the fee rate was outside `[0, 1]`.
    InvalidInput,
    /// A deposited asset does not belong to the pool's two-asset set.
    UnsupportedAsset,
    /// A redemption presented a token that is not this pool's unit token.
    WrongToken,
    /// A computation would divide by zero or exceed the representable range.
    ArithmeticError,
}

/// A two-asset constant-product pool: two reserves, an immutable fee rate,
/// and the identity and outstanding supply of its pool-unit token.
#[derive(Clone, Copy, Debug, PartialEq, Eq, Structural)]
pub struct Radiswap {
    pub reserve_a: u64,
    pub reserve_b: u64,
    pub resource_a: u64,
    pub resource_b: u64,
    /// Fee rate in millionths: `SCALE` is a rate of one.
    pub fee_rate: u64,
    pub pool_units_resource: u64,
    pub pool_units_supply: u64,
}

/// Denominator of the constant-product swap formula, scaled by `SCALE`:
/// the input-side reserve plus the fee-discounted deposit.
pub open spec fn swap_denominator(r_in: int, fee: int, dx: int) -> int {
    r_in * SCALE + dx * (SCALE - fee)
}

/// Numerator of the constant-product swap formula, scaled by `SCALE`:
/// the output-side reserve times the fee-discounted deposit.
pub open spec fn swap_numerator(r_out: int, fee: int, dx: int) -> int {
    r_out * (dx * (SCALE - fee))
}

/// Amount withdrawn from the output-side reserve by a swap:
/// `r_out * (1 - fee) * dx / (r_in + dx * (1 - fee))`, rounded down.
pub open spec fn swap_output(r_in: int, r_out: int, fee: int, dx: int) -> int {
    swap_numerator(r_out, fee, dx) / swap_denominator(r_in, fee, dx)
}

/// A swap on this side cannot be computed: its denominator is zero, its
/// numerator exceeds the intermediate range, or the input-side reserve
/// would exceed the representable range.
pub open spec fn swap_fails(r_in: int, r_out: int, fee: int, dx: int) -> bool {
    ||| swap_denominator(r_in, fee, dx) == 0
    ||| swap_numerator(r_out, fee, dx) > u128::MAX
    ||| r_in + dx > u64::MAX
}

/// The two deposits, as (side A, side B) amounts, are exactly at the
/// current reserve ratio, or a side of the pool is empty and any ratio
/// is acceptable.
pub open spec fn deposit_at_ratio(m: int, n: int, dm: int, dn: int) -> bool {
    m == 0 || n == 0 || m * dn == n * dm
}

/// Side-A amount accepted from deposits `(dm, dn)` against reserves
/// `(m, n)`: the largest amount consistent with the reserve ratio.
pub open spec fn accepted_a(m: int, n: int, dm: int, dn: int) -> int {
    if deposit_at_ratio(m, n, dm, dn) {
        dm
    } else if m * dn < n * dm {
        (m * dn) / n
    } else {
        dm
    }
}

/// Side-B amount accepted from deposits `(dm, dn)` against reserves `(m, n)`.
pub open spec fn accepted_b(m: int, n: int, dm: int, dn: int) -> int {
    if deposit_at_ratio(m, n, dm, dn) {
        dn
    } else if m * dn < n * dm {
        dn
    } else {
        (n * dm) / m
    }
}

/// Pool units minted for an accepted side-A contribution `am` against the
/// pre-contribution side-A reserve `m`: proportional dilution, or the
/// fixed initial issue when no units are outstanding.
pub open spec fn minted_units(supply: int, am: int, m: int) -> int {
    if supply == 0 {
        INITIAL_POOL_UNITS as int
    } else {
        (am * supply) / m
    }
}

/// A liquidity contribution cannot be accounted: the minted units or a
/// grown balance would exceed the representable range.
pub open spec fn add_fails(m: int, n: int, supply: int, dm: int, dn: int) -> bool {
    let am: int = accepted_a(m, n, dm, dn);
    let an: int = accepted_b(m, n, dm, dn);
    let minted: int = minted_units(supply, am, m);
    ||| minted > u64::MAX
    ||| supply + minted > u64::MAX
    ||| m + am > u64::MAX
    ||| n + an > u64::MAX
}

/// Amount of one reserve paid out when `units` of `supply` outstanding
/// pool units are redeemed: the exact proportional share, rounded down.
pub open spec fn share_amount(reserve: int, units: int, supply: int) -> int {
    (reserve * units) / supply
}

/// A redemption pays out at most the reserve, strictly less while any
/// unit stays outstanding, and the whole reserve for the whole supply.
pub proof fn lemma_share_bounds(r: int, u: int, s: int)
    requires
        0 <= r,
        0 <= u,
        u <= s,
        0 < s,
    ensures
        0 <= share_amount(r, u, s),
        share_amount(r, u, s) <= r,
        u < s && r > 0 ==> share_amount(r, u, s) < r,
        u == s ==> share_amount(r, u, s) == r,
{
    lemma_div_bounds(r * u, s);
    assert(r * u <= r * s) by (nonlinear_arith)
        requires
            0 <= r,
            u <= s,
    ;
    lemma_div_le(r * u, s, r);
    if u < s && r > 0 {
        assert(r * u < r * s) by (nonlinear_arith)
            requires
                0 < r,
                u < s,
        ;
        lemma_div_lt(r * u, s, r);
    }
    if u == s {
        lemma_div_exact(r, s);
    }
}

/// A liquidity contribution accepts no more than was deposited, and what
/// it accepts stays within one rounding step of the reserve ratio — and on
/// the ratio exactly when the deposit already is.
pub proof fn lemma_accepted_ratio(m: int, n: int, dm: int, dn: int)
    requires
        0 <= m,
        0 <= n,
        0 <= dm,
        0 <= dn,
    ensures
        ({
            let am: int = accepted_a(m, n, dm, dn);
            let an: int = accepted_b(m, n, dm, dn);
            &&& 0 <= am <= dm
            &&& 0 <= an <= dn
            &&& (m > 0 && n > 0 ==> n * (m + am) <= m * (n + an) + m)
            &&& (m > 0 && n > 0 ==> m * (n + an) <= n * (m + am) + n)
            &&& (m > 0 && n > 0 && m * dn == n * dm ==> n * (m + am) == m * (n + an))
        }),
{
    let am: int = accepted_a(m, n, dm, dn);
    let an: int = accepted_b(m, n, dm, dn);
    if deposit_at_ratio(m, n, dm, dn) {
        if m > 0 && n > 0 {
            assert(n * (m + dm) == m * (n + dn)) by (nonlinear_arith)
                requires
                    m * dn == n * dm,
            ;
        }
    } else if m * dn < n * dm {
        lemma_div_bounds(m * dn, n);
        assert(n * dm == dm * n) by (nonlinear_arith);
        lemma_div_lt(m * dn, n, dm);
        assert(n * (m + am) <= m * (n + dn) + m) by (nonlinear_arith)
            requires
                n * am <= m * dn,
                0 <= m,
        ;
        assert(m * (n + dn) <= n * (m + am) + n) by (nonlinear_arith)
            requires
                m * dn < n * am + n,
        ;
    } else {
        lemma_div_bounds(n * dm, m);
        assert(m * dn == dn * m) by (nonlinear_arith);
        lemma_div_le(n * dm, m, dn);
        assert(m * (n + an) <= n * (m + dm) + n) by (nonlinear_arith)
            requires
                m * an <= n * dm,
                0 <= n,
        ;
        assert(n * (m + dm) <= m * (n + an) + m) by (nonlinear_arith)
            requires
                n * dm < m * an + m,
        ;
    }
}

/// Round-trip law: a deposit `(x, y)` made exactly at the current reserve
/// ratio is accepted in full, and immediately redeeming every pool unit it
/// minted pays back at most `(x, y)` — the rounding in minting and
/// redemption can only lose value to the pool, never extract any.
///
/// The redemption amounts are computed against the grown reserves
/// `(m + x, n + y)` and grown supply, exactly as `remove_liquidity` states
/// them after such an `add_liquidity`.
pub proof fn lemma_round_trip(m: int, n: int, supply: int, x: int, y: int)
    requires
        0 < m,
        0 < n,
        0 < supply,
        0 <= x,
        0 <= y,
        m * y == n * x,
    ensures
        deposit_at_ratio(m, n, x, y),
        accepted_a(m, n, x, y) == x,
        accepted_b(m, n, x, y) == y,
        ({
            let u: int = minted_units(supply, x, m);
            &&& 0 <= u
            &&& share_amount(m + x, u, supply + u) <= x
            &&& share_amount(n + y, u, supply + u) <= y
        }),
{
    let u: int = minted_units(supply, x, m);
    lemma_div_bounds(x * supply, m);
    assert(m * ((x * supply) / m) <= x * supply);
    assert(u == (x * supply) / m);
    assert((m + x) * u <= x * (supply + u)) by (nonlinear_arith)
        requires
            m * u <= x * supply,
            0 <= x,
            0 <= u,
    ;
    assert(0 <= (m + x) * u) by (nonlinear_arith)
        requires
            0 <= m + x,
            0 <= u,
    ;
    lemma_div_le((m + x) * u, supply + u, x);
    assert(n * u <= y * supply) by (nonlinear_arith)
        requires
            m * u <= x * supply,
            m * y == n * x,
            0 < m,
            0 <= n,
            0 <= u,
            0 <= supply,
            0 <= x,
            0 <= y,
    ;
    assert((n + y) * u <= y * (supply + u)) by (nonlinear_arith)
        requires
            n * u <= y * supply,
            0 <= y,
            0 <= u,
    ;
    assert(0 <= (n + y) * u) by (nonlinear_arith)
        requires
            0 <= n + y,
            0 <= u,
    ;
    lemma_div_le((n + y) * u, supply + u, y);
}

/// Product of two amounts, exact in the wide intermediate type.
fn mul_wide(a: u64, b: u64) -> (r: u128)
    ensures
        r == (a as int) * (b as int),
{
    proof {
        assert((a as int) * (b as int) <= (u64::MAX as int) * (u64::MAX as int))
            by (nonlinear_arith)
            requires
                0 <= a <= u64::MAX,
                0 <= b <= u64::MAX,
        ;
    }
    (a as u128) * (b as u128)
}

/// How a swap moves the reserves: the output never exceeds the output-side
/// reserve (strictly, while the input side is populated), the reserve
/// product never decreases, and it strictly increases whenever a positive
/// deposit pays a positive fee into a populated pool.
pub proof fn lemma_swap_product(r_in: int, r_out: int, fee: int, dx: int)
    requires
        0 <= r_in,
        0 <= r_out,
        0 <= fee,
        fee <= SCALE,
        0 <= dx,
        swap_denominator(r_in, fee, dx) > 0,
    ensures
        0 <= swap_output(r_in, r_out, fee, dx),
        swap_output(r_in, r_out, fee, dx) <= r_out,
        r_in > 0 && r_out > 0 ==> swap_output(r_in, r_out, fee, dx) < r_out,
        r_in == 0 ==> swap_output(r_in, r_out, fee, dx) == r_out,
        r_out == 0 ==> swap_output(r_in, r_out, fee, dx) == 0,
        (r_in + dx) * (r_out - swap_output(r_in, r_out, fee, dx)) >= r_in * r_out,
        r_in > 0 && r_out > 0 && dx > 0 && fee > 0 ==> (r_in + dx) * (r_out - swap_output(
            r_in,
            r_out,
            fee,
            dx,
        )) > r_in * r_out,
        fee == 0 ==> (r_in + dx) * (r_out - swap_output(r_in, r_out, fee, dx)) < r_in * r_out + (
        r_in + dx),
{
    let f: int = SCALE - fee;
    let g: int = dx * f;
    let d: int = swap_denominator(r_in, fee, dx);
    let n: int = swap_numerator(r_out, fee, dx);
    let out: int = swap_output(r_in, r_out, fee, dx);
    assert(g >= 0) by (nonlinear_arith)
        requires
            0 <= dx,
            0 <= f,
            g == dx * f,
    ;
    assert(n >= 0 && n == r_out * g) by (nonlinear_arith)
        requires
            0 <= r_out,
            0 <= g,
            n == r_out * (dx * f),
            g == dx * f,
    ;
    assert(r_in * SCALE >= 0) by (nonlinear_arith)
        requires
            0 <= r_in,
    ;
    lemma_div_bounds(n, d);
    assert(n <= r_out * d) by (nonlinear_arith)
        requires
            n == r_out * g,
            g <= d,
            0 <= r_out,
    ;
    lemma_div_le(n, d, r_out);
    if r_in > 0 && r_out > 0 {
        if g == 0 {
            assert(n == 0) by (nonlinear_arith)
                requires
                    n == r_out * g,
                    g == 0,
            ;
            lemma_div_le(n, d, 0);
        } else {
            assert(n < r_out * d) by (nonlinear_arith)
                requires
                    n == r_out * g,
                    g < d,
                    0 < r_out,
            ;
            lemma_div_lt(n, d, r_out);
        }
    }
    if r_in == 0 {
        assert(d == g);
        lemma_div_exact(r_out, d);
    }
    if r_out == 0 {
        assert(n == 0) by (nonlinear_arith)
            requires
                n == r_out * (dx * f),
                r_out == 0,
        ;
        lemma_div_le(n, d, 0);
    }
    // The product inequality: (r_in + dx) * out <= dx * r_out, with the
    // fee factor f cancelled from both sides.
    assert(f * ((r_in + dx) * out) <= f * (dx * r_out)) by (nonlinear_arith)
        requires
            d * out <= n,
            n == r_out * (dx * f),
            d == r_in * SCALE + dx * f,
            0 <= r_in,
            0 <= dx,
            0 <= out,
            0 <= f,
            f <= SCALE,
    ;
    if f > 0 {
        assert((r_in + dx) * out <= dx * r_out) by (nonlinear_arith)
            requires
                f * ((r_in + dx) * out) <= f * (dx * r_out),
                f > 0,
        ;
    } else {
        assert(n == 0) by (nonlinear_arith)
            requires
                n == r_out * (dx * f),
                f == 0,
        ;
        lemma_div_le(n, d, 0);
        assert((r_in + dx) * out <= dx * r_out) by (nonlinear_arith)
            requires
                out == 0,
                0 <= dx,
                0 <= r_out,
            ;
    }
    assert((r_in + dx) * (r_out - out) >= r_in * r_out) by (nonlinear_arith)
        requires
            (r_in + dx) * out <= dx * r_out,
            0 <= r_in,
            0 <= r_out,
            0 <= dx,
            0 <= out,
    ;
    if fee == 0 {
        // Without a fee the product is preserved exactly up to the final
        // rounding step: the increase stays below one unit of the grown
        // input-side reserve.
        assert((r_in + dx) * out + (r_in + dx) > dx * r_out) by (nonlinear_arith)
            requires
                n < d * out + d,
                n == r_out * (dx * f),
                d == r_in * f + dx * f,
                f > 0,
        ;
        assert((r_in + dx) * (r_out - out) < r_in * r_out + (r_in + dx)) by (nonlinear_arith)
            requires
                (r_in + dx) * out + (r_in + dx) > dx * r_out,
        ;
    }
    if r_in > 0 && r_out > 0 && dx > 0 && fee > 0 {
        if out == 0 {
            assert((r_in + dx) * (r_out - 0) > r_in * r_out) by (nonlinear_arith)
                requires
                    dx > 0,
                    r_out > 0,
                    r_in >= 0,
            ;
        } else {
            assert(f > 0) by {
                if f == 0 {
                    assert(n == 0) by (nonlinear_arith)
                        requires
                            n == r_out * (dx * f),
                            f == 0,
                    ;
                    lemma_div_le(n, d, 0);
                }
            }
            assert(f * ((r_in + dx) * out) < f * (dx * r_out)) by (nonlinear_arith)
                requires
                    d * out <= n,
                    n == r_out * (dx * f),
                    d == r_in * SCALE + dx * f,
                    r_in > 0,
                    0 < out,
                    0 < f,
                    f < SCALE,
            ;
            assert((r_in + dx) * out < dx * r_out) by (nonlinear_arith)
                requires
                    f * ((r_in + dx) * out) < f * (dx * r_out),
                    f > 0,
            ;
            assert((r_in + dx) * (r_out - out) > r_in * r_out) by (nonlinear_arith)
                requires
                    (r_in + dx) * out < dx * r_out,
                    0 <= r_in,
                    0 <= r_out,
                    0 <= dx,
                    0 <= out,
            ;
        }
    }
}

impl Radiswap {
    /// Well-formedness: the fee rate is a fraction of one, and pool units
    /// are outstanding exactly while both reserves are populated.
    pub open spec fn wf(self) -> bool {
        &&& self.fee_rate <= SCALE
        &&& self.pool_units_supply > 0 <==> (self.reserve_a > 0 && self.reserve_b > 0)
    }

    /// The constant-product invariant's subject: the product of the reserves.
    pub open spec fn reserve_product(self) -> int {
        self.reserve_a * self.reserve_b
    }

    /// A deposit of this bucket goes to side A. Side A is checked first,
    /// as for a deposit into a pool of two equal resources.
    pub open spec fn input_is_a(self, input: Bucket) -> bool {
        input.resource == self.resource_a
    }

    /// A deposit of this bucket goes to side B.
    pub open spec fn input_is_b(self, input: Bucket) -> bool {
        input.resource != self.resource_a && input.resource == self.resource_b
    }

    /// The deposited pair cannot be assigned to the pool's two sides: the
    /// first bucket matches neither reserve, or the second does not match
    /// the side the first left over.
    pub open spec fn pair_unsupported(self, bucket_a: Bucket, bucket_b: Bucket) -> bool {
        if self.input_is_a(bucket_a) {
            bucket_b.resource != self.resource_b
        } else if self.input_is_b(bucket_a) {
            bucket_b.resource != self.resource_a
        } else {
            true
        }
    }

    /// The side-A amount of a deposited pair, whichever order it came in.
    pub open spec fn ordered_dm(self, bucket_a: Bucket, bucket_b: Bucket) -> int {
        if self.input_is_a(bucket_a) {
            bucket_a.amount as int
        } else {
            bucket_b.amount as int
        }
    }

    /// The side-B amount of a deposited pair, whichever order it came in.
    pub open spec fn ordered_dn(self, bucket_a: Bucket, bucket_b: Bucket) -> int {
        if self.input_is_a(bucket_a) {
            bucket_b.amount as int
        } else {
            bucket_a.amount as int
        }
    }

    /// Creates a pool seeded with the two deposits and returns it together
    /// with the initial issue of pool units, owned by the caller.
    ///
    /// The identity of the pool-unit token is chosen by the accounting-token
    /// issuer, an external collaborator, and passed in here.
    pub fn instantiate_radiswap(
        bucket_a: Bucket,
        bucket_b: Bucket,
        fee_rate: u64,
        pool_units_resource: u64,
    ) -> (result: Result<(Radiswap, Bucket), PoolError>)
        ensures
            result matches Ok((pool, units)) ==> {
                &&& pool.wf()
                &&& pool.reserve_a == bucket_a.amount
                &&& pool.reserve_b == bucket_b.amount
                &&& pool.resource_a == bucket_a.resource
                &&& pool.resource_b == bucket_b.resource
                &&& pool.fee_rate == fee_rate
                &&& pool.pool_units_resource == pool_units_resource
                &&& pool.pool_units_supply == INITIAL_POOL_UNITS
                &&& units == (Bucket { resource: pool_units_resource, amount: INITIAL_POOL_UNITS })
            },
            result is Err <==> (bucket_a.amount == 0 || bucket_b.amount == 0 || fee_rate > SCALE),
            result matches Err(e) ==> e == PoolError::InvalidInput,
    {
        if bucket_a.amount == 0 || bucket_b.amount == 0 {
            return Err(PoolError::InvalidInput);
        }
        if fee_rate > SCALE {
            return Err(PoolError::InvalidInput);
        }
        let pool = Radiswap {
            reserve_a: bucket_a.amount,
            reserve_b: bucket_b.amount,
            resource_a: bucket_a.resource,
            resource_b: bucket_b.resource,
            fee_rate,
            pool_units_resource,
            pool_units_supply: INITIAL_POOL_UNITS,
        };
        let units = Bucket { resource: pool_units_resource, amount: INITIAL_POOL_UNITS };
        Ok((pool, units))
    }

    /// Swaps a deposit of one pool asset for a withdrawal of the other,
    /// priced by the constant-product formula with the fee charged on the
    /// input. The full deposit enters the input-side reserve; only the
    /// fee-discounted output leaves the other, so the reserve product
    /// never decreases, and strictly increases for a positive deposit at
    /// a positive fee. A zero deposit is an economic no-op, not an error.
    pub fn swap(&mut self, input_tokens: Bucket) -> (result: Result<Bucket, PoolError>)
        requires
            old(self).wf(),
        ensures
            final(self).wf(),
            final(self).resource_a == old(self).resource_a,
            final(self).resource_b == old(self).resource_b,
            final(self).fee_rate == old(self).fee_rate,
            final(self).pool_units_resource == old(self).pool_units_resource,
            final(self).pool_units_supply == old(self).pool_units_supply,
            result is Err ==> *final(self) == *old(self),
            (result matches Err(PoolError::UnsupportedAsset)) <==> !old(self).input_is_a(
                input_tokens,
            ) && !old(self).input_is_b(input_tokens),
            (result matches Err(PoolError::ArithmeticError)) <==> {
                ||| old(self).input_is_a(input_tokens) && swap_fails(
                    old(self).reserve_a as int,
                    old(self).reserve_b as int,
                    old(self).fee_rate as int,
                    input_tokens.amount as int,
                )
                ||| old(self).input_is_b(input_tokens) && swap_fails(
                    old(self).reserve_b as int,
                    old(self).reserve_a as int,
                    old(self).fee_rate as int,
                    input_tokens.amount as int,
                )
            },
            result is Ok <==> {
                ||| old(self).input_is_a(input_tokens) && !swap_fails(
                    old(self).reserve_a as int,
                    old(self).reserve_b as int,
                    old(self).fee_rate as int,
                    input_tokens.amount as int,
                )
                ||| old(self).input_is_b(input_tokens) && !swap_fails(
                    old(self).reserve_b as int,
                    old(self).reserve_a as int,
                    old(self).fee_rate as int,
                    input_tokens.amount as int,
                )
            },
            result matches Ok(output) ==> old(self).input_is_a(input_tokens) ==> {
                &&& output.resource == old(self).resource_b
                &&& output.amount == swap_output(
                    old(self).reserve_a as int,
                    old(self).reserve_b as int,
                    old(self).fee_rate as int,
                    input_tokens.amount as int,
                )
                &&& output.amount <= old(self).reserve_b
                &&& final(self).reserve_a == old(self).reserve_a + input_tokens.amount
                &&& final(self).reserve_b == old(self).reserve_b - output.amount
                &&& final(self).reserve_a >= old(self).reserve_a
                &&& (old(self).fee_rate == 0 ==> final(self).reserve_product() < old(
                    self,
                ).reserve_product() + final(self).reserve_a)
            },
            result matches Ok(output) ==> old(self).input_is_b(input_tokens) ==> {
                &&& output.resource == old(self).resource_a
                &&& output.amount == swap_output(
                    old(self).reserve_b as int,
                    old(self).reserve_a as int,
                    old(self).fee_rate as int,
                    input_tokens.amount as int,
                )
                &&& output.amount <= old(self).reserve_a
                &&& final(self).reserve_b == old(self).reserve_b + input_tokens.amount
                &&& final(self).reserve_a == old(self).reserve_a - output.amount
                &&& final(self).reserve_b >= old(self).reserve_b
                &&& (old(self).fee_rate == 0 ==> final(self).reserve_product() < old(
                    self,
                ).reserve_product() + final(self).reserve_b)
            },
            result is Ok ==> final(self).reserve_product() >= old(self).reserve_product(),
            result is Ok && old(self).fee_rate > 0 && input_tokens.amount > 0 && old(
                self,
            ).reserve_a > 0 && old(self).reserve_b > 0 ==> final(self).reserve_product() > old(
                self,
            ).reserve_product(),
    {
        let dx: u64 = input_tokens.amount;
        let side_a: bool;
        let r_in: u64;
        let r_out: u64;
        if input_tokens.resource == self.resource_a {
            side_a = true;
            r_in = self.reserve_a;
            r_out = self.reserve_b;
        } else if input_tokens.resource == self.resource_b {
            side_a = false;
            r_in = self.reserve_b;
            r_out = self.reserve_a;
        } else {
            return Err(PoolError::UnsupportedAsset);
        }
        let factor: u64 = SCALE - self.fee_rate;
        proof {
            assert((dx as int) * (factor as int) <= (u64::MAX as int) * (SCALE as int))
                by (nonlinear_arith)
                requires
                    0 <= dx <= u64::MAX,
                    0 <= factor <= SCALE,
            ;
            assert((r_in as int) * (SCALE as int) <= (u64::MAX as int) * (SCALE as int))
                by (nonlinear_arith)
                requires
                    0 <= r_in <= u64::MAX,
            ;
        }
        let g: u128 = (dx as u128) * (factor as u128);
        let denom: u128 = (r_in as u128) * (SCALE as u128) + g;
        if denom == 0 {
            return Err(PoolError::ArithmeticError);
        }
        let num: u128 = match (r_out as u128).checked_mul(g) {
            Some(v) => v,
            None => {
                return Err(PoolError::ArithmeticError);
            },
        };
        let new_r_in: u64 = match r_in.checked_add(dx) {
            Some(v) => v,
            None => {
                return Err(PoolError::ArithmeticError);
            },
        };
        let out128: u128 = num / denom;
        proof {
            lemma_swap_product(r_in as int, r_out as int, self.fee_rate as int, dx as int);
        }
        let out_amount: u64 = out128 as u64;
        let new_r_out: u64 = r_out - out_amount;
        let output_resource: u64;
        if side_a {
            self.reserve_a = new_r_in;
            self.reserve_b = new_r_out;
            output_resource = self.resource_b;
        } else {
            self.reserve_b = new_r_in;
            self.reserve_a = new_r_out;
            output_resource = self.resource_a;
        }
        proof {
            let post_a: int = self.reserve_a as int;
            let post_b: int = self.reserve_b as int;
            let pre_a: int = old(self).reserve_a as int;
            let pre_b: int = old(self).reserve_b as int;
            assert(post_a * post_b == post_b * post_a) by (nonlinear_arith);
            assert(pre_a * pre_b == pre_b * pre_a) by (nonlinear_arith);
        }
        Ok(Bucket { resource: output_resource, amount: out_amount })
    }

    /// Accepts as much of the deposited pair as the current reserve ratio
    /// allows, returns the unconsumed remainders, and mints pool units for
    /// the accepted contribution. While the pool holds both assets, the
    /// reserve ratio is preserved exactly up to the final rounding step.
    /// A pool that is empty on a side accepts the pair in full, demands
    /// both deposits positive, and re-anchors the unit scale with a fixed
    /// issue of `INITIAL_POOL_UNITS`.
    pub fn add_liquidity(&mut self, bucket_a: Bucket, bucket_b: Bucket) -> (result: Result<
        (Bucket, Bucket, Bucket),
        PoolError,
    >)
        requires
            old(self).wf(),
        ensures
            final(self).wf(),
            final(self).resource_a == old(self).resource_a,
            final(self).resource_b == old(self).resource_b,
            final(self).fee_rate == old(self).fee_rate,
            final(self).pool_units_resource == old(self).pool_units_resource,
            result is Err ==> *final(self) == *old(self),
            (result matches Err(PoolError::UnsupportedAsset)) <==> old(self).pair_unsupported(
                bucket_a,
                bucket_b,
            ),
            (result matches Err(PoolError::InvalidInput)) <==> {
                &&& !old(self).pair_unsupported(bucket_a, bucket_b)
                &&& (old(self).reserve_a == 0 || old(self).reserve_b == 0)
                &&& (old(self).ordered_dm(bucket_a, bucket_b) == 0 || old(self).ordered_dn(
                    bucket_a,
                    bucket_b,
                ) == 0)
            },
            (result matches Err(PoolError::ArithmeticError)) <==> {
                &&& !old(self).pair_unsupported(bucket_a, bucket_b)
                &&& !((old(self).reserve_a == 0 || old(self).reserve_b == 0) && (old(
                    self,
                ).ordered_dm(bucket_a, bucket_b) == 0 || old(self).ordered_dn(bucket_a, bucket_b)
                    == 0))
                &&& add_fails(
                    old(self).reserve_a as int,
                    old(self).reserve_b as int,
                    old(self).pool_units_supply as int,
                    old(self).ordered_dm(bucket_a, bucket_b),
                    old(self).ordered_dn(bucket_a, bucket_b),
                )
            },
            result is Ok <==> {
                &&& !old(self).pair_unsupported(bucket_a, bucket_b)
                &&& !((old(self).reserve_a == 0 || old(self).reserve_b == 0) && (old(
                    self,
                ).ordered_dm(bucket_a, bucket_b) == 0 || old(self).ordered_dn(bucket_a, bucket_b)
                    == 0))
                &&& !add_fails(
                    old(self).reserve_a as int,
                    old(self).reserve_b as int,
                    old(self).pool_units_supply as int,
                    old(self).ordered_dm(bucket_a, bucket_b),
                    old(self).ordered_dn(bucket_a, bucket_b),
                )
            },
            result matches Ok((left_a, left_b, units)) ==> {
                let m: int = old(self).reserve_a as int;
                let n: int = old(self).reserve_b as int;
                let supply: int = old(self).pool_units_supply as int;
                let dm: int = old(self).ordered_dm(bucket_a, bucket_b);
                let dn: int = old(self).ordered_dn(bucket_a, bucket_b);
                let am: int = accepted_a(m, n, dm, dn);
                let an: int = accepted_b(m, n, dm, dn);
                &&& 0 <= am <= dm
                &&& 0 <= an <= dn
                &&& left_a.resource == old(self).resource_a
                &&& left_b.resource == old(self).resource_b
                &&& left_a.amount == dm - am
                &&& left_b.amount == dn - an
                &&& units.resource == old(self).pool_units_resource
                &&& units.amount == minted_units(supply, am, m)
                &&& final(self).reserve_a == m + am
                &&& final(self).reserve_b == n + an
                &&& final(self).pool_units_supply == supply + minted_units(supply, am, m)
                &&& (supply == 0 ==> units.amount == INITIAL_POOL_UNITS)
                &&& (m > 0 && n > 0 ==> n * (m + am) <= m * (n + an) + m)
                &&& (m > 0 && n > 0 ==> m * (n + an) <= n * (m + am) + n)
                &&& (m > 0 && n > 0 && m * dn == n * dm ==> n * (m + am) == m * (n + an))
            },
    {
        let first: Bucket;
        let second: Bucket;
        if bucket_a.resource == self.resource_a {
            if bucket_b.resource != self.resource_b {
                return Err(PoolError::UnsupportedAsset);
            }
            first = bucket_a;
            second = bucket_b;
        } else if bucket_a.resource == self.resource_b {
            if bucket_b.resource != self.resource_a {
                return Err(PoolError::UnsupportedAsset);
            }
            first = bucket_b;
            second = bucket_a;
        } else {
            return Err(PoolError::UnsupportedAsset);
        }
        let dm: u64 = first.amount;
        let dn: u64 = second.amount;
        let m: u64 = self.reserve_a;
        let n: u64 = self.reserve_b;
        let cross_m: u128 = mul_wide(m, dn);
        let cross_n: u128 = mul_wide(n, dm);
        let am: u64;
        let an: u64;
        if m == 0 || n == 0 || cross_m == cross_n {
            if (m == 0 || n == 0) && (dm == 0 || dn == 0) {
                return Err(PoolError::InvalidInput);
            }
            am = dm;
            an = dn;
        } else if cross_m < cross_n {
            // The deposit carries more A per B than the reserves do, so B
            // is the scarce side: all of B enters, matched by the
            // ratio-consistent amount of A.
            let q: u128 = cross_m / (n as u128);
            proof {
                assert((dm as int) * (n as int) == (n as int) * (dm as int))
                    by (nonlinear_arith);
                lemma_div_lt((m as int) * (dn as int), n as int, dm as int);
            }
            am = q as u64;
            an = dn;
        } else {
            // A is the scarce side: all of A enters, matched on the B side.
            let q: u128 = cross_n / (m as u128);
            proof {
                assert((dn as int) * (m as int) == (m as int) * (dn as int))
                    by (nonlinear_arith);
                lemma_div_lt((n as int) * (dm as int), m as int, dn as int);
            }
            am = dm;
            an = q as u64;
        }
        let supply: u64 = self.pool_units_supply;
        let minted: u64;
        if supply == 0 {
            minted = INITIAL_POOL_UNITS;
        } else {
            let q: u128 = mul_wide(am, supply) / (m as u128);
            if q > u64::MAX as u128 {
                return Err(PoolError::ArithmeticError);
            }
            minted = q as u64;
        }
        let new_supply: u64 = match supply.checked_add(minted) {
            Some(v) => v,
            None => {
                return Err(PoolError::ArithmeticError);
            },
        };
        let new_m: u64 = match m.checked_add(am) {
            Some(v) => v,
            None => {
                return Err(PoolError::ArithmeticError);
            },
        };
        let new_n: u64 = match n.checked_add(an) {
            Some(v) => v,
            None => {
                return Err(PoolError::ArithmeticError);
            },
        };
        proof {
            lemma_accepted_ratio(m as int, n as int, dm as int, dn as int);
        }
        self.reserve_a = new_m;
        self.reserve_b = new_n;
        self.pool_units_supply = new_supply;
        Ok(
            (
                Bucket { resource: self.resource_a, amount: dm - am },
                Bucket { resource: self.resource_b, amount: dn - an },
                Bucket { resource: self.pool_units_resource, amount: minted },
            ),
        )
    }

    /// Redeems pool units for the exactly proportional share of both
    /// reserves, computed against the reserves and total supply as they
    /// stood before the burn, then burns the units from the supply.
    pub fn remove_liquidity(&mut self, pool_units: Bucket) -> (result: Result<
        (Bucket, Bucket),
        PoolError,
    >)
        requires
            old(self).wf(),
            pool_units.resource == old(self).pool_units_resource ==> pool_units.amount <= old(
                self,
            ).pool_units_supply,
        ensures
            final(self).wf(),
            final(self).resource_a == old(self).resource_a,
            final(self).resource_b == old(self).resource_b,
            final(self).fee_rate == old(self).fee_rate,
            final(self).pool_units_resource == old(self).pool_units_resource,
            result is Err ==> *final(self) == *old(self),
            (result matches Err(PoolError::WrongToken)) <==> pool_units.resource != old(
                self,
            ).pool_units_resource,
            (result matches Err(PoolError::ArithmeticError)) <==> (pool_units.resource == old(
                self,
            ).pool_units_resource && old(self).pool_units_supply == 0),
            result is Ok <==> (pool_units.resource == old(self).pool_units_resource && old(
                self,
            ).pool_units_supply > 0),
            result matches Ok((out_a, out_b)) ==> {
                let u: int = pool_units.amount as int;
                let supply: int = old(self).pool_units_supply as int;
                &&& out_a.resource == old(self).resource_a
                &&& out_b.resource == old(self).resource_b
                &&& out_a.amount == share_amount(old(self).reserve_a as int, u, supply)
                &&& out_b.amount == share_amount(old(self).reserve_b as int, u, supply)
                &&& out_a.amount <= old(self).reserve_a
                &&& out_b.amount <= old(self).reserve_b
                &&& final(self).reserve_a == old(self).reserve_a - out_a.amount
                &&& final(self).reserve_b == old(self).reserve_b - out_b.amount
                &&& final(self).pool_units_supply == old(self).pool_units_supply
                    - pool_units.amount
            },
    {
        if pool_units.resource != self.pool_units_resource {
            return Err(PoolError::WrongToken);
        }
        let supply: u64 = self.pool_units_supply;
        if supply == 0 {
            return Err(PoolError::ArithmeticError);
        }
        let u: u64 = pool_units.amount;
        let out_a128: u128 = mul_wide(self.reserve_a, u) / (supply as u128);
        let out_b128: u128 = mul_wide(self.reserve_b, u) / (supply as u128);
        proof {
            lemma_share_bounds(self.reserve_a as int, u as int, supply as int);
            lemma_share_bounds(self.reserve_b as int, u as int, supply as int);
        }
        let out_a: u64 = out_a128 as u64;
        let out_b: u64 = out_b128 as u64;
        self.reserve_a = self.reserve_a - out_a;
        self.reserve_b = self.reserve_b - out_b;
        self.pool_units_supply = supply - u;
        Ok(
            (
                Bucket { resource: self.resource_a, amount: out_a },
                Bucket { resource: self.resource_b, amount: out_b },
            ),
        )
    }
}

} // verus!
