//! Accounting and pricing core of a two-asset constant-product liquidity
//! pool: it prices swaps between the two reserves, accepts and returns
//! proportional liquidity, and tracks claims on the pool through a fungible
//! pool-unit accounting token.
//!
//! Amounts are exact fixed-point decimals held as integer counts of
//! millionths of a token, so every computation here is integer arithmetic
//! and is verified: swaps never decrease the reserve product, withdrawals
//! are exactly proportional, and every malformed input is rejected with an
//! explicit error and no partial mutation.
//!
//! Custody of the underlying assets, minting and burning of the accounting
//! token, and on-ledger registration are external collaborators: the pool is
//! a plain value object, and a surrounding runtime applies its decisions.

mod arith;
pub mod pool;
