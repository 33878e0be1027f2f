//! Plain values shared by every part of the ledger.

use vstd::prelude::*;

verus! {

/// Who owns a balance or a stake.
pub type AccountId = u64;

/// A point on, or a span of, the chain's clock.
pub type BlockNumber = u32;

/// An amount of some currency, in its smallest unit.
pub type Balance = u128;

/// Units of computation that a maintenance step may spend.
pub type Weight = u64;

/// The largest amount that a `Balance` can hold.
pub open spec fn max_balance() -> nat {
    0xffff_ffff_ffff_ffff_ffff_ffff_ffff_ffff
}

/// The currencies that can be staked.
#[derive(Clone, Copy, Debug, PartialEq, Eq, Structural)]
pub enum CurrencyId {
    /// The chain's native currency.
    Tifi,
    /// An asset of another chain, held in wrapped form.
    Wrapped(u32),
}

/// Names one stake for as long as the ledger exists.
///
/// The identifier is made of the staker, the currency, the block at which the
/// stake was made and a number that the ledger hands out once only. Two
/// stakes of one ledger therefore never share an identifier.
#[derive(Clone, Copy, Debug, PartialEq, Eq, Structural)]
pub struct StakeId {
    pub account: AccountId,
    pub currency: CurrencyId,
    pub block: BlockNumber,
    pub nonce: u64,
}

/// Why a request was turned down.
#[derive(Clone, Copy, Debug, PartialEq, Eq, Structural)]
pub enum Error {
    /// The requested lock duration is not one of the configured tiers.
    InvalidDuration,
    /// The amount is below the smallest stake that is accepted.
    AmountTooSmall,
    /// The account's spendable balance does not cover the amount.
    InsufficientFunds,
    /// The account already holds as many stakes as one account may.
    TooManyStakes,
    /// The account has no stake with this identifier that can still be
    /// withdrawn.
    StakeNotFound,
    /// The stake has not run its duration and early withdrawal was not asked
    /// for.
    StakeNotMatured,
    /// A total, a balance, a block number or the supply of identifiers would
    /// leave its range.
    ArithmeticOverflow,
    /// The queue of pending withdrawals is at its capacity.
    QueueFull,
}

} // verus!
