//! Staking and reward accounting.
//!
//! Participants lock tokens for one of a fixed set of durations. At the close
//! of every session the fees collected in a currency are shared out among the
//! stakes of that currency in proportion to what each locked. A stake that has
//! run its full duration is paid out at once; one that is withdrawn early pays
//! a fee and waits in a queue, which is emptied step by step under a budget.
//!
//! Every function here is verified against a mathematical model of the
//! ledger. [`state::StakingState`] is the model and states its invariant;
//! [`rewards`] and [`drain`] say what the two batch operations make of it.
//! [`staking::Staking`] is the ledger that runs, and [`balances::Balances`]
//! the balances that it moves funds in and out of. [`world`] puts the two
//! together, and [`laws`] holds what is proved of every world that calls can
//! lead to. [`weights`] says what calls cost.
//!
//! The ledger never reads a clock: every operation that depends on the
//! current block is told it by the caller.

pub mod primitives;
pub mod percent;
pub mod share;
pub mod weights;
pub mod tiers;
pub mod balances;
pub mod pools;
pub mod records;
pub mod state;
pub mod rewards;
pub mod drain;
pub mod world;
pub mod staking;
pub mod laws;

pub use crate::balances::Balances;
pub use crate::percent::Percent;
pub use crate::primitives::{AccountId, Balance, BlockNumber, CurrencyId, Error, StakeId, Weight};
pub use crate::records::{Event, Params, StakeRecord, UnstakeQueueEntry};
pub use crate::staking::Staking;
pub use crate::tiers::{DurationTier, TierTable};
