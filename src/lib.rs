//! Settlement of binary UP/DOWN prediction markets.
//!
//! Participants stake on the UP or DOWN side of a market (a call) that
//! closes at a deadline; a quorum of trusted oracles must sign identical
//! reports before the market is decided; winners then claim their stake back
//! plus a pro-rata share of the losing side.
//!
//! - `types`: addresses, positions and the error taxonomy;
//! - `codec`: the canonical byte message an oracle signs, and signature checks;
//! - `payout`: the pro-rata prize formula with checked arithmetic;
//! - `ledger`: the per-staker balances of one side of a call;
//! - `registry`: the staking ledger of calls;
//! - `consensus`: the oracle set, vote tallies, write-once finalization and claims.
//!
//! Every operation is a state transition on an in-memory value. Whatever a
//! host must do around it (authorizing a signer, moving tokens, invoking
//! another contract) is handed back to the caller as plain data.

pub mod types;
pub mod payout;
pub mod codec;
pub mod consensus;
pub mod ledger;
pub mod registry;
