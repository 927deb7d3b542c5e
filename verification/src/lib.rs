//! A miniature automated-market-maker (AMM) economy, modelled as a
//! deterministic ledger state machine.
//!
//! A [`state::State`] holds wallet balances and liquidity-pool reserves.  It
//! is changed only through the three transitions in [`transition`] — deposit,
//! swap, redeem — each a pure function from a state and its parameters to a
//! new state or a typed error.  The contracts prove exact bookkeeping:
//! balances and reserves are updated pointwise, token supplies are conserved
//! (liquidity shares change only through deposit and redeem), and no balance
//! or reserve ever goes negative.
//!
//! Amounts are unsigned 64-bit integers.  Every division (the swap's
//! constant-product quotient, the redeem ratio) truncates toward zero, and
//! every contract states the truncated value exactly.  An operation whose
//! result would not fit in 64 bits fails with a typed error instead of
//! wrapping.

pub mod token;
pub mod state;
pub mod transition;
pub mod valuation;
