//! A payments ledger: per-client balances with holds, and the dispute life
//! cycle of every deposit and withdrawal.

pub mod csv;
pub mod ledger;
pub mod string;
