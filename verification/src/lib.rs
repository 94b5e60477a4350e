//! Coin selection for a wallet: choose which spendable transaction outputs
//! to consume so that their total value covers a spending target plus the
//! transaction fees, minimizing wasted change.

pub mod branch_and_bound;
pub mod model;
