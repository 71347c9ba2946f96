//! A client ledger: replays deposits, withdrawals and the dispute lifecycle
//! per client over exact decimal amounts, and reports final balances.

pub mod amount;
pub mod ledger;
pub mod process;
pub mod rounding;
pub mod snapshot;
