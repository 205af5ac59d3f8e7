//! An in-memory fungible-token ledger: a named asset with an unsigned integer
//! total supply, per-account balances, and an owner-gated administrative
//! capability. The mathematical model of a ledger lives in [`model`]; the
//! executable ledger itself lives in [`ledger`].

pub mod ledger;
pub mod model;
mod text;
