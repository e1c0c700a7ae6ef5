//! A ledger engine. It applies deposits, withdrawals, disputes, resolves and
//! chargebacks, in the order in which they arrive, to the accounts of their
//! clients.
//!
//! Money is held in fixed point, as a signed count of ten-thousandths of a
//! unit, so that every balance is exact and the total of an account is
//! always what is available plus what is held.

pub mod amount;
pub mod client;
pub mod digits;
pub mod engine;
pub mod error;
pub mod ledger;
pub mod text;
pub mod transaction;
