//! A per-identity balance ledger for a shared pool of value.
//!
//! The ledger records how much each depositor has placed into the pool and
//! decides, for every deposit and withdrawal, whether the movement is allowed
//! and which transfer has to be carried out for it. Moving the value itself is
//! left to the caller.

pub mod identity;
pub mod balances;
pub mod vault;
pub mod laws;
