//! A constant-function market maker core: two token reserves, a liquidity
//! ledger and a static fee, with every state transition computed in exact
//! fixed-point arithmetic through a wide-intermediate conversion engine.

pub mod amm;
pub mod fixed;
pub mod types;
