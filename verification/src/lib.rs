//! Pooled-capital fund accounting engine.
//!
//! Tracks a fund's lifecycle from capital intake to final settlement and
//! computes, in integer arithmetic, how accumulated profit and residual
//! capital are split between the traders that managed the capital and the
//! investors that supplied it. Durable persistence, address authentication
//! and the token-transfer gateway are external collaborators: callers hand
//! the engine plain values (balance readings) and execute the transfer
//! plans it returns.

pub mod fund;
pub mod model;
pub mod settlement;

pub use fund::AlphaFund;
pub use fund::Address;
pub use fund::FundError;
pub use fund::FundState;
pub use fund::InvestorRecord;
pub use fund::Settlement;
pub use fund::TraderRecord;
pub use fund::Transfer;
pub use fund::MAX_POOL_AMOUNT;
