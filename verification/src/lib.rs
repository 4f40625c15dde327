//! A logarithmic market scoring rule (LMSR) automated market maker for
//! prediction markets, together with a ledger that applies trades against it
//! while enforcing collateral solvency.
//!
//! All quantities are fixed-point: signed counts of `1 / fixed::SCALE` units.
pub mod engine;
pub mod fixed;
pub mod market;

pub use market::C_MAX;
pub use market::Market;
pub use market::Portfolio;
pub use engine::B_MAX;
pub use engine::MarketError;
pub use engine::MarketMaker;
pub use engine::N_MAX;
pub use engine::Q_MAX;
pub use fixed::SCALE;

