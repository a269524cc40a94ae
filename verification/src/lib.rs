//! A verified core for a currency-conversion cache: a persistent-store model
//! keyed by canonical uppercase currency codes, a staleness/refresh policy,
//! and an exact-decimal conversion engine.

pub mod clock;
pub mod decimal;
pub mod exchange;
pub mod laws;
pub mod money;
pub mod provider;
pub mod store;
pub mod text;
