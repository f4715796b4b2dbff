//! A single-user measurement tracker: credentials, signed session tokens,
//! a per-day time series with a moving average, and the session-gated
//! operations that tie them together.

pub mod access;
pub mod claims;
pub mod clock;
pub mod credentials;
pub mod date;
pub mod error;
pub mod series;
pub mod text;
pub mod token;
