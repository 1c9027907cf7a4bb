//! Shamir's secret sharing over GF(256) for text secrets.
//!
//! A secret is split into shares, each a point on one random polynomial per
//! secret byte; enough shares with distinct x-coordinates give the secret
//! back. Shares travel as text tokens: the share's byte frame in standard
//! base64.

pub mod error;
pub mod share;
pub mod codec;
pub mod sharing;
pub mod laws;
