//! Verified core of the octo wallet service: amount parsing, asset-code validation,
//! Horizon request construction and reply classification, and webhook signing.

pub mod amount;
pub mod asset;
pub mod crypto;
pub mod horizon;
pub mod sign;
pub mod text;
