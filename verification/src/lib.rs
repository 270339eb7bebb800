//! Mapping of FIDO device serials to SSH signing keys.
pub mod config;
pub mod device;
pub mod laws;
pub mod listing;
pub mod signing;
pub mod text;
