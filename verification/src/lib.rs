//! Secure-credential subsystem of a small SMTP mail sender.
//!
//! The library covers the three components with real correctness hazards:
//! the authenticated-encryption engine ([`crypto`]), the persisted
//! key-value document ([`codec`]), and the config resolution, validation
//! and save-planning logic ([`config`]). Interactive prompting, CLI
//! parsing and the SMTP transport are collaborators that live outside
//! this crate and talk to it through plain values.

pub mod codec;
pub mod config;
pub mod crypto;
pub mod errors;
pub mod mail;
