//! Wallet spending-policy wizard core.
//!
//! The library covers the two pieces of domain logic behind a wallet setup
//! and spend wizard: building a validated multi-path spending policy from
//! user-entered keys, thresholds and time-locks (with per-key derivation
//! indices so one key may appear in several paths without colliding
//! outputs), and drafting a spend: ordering candidate coins, computing the
//! amount still missing at a target fee rate, and assembling the request
//! for an unsigned transaction.

pub mod amount_fmt;
pub mod btc;
pub mod codec;
pub mod coins;
pub mod editor;
pub mod import;
pub mod keys;
pub mod num;
pub mod path;
pub mod policy;
pub mod register;
pub mod spend;
pub mod types;
pub mod warnings;
