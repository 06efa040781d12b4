//! Reconstruction of "split creation" records from on-chain event logs.
//!
//! The library decodes the fixed contract interface of a payout-splitting
//! contract (its "create split" call, its "split created" event, its balance
//! queries and its distribute / withdraw calls), filters reorg-invalidated
//! logs out of a fetched block range, and drives a pull-based pipeline that
//! pairs each surviving log with its originating transaction to rebuild one
//! validated record per log.

pub mod account;
pub mod codec;
pub mod config;
pub mod query;
pub mod split_main;
pub mod keccak;
pub mod types;
pub mod words;
