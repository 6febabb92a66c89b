//! A durable ledger of coffee lots and their append-only status trails.
pub mod codec;
pub mod ledger;
pub mod storage;
