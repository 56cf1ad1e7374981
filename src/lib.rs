//! Ballot ingestion for a privacy-preserving voting server: a ledger that
//! stores each ballot together with its spent nullifiers in one atomic step,
//! the election catalog, and the steps of the reference-data pipeline that
//! prepare Merkle-tree leaves and encode the resulting roots.
pub mod error;
pub mod bytes;
pub mod catalog;
pub mod command;
pub mod encoding;
pub mod ledger;
pub mod refdata;
pub mod service;
