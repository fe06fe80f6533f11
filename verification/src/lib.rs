//! Orchestration core of a multi-mint ecash wallet.
//!
//! The library converts between a locally held ecash balance and portable
//! bearer-token bundles ("wads"). It plans multi-node spends, packages the
//! selected proofs into wad bundles, ingests inbound bundles one wad at a
//! time, aggregates per-node balances, and classifies every failure for an
//! external caller. Network round trips to mint nodes are suspension points:
//! the workflows are explicit step machines whose decisions are verified
//! here, while an unverified driver performs the node calls and hands the
//! outcome back as an event.
pub mod amount;
pub mod balances;
pub mod codec;
pub mod digits;
pub mod errors;
pub mod ledger;
pub mod service;
pub mod strutil;
pub mod wad;
