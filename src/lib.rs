//! A tamper-evident interaction ledger over a binary Merkle accumulator, and an
//! embedding store with deterministic nearest-first ranking.
pub mod accumulator;
pub mod embedding;
pub mod ledger;
pub mod merkle;
