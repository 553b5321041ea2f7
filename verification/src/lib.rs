//! Correction of fixed-length barcode reads against a known whitelist.
//!
//! A [`engine::BarcodeSet`] is built once from a whitelist of equal-length
//! barcode strings and then answers approximate lookups: single queries,
//! batches with an exact-match short-circuit, and substring windows of a
//! longer read. Distances are Levenshtein edit distances over characters,
//! specified in [`distance`].

pub mod distance;
pub mod engine;
pub mod laws;
