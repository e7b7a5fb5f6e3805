//! Byte-level fingerprints of binary files, their classification against a
//! labelled corpus, and a lossless Hilbert-curve raster of a byte buffer.
pub mod classify;
pub mod corpus;
pub mod curve;
pub mod metadata;
pub mod profile;
pub mod spatial;
