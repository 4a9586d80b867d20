//! Candidate search for near-duplicate detection over pre-hashed token sets.
//!
//! The crate offers two sketches over streams of 64-bit token hashes, a
//! bottom-k sketch ([`kmv::KmvSketch`]) and a classic MinHash
//! ([`minhash::MinHash`]), and an index ([`lsh::LshIndex`]) that bands the
//! resulting signatures so that similar items share buckets. All hashing goes
//! through the seedless mixer in [`util`], so signatures and bucket keys are
//! the same in every run.

pub mod errors;
pub mod heap;
pub mod kmv;
pub mod lsh;
pub mod maps;
pub mod minhash;
pub mod rank;
pub mod sketch;
pub mod util;

pub use lsh::{LshIndex, LshParams};
