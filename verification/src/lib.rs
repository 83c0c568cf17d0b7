//! Verified core of a k-nearest-neighbour fraud scorer over a bucketed
//! index of quantized reference vectors.

pub mod dataset;
pub mod topk;
pub mod search;
pub mod index_file;
pub mod vectorizer;
