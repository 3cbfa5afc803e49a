//! Fingerprinting and grouping engine for finding duplicate and visually
//! similar files.
//!
//! Files are identified by a content fingerprint (a 64-bit hash of at most
//! the first [`fingerprint::PREFIX_LEN`] bytes) and, for images, by a 256-bit
//! perceptual descriptor. Records sharing a content fingerprint form exact
//! groups; images whose descriptors lie within a Hamming-distance threshold
//! of one another form near-duplicate clusters.
use vstd::prelude::*;

pub mod fingerprint;
pub mod record;
pub mod exact;
pub mod similar;
