//! Verified iterative checker for Equihash proof-of-work solutions.

pub mod equihash;
