//! One-time signature schemes.

pub mod winternitz;
