//! Memory-mapped devices: where their registers are and what to store in
//! them. The loads and stores themselves are the caller's.

pub mod clint;
