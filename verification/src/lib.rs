//! An educational simulator of an operating-system virtual-memory subsystem.
//!
//! A small set of user processes share a fixed pool of physical page frames.
//! Each process resolves typed reads and writes through a two-level page
//! table exactly as a hardware MMU would: frames are allocated lazily on the
//! first write to a registered page, and are cloned on the first write after
//! a `fork` (copy-on-write).

pub mod frames;
pub mod pointer;
pub mod process;
pub mod ptable;
pub mod sim;
pub mod translation;
pub mod words;
