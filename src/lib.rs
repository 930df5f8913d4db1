//! An append-only log of accounts stored in a memory-mapped region.
//!
//! Records are appended at 8-byte aligned offsets and read back by offset,
//! either one at a time or as a forward scan.

pub mod region;

pub mod layout;

pub mod appendvec;

pub mod codec;

pub mod slots;
