//! A generational arena (slot map).
//!
//! Keys are stable references to slots. Every slot carries a version that is
//! odd while the slot is occupied and even while it is free; a key holds the
//! version of the slot at the time it was handed out, so a key to a removed
//! value never matches the slot again.

pub mod key;
pub mod laws;
pub mod slots;

pub use key::Key;
pub use slots::Arena;
