//! Sequential, fully specified model of the core primitives of a concurrent
//! in-memory container library: an epoch-based-reclamation (EBR) substrate,
//! a fixed-size hash-bucket [`cell::Cell`] with exclusive and shared guards,
//! and a first-in-first-out [`queue::Queue`] with logical removal.
//!
//! Atomic words of the concurrent design (bitmaps, the packed lock word,
//! link pointers) are kept as plain values here, so that every state
//! transition a concurrent implementation performs with a compare-and-swap
//! is a verified function of the old state.

pub mod bits;
pub mod ebr;

pub mod cell;
pub mod queue;
