//! A duplex cryptographic sponge over a prime field, built on a Rescue-style
//! algebraic permutation, implemented twice: once as a plain numeric state
//! machine and once as a gadget that records algebraic constraints for a
//! proof system. Both backends are proved to compute the same function,
//! value for value, against one shared mathematical model.

pub mod config;
pub mod crh;
pub mod duplex;
pub mod emitter;
pub mod extract;
pub mod field;
pub mod gadget;
pub mod laws;
pub mod native;
pub mod permutation;
