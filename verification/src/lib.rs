//! Boolean-circuit gadgets for 32-bit arithmetic and the SHA-256 compression
//! function, built from exclusive-or and logical-and gates alone.
//!
//! Every gadget appends gates to a [`circuit::CircuitBuilder`], which records
//! both the graph of gates and a valuation of every wire.  The contracts
//! state, for whatever values the input wires carry, which values the output
//! wires carry: the adders return `(a + b) mod 2^32`, the compression engine
//! returns the SHA-256 digest of the message bits.

pub mod bitmath;
pub mod circuit;
pub mod gadgets;
pub mod brentkung;
pub mod hancarlson;
pub mod koggestone;
pub mod laws;
pub mod ripple;
pub mod sha256;
pub mod wallace;
pub mod word;
