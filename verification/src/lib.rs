//! Zero-knowledge circuit gadgets over the BLS12-381 scalar field.
//!
//! Gadgets build witnesses and algebraic constraints inside an in-memory
//! constraint system; an external proving backend later turns the accumulated
//! system into a proof.  Every gadget is verified to (a) assign witness values
//! that satisfy the constraints it emits and (b) produce the same numeric
//! result as its plain, out-of-circuit counterpart.

pub mod field;
pub mod cs;
pub mod common;
pub mod mimc;
pub mod poseidon;
pub mod curve;
pub mod eddsa;
pub mod gates;
