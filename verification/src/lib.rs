//! Witness-generation engine and gadget composition layer for arithmetic
//! circuits.
//!
//! A circuit is assembled from gates whose input slots, together with freely
//! allocated virtual cells, form the addressable cells of the circuit.  Cells
//! may be routed together (forced equal), computation units (generators) are
//! registered against cells, and a dependency-driven scheduler then fills a
//! partial assignment of values to cells until it is complete.  On top of the
//! engine sit two gadgets: a base-split range-check gadget and a BLAKE2B hash
//! gadget that pairs a native hint computation with circuit-level cells.

pub mod air;
pub mod blake2b;
pub mod byte_table;
pub mod builder;
pub mod digits;
pub mod errors;
pub mod scheduler;
pub mod witness;
pub mod generator;
