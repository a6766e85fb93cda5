//! Static trace-shape parameters of the arithmetic intermediate
//! representation: column budgets and the power-of-two row count.  A pure
//! configuration consulted at assembly time; columns never grow at run time,
//! so the proving backend can size its commitments once.

use vstd::prelude::*;
use vstd::arithmetic::power2::{lemma2_to64, pow2};

verus! {

/// The four integers that bound one circuit's trace.
#[derive(Clone, Copy, PartialEq, Eq, Structural, Debug)]
pub struct AirParameters {
    pub num_free_columns: usize,
    pub num_extended_columns: usize,
    pub num_arithmetic_columns: usize,
    pub num_rows_bits: usize,
}

/// Trace parameters of the BLAKE2B hash circuit.
pub struct BLAKE2BAirParameters;

impl BLAKE2BAirParameters {
    /// Row count exponent: the trace has `2^16` rows.
    pub fn num_rows_bits() -> (r: usize)
        ensures
            r == 16,
    {
        16
    }

    /// The full static descriptor of the BLAKE2B trace.
    pub fn parameters() -> (p: AirParameters)
        ensures
            p.num_free_columns == 551,
            p.num_extended_columns == 927,
            p.num_arithmetic_columns == 0,
            p.num_rows_bits == 16,
    {
        AirParameters {
            num_free_columns: 551,
            num_extended_columns: 927,
            num_arithmetic_columns: 0,
            num_rows_bits: 16,
        }
    }

    /// Number of trace rows: two to the row-count exponent.
    pub fn num_rows() -> (r: usize)
        ensures
            r == pow2(16),
    {
        proof {
            lemma2_to64();
        }
        65536
    }
}

} // verus!
