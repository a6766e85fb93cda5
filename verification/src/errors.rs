//! Error taxonomy of the engine: configuration errors are raised while the
//! circuit is assembled, witness errors while the scheduler fills the
//! assignment.  None of them is recoverable; each aborts the build or the
//! witness-generation run that raised it.

use vstd::prelude::*;

verus! {

/// A configuration error, detected at assembly time.
#[derive(Clone, Copy, PartialEq, Eq, Structural, Debug)]
pub enum CircuitError {
    /// A gate asked for more wire slots than one row provides.
    ColumnBudgetExceeded,
    /// The cell arena cannot grow any further on this machine.
    CellLimitExceeded,
    /// A range check needs more independently constrainable cells per row
    /// than the configuration routes.
    NotEnoughRoutedWires,
}

/// A fatal error raised while the witness is generated.
#[derive(Clone, Copy, PartialEq, Eq, Structural, Debug)]
pub enum WitnessError {
    /// A cell was written twice with two different values.
    AssignmentConflict,
    /// No generator could make progress while some never ran.
    UnsatisfiableDependencies,
    /// A cell claimed to hold a byte carries a value above 255.
    ByteValueOutOfRange,
}

} // verus!
