//! Partial assignment of field values to circuit cells, keyed by routed
//! equivalence class: routed cells share one slot, so routing forces equal
//! values.  Writing a slot twice with different values is a fatal conflict;
//! the assignment is append-only.

use vstd::prelude::*;
use crate::builder::{lemma_rep_is_root, CircuitBuilder, Target};
use crate::errors::WitnessError;

verus! {

/// Effect of one write: fills an empty slot, accepts an equal rewrite, and
/// rejects a conflicting one.
pub open spec fn set_model(vals: Seq<Option<u64>>, id: int, v: u64) -> Result<
    Seq<Option<u64>>,
    WitnessError,
>
    recommends
        0 <= id < vals.len(),
{
    match vals[id] {
        Option::None => Ok(vals.update(id, Some(v))),
        Option::Some(w0) => if w0 == v {
            Ok(vals)
        } else {
            Err(WitnessError::AssignmentConflict)
        },
    }
}

/// A partial assignment over the cell arena of one circuit.
pub struct PartialWitness {
    pub values: Vec<Option<u64>>,
}

impl PartialWitness {
    /// The assignment covers exactly the circuit's cells.
    pub open spec fn compat(self, b: CircuitBuilder) -> bool {
        self.values.len() == b.num_cells()
    }

    /// Value of a target under the circuit's routing.
    pub open spec fn value_of(self, b: CircuitBuilder, t: Target) -> Option<u64> {
        self.values@[b.resolved(t)]
    }

    /// Empty assignment for a circuit.
    pub fn new(b: &CircuitBuilder) -> (w: PartialWitness)
        ensures
            w.compat(*b),
            w.values@ == Seq::new(b.num_cells() as nat, |i: int| Option::<u64>::None),
    {
        let n = b.parent.len();
        let mut values: Vec<Option<u64>> = Vec::new();
        let mut i: usize = 0;
        while i < n
            invariant
                i <= n,
                values@.len() == i,
                forall|j: int| 0 <= j < i ==> values@[j] is None,
            decreases n - i,
        {
            values.push(None);
            i = i + 1;
        }
        proof {
            assert(values@ =~= Seq::new(b.num_cells() as nat, |i: int| Option::<u64>::None));
        }
        PartialWitness { values }
    }

    /// Reads a target's value, if assigned.
    pub fn get_target(&self, b: &CircuitBuilder, t: Target) -> (r: Option<u64>)
        requires
            b.wf(),
            b.target_in_bounds(t),
            self.compat(*b),
        ensures
            r == self.value_of(*b, t),
    {
        let id = b.cell_index(t);
        let root = b.find(id);
        self.values[root]
    }

    /// Writes a target's value; fails if its routed class already carries a
    /// different value.
    pub fn set_target(&mut self, b: &CircuitBuilder, t: Target, v: u64) -> (r: Result<
        (),
        WitnessError,
    >)
        requires
            b.wf(),
            b.target_in_bounds(t),
            old(self).compat(*b),
        ensures
            final(self).compat(*b),
            match r {
                Ok(()) => set_model(old(self).values@, b.resolved(t), v)
                    == Ok::<Seq<Option<u64>>, WitnessError>(final(self).values@),
                Err(e) => set_model(old(self).values@, b.resolved(t), v)
                    == Err::<Seq<Option<u64>>, WitnessError>(e)
                    && final(self).values@ == old(self).values@,
            },
    {
        let id = b.cell_index(t);
        let root = b.find(id);
        match self.values[root] {
            None => {
                self.values.set(root, Some(v));
                Ok(())
            },
            Some(w0) => {
                if w0 == v {
                    proof {
                        assert(self.values@ =~= old(self).values@.update(root as int, Some(v)));
                    }
                    Ok(())
                } else {
                    Err(WitnessError::AssignmentConflict)
                }
            },
        }
    }

    /// Whether every listed cell is assigned.
    pub fn is_complete(&self, b: &CircuitBuilder, cells: &Vec<Target>) -> (r: bool)
        requires
            b.wf(),
            self.compat(*b),
            forall|i: int| 0 <= i < cells@.len() ==> b.target_in_bounds(#[trigger] cells@[i]),
        ensures
            r == forall|i: int| 0 <= i < cells@.len()
                ==> #[trigger] self.value_of(*b, cells@[i]) is Some,
    {
        let mut i: usize = 0;
        while i < cells.len()
            invariant
                i <= cells@.len(),
                b.wf(),
                self.compat(*b),
                forall|k: int| 0 <= k < cells@.len() ==> b.target_in_bounds(#[trigger] cells@[k]),
                forall|k: int| 0 <= k < i ==> #[trigger] self.value_of(*b, cells@[k]) is Some,
            decreases cells@.len() - i,
        {
            let v = self.get_target(b, cells[i]);
            if v.is_none() {
                return false;
            }
            i = i + 1;
        }
        true
    }
}

} // verus!
