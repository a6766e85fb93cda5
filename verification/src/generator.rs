//! Witness generators: named computation units that read dependency cells
//! and fill output cells.  The set of kinds is closed; each kind exposes its
//! dependency cells and a deterministic run over the assignment.

use vstd::prelude::*;
use vstd::arithmetic::power::pow;
use crate::blake2b::BLAKE2BHintGenerator;
use crate::builder::{CircuitBuilder, Target};

verus! {

/// A registered computation unit.
pub enum Generator {
    /// Fills the limb cells of a base-sum gate with the canonical digits of
    /// the value routed into its sum cell.
    BaseSplit { sum: Target, base: u64, limbs: Vec<Target> },
    /// Native BLAKE2B digest computation over padded message cells.
    Blake2bHint(BLAKE2BHintGenerator),
}

impl Generator {
    /// Well-formedness against the assembly context that owns the cells.
    pub open spec fn wf(self, b: CircuitBuilder) -> bool {
        match self {
            Generator::BaseSplit { sum, base, limbs } => {
                &&& b.target_in_bounds(sum)
                &&& forall|i: int| 0 <= i < limbs.len()
                    ==> b.target_in_bounds(#[trigger] limbs@[i])
                &&& 2 <= base
                &&& pow(base as int, limbs.len() as nat) > u64::MAX
            },
            Generator::Blake2bHint(h) => h.wf(b),
        }
    }

    /// The ordered dependency cells: all must be assigned before it runs.
    pub open spec fn deps_spec(self) -> Seq<Target> {
        match self {
            Generator::BaseSplit { sum, .. } => seq![sum],
            Generator::Blake2bHint(h) => h.padded_message@.push(h.message_len),
        }
    }

    /// Executable dependency list.
    pub fn dependencies(&self) -> (deps: Vec<Target>)
        ensures
            deps@ == self.deps_spec(),
    {
        match self {
            Generator::BaseSplit { sum, .. } => {
                let mut d: Vec<Target> = Vec::new();
                d.push(*sum);
                proof {
                    assert(d@ =~= self.deps_spec());
                }
                d
            },
            Generator::Blake2bHint(h) => {
                let mut d: Vec<Target> = Vec::new();
                let mut i: usize = 0;
                while i < h.padded_message.len()
                    invariant
                        i <= h.padded_message@.len(),
                        d@ =~= h.padded_message@.take(i as int),
                    decreases h.padded_message@.len() - i,
                {
                    d.push(h.padded_message[i]);
                    i = i + 1;
                }
                d.push(h.message_len);
                proof {
                    assert(d@ =~= self.deps_spec());
                }
                d
            },
        }
    }
}

/// Generator well-formedness only mentions cell bounds, so it survives any
/// assembly step that extends the context.
pub proof fn lemma_generator_wf_extends(g: Generator, ob: CircuitBuilder, nb: CircuitBuilder)
    requires
        g.wf(ob),
        forall|t: Target| ob.target_in_bounds(t) ==> #[trigger] nb.target_in_bounds(t),
    ensures
        g.wf(nb),
{
    match g {
        Generator::BaseSplit { sum, base, limbs } => {
            assert(nb.target_in_bounds(sum));
            assert forall|i: int| 0 <= i < limbs.len()
                implies nb.target_in_bounds(#[trigger] limbs@[i]) by {
                assert(ob.target_in_bounds(limbs@[i]));
            }
        },
        Generator::Blake2bHint(h) => {
            assert forall|i: int| 0 <= i < h.padded_message.len()
                implies nb.target_in_bounds(#[trigger] h.padded_message@[i]) by {
                assert(ob.target_in_bounds(h.padded_message@[i]));
            }
            assert forall|i: int| 0 <= i < h.digest_bytes.len()
                implies nb.target_in_bounds(#[trigger] h.digest_bytes@[i]) by {
                assert(ob.target_in_bounds(h.digest_bytes@[i]));
            }
        },
    }
}

} // verus!
