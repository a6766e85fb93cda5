//! Byte lookup table: collects "this cell holds a byte" claims during
//! assembly and, once the assignment exists, counts one multiplicity per
//! claimed byte value.  A claimed cell whose final value does not fit a byte
//! is a witness-generation bug and fails loudly; truncating it silently
//! would make the proof unsound.

use vstd::prelude::*;
use crate::builder::{CircuitBuilder, Target};
use crate::errors::WitnessError;
use crate::witness::PartialWitness;

verus! {

/// How many of the claimed cells resolve to the byte value `v`.
pub open spec fn count_value(
    b: CircuitBuilder,
    vals: Seq<Option<u64>>,
    claims: Seq<Target>,
    v: u64,
) -> int
    decreases claims.len(),
{
    if claims.len() == 0 {
        0
    } else {
        (if vals[b.resolved(claims[0])] == Some(v) {
            1int
        } else {
            0int
        }) + count_value(b, vals, claims.drop_first(), v)
    }
}

/// Counting distributes over appending one claim.
pub proof fn lemma_count_value_push(
    b: CircuitBuilder,
    vals: Seq<Option<u64>>,
    claims: Seq<Target>,
    t: Target,
    v: u64,
)
    ensures
        count_value(b, vals, claims.push(t), v) == count_value(b, vals, claims, v) + (
        if vals[b.resolved(t)] == Some(v) {
            1int
        } else {
            0int
        }),
    decreases claims.len(),
{
    let p = claims.push(t);
    assert(p.len() == claims.len() + 1);
    assert(count_value(b, vals, p, v) == (if vals[b.resolved(p[0])] == Some(v) {
        1int
    } else {
        0int
    }) + count_value(b, vals, p.drop_first(), v));
    if claims.len() == 0 {
        assert(p[0] == t);
        assert(p.drop_first() =~= Seq::<Target>::empty());
        assert(count_value(b, vals, p.drop_first(), v) == 0);
    } else {
        lemma_count_value_push(b, vals, claims.drop_first(), t, v);
        assert(p[0] == claims[0]);
        assert(p.drop_first() =~= claims.drop_first().push(t));
        assert(count_value(b, vals, p.drop_first(), v)
            == count_value(b, vals, claims.drop_first().push(t), v));
    }
}

/// The shared table of byte claims and multiplicities.
pub struct ByteLookupTable {
    /// Cells claimed to hold byte values.
    pub claims: Vec<Target>,
    /// One counter per byte value.
    pub multiplicities: Vec<u64>,
}

impl ByteLookupTable {
    /// 256 counters, and every claimed cell allocated in the circuit.
    pub open spec fn wf(self, b: CircuitBuilder) -> bool {
        &&& self.multiplicities@.len() == 256
        &&& forall|i: int| 0 <= i < self.claims@.len()
            ==> b.target_in_bounds(#[trigger] self.claims@[i])
    }

    /// Fresh table: no claims, all multiplicities zero.
    pub fn new() -> (r: ByteLookupTable)
        ensures
            r.claims@.len() == 0,
            r.multiplicities@.len() == 256,
            forall|v: int| 0 <= v < 256 ==> #[trigger] r.multiplicities@[v] == 0,
    {
        let mut multiplicities: Vec<u64> = Vec::new();
        let mut i: usize = 0;
        while i < 256
            invariant
                i <= 256,
                multiplicities@.len() == i,
                forall|v: int| 0 <= v < i ==> #[trigger] multiplicities@[v] == 0,
            decreases 256 - i,
        {
            multiplicities.push(0);
            i = i + 1;
        }
        ByteLookupTable { claims: Vec::new(), multiplicities }
    }

    /// Registers the claim that a cell's final value lies in a byte.  The
    /// value is not known yet; multiplicities are counted at witness time.
    pub fn add_byte_claim(&mut self, t: Target)
        ensures
            final(self).claims@ == old(self).claims@.push(t),
            final(self).multiplicities@ == old(self).multiplicities@,
    {
        self.claims.push(t);
    }

    /// Counts the multiplicity of every claimed byte value under a finished
    /// assignment.  Fails exactly when some claimed cell is unassigned or
    /// carries a value above 255 — never truncates.
    #[verifier::loop_isolation(false)]
    pub fn fill_multiplicities(&mut self, b: &CircuitBuilder, w: &PartialWitness) -> (r: Result<
        (),
        WitnessError,
    >)
        requires
            b.wf(),
            w.compat(*b),
            old(self).wf(*b),
            forall|v: int| 0 <= v < 256 ==> #[trigger] old(self).multiplicities@[v] == 0,
        ensures
            final(self).wf(*b),
            final(self).claims@ == old(self).claims@,
            match r {
                Ok(()) => {
                    &&& forall|i: int| 0 <= i < old(self).claims@.len()
                        ==> w.value_of(*b, #[trigger] old(self).claims@[i]) is Some
                            && w.value_of(*b, old(self).claims@[i])->0 < 256
                    &&& forall|v: u64| v < 256 ==> #[trigger] final(self).multiplicities@[v as int]
                        == count_value(*b, w.values@, old(self).claims@, v)
                },
                Err(e) => {
                    &&& e == WitnessError::ByteValueOutOfRange
                    &&& exists|i: int| 0 <= i < old(self).claims@.len()
                        && !(w.value_of(*b, #[trigger] old(self).claims@[i]) is Some
                            && w.value_of(*b, old(self).claims@[i])->0 < 256)
                },
            },
    {
        let mut i: usize = 0;
        while i < self.claims.len()
            invariant
                i <= self.claims@.len(),
                self.claims@ == old(self).claims@,
                self.multiplicities@.len() == 256,
                forall|k: int| 0 <= k < i
                    ==> w.value_of(*b, #[trigger] self.claims@[k]) is Some
                        && w.value_of(*b, self.claims@[k])->0 < 256,
                forall|v: u64| v < 256 ==> #[trigger] self.multiplicities@[v as int]
                    == count_value(*b, w.values@, self.claims@.take(i as int), v),
            decreases self.claims@.len() - i,
        {
            let t = self.claims[i];
            let val = match w.get_target(b, t) {
                Some(val) => val,
                None => {
                    return Err(WitnessError::ByteValueOutOfRange);
                },
            };
            if val > 255 {
                return Err(WitnessError::ByteValueOutOfRange);
            }
            let cur = self.multiplicities[val as usize];
            proof {
                assert(cur == count_value(*b, w.values@, self.claims@.take(i as int), val));
                lemma_count_value_bound(*b, w.values@, self.claims@.take(i as int));
                assert(cur < u64::MAX);
            }
            self.multiplicities.set(val as usize, cur + 1);
            proof {
                let ghost pre = self.claims@.take(i as int);
                assert(self.claims@.take(i as int + 1) =~= pre.push(t));
                assert forall|v: u64| v < 256
                    implies #[trigger] self.multiplicities@[v as int]
                        == count_value(*b, w.values@, self.claims@.take(i as int + 1), v) by {
                    lemma_count_value_push(*b, w.values@, pre, t, v);
                }
            }
            i = i + 1;
        }
        proof {
            assert(self.claims@.take(self.claims@.len() as int) =~= self.claims@);
        }
        Ok(())
    }
}

/// A count over a claim list never exceeds its length.
pub proof fn lemma_count_value_bound(b: CircuitBuilder, vals: Seq<Option<u64>>, claims: Seq<Target>)
    ensures
        forall|v: u64| 0 <= #[trigger] count_value(b, vals, claims, v) <= claims.len(),
    decreases claims.len(),
{
    if claims.len() > 0 {
        lemma_count_value_bound(b, vals, claims.drop_first());
    }
    assert forall|v: u64| 0 <= #[trigger] count_value(b, vals, claims, v) <= claims.len() by {
        if claims.len() > 0 {
            assert(0 <= count_value(b, vals, claims.drop_first(), v) <= claims.len() - 1);
        }
    }
}

} // verus!
