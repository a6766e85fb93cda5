//! The witness generator scheduler: fixed-point dependency resolution.  The
//! assignment is seeded with the circuit's constants and the caller's initial
//! values; then, pass after pass, every generator whose dependencies are all
//! assigned runs once and its writes are merged under the conflict check.
//! The run stops when a pass makes no progress: success if every generator
//! ran, an unsatisfiable-dependencies error otherwise.
//!
//! The whole run is specified by a functional model, so one circuit and one
//! set of initial values determine the outcome exactly.

use vstd::prelude::*;
use vstd::arithmetic::power::pow;
use crate::blake2b::hint_output_vals;
use crate::blake2b::hint_digest_values;
use crate::builder::{CircuitBuilder, Target};
use crate::digits::{nth_digit, split_digits};
use crate::errors::WitnessError;
use crate::generator::Generator;
use crate::witness::{set_model, PartialWitness};

verus! {

/// Folds a list of writes into the assignment, stopping at the first
/// conflict.  Also used for seeding constants and initial values.
pub open spec fn seed_model(
    b: CircuitBuilder,
    vals: Seq<Option<u64>>,
    entries: Seq<(Target, u64)>,
) -> Result<Seq<Option<u64>>, WitnessError>
    decreases entries.len(),
{
    if entries.len() == 0 {
        Ok(vals)
    } else {
        match set_model(vals, b.resolved(entries[0].0), entries[0].1) {
            Ok(v2) => seed_model(b, v2, entries.drop_first()),
            Err(e) => Err(e),
        }
    }
}

/// All of a generator's dependency cells are assigned.
pub open spec fn deps_ready(b: CircuitBuilder, vals: Seq<Option<u64>>, g: Generator) -> bool {
    forall|i: int| 0 <= i < g.deps_spec().len()
        ==> vals[b.resolved(#[trigger] g.deps_spec()[i])] is Some
}

/// What a generator writes, as a function of the assignment it reads.
pub open spec fn gen_outputs(b: CircuitBuilder, vals: Seq<Option<u64>>, g: Generator) -> Result<
    Seq<(Target, u64)>,
    WitnessError,
>
    recommends
        deps_ready(b, vals, g),
{
    match g {
        Generator::BaseSplit { sum, base, limbs } => {
            let x = vals[b.resolved(sum)]->0;
            Ok(
                Seq::new(
                    limbs.len() as nat,
                    |i: int| (limbs@[i], nth_digit(x as int, base as int, i as nat) as u64),
                ),
            )
        },
        Generator::Blake2bHint(h) => {
            let msg_vals = Seq::new(
                h.padded_message.len() as nat,
                |i: int| vals[b.resolved(h.padded_message@[i])]->0,
            );
            let mlen = vals[b.resolved(h.message_len)]->0;
            match hint_output_vals(msg_vals, mlen) {
                Ok(d) => Ok(Seq::new(32, |i: int| (h.digest_bytes@[i], d[i]))),
                Err(e) => Err(e),
            }
        },
    }
}

/// Running one generator: compute its writes and merge them.
pub open spec fn run_gen_model(b: CircuitBuilder, vals: Seq<Option<u64>>, g: Generator) -> Result<
    Seq<Option<u64>>,
    WitnessError,
> {
    match gen_outputs(b, vals, g) {
        Ok(outs) => seed_model(b, vals, outs),
        Err(e) => Err(e),
    }
}

/// One scheduler pass from generator `j` on: runs every not-yet-run
/// generator whose dependencies are assigned, left to right, and reports
/// whether any ran.
pub open spec fn pass_model(
    b: CircuitBuilder,
    vals: Seq<Option<u64>>,
    ran: Seq<bool>,
    j: int,
) -> Result<(Seq<Option<u64>>, Seq<bool>, bool), WitnessError>
    recommends
        ran.len() == b.generators.len(),
        0 <= j <= ran.len(),
    decreases ran.len() - j,
{
    if j < 0 || j >= ran.len() || ran.len() != b.generators.len() {
        Ok((vals, ran, false))
    } else if !ran[j] && deps_ready(b, vals, b.generators@[j]) {
        match run_gen_model(b, vals, b.generators@[j]) {
            Ok(v2) => match pass_model(b, v2, ran.update(j, true), j + 1) {
                Ok((vf, rf, _)) => Ok((vf, rf, true)),
                Err(e) => Err(e),
            },
            Err(e) => Err(e),
        }
    } else {
        pass_model(b, vals, ran, j + 1)
    }
}

/// How many generators have not run yet.
pub open spec fn count_unran(ran: Seq<bool>) -> int
    decreases ran.len(),
{
    if ran.len() == 0 {
        0
    } else {
        (if ran[0] {
            0int
        } else {
            1int
        }) + count_unran(ran.drop_first())
    }
}

/// The fixed point: repeat passes while progress is made.  With fuel at
/// least the number of generators the fuel never runs out.
pub open spec fn fix_model(
    b: CircuitBuilder,
    vals: Seq<Option<u64>>,
    ran: Seq<bool>,
    fuel: nat,
) -> Result<Seq<Option<u64>>, WitnessError>
    decreases fuel,
{
    match pass_model(b, vals, ran, 0) {
        Err(e) => Err(e),
        Ok((v2, r2, progress)) => if !progress {
            if count_unran(r2) == 0 {
                Ok(v2)
            } else {
                Err(WitnessError::UnsatisfiableDependencies)
            }
        } else if fuel == 0 {
            Err(WitnessError::UnsatisfiableDependencies)
        } else {
            fix_model(b, v2, r2, (fuel - 1) as nat)
        },
    }
}

/// The whole scheduler as a function of the circuit and the initial values.
pub open spec fn scheduler_model(b: CircuitBuilder, init: Seq<(Target, u64)>) -> Result<
    Seq<Option<u64>>,
    WitnessError,
> {
    let empty = Seq::new(b.num_cells() as nat, |i: int| Option::<u64>::None);
    match seed_model(b, empty, b.constants@) {
        Err(e) => Err(e),
        Ok(v1) => match seed_model(b, v1, init) {
            Err(e) => Err(e),
            Ok(v2) => fix_model(
                b,
                v2,
                Seq::new(b.generators@.len() as nat, |i: int| false),
                b.generators@.len() as nat,
            ),
        },
    }
}

/// A generator's dependency cells are all allocated.
pub proof fn lemma_deps_in_bounds(g: Generator, b: CircuitBuilder)
    requires
        g.wf(b),
    ensures
        forall|i: int| 0 <= i < g.deps_spec().len()
            ==> b.target_in_bounds(#[trigger] g.deps_spec()[i]),
{
    match g {
        Generator::BaseSplit { sum, .. } => {},
        Generator::Blake2bHint(h) => {
            assert forall|i: int| 0 <= i < g.deps_spec().len()
                implies b.target_in_bounds(#[trigger] g.deps_spec()[i]) by {
                if i < h.padded_message@.len() {
                    assert(b.target_in_bounds(h.padded_message@[i]));
                }
            }
        },
    }
}

/// A generator's output cells are all allocated.
pub proof fn lemma_outputs_in_bounds(
    g: Generator,
    b: CircuitBuilder,
    vals: Seq<Option<u64>>,
    outs: Seq<(Target, u64)>,
)
    requires
        g.wf(b),
        gen_outputs(b, vals, g) == Ok::<Seq<(Target, u64)>, WitnessError>(outs),
    ensures
        forall|i: int| 0 <= i < outs.len() ==> b.target_in_bounds(#[trigger] outs[i].0),
{
    match g {
        Generator::BaseSplit { sum, base, limbs } => {
            assert forall|i: int| 0 <= i < outs.len()
                implies b.target_in_bounds(#[trigger] outs[i].0) by {
                assert(outs[i].0 == limbs@[i]);
            }
        },
        Generator::Blake2bHint(h) => {
            assert forall|i: int| 0 <= i < outs.len()
                implies b.target_in_bounds(#[trigger] outs[i].0) by {
                assert(outs[i].0 == h.digest_bytes@[i]);
            }
        },
    }
}

/// Marking one more generator as run lowers the count by one.
pub proof fn lemma_count_unran_update(ran: Seq<bool>, j: int)
    requires
        0 <= j < ran.len(),
        !ran[j],
    ensures
        count_unran(ran.update(j, true)) == count_unran(ran) - 1,
    decreases ran.len(),
{
    if j == 0 {
        assert(ran.update(0, true).drop_first() =~= ran.drop_first());
    } else {
        lemma_count_unran_update(ran.drop_first(), j - 1);
        assert(ran.update(j, true).drop_first() =~= ran.drop_first().update(j - 1, true));
    }
}

/// The count never goes below zero.
pub proof fn lemma_count_unran_nonneg(ran: Seq<bool>)
    ensures
        0 <= count_unran(ran) <= ran.len(),
    decreases ran.len(),
{
    if ran.len() > 0 {
        lemma_count_unran_nonneg(ran.drop_first());
    }
}

/// A pass leaves the run set at least as large, and strictly larger exactly
/// when it reports progress.
pub proof fn lemma_pass_model_count(
    b: CircuitBuilder,
    vals: Seq<Option<u64>>,
    ran: Seq<bool>,
    j: int,
)
    requires
        ran.len() == b.generators.len(),
        0 <= j <= ran.len(),
    ensures
        match pass_model(b, vals, ran, j) {
            Ok((vf, rf, p)) => rf.len() == ran.len() && count_unran(rf) <= count_unran(ran)
                && (p ==> count_unran(rf) < count_unran(ran)),
            Err(e) => true,
        },
    decreases ran.len() - j,
{
    if j < ran.len() {
        if !ran[j] && deps_ready(b, vals, b.generators@[j]) {
            match run_gen_model(b, vals, b.generators@[j]) {
                Ok(v2) => {
                    lemma_count_unran_update(ran, j);
                    lemma_pass_model_count(b, v2, ran.update(j, true), j + 1);
                },
                Err(e) => {},
            }
        } else {
            lemma_pass_model_count(b, vals, ran, j + 1);
        }
    }
}

/// Executable dependency check, mirroring `deps_ready`.
pub fn check_ready(b: &CircuitBuilder, w: &PartialWitness, g: &Generator) -> (r: bool)
    requires
        b.wf(),
        g.wf(*b),
        w.compat(*b),
    ensures
        r == deps_ready(*b, w.values@, *g),
{
    proof {
        lemma_deps_in_bounds(*g, *b);
    }
    let deps = g.dependencies();
    let mut i: usize = 0;
    while i < deps.len()
        invariant
            i <= deps@.len(),
            b.wf(),
            g.wf(*b),
            w.compat(*b),
            deps@ == g.deps_spec(),
            forall|k: int| 0 <= k < deps@.len()
                ==> b.target_in_bounds(#[trigger] g.deps_spec()[k]),
            forall|k: int| 0 <= k < i
                ==> w.values@[b.resolved(#[trigger] g.deps_spec()[k])] is Some,
        decreases deps@.len() - i,
    {
        let v = w.get_target(b, deps[i]);
        if v.is_none() {
            return false;
        }
        i = i + 1;
    }
    true
}

/// Runs one generator over the assignment and returns its writes.
pub fn run_generator(b: &CircuitBuilder, w: &PartialWitness, g: &Generator) -> (r: Result<
    Vec<(Target, u64)>,
    WitnessError,
>)
    requires
        b.wf(),
        g.wf(*b),
        w.compat(*b),
        deps_ready(*b, w.values@, *g),
    ensures
        match r {
            Ok(outs) => gen_outputs(*b, w.values@, *g)
                == Ok::<Seq<(Target, u64)>, WitnessError>(outs@),
            Err(e) => gen_outputs(*b, w.values@, *g) == Err::<Seq<(Target, u64)>, WitnessError>(e),
        },
{
    proof {
        lemma_deps_in_bounds(*g, *b);
    }
    match g {
        Generator::BaseSplit { sum, base, limbs } => {
            proof {
                assert(g.deps_spec()[0] == *sum);
                assert(w.values@[b.resolved(*sum)] is Some);
            }
            let x = w.get_target(b, *sum).unwrap();
            proof {
                crate::digits::lemma_pow2_le_pow(*base as int, limbs@.len() as nat);
                vstd::arithmetic::power2::lemma2_to64();
                vstd::arithmetic::power2::lemma2_to64_rest();
                assert(vstd::arithmetic::power2::pow2(64)
                    <= pow(*base as int, limbs@.len() as nat)) by {
                    assert(pow(*base as int, limbs@.len() as nat) > u64::MAX);
                }
            }
            let digits = split_digits(x, *base, limbs.len());
            let mut outs: Vec<(Target, u64)> = Vec::new();
            let mut i: usize = 0;
            while i < limbs.len()
                invariant
                    i <= limbs@.len(),
                    digits@.len() == limbs@.len(),
                    outs@.len() == i,
                    forall|k: int| 0 <= k < i
                        ==> #[trigger] outs@[k] == (limbs@[k], digits@[k]),
                decreases limbs@.len() - i,
            {
                outs.push((limbs[i], digits[i]));
                i = i + 1;
            }
            proof {
                let expected = Seq::new(
                    limbs@.len() as nat,
                    |k: int| (limbs@[k], nth_digit(x as int, *base as int, k as nat) as u64),
                );
                assert forall|k: int| 0 <= k < outs@.len()
                    implies outs@[k] == expected[k] by {
                    assert(digits@[k] == nth_digit(x as int, *base as int, k as nat));
                }
                assert(outs@ =~= expected);
            }
            Ok(outs)
        },
        Generator::Blake2bHint(h) => {
            let mut msg_vals: Vec<u64> = Vec::new();
            let mut i: usize = 0;
            while i < h.padded_message.len()
                invariant
                    i <= h.padded_message@.len(),
                    b.wf(),
                    w.compat(*b),
                    g == Generator::Blake2bHint(*h),
                    g.wf(*b),
                    deps_ready(*b, w.values@, *g),
                    forall|k: int| 0 <= k < g.deps_spec().len()
                        ==> b.target_in_bounds(#[trigger] g.deps_spec()[k]),
                    msg_vals@.len() == i,
                    forall|k: int| 0 <= k < i ==> #[trigger] msg_vals@[k]
                        == w.values@[b.resolved(h.padded_message@[k])]->0,
                decreases h.padded_message@.len() - i,
            {
                proof {
                    assert(g.deps_spec()[i as int] == h.padded_message@[i as int]);
                }
                let v = w.get_target(b, h.padded_message[i]).unwrap();
                msg_vals.push(v);
                i = i + 1;
            }
            proof {
                assert(g.deps_spec()[h.padded_message@.len() as int] == h.message_len);
            }
            let mlen = w.get_target(b, h.message_len).unwrap();
            proof {
                assert(msg_vals@ =~= Seq::new(
                    h.padded_message.len() as nat,
                    |k: int| w.values@[b.resolved(h.padded_message@[k])]->0,
                ));
            }
            match hint_digest_values(&msg_vals, mlen) {
                Ok(d) => {
                    let mut outs: Vec<(Target, u64)> = Vec::new();
                    let mut k: usize = 0;
                    while k < 32
                        invariant
                            k <= 32,
                            d@.len() == 32,
                            h.digest_bytes@.len() == 32,
                            outs@.len() == k,
                            forall|m: int| 0 <= m < k
                                ==> #[trigger] outs@[m] == (h.digest_bytes@[m], d@[m]),
                        decreases 32 - k,
                    {
                        outs.push((h.digest_bytes[k], d[k]));
                        k = k + 1;
                    }
                    proof {
                        assert(outs@ =~= Seq::new(32, |m: int| (h.digest_bytes@[m], d@[m])));
                    }
                    Ok(outs)
                },
                Err(e) => Err(e),
            }
        },
    }
}

/// Merges a list of writes into the assignment, mirroring `seed_model`.
pub fn apply_writes(b: &CircuitBuilder, w: &mut PartialWitness, entries: &Vec<(Target, u64)>)
    -> (r: Result<(), WitnessError>)
    requires
        b.wf(),
        old(w).compat(*b),
        forall|i: int| 0 <= i < entries@.len()
            ==> b.target_in_bounds(#[trigger] entries@[i].0),
    ensures
        final(w).compat(*b),
        match r {
            Ok(()) => seed_model(*b, old(w).values@, entries@)
                == Ok::<Seq<Option<u64>>, WitnessError>(final(w).values@),
            Err(e) => seed_model(*b, old(w).values@, entries@)
                == Err::<Seq<Option<u64>>, WitnessError>(e),
        },
{
    proof {
        assert(entries@.skip(0) =~= entries@);
    }
    let mut i: usize = 0;
    while i < entries.len()
        invariant
            i <= entries@.len(),
            b.wf(),
            w.compat(*b),
            forall|k: int| 0 <= k < entries@.len()
                ==> b.target_in_bounds(#[trigger] entries@[k].0),
            seed_model(*b, old(w).values@, entries@) == seed_model(
                *b,
                w.values@,
                entries@.skip(i as int),
            ),
        decreases entries@.len() - i,
    {
        let (t, v) = entries[i];
        proof {
            assert(entries@.skip(i as int)[0] == entries@[i as int]);
            assert(entries@.skip(i as int).drop_first() =~= entries@.skip(i as int + 1));
        }
        match w.set_target(b, t, v) {
            Ok(()) => {},
            Err(e) => {
                return Err(e);
            },
        }
        i = i + 1;
    }
    proof {
        assert(entries@.skip(entries@.len() as int) =~= Seq::<(Target, u64)>::empty());
    }
    Ok(())
}

/// Generates the witness for a circuit: seeds the constants and the given
/// initial values, then resolves the registered generators to a fixed point.
/// The result is exactly the scheduler model of the circuit and inputs, so
/// one circuit and one set of initial values determine one outcome.
#[verifier::loop_isolation(false)]
#[verifier::rlimit(50)]
pub fn generate_witness(b: &CircuitBuilder, initial: &Vec<(Target, u64)>) -> (r: Result<
    PartialWitness,
    WitnessError,
>)
    requires
        b.wf(),
        forall|i: int| 0 <= i < initial@.len()
            ==> b.target_in_bounds(#[trigger] initial@[i].0),
    ensures
        match r {
            Ok(w) => w.compat(*b) && scheduler_model(*b, initial@)
                == Ok::<Seq<Option<u64>>, WitnessError>(w.values@),
            Err(e) => scheduler_model(*b, initial@)
                == Err::<Seq<Option<u64>>, WitnessError>(e),
        },
{
    let mut w = PartialWitness::new(b);
    match apply_writes(b, &mut w, &b.constants) {
        Ok(()) => {},
        Err(e) => {
            return Err(e);
        },
    }
    match apply_writes(b, &mut w, initial) {
        Ok(()) => {},
        Err(e) => {
            return Err(e);
        },
    }
    let n = b.generators.len();
    let mut ran: Vec<bool> = Vec::new();
    let mut i: usize = 0;
    while i < n
        invariant
            i <= n,
            ran@.len() == i,
            forall|k: int| 0 <= k < i ==> !(#[trigger] ran@[k]),
        decreases n - i,
    {
        ran.push(false);
        i = i + 1;
    }
    proof {
        assert(ran@ =~= Seq::new(b.generators@.len() as nat, |k: int| false));
        lemma_count_all_false(ran@);
    }
    let mut remaining: usize = n;
    let ghost mut fuel: nat = n as nat;
    let ghost vals_seeded = w.values@;
    loop
        invariant
            b.wf(),
            w.compat(*b),
            ran@.len() == n,
            n == b.generators@.len(),
            remaining == count_unran(ran@),
            fuel >= remaining,
            fix_model(*b, vals_seeded, Seq::new(b.generators@.len() as nat, |k: int| false),
                b.generators@.len() as nat)
                == fix_model(*b, w.values@, ran@, fuel),
        decreases remaining,
    {
        let ghost vals_pass = w.values@;
        let ghost ran_pass = ran@;
        let mut made_progress = false;
        let mut j: usize = 0;
        while j < n
            invariant
                b.wf(),
                w.compat(*b),
                ran@.len() == n,
                n == b.generators@.len(),
                j <= n,
                remaining == count_unran(ran@),
                pass_compose(pass_model(*b, w.values@, ran@, j as int), made_progress)
                    == pass_model(*b, vals_pass, ran_pass, 0),
            decreases n - j,
        {
            let not_ran = !ran[j];
            let ready = if not_ran {
                let g = &b.generators[j];
                check_ready(b, &w, g)
            } else {
                false
            };
            if not_ran && ready {
                let ghost ran_before = ran@;
                let outs = match run_generator(b, &w, &b.generators[j]) {
                    Ok(outs) => outs,
                    Err(e) => {
                        proof {
                            assert(pass_model(*b, w.values@, ran@, j as int)
                                == Err::<(Seq<Option<u64>>, Seq<bool>, bool), WitnessError>(e));
                        }
                        return Err(e);
                    },
                };
                proof {
                    lemma_outputs_in_bounds(b.generators@[j as int], *b, w.values@, outs@);
                }
                let ghost vals_before = w.values@;
                match apply_writes(b, &mut w, &outs) {
                    Ok(()) => {},
                    Err(e) => {
                        proof {
                            assert(run_gen_model(*b, vals_before, b.generators@[j as int])
                                == Err::<Seq<Option<u64>>, WitnessError>(e));
                            assert(pass_model(*b, vals_before, ran@, j as int)
                                == Err::<(Seq<Option<u64>>, Seq<bool>, bool), WitnessError>(e));
                        }
                        return Err(e);
                    },
                }
                ran.set(j, true);
                proof {
                    assert(ran@ == ran_before.update(j as int, true));
                    lemma_count_unran_update(ran_before, j as int);
                    lemma_count_unran_nonneg(ran@);
                    assert(run_gen_model(*b, vals_before, b.generators@[j as int])
                        == Ok::<Seq<Option<u64>>, WitnessError>(w.values@));
                    assert(pass_model(*b, vals_before, ran_before, j as int)
                        == pass_compose(pass_model(*b, w.values@, ran@, j as int + 1), true));
                }
                remaining = remaining - 1;
                made_progress = true;
            }
            j = j + 1;
        }
        proof {
            assert(pass_model(*b, w.values@, ran@, n as int)
                == Ok::<(Seq<Option<u64>>, Seq<bool>, bool), WitnessError>((w.values@, ran@, false)));
            assert(pass_model(*b, vals_pass, ran_pass, 0)
                == Ok::<(Seq<Option<u64>>, Seq<bool>, bool), WitnessError>(
                    (w.values@, ran@, made_progress)));
            lemma_pass_model_count(*b, vals_pass, ran_pass, 0);
            lemma_count_unran_nonneg(ran@);
        }
        if !made_progress {
            if remaining == 0 {
                return Ok(w);
            } else {
                return Err(WitnessError::UnsatisfiableDependencies);
            }
        }
        proof {
            fuel = (fuel - 1) as nat;
        }
    }
}

/// Composes a pass result with progress already made earlier in the pass.
pub open spec fn pass_compose(
    r: Result<(Seq<Option<u64>>, Seq<bool>, bool), WitnessError>,
    made: bool,
) -> Result<(Seq<Option<u64>>, Seq<bool>, bool), WitnessError> {
    match r {
        Ok((v, rn, p)) => Ok((v, rn, p || made)),
        Err(e) => Err(e),
    }
}

/// An all-false run set has every generator unrun.
pub proof fn lemma_count_all_false(ran: Seq<bool>)
    requires
        forall|k: int| 0 <= k < ran.len() ==> !(#[trigger] ran[k]),
    ensures
        count_unran(ran) == ran.len(),
    decreases ran.len(),
{
    if ran.len() > 0 {
        lemma_count_all_false(ran.drop_first());
    }
}

/// Scheduler determinism: the outcome is a function of the circuit and the
/// initial values alone, so two runs over the same registered generators and
/// inputs produce identical assignments.
pub proof fn lemma_scheduler_deterministic(
    b1: CircuitBuilder,
    b2: CircuitBuilder,
    init1: Seq<(Target, u64)>,
    init2: Seq<(Target, u64)>,
)
    requires
        b1 == b2,
        init1 == init2,
    ensures
        scheduler_model(b1, init1) == scheduler_model(b2, init2),
{
}

/// Batching isolation, value half: a generator reads nothing but its
/// declared dependency cells, so what it writes — for the hash hint, a
/// message's digest — does not change when any other cell of the batch
/// changes.
pub proof fn lemma_generator_reads_only_dependencies(
    b: CircuitBuilder,
    v1: Seq<Option<u64>>,
    v2: Seq<Option<u64>>,
    g: Generator,
)
    requires
        forall|i: int| 0 <= i < g.deps_spec().len()
            ==> v1[b.resolved(#[trigger] g.deps_spec()[i])]
                == v2[b.resolved(g.deps_spec()[i])],
    ensures
        gen_outputs(b, v1, g) == gen_outputs(b, v2, g),
{
    match g {
        Generator::BaseSplit { sum, base, limbs } => {
            assert(g.deps_spec()[0] == sum);
            assert(v1[b.resolved(sum)] == v2[b.resolved(sum)]);
        },
        Generator::Blake2bHint(h) => {
            let m1 = Seq::new(
                h.padded_message.len() as nat,
                |i: int| v1[b.resolved(h.padded_message@[i])]->0,
            );
            let m2 = Seq::new(
                h.padded_message.len() as nat,
                |i: int| v2[b.resolved(h.padded_message@[i])]->0,
            );
            assert forall|i: int| 0 <= i < m1.len() implies m1[i] == m2[i] by {
                assert(g.deps_spec()[i] == h.padded_message@[i]);
            }
            assert(m1 =~= m2);
            assert(g.deps_spec()[h.padded_message@.len() as int] == h.message_len);
            assert(v1[b.resolved(h.message_len)] == v2[b.resolved(h.message_len)]);
        },
    }
}

/// A pass that makes no progress changes nothing, and leaves no runnable
/// generator behind: every generator not yet run has some dependency cell
/// still unassigned.
pub proof fn lemma_pass_no_progress(
    b: CircuitBuilder,
    vals: Seq<Option<u64>>,
    ran: Seq<bool>,
    j: int,
)
    requires
        ran.len() == b.generators.len(),
        0 <= j <= ran.len(),
        pass_model(b, vals, ran, j) matches Ok((v2, r2, progress)) && !progress,
    ensures
        pass_model(b, vals, ran, j)
            == Ok::<(Seq<Option<u64>>, Seq<bool>, bool), WitnessError>((vals, ran, false)),
        forall|k: int| j <= k < ran.len() && !ran[k]
            ==> !deps_ready(b, vals, #[trigger] b.generators@[k]),
    decreases ran.len() - j,
{
    if j < ran.len() {
        if !ran[j] && deps_ready(b, vals, b.generators@[j]) {
            // this branch always reports progress or an error
            match run_gen_model(b, vals, b.generators@[j]) {
                Ok(v2) => {
                    assert(pass_model(b, vals, ran, j) matches Ok((_, _, p)) && p);
                },
                Err(e) => {},
            }
            assert(false);
        } else {
            lemma_pass_no_progress(b, vals, ran, j + 1);
        }
    }
}

/// Seeding fails only with an assignment conflict.
pub proof fn lemma_seed_err_is_conflict(
    b: CircuitBuilder,
    vals: Seq<Option<u64>>,
    entries: Seq<(Target, u64)>,
)
    ensures
        seed_model(b, vals, entries) matches Err(e)
            ==> e == WitnessError::AssignmentConflict,
    decreases entries.len(),
{
    if entries.len() > 0 {
        match set_model(vals, b.resolved(entries[0].0), entries[0].1) {
            Ok(v2) => {
                lemma_seed_err_is_conflict(b, v2, entries.drop_first());
            },
            Err(e) => {},
        }
    }
}

/// A pass fails only with a conflict or a byte-range violation, never with
/// the unsatisfiable-dependencies verdict, which only the fixed point's
/// no-progress rule issues.
pub proof fn lemma_pass_err_not_unsat(
    b: CircuitBuilder,
    vals: Seq<Option<u64>>,
    ran: Seq<bool>,
    j: int,
)
    requires
        ran.len() == b.generators.len(),
        0 <= j <= ran.len(),
    ensures
        pass_model(b, vals, ran, j) matches Err(e)
            ==> e != WitnessError::UnsatisfiableDependencies,
    decreases ran.len() - j,
{
    if j < ran.len() {
        if !ran[j] && deps_ready(b, vals, b.generators@[j]) {
            match gen_outputs(b, vals, b.generators@[j]) {
                Ok(outs) => {
                    lemma_seed_err_is_conflict(b, vals, outs);
                    match seed_model(b, vals, outs) {
                        Ok(v2) => {
                            lemma_pass_err_not_unsat(b, v2, ran.update(j, true), j + 1);
                        },
                        Err(e) => {},
                    }
                },
                Err(e) => {},
            }
        } else {
            lemma_pass_err_not_unsat(b, vals, ran, j + 1);
        }
    }
}

/// A state where some generators never ran and every one of them still has
/// an unassigned dependency cell: the only state from which the scheduler
/// reports unsatisfiable dependencies.
pub open spec fn stuck_state(
    b: CircuitBuilder,
    vals: Seq<Option<u64>>,
    ran: Seq<bool>,
) -> bool {
    &&& ran.len() == b.generators.len()
    &&& count_unran(ran) > 0
    &&& forall|k: int| 0 <= k < ran.len() && !ran[k]
        ==> !deps_ready(b, vals, #[trigger] b.generators@[k])
}

/// Scheduler completeness, stated over the model: the
/// unsatisfiable-dependencies outcome arises only from a genuinely stuck
/// state.  Contrapositively, as long as some unrun generator has all of its
/// dependencies assigned — as on a dependency graph with no cycles among
/// generators whose inputs trace back to seeded cells — the fixed point
/// keeps running generators and never stops early.
#[verifier::rlimit(100)]
pub proof fn lemma_unsat_only_when_stuck(
    b: CircuitBuilder,
    vals: Seq<Option<u64>>,
    ran: Seq<bool>,
    fuel: nat,
)
    requires
        ran.len() == b.generators.len(),
        fuel >= count_unran(ran),
        fix_model(b, vals, ran, fuel)
            == Err::<Seq<Option<u64>>, WitnessError>(WitnessError::UnsatisfiableDependencies),
    ensures
        exists|sv: Seq<Option<u64>>, sr: Seq<bool>| #[trigger] stuck_state(b, sv, sr),
    decreases fuel,
{
    lemma_count_unran_nonneg(ran);
    lemma_pass_err_not_unsat(b, vals, ran, 0);
    match pass_model(b, vals, ran, 0) {
        Err(e) => {
            assert(false);
        },
        Ok((v2, r2, progress)) => {
            if !progress {
                lemma_pass_no_progress(b, vals, ran, 0);
                assert(count_unran(ran) > 0);
                assert(stuck_state(b, vals, ran));
            } else {
                lemma_pass_model_count(b, vals, ran, 0);
                lemma_count_unran_nonneg(r2);
                assert(count_unran(ran) >= 1);
                assert(fuel > 0);
                lemma_unsat_only_when_stuck(b, v2, r2, (fuel - 1) as nat);
            }
        },
    }
}

} // verus!
