//! Circuit assembly context: the only authority that creates gates, allocates
//! cells and declares routing.  Cells are arranged in one arena of integer
//! ids; routing two cells merges their equivalence classes in a union-find
//! forest whose parent pointers only ever point to smaller ids.

use vstd::prelude::*;
use vstd::arithmetic::power::pow;
use vstd::arithmetic::power2::pow2;
use crate::digits::num_limbs_to_check;
use crate::errors::CircuitError;
use crate::generator::Generator;

verus! {

/// A cell bound to one input slot of one gate.
#[derive(Clone, Copy, PartialEq, Eq, Structural, Debug)]
pub struct Wire {
    pub gate: usize,
    pub input: usize,
}

/// A symbolic reference to one value of the circuit: either a gate's wire or
/// a virtual (not yet routed) placeholder.
#[derive(Clone, Copy, PartialEq, Eq, Structural, Debug)]
pub enum Target {
    Wire(Wire),
    Virtual(usize),
}

/// Static configuration of the cell arena: wire slots available per gate row
/// and how many of them can take part in routing.
#[derive(Clone, Copy, PartialEq, Eq, Structural, Debug)]
pub struct CircuitConfig {
    pub num_wires: usize,
    pub num_routed_wires: usize,
}

/// Every parent pointer goes to an id no larger than its own.
pub open spec fn parent_ok(p: Seq<usize>) -> bool {
    forall|i: int| 0 <= i < p.len() ==> #[trigger] p[i] <= i
}

/// Representative of the equivalence class of cell `i` in the union-find
/// forest `p`.
pub open spec fn rep(p: Seq<usize>, i: int) -> int
    decreases i
        when 0 <= i < p.len() && parent_ok(p)
{
    if 0 <= i < p.len() && p[i] < i {
        rep(p, p[i] as int)
    } else {
        i
    }
}

/// A representative is a root and never larger than the cell it represents.
pub proof fn lemma_rep_is_root(p: Seq<usize>, i: int)
    requires
        parent_ok(p),
        0 <= i < p.len(),
    ensures
        0 <= rep(p, i) <= i,
        p[rep(p, i)] == rep(p, i),
    decreases i,
{
    if p[i] < i {
        lemma_rep_is_root(p, p[i] as int);
    }
}

/// Effect of one union on every representative: pointing the root `ra` at
/// the smaller root `rb` renames `ra` to `rb` and changes nothing else.
pub proof fn lemma_rep_after_union(p: Seq<usize>, ra: int, rb: int, i: int)
    requires
        parent_ok(p),
        0 <= rb < ra < p.len(),
        p[ra] == ra,
        p[rb] == rb,
        0 <= i < p.len(),
    ensures
        parent_ok(p.update(ra, rb as usize)),
        rep(p.update(ra, rb as usize), i) == if rep(p, i) == ra {
            rb
        } else {
            rep(p, i)
        },
    decreases i,
{
    let p2 = p.update(ra, rb as usize);
    assert(parent_ok(p2)) by {
        assert(forall|j: int| 0 <= j < p2.len() && j != ra ==> #[trigger] p2[j] == p[j]);
    }
    if i == ra {
        lemma_rep_after_union(p, ra, rb, rb);
        assert(rep(p2, ra) == rep(p2, rb));
    } else {
        if p[i] < i {
            lemma_rep_after_union(p, ra, rb, p[i] as int);
            assert(rep(p2, i) == rep(p2, p2[i] as int));
        } else {
            assert(rep(p2, i) == i && rep(p, i) == i);
        }
    }
}

/// Holds when a zero constant is routed together with the given limb wire
/// of the given gate.
pub open spec fn zero_routed(b: CircuitBuilder, gate: int, limb: int) -> bool {
    exists|ci: int|
        0 <= ci < b.constants@.len() && (#[trigger] b.constants@[ci]).1 == 0
            && b.resolved(b.constants@[ci].0) == b.resolved(
            Target::Wire(Wire { gate: gate as usize, input: (1 + limb) as usize }),
        )
}

/// The circuit assembly context.
pub struct CircuitBuilder {
    pub config: CircuitConfig,
    /// Wire slots of each gate.
    pub gate_arity: Vec<usize>,
    /// First cell id of each gate.
    pub gate_start: Vec<usize>,
    /// Cell id of each virtual target.
    pub virtual_ids: Vec<usize>,
    /// Union-find forest over cell ids.
    pub parent: Vec<usize>,
    /// Externally fixed cell values, seeded into every assignment.
    pub constants: Vec<(Target, u64)>,
    /// Registered witness generators, in registration order.
    pub generators: Vec<Generator>,
}

impl CircuitBuilder {
    /// Number of cells allocated so far.
    pub open spec fn num_cells(self) -> int {
        self.parent.len() as int
    }

    /// Whether a target refers to an allocated cell.
    pub open spec fn target_in_bounds(self, t: Target) -> bool {
        match t {
            Target::Wire(w) => w.gate < self.gate_arity.len()
                && w.input < self.gate_arity[w.gate as int],
            Target::Virtual(v) => v < self.virtual_ids.len(),
        }
    }

    /// The arena id of a target's cell.
    pub open spec fn cell_id(self, t: Target) -> int {
        match t {
            Target::Wire(w) => self.gate_start[w.gate as int] + w.input,
            Target::Virtual(v) => self.virtual_ids[v as int] as int,
        }
    }

    /// Representative cell id of a target under the current routing.
    pub open spec fn resolved(self, t: Target) -> int {
        rep(self.parent@, self.cell_id(t))
    }

    /// Well-formedness of the whole context.
    pub open spec fn wf(self) -> bool {
        &&& parent_ok(self.parent@)
        &&& self.gate_start.len() == self.gate_arity.len()
        &&& forall|g: int| 0 <= g < self.gate_arity.len()
            ==> #[trigger] self.gate_start[g] + self.gate_arity[g] <= self.num_cells()
        &&& forall|v: int| 0 <= v < self.virtual_ids.len()
            ==> #[trigger] self.virtual_ids[v] < self.num_cells()
        &&& forall|i: int| 0 <= i < self.constants.len()
            ==> self.target_in_bounds(#[trigger] self.constants[i].0)
        &&& forall|i: int| 0 <= i < self.generators.len()
            ==> (#[trigger] self.generators[i]).wf(self)
    }

    /// A well-formed target's cell id is inside the arena.
    pub proof fn lemma_cell_id_in_bounds(self, t: Target)
        requires
            self.wf(),
            self.target_in_bounds(t),
        ensures
            0 <= self.cell_id(t) < self.num_cells(),
    {
    }

    /// Fresh context with no gates, cells, constants or generators.
    pub fn new(config: CircuitConfig) -> (r: CircuitBuilder)
        ensures
            r.wf(),
            r.config == config,
            r.gate_arity@.len() == 0,
            r.virtual_ids@.len() == 0,
            r.parent@.len() == 0,
            r.constants@.len() == 0,
            r.generators@.len() == 0,
    {
        CircuitBuilder {
            config,
            gate_arity: Vec::new(),
            gate_start: Vec::new(),
            virtual_ids: Vec::new(),
            parent: Vec::new(),
            constants: Vec::new(),
            generators: Vec::new(),
        }
    }

    /// Frame of every assembly step: the parts named here never change, and
    /// cells, gates, constants and generators only grow.
    pub open spec fn extends(self, old_b: CircuitBuilder) -> bool {
        &&& self.config == old_b.config
        &&& old_b.gate_arity@.is_prefix_of(self.gate_arity@)
        &&& old_b.gate_start@.is_prefix_of(self.gate_start@)
        &&& old_b.virtual_ids@.is_prefix_of(self.virtual_ids@)
        &&& old_b.constants@.is_prefix_of(self.constants@)
        &&& old_b.parent@.len() <= self.parent@.len()
        &&& forall|t: Target| old_b.target_in_bounds(t) ==> #[trigger] self.target_in_bounds(t)
        &&& forall|t: Target| old_b.target_in_bounds(t)
            ==> #[trigger] self.cell_id(t) == old_b.cell_id(t)
        &&& forall|a: Target, b: Target|
            #![trigger self.resolved(a), self.resolved(b)]
            old_b.target_in_bounds(a) && old_b.target_in_bounds(b)
                && old_b.resolved(a) == old_b.resolved(b)
                ==> self.resolved(a) == self.resolved(b)
    }

    /// Appends a gate with the given number of wire slots and returns its
    /// index.  Fails when the row budget is exceeded or the cell arena is
    /// full.
    pub fn add_gate(&mut self, arity: usize) -> (r: Result<usize, CircuitError>)
        requires
            old(self).wf(),
        ensures
            final(self).wf(),
            match r {
                Ok(g) => {
                    &&& arity <= old(self).config.num_wires
                    &&& old(self).parent@.len() + arity <= usize::MAX
                    &&& g == old(self).gate_arity@.len()
                    &&& final(self).gate_arity@ == old(self).gate_arity@.push(arity)
                    &&& final(self).gate_start@ == old(self).gate_start@.push(
                        old(self).parent@.len() as usize)
                    &&& final(self).parent@.len() == old(self).parent@.len() + arity
                    &&& final(self).virtual_ids@ == old(self).virtual_ids@
                    &&& final(self).constants@ == old(self).constants@
                    &&& final(self).generators@ == old(self).generators@
                    &&& final(self).extends(*old(self))
                    &&& forall|u: Target| old(self).target_in_bounds(u)
                        ==> #[trigger] final(self).resolved(u) == old(self).resolved(u)
                    &&& forall|w: usize| w < arity
                        ==> final(self).target_in_bounds(Target::Wire(Wire { gate: g, input: w }))
                            && #[trigger] final(self).resolved(Target::Wire(Wire { gate: g, input: w }))
                                == old(self).parent@.len() + w
                },
                Err(e) => {
                    &&& *final(self) == *old(self)
                    &&& (e == CircuitError::ColumnBudgetExceeded
                        <==> arity > old(self).config.num_wires)
                    &&& (e == CircuitError::ColumnBudgetExceeded
                        || e == CircuitError::CellLimitExceeded)
                    &&& (arity > old(self).config.num_wires
                        || old(self).parent@.len() + arity > usize::MAX)
                },
            },
    {
        if arity > self.config.num_wires {
            return Err(CircuitError::ColumnBudgetExceeded);
        }
        if self.parent.len() > usize::MAX - arity {
            return Err(CircuitError::CellLimitExceeded);
        }
        let g = self.gate_arity.len();
        let start = self.parent.len();
        self.gate_arity.push(arity);
        self.gate_start.push(start);
        let mut w: usize = 0;
        while w < arity
            invariant
                self.parent@.len() == start + w,
                w <= arity,
                start == old(self).parent@.len(),
                start + arity <= usize::MAX,
                g == old(self).gate_arity@.len(),
                self.gate_arity@ == old(self).gate_arity@.push(arity),
                self.gate_start@ == old(self).gate_start@.push(start),
                self.virtual_ids@ == old(self).virtual_ids@,
                self.constants@ == old(self).constants@,
                self.generators@ == old(self).generators@,
                self.config == old(self).config,
                forall|i: int| 0 <= i < start ==> self.parent@[i] == old(self).parent@[i],
                forall|i: int| start <= i < start + w ==> #[trigger] self.parent@[i] == i,
            decreases arity - w,
        {
            let id = self.parent.len();
            self.parent.push(id);
            w = w + 1;
        }
        proof {
            let ob = *old(self);
            assert(parent_ok(self.parent@));
            assert forall|t: Target| ob.target_in_bounds(t)
                implies #[trigger] self.target_in_bounds(t) && self.cell_id(t) == ob.cell_id(t) by {
                match t {
                    Target::Wire(ww) => {
                        assert(self.gate_arity@[ww.gate as int] == ob.gate_arity@[ww.gate as int]);
                        assert(self.gate_start@[ww.gate as int] == ob.gate_start@[ww.gate as int]);
                    },
                    Target::Virtual(v) => {},
                }
            }
            assert forall|i: int| 0 <= i < ob.parent@.len()
                implies rep(self.parent@, i) == rep(ob.parent@, i) by {
                lemma_rep_stable_under_append(ob.parent@, self.parent@, i);
            }
            assert forall|ww: int| 0 <= ww < arity
                implies #[trigger] rep(self.parent@, start + ww) == start + ww by {
            }
            assert forall|i: int| 0 <= i < self.generators@.len()
                implies (#[trigger] self.generators@[i]).wf(*self) by {
                crate::generator::lemma_generator_wf_extends(self.generators@[i], ob, *self);
            }
            assert forall|a: Target, b: Target|
                #![trigger self.resolved(a), self.resolved(b)]
                ob.target_in_bounds(a) && ob.target_in_bounds(b)
                    && ob.resolved(a) == ob.resolved(b)
                implies self.resolved(a) == self.resolved(b) by {
                ob.lemma_cell_id_in_bounds(a);
                ob.lemma_cell_id_in_bounds(b);
            }
            assert forall|u: Target| ob.target_in_bounds(u)
                implies #[trigger] self.resolved(u) == ob.resolved(u) by {
                ob.lemma_cell_id_in_bounds(u);
            }
        }
        Ok(g)
    }

    /// Allocates a fresh virtual cell.
    pub fn add_virtual_target(&mut self) -> (r: Result<Target, CircuitError>)
        requires
            old(self).wf(),
        ensures
            final(self).wf(),
            match r {
                Ok(t) => {
                    &&& old(self).parent@.len() < usize::MAX
                    &&& t == Target::Virtual(old(self).virtual_ids@.len() as usize)
                    &&& final(self).target_in_bounds(t)
                    &&& final(self).cell_id(t) == old(self).parent@.len()
                    &&& final(self).resolved(t) == old(self).parent@.len()
                    &&& final(self).parent@.len() == old(self).parent@.len() + 1
                    &&& final(self).virtual_ids@ == old(self).virtual_ids@.push(
                        old(self).parent@.len() as usize)
                    &&& final(self).gate_arity@ == old(self).gate_arity@
                    &&& final(self).gate_start@ == old(self).gate_start@
                    &&& final(self).constants@ == old(self).constants@
                    &&& final(self).generators@ == old(self).generators@
                    &&& final(self).extends(*old(self))
                    &&& forall|u: Target| old(self).target_in_bounds(u)
                        ==> #[trigger] final(self).resolved(u) == old(self).resolved(u)
                },
                Err(e) => {
                    &&& *final(self) == *old(self)
                    &&& e == CircuitError::CellLimitExceeded
                    &&& old(self).parent@.len() == usize::MAX
                },
            },
    {
        if self.parent.len() == usize::MAX {
            return Err(CircuitError::CellLimitExceeded);
        }
        let id = self.parent.len();
        self.parent.push(id);
        self.virtual_ids.push(id);
        proof {
            let ob = *old(self);
            assert(parent_ok(self.parent@));
            assert forall|i: int| 0 <= i < ob.parent@.len()
                implies rep(self.parent@, i) == rep(ob.parent@, i) by {
                lemma_rep_stable_under_append(ob.parent@, self.parent@, i);
            }
            assert(rep(self.parent@, id as int) == id);
            assert forall|i: int| 0 <= i < self.generators@.len()
                implies (#[trigger] self.generators@[i]).wf(*self) by {
                crate::generator::lemma_generator_wf_extends(self.generators@[i], ob, *self);
            }
            assert forall|a: Target, b: Target|
                #![trigger self.resolved(a), self.resolved(b)]
                ob.target_in_bounds(a) && ob.target_in_bounds(b)
                    && ob.resolved(a) == ob.resolved(b)
                implies self.resolved(a) == self.resolved(b) by {
                ob.lemma_cell_id_in_bounds(a);
                ob.lemma_cell_id_in_bounds(b);
            }
            assert forall|u: Target| ob.target_in_bounds(u)
                implies #[trigger] self.resolved(u) == ob.resolved(u) by {
                ob.lemma_cell_id_in_bounds(u);
            }
        }
        Ok(Target::Virtual(self.virtual_ids.len() - 1))
    }

    /// Representative cell id of a target, by walking the forest.
    pub fn find(&self, i: usize) -> (r: usize)
        requires
            parent_ok(self.parent@),
            i < self.parent@.len(),
        ensures
            r == rep(self.parent@, i as int),
            r < self.parent@.len(),
    {
        let mut cur = i;
        loop
            invariant
                parent_ok(self.parent@),
                cur < self.parent@.len(),
                rep(self.parent@, cur as int) == rep(self.parent@, i as int),
            decreases cur,
        {
            let p = self.parent[cur];
            if p < cur {
                cur = p;
            } else {
                proof {
                    assert(rep(self.parent@, cur as int) == cur);
                }
                return cur;
            }
        }
    }

    /// Declares that two cells must carry equal values in every assignment:
    /// merges their equivalence classes.
    pub fn route(&mut self, a: Target, b: Target)
        requires
            old(self).wf(),
            old(self).target_in_bounds(a),
            old(self).target_in_bounds(b),
        ensures
            final(self).wf(),
            final(self).gate_arity@ == old(self).gate_arity@,
            final(self).gate_start@ == old(self).gate_start@,
            final(self).virtual_ids@ == old(self).virtual_ids@,
            final(self).constants@ == old(self).constants@,
            final(self).generators@ == old(self).generators@,
            final(self).parent@.len() == old(self).parent@.len(),
            final(self).config == old(self).config,
            final(self).resolved(a) == final(self).resolved(b),
            final(self).extends(*old(self)),
            // classes only merge, and only with the routed pair
            forall|i: int| 0 <= i < final(self).parent@.len()
                ==> #[trigger] rep(final(self).parent@, i) == (
                    if rep(old(self).parent@, i)
                        == max_int(old(self).resolved(a), old(self).resolved(b)) {
                        min_int(old(self).resolved(a), old(self).resolved(b))
                    } else {
                        rep(old(self).parent@, i)
                    }),
    {
        proof {
            self.lemma_cell_id_in_bounds(a);
            self.lemma_cell_id_in_bounds(b);
        }
        let ia = self.cell_index(a);
        let ib = self.cell_index(b);
        let ra = self.find(ia);
        let rb = self.find(ib);
        proof {
            lemma_rep_is_root(self.parent@, ia as int);
            lemma_rep_is_root(self.parent@, ib as int);
        }
        if ra == rb {
            proof {
                assert forall|i: int| 0 <= i < self.parent@.len()
                    implies rep(self.parent@, i) == rep(old(self).parent@, i) by {}
            }
            return;
        }
        let (hi, lo) = if ra > rb { (ra, rb) } else { (rb, ra) };
        self.parent.set(hi, lo);
        proof {
            let ob = *old(self);
            assert(self.parent@ == ob.parent@.update(hi as int, lo));
            assert forall|i: int| 0 <= i < self.parent@.len()
                implies #[trigger] rep(self.parent@, i) == (
                    if rep(ob.parent@, i) == hi as int { lo as int } else { rep(ob.parent@, i) })
                by {
                lemma_rep_after_union(ob.parent@, hi as int, lo as int, i);
            }
            assert(parent_ok(self.parent@)) by {
                lemma_rep_after_union(ob.parent@, hi as int, lo as int, 0);
            }
            assert forall|i: int| 0 <= i < self.generators@.len()
                implies (#[trigger] self.generators@[i]).wf(*self) by {
                assert(self.generators@[i].wf(ob));
                crate::generator::lemma_generator_wf_extends(self.generators@[i], ob, *self);
            }
            assert forall|c: Target, d: Target|
                #![trigger self.resolved(c), self.resolved(d)]
                ob.target_in_bounds(c) && ob.target_in_bounds(d)
                    && ob.resolved(c) == ob.resolved(d)
                implies self.resolved(c) == self.resolved(d) by {
                ob.lemma_cell_id_in_bounds(c);
                ob.lemma_cell_id_in_bounds(d);
            }
        }
    }

    /// Exec mirror of `cell_id`.
    pub fn cell_index(&self, t: Target) -> (r: usize)
        requires
            self.wf(),
            self.target_in_bounds(t),
        ensures
            r == self.cell_id(t),
            r < self.parent@.len(),
    {
        match t {
            Target::Wire(w) => self.gate_start[w.gate] + w.input,
            Target::Virtual(v) => self.virtual_ids[v],
        }
    }

    /// Allocates a fresh cell fixed to the given constant value.
    pub fn constant(&mut self, v: u64) -> (r: Result<Target, CircuitError>)
        requires
            old(self).wf(),
        ensures
            final(self).wf(),
            match r {
                Ok(t) => {
                    &&& final(self).target_in_bounds(t)
                    &&& final(self).constants@ == old(self).constants@.push((t, v))
                    &&& final(self).gate_arity@ == old(self).gate_arity@
                    &&& final(self).gate_start@ == old(self).gate_start@
                    &&& final(self).generators@ == old(self).generators@
                    &&& final(self).parent@.len() == old(self).parent@.len() + 1
                    &&& final(self).extends(*old(self))
                    &&& final(self).resolved(t) == old(self).parent@.len()
                    &&& final(self).virtual_ids@ == old(self).virtual_ids@.push(
                        old(self).parent@.len() as usize)
                    &&& forall|u: Target| old(self).target_in_bounds(u)
                        ==> #[trigger] final(self).resolved(u) == old(self).resolved(u)
                },
                Err(e) => {
                    &&& *final(self) == *old(self)
                    &&& e == CircuitError::CellLimitExceeded
                    &&& old(self).parent@.len() == usize::MAX
                },
            },
    {
        if self.parent.len() == usize::MAX {
            return Err(CircuitError::CellLimitExceeded);
        }
        let id = self.parent.len();
        self.parent.push(id);
        self.virtual_ids.push(id);
        let t = Target::Virtual(self.virtual_ids.len() - 1);
        self.constants.push((t, v));
        proof {
            let ob = *old(self);
            assert(parent_ok(self.parent@));
            assert forall|i: int| 0 <= i < ob.parent@.len()
                implies rep(self.parent@, i) == rep(ob.parent@, i) by {
                lemma_rep_stable_under_append(ob.parent@, self.parent@, i);
            }
            assert(rep(self.parent@, id as int) == id);
            assert forall|i: int| 0 <= i < self.generators@.len()
                implies (#[trigger] self.generators@[i]).wf(*self) by {
                crate::generator::lemma_generator_wf_extends(self.generators@[i], ob, *self);
            }
            assert forall|a: Target, b: Target|
                #![trigger self.resolved(a), self.resolved(b)]
                ob.target_in_bounds(a) && ob.target_in_bounds(b)
                    && ob.resolved(a) == ob.resolved(b)
                implies self.resolved(a) == self.resolved(b) by {
                ob.lemma_cell_id_in_bounds(a);
                ob.lemma_cell_id_in_bounds(b);
            }
            assert forall|u: Target| ob.target_in_bounds(u)
                implies #[trigger] self.resolved(u) == ob.resolved(u) by {
                ob.lemma_cell_id_in_bounds(u);
            }
        }
        Ok(t)
    }

    /// Registers a generator for the witness scheduler; it does not run yet.
    pub fn register_generator(&mut self, g: Generator)
        requires
            old(self).wf(),
            g.wf(*old(self)),
        ensures
            final(self).wf(),
            final(self).generators@ == old(self).generators@.push(g),
            final(self).gate_arity@ == old(self).gate_arity@,
            final(self).gate_start@ == old(self).gate_start@,
            final(self).virtual_ids@ == old(self).virtual_ids@,
            final(self).parent@ == old(self).parent@,
            final(self).constants@ == old(self).constants@,
            final(self).config == old(self).config,
            final(self).extends(*old(self)),
    {
        self.generators.push(g);
    }
    /// Routes `a` and `b` together: an alias of `route` under the name the
    /// equality constraint is usually written with.
    pub fn assert_equal(&mut self, a: Target, b: Target)
        requires
            old(self).wf(),
            old(self).target_in_bounds(a),
            old(self).target_in_bounds(b),
        ensures
            final(self).wf(),
            final(self).extends(*old(self)),
            final(self).resolved(a) == final(self).resolved(b),
            final(self).constants@ == old(self).constants@,
            final(self).generators@ == old(self).generators@,
            final(self).gate_arity@ == old(self).gate_arity@,
            final(self).virtual_ids@ == old(self).virtual_ids@,
    {
        self.route(a, b);
    }

    /// Constrains a cell to the zero value: routes it to a fresh zero
    /// constant.  Fails exactly when the cell arena is full; the routed
    /// classes of every pre-existing cell are left untouched.
    pub fn assert_zero(&mut self, t: Target) -> (r: Result<(), CircuitError>)
        requires
            old(self).wf(),
            old(self).target_in_bounds(t),
        ensures
            final(self).wf(),
            final(self).extends(*old(self)),
            match r {
                Ok(()) => {
                    &&& old(self).parent@.len() < usize::MAX
                    &&& final(self).parent@.len() == old(self).parent@.len() + 1
                    &&& final(self).constants@.len() == old(self).constants@.len() + 1
                    &&& final(self).constants@.last().1 == 0
                    &&& final(self).resolved(final(self).constants@.last().0)
                        == final(self).resolved(t)
                    &&& final(self).resolved(t) == old(self).resolved(t)
                    &&& forall|u: Target| old(self).target_in_bounds(u)
                        ==> #[trigger] final(self).resolved(u) == old(self).resolved(u)
                    &&& final(self).generators@ == old(self).generators@
                    &&& final(self).gate_arity@ == old(self).gate_arity@
                    &&& final(self).gate_start@ == old(self).gate_start@
                },
                Err(e) => {
                    &&& e == CircuitError::CellLimitExceeded
                    &&& old(self).parent@.len() == usize::MAX
                    &&& *final(self) == *old(self)
                },
            },
    {
        let z = match self.constant(0) {
            Ok(z) => z,
            Err(e) => {
                return Err(e);
            },
        };
        let ghost st1 = *self;
        self.route(t, z);
        proof {
            let ob = *old(self);
            assert forall|u: Target| ob.target_in_bounds(u)
                implies #[trigger] self.resolved(u) == ob.resolved(u) by {
                ob.lemma_cell_id_in_bounds(u);
                st1.lemma_cell_id_in_bounds(u);
                lemma_rep_is_root(ob.parent@, ob.cell_id(u));
                lemma_rep_is_root(st1.parent@, st1.cell_id(u));
                lemma_rep_is_root(st1.parent@, st1.cell_id(t));
                assert(st1.resolved(u) == ob.resolved(u));
                assert(st1.resolved(z) == ob.parent@.len());
                assert(st1.resolved(t) == ob.resolved(t));
                assert(st1.resolved(t) <= st1.cell_id(t) < ob.parent@.len());
                assert(max_int(st1.resolved(t), st1.resolved(z)) == ob.parent@.len());
                assert(rep(self.parent@, st1.cell_id(u)) == st1.resolved(u));
            }
            lemma_rep_is_root(st1.parent@, st1.cell_id(t));
            assert(self.resolved(t) == old(self).resolved(t)) by {
                old(self).lemma_cell_id_in_bounds(t);
                assert(rep(self.parent@, st1.cell_id(t)) == st1.resolved(t));
            }
        }
        Ok(())
    }

    /// Constant cell holding zero.
    pub fn zero(&mut self) -> (r: Result<Target, CircuitError>)
        requires
            old(self).wf(),
        ensures
            final(self).wf(),
            final(self).extends(*old(self)),
            match r {
                Ok(t) => final(self).constants@ == old(self).constants@.push((t, 0))
                    && final(self).target_in_bounds(t)
                    && final(self).generators@ == old(self).generators@,
                Err(e) => e == CircuitError::CellLimitExceeded
                    && old(self).parent@.len() == usize::MAX
                    && *final(self) == *old(self),
            },
    {
        self.constant(0)
    }

    /// Constant cell holding one.
    pub fn one(&mut self) -> (r: Result<Target, CircuitError>)
        requires
            old(self).wf(),
        ensures
            final(self).wf(),
            final(self).extends(*old(self)),
            match r {
                Ok(t) => final(self).constants@ == old(self).constants@.push((t, 1))
                    && final(self).target_in_bounds(t)
                    && final(self).generators@ == old(self).generators@,
                Err(e) => e == CircuitError::CellLimitExceeded
                    && old(self).parent@.len() == usize::MAX
                    && *final(self) == *old(self),
            },
    {
        self.constant(1)
    }

    /// Constant cell holding two.
    pub fn two(&mut self) -> (r: Result<Target, CircuitError>)
        requires
            old(self).wf(),
        ensures
            final(self).wf(),
            final(self).extends(*old(self)),
            match r {
                Ok(t) => final(self).constants@ == old(self).constants@.push((t, 2))
                    && final(self).target_in_bounds(t)
                    && final(self).generators@ == old(self).generators@,
                Err(e) => e == CircuitError::CellLimitExceeded
                    && old(self).parent@.len() == usize::MAX
                    && *final(self) == *old(self),
            },
    {
        self.constant(2)
    }

    /// Splits the element in `x` into little-endian base-`B` limbs: adds
    /// exactly one base-sum gate whose sum wire is routed to `x`, registers
    /// the digit generator, and returns the limb wires.  The limb count is
    /// the least `k` with `B^k >= 2^64`, so any 64-bit value fits.  It
    /// succeeds if and only if the row budget and the arena can hold the
    /// gate; nothing else in the builder changes, and no pre-existing
    /// routed class moves.
    #[verifier::loop_isolation(false)]
    #[verifier::rlimit(100)]
    pub fn split_le_base<const B: usize>(&mut self, x: Target) -> (r: Result<
        Vec<Target>,
        CircuitError,
    >)
        requires
            old(self).wf(),
            old(self).target_in_bounds(x),
            2 <= B,
        ensures
            final(self).wf(),
            final(self).extends(*old(self)),
            r is Ok <==> (1 + crate::digits::spec_num_limbs(B as int, 64)
                <= old(self).config.num_wires
                && old(self).parent@.len() + 1 + crate::digits::spec_num_limbs(B as int, 64)
                    <= usize::MAX),
            match r {
                Ok(limbs) => {
                    &&& limbs@.len() == crate::digits::spec_num_limbs(B as int, 64)
                    &&& pow2(64) <= pow(B as int, limbs@.len() as nat)
                    &&& forall|i: int| 0 <= i < limbs@.len()
                        ==> final(self).target_in_bounds(#[trigger] limbs@[i])
                    &&& forall|i: int| 0 <= i < limbs@.len() ==> #[trigger] limbs@[i]
                        == Target::Wire(Wire {
                            gate: old(self).gate_arity@.len() as usize,
                            input: (1 + i) as usize,
                        })
                    // exactly one gate, no virtual cells, nothing else
                    &&& final(self).gate_arity@ == old(self).gate_arity@.push(
                        (1 + limbs@.len()) as usize)
                    &&& final(self).gate_start@ == old(self).gate_start@.push(
                        old(self).parent@.len() as usize)
                    &&& final(self).virtual_ids@ == old(self).virtual_ids@
                    &&& final(self).parent@.len()
                        == old(self).parent@.len() + 1 + limbs@.len()
                    &&& final(self).constants@ == old(self).constants@
                    // the sum wire joins x's class; every limb keeps its own
                    &&& final(self).resolved(x) == old(self).resolved(x)
                    &&& final(self).resolved(Target::Wire(Wire {
                        gate: old(self).gate_arity@.len() as usize,
                        input: 0,
                    })) == old(self).resolved(x)
                    &&& forall|i: int| 0 <= i < limbs@.len()
                        ==> #[trigger] final(self).resolved(limbs@[i])
                            == old(self).parent@.len() + 1 + i
                    &&& forall|u: Target| old(self).target_in_bounds(u)
                        ==> #[trigger] final(self).resolved(u) == old(self).resolved(u)
                    &&& final(self).generators@.len() == old(self).generators@.len() + 1
                    &&& (final(self).generators@.last() matches Generator::BaseSplit {
                        sum, base, limbs: l }
                        && sum == Target::Wire(Wire {
                            gate: old(self).gate_arity@.len() as usize,
                            input: 0,
                        })
                        && base == B as u64
                        && l@ == limbs@)
                },
                Err(e) => {
                    &&& *final(self) == *old(self)
                    &&& (e == CircuitError::ColumnBudgetExceeded
                        || e == CircuitError::CellLimitExceeded)
                    &&& (e == CircuitError::ColumnBudgetExceeded
                        <==> 1 + crate::digits::spec_num_limbs(B as int, 64)
                            > old(self).config.num_wires)
                    &&& (e == CircuitError::CellLimitExceeded
                        ==> old(self).parent@.len() + 1
                            + crate::digits::spec_num_limbs(B as int, 64) > usize::MAX)
                },
            },
    {
        let num_limbs = num_limbs_to_check(64, B);
        proof {
            crate::digits::lemma_pow2_le_pow(B as int, 64);
            vstd::arithmetic::power2::lemma2_to64();
            vstd::arithmetic::power2::lemma2_to64_rest();
        }
        let gate = match self.add_gate(1 + num_limbs) {
            Ok(g) => g,
            Err(e) => {
                return Err(e);
            },
        };
        let ghost st1 = *self;
        let sum = Target::Wire(Wire { gate, input: 0 });
        self.route(x, sum);
        let ghost st2 = *self;
        let ghost start = old(self).parent@.len() as int;
        let mut limbs: Vec<Target> = Vec::new();
        let mut i: usize = 0;
        while i < num_limbs
            invariant
                i <= num_limbs,
                limbs@.len() == i,
                forall|k: int| 0 <= k < i ==> #[trigger] limbs@[k]
                    == Target::Wire(Wire { gate: gate, input: (1 + k) as usize }),
            decreases num_limbs - i,
        {
            limbs.push(Target::Wire(Wire { gate, input: 1 + i }));
            i = i + 1;
        }
        proof {
            assert forall|k: int| 0 <= k < limbs@.len()
                implies self.target_in_bounds(#[trigger] limbs@[k]) by {}
            assert(pow(B as u64 as int, limbs@.len() as nat) > u64::MAX);
        }
        let g = Generator::BaseSplit { sum, base: B as u64, limbs: clone_targets(&limbs) };
        self.register_generator(g);
        proof {
            let ob = *old(self);
            ob.lemma_cell_id_in_bounds(x);
            lemma_rep_is_root(ob.parent@, ob.cell_id(x));
            lemma_rep_is_root(st1.parent@, st1.cell_id(x));
            assert(st1.resolved(x) == ob.resolved(x));
            assert(st1.resolved(sum) == start);
            assert(max_int(st1.resolved(x), st1.resolved(sum)) == start);
            assert(self.parent@ == st2.parent@);
            assert forall|u: Target| ob.target_in_bounds(u)
                implies #[trigger] self.resolved(u) == ob.resolved(u) by {
                st1.lemma_cell_id_in_bounds(u);
                lemma_rep_is_root(ob.parent@, ob.cell_id(u));
                lemma_rep_is_root(st1.parent@, st1.cell_id(u));
                assert(st1.resolved(u) == ob.resolved(u));
                assert(rep(st2.parent@, st1.cell_id(u)) == st1.resolved(u));
                assert(self.cell_id(u) == st1.cell_id(u));
                assert(self.resolved(u) == rep(st2.parent@, self.cell_id(u)));
            }
            assert(self.resolved(sum) == ob.resolved(x)) by {
                assert(rep(st2.parent@, st1.cell_id(sum)) == st1.resolved(x));
                assert(self.cell_id(sum) == st1.cell_id(sum));
                assert(self.resolved(sum) == rep(st2.parent@, self.cell_id(sum)));
            }
            assert forall|i2: int| 0 <= i2 < limbs@.len()
                implies #[trigger] self.resolved(limbs@[i2]) == start + 1 + i2 by {
                let w = Target::Wire(Wire { gate: gate, input: (1 + i2) as usize });
                assert(limbs@[i2] == w);
                assert(st1.resolved(w) == start + 1 + i2);
                assert(rep(st2.parent@, st1.cell_id(w)) == st1.resolved(w));
                assert(self.cell_id(w) == st1.cell_id(w));
                assert(self.resolved(w) == rep(st2.parent@, self.cell_id(w)));
            }
        }
        Ok(limbs)
    }

    /// Asserts that the value in `x` has at least `trailing_zeros` trailing
    /// zero bits in base two, by splitting it into base-`B` limbs and
    /// constraining exactly the low limbs to zero.  The number of limbs
    /// constrained is the least `t` with `B^t >= 2^trailing_zeros`; the
    /// configuration must route at least that many cells per row, or the
    /// check would be weaker than claimed and the call fails instead.  The
    /// limbs above the checked prefix are left alone: no constant is routed
    /// to any of them by this call.
    ///
    /// Base caveat: under canonical digits, the vanishing of the low `t`
    /// limbs is exactly divisibility by `B^t`
    /// (`digits::lemma_low_digits_zero_iff_divides`).  For `B` a power of
    /// two that is the claimed trailing-zero-bit guarantee, both sound and
    /// complete (`digits::lemma_trailing_zero_soundness_base2` for base
    /// two).  For any other base, divisibility by `B^t` neither implies nor
    /// follows from `trailing_zeros` binary zeros, so the constraint checks
    /// a different property than the name suggests; pick a power-of-two
    /// base where the binary guarantee is wanted.
    #[verifier::loop_isolation(false)]
    #[verifier::rlimit(100)]
    pub fn assert_trailing_zeros<const B: usize>(&mut self, x: Target, trailing_zeros: u32)
        -> (r: Result<(), CircuitError>)
        requires
            old(self).wf(),
            old(self).target_in_bounds(x),
            2 <= B,
            trailing_zeros <= 64,
        ensures
            final(self).wf(),
            final(self).extends(*old(self)),
            r is Ok <==> (1 + crate::digits::spec_num_limbs(B as int, 64)
                <= old(self).config.num_wires
                && old(self).parent@.len() + 1 + crate::digits::spec_num_limbs(B as int, 64)
                    + crate::digits::spec_num_limbs(B as int, trailing_zeros as nat)
                    <= usize::MAX
                && crate::digits::spec_num_limbs(B as int, trailing_zeros as nat)
                    < old(self).config.num_routed_wires),
            match r {
                Ok(()) => {
                    &&& crate::digits::spec_num_limbs(B as int, trailing_zeros as nat)
                        < old(self).config.num_routed_wires
                    &&& final(self).resolved(x) == final(self).resolved(
                        Target::Wire(Wire {
                            gate: old(self).gate_arity@.len() as usize,
                            input: 0,
                        }))
                    &&& forall|i: int|
                        0 <= i < crate::digits::spec_num_limbs(B as int, trailing_zeros as nat)
                            ==> #[trigger] zero_routed(
                            *final(self),
                            old(self).gate_arity@.len() as int,
                            i,
                        )
                    // the decomposition generator the zero constraints bind to
                    &&& final(self).generators@.len() == old(self).generators@.len() + 1
                    &&& (final(self).generators@.last() matches Generator::BaseSplit {
                        sum, base, limbs: l }
                        && sum == Target::Wire(Wire {
                            gate: old(self).gate_arity@.len() as usize,
                            input: 0,
                        })
                        && base == B as u64
                        && l@.len() == crate::digits::spec_num_limbs(B as int, 64)
                        && forall|i: int| 0 <= i < l@.len() ==> #[trigger] l@[i]
                            == Target::Wire(Wire {
                                gate: old(self).gate_arity@.len() as usize,
                                input: (1 + i) as usize,
                            }))
                    // limbs above the checked prefix stay in their own class,
                    // and no constant cell is routed to any of them
                    &&& forall|i: int|
                        crate::digits::spec_num_limbs(B as int, trailing_zeros as nat) <= i
                            < crate::digits::spec_num_limbs(B as int, 64)
                            ==> #[trigger] final(self).resolved(Target::Wire(Wire {
                                gate: old(self).gate_arity@.len() as usize,
                                input: (1 + i) as usize,
                            })) == old(self).parent@.len() + 1 + i
                    &&& forall|ci: int| 0 <= ci < final(self).constants@.len()
                        ==> #[trigger] final(self).resolved(final(self).constants@[ci].0)
                            < old(self).parent@.len() + 1
                                + crate::digits::spec_num_limbs(B as int, trailing_zeros as nat)
                },
                Err(e) => {
                    &&& (e == CircuitError::ColumnBudgetExceeded
                        || e == CircuitError::CellLimitExceeded
                        || e == CircuitError::NotEnoughRoutedWires)
                    &&& (e == CircuitError::ColumnBudgetExceeded
                        <==> 1 + crate::digits::spec_num_limbs(B as int, 64)
                            > old(self).config.num_wires)
                    &&& (e == CircuitError::NotEnoughRoutedWires
                        <==> (1 + crate::digits::spec_num_limbs(B as int, 64)
                            <= old(self).config.num_wires
                            && old(self).parent@.len() + 1
                                + crate::digits::spec_num_limbs(B as int, 64) <= usize::MAX
                            && crate::digits::spec_num_limbs(B as int, trailing_zeros as nat)
                                >= old(self).config.num_routed_wires))
                    &&& (e == CircuitError::CellLimitExceeded
                        ==> old(self).parent@.len() + 1
                            + crate::digits::spec_num_limbs(B as int, 64)
                            + crate::digits::spec_num_limbs(B as int, trailing_zeros as nat)
                            > usize::MAX)
                },
            },
    {
        let ghost g0 = self.gate_arity@.len();
        let ghost start = self.parent@.len() as int;
        let limbs = match self.split_le_base::<B>(x) {
            Ok(limbs) => limbs,
            Err(e) => {
                return Err(e);
            },
        };
        let ghost gens1 = self.generators@;
        let t = num_limbs_to_check(trailing_zeros, B);
        proof {
            crate::digits::lemma_num_limbs_unique(
                B as int,
                trailing_zeros as nat,
                t as nat,
                crate::digits::spec_num_limbs(B as int, trailing_zeros as nat),
            );
        }
        if t >= self.config.num_routed_wires {
            return Err(CircuitError::NotEnoughRoutedWires);
        }
        proof {
            // the checked prefix never exceeds the limb count, by minimality
            if t as nat > limbs@.len() as nat {
                vstd::arithmetic::power::lemma_pow_increases(
                    B as nat, limbs@.len() as nat, (t - 1) as nat);
                if (trailing_zeros as nat) < 64 {
                    vstd::arithmetic::power2::lemma_pow2_strictly_increases(
                        trailing_zeros as nat, 64);
                }
                assert(pow2(trailing_zeros as nat) <= pow2(64));
                assert(false);
            }
            // every constant so far resolves below the fresh gate cells
            assert forall|ci: int| 0 <= ci < self.constants@.len()
                implies #[trigger] self.resolved(self.constants@[ci].0) < start by {
                let ob = *old(self);
                assert(ob.target_in_bounds(ob.constants@[ci].0));
                ob.lemma_cell_id_in_bounds(ob.constants@[ci].0);
                lemma_rep_is_root(ob.parent@, ob.cell_id(ob.constants@[ci].0));
                assert(self.resolved(ob.constants@[ci].0) == ob.resolved(ob.constants@[ci].0));
            }
        }
        let mut i: usize = 0;
        let ghost mut cis: Seq<int> = Seq::empty();
        while i < t
            invariant
                i <= t,
                t <= limbs@.len(),
                self.wf(),
                self.extends(*old(self)),
                self.config == old(self).config,
                self.parent@.len() == start + 1 + limbs@.len() + i,
                self.generators@ == gens1,
                forall|k: int| 0 <= k < limbs@.len() ==> #[trigger] limbs@[k]
                    == Target::Wire(Wire { gate: g0 as usize, input: (1 + k) as usize }),
                forall|k: int| 0 <= k < limbs@.len()
                    ==> self.target_in_bounds(#[trigger] limbs@[k]),
                self.resolved(x) == self.resolved(
                    Target::Wire(Wire { gate: g0 as usize, input: 0 })),
                self.target_in_bounds(Target::Wire(Wire { gate: g0 as usize, input: 0 })),
                forall|k: int| 0 <= k < limbs@.len()
                    ==> #[trigger] self.resolved(limbs@[k]) == start + 1 + k,
                forall|ci: int| 0 <= ci < self.constants@.len()
                    ==> #[trigger] self.resolved(self.constants@[ci].0) < start + 1 + i,
                cis.len() == i as int,
                forall|k: int| 0 <= k < i ==> 0 <= #[trigger] cis[k] < self.constants@.len(),
                forall|k: int| 0 <= k < i ==> (#[trigger] self.constants@[cis[k]]).1 == 0,
                forall|k: int| 0 <= k < i
                    ==> self.resolved((#[trigger] self.constants@[cis[k]]).0)
                        == self.resolved(limbs@[k]),
            decreases t - i,
        {
            let ghost before = *self;
            match self.assert_zero(limbs[i]) {
                Ok(()) => {},
                Err(e) => {
                    proof {
                        assert(before.parent@.len() == usize::MAX);
                        assert(start + 1 + limbs@.len() + i == usize::MAX);
                    }
                    return Err(e);
                },
            }
            proof {
                let ci0 = self.constants@.len() - 1;
                assert(self.constants@[ci0].1 == 0);
                assert(self.resolved(self.constants@[ci0].0)
                    == self.resolved(limbs@[i as int]));
                let cis_prev = cis;
                cis = cis.push(ci0);
                assert forall|k: int| 0 <= k < limbs@.len()
                    implies #[trigger] self.resolved(limbs@[k]) == start + 1 + k by {
                    assert(self.resolved(limbs@[k]) == before.resolved(limbs@[k]));
                }
                assert forall|ci: int| 0 <= ci < self.constants@.len()
                    implies #[trigger] self.resolved(self.constants@[ci].0)
                        < start + 1 + (i + 1) by {
                    if ci < ci0 {
                        assert(self.constants@[ci] == before.constants@[ci]);
                        assert(before.target_in_bounds(before.constants@[ci].0));
                        assert(self.resolved(before.constants@[ci].0)
                            == before.resolved(before.constants@[ci].0));
                    } else {
                        assert(self.resolved(self.constants@[ci0].0) == start + 1 + i);
                    }
                }
                assert forall|k: int| 0 <= k < i + 1
                    implies 0 <= #[trigger] cis[k] < self.constants@.len()
                        && self.constants@[cis[k]].1 == 0
                        && self.resolved(self.constants@[cis[k]].0)
                            == self.resolved(limbs@[k]) by {
                    if k < i {
                        assert(cis[k] == cis_prev[k]);
                        assert(self.constants@[cis[k]] == before.constants@[cis[k]]);
                        assert(before.target_in_bounds(before.constants@[cis[k]].0));
                        assert(before.resolved(before.constants@[cis[k]].0)
                            == before.resolved(limbs@[k]));
                        assert(self.resolved(self.constants@[cis[k]].0)
                            == self.resolved(limbs@[k]));
                    }
                }
            }
            i = i + 1;
        }
        proof {
            let go: int = old(self).gate_arity@.len() as int;
            let t_spec = crate::digits::spec_num_limbs(B as int, trailing_zeros as nat);
            assert(t_spec == t as int && i == t);
            assert(go == g0);
            assert(*final(self) == *self);
            assert forall|k: int| 0 <= k < t_spec
                implies #[trigger] zero_routed(*final(self), go, k) by {
                let ci = cis[k];
                assert(limbs@[k] == Target::Wire(Wire {
                    gate: g0 as usize, input: (1 + k) as usize }));
                assert(0 <= ci < final(self).constants@.len()
                    && final(self).constants@[ci].1 == 0
                    && final(self).resolved(final(self).constants@[ci].0)
                        == final(self).resolved(Target::Wire(Wire {
                            gate: go as usize,
                            input: (1 + k) as usize,
                        })));
            }
            assert forall|i2: int| t_spec <= i2 < limbs@.len()
                implies #[trigger] final(self).resolved(Target::Wire(Wire {
                    gate: go as usize,
                    input: (1 + i2) as usize,
                })) == start + 1 + i2 by {
                assert(limbs@[i2] == Target::Wire(Wire {
                    gate: g0 as usize, input: (1 + i2) as usize }));
                assert(self.resolved(limbs@[i2]) == start + 1 + i2);
            }
        }
        Ok(())
    }
}

/// Copies a list of targets.
pub fn clone_targets(v: &Vec<Target>) -> (r: Vec<Target>)
    ensures
        r@ == v@,
{
    let mut r: Vec<Target> = Vec::new();
    let mut i: usize = 0;
    while i < v.len()
        invariant
            i <= v@.len(),
            r@ =~= v@.take(i as int),
        decreases v@.len() - i,
    {
        r.push(v[i]);
        i = i + 1;
    }
    proof {
        assert(r@ =~= v@);
    }
    r
}

/// Larger of two ints.
pub open spec fn max_int(a: int, b: int) -> int {
    if a >= b { a } else { b }
}

/// Smaller of two ints.
pub open spec fn min_int(a: int, b: int) -> int {
    if a <= b { a } else { b }
}

/// Appending fresh self-rooted cells never changes existing representatives.
pub proof fn lemma_rep_stable_under_append(p: Seq<usize>, q: Seq<usize>, i: int)
    requires
        parent_ok(p),
        parent_ok(q),
        p.len() <= q.len(),
        forall|j: int| 0 <= j < p.len() ==> q[j] == p[j],
        0 <= i < p.len(),
    ensures
        rep(q, i) == rep(p, i),
    decreases i,
{
    if p[i] < i {
        lemma_rep_stable_under_append(p, q, p[i] as int);
    }
}

} // verus!
