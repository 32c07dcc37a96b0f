//! The constraint emitter: a record of allocated variables with their
//! assigned values and of the algebraic constraints among them. Circuit
//! construction only ever appends, so values once allocated never change;
//! satisfiability of the whole record is a separate check, decidable at any
//! point after construction.

use vstd::prelude::*;
use vstd::arithmetic::power2::{lemma2_to64, lemma_pow2_strictly_increases, lemma_pow2_unfold, pow2};
use crate::field::{
    fe_add, fe_add_spec, fe_mul, fe_mul_spec, fe_pow, fe_pow_spec, le_bits_value,
};

verus! {

/// Failure of circuit construction: a required value was absent at
/// variable-allocation time.
#[derive(Clone, Copy, PartialEq, Eq, Structural, Debug)]
pub enum SynthesisError {
    AssignmentMissing,
}

/// Whether a variable is part of the public input or of the witness.
#[derive(Clone, Copy, PartialEq, Eq, Structural, Debug)]
pub enum VarKind {
    Instance,
    Witness,
}

/// A circuit value: either a compile-time constant, for which no variable
/// is allocated and no constraint emitted, or an allocated variable.
#[derive(Clone, Copy, PartialEq, Eq, Structural, Debug)]
pub enum FpVar {
    /// A value known at circuit-construction time.
    Constant(u64),
    /// The variable at this index of the emitter's assignment.
    Var(usize),
}

/// One algebraic constraint among circuit values.
pub enum Constraint {
    /// `ca * a + cb * b + k == out` in the field.
    Lin { a: FpVar, ca: u64, b: FpVar, cb: u64, k: u64, out: FpVar },
    /// `base ^ exponent == out` in the field.
    Pow { base: FpVar, exponent: u64, out: FpVar },
    /// `a == b`.
    Eq { a: FpVar, b: FpVar },
    /// `bits` is the little-endian bit decomposition of `out`: every entry
    /// is boolean and they recompose to `out` exactly.
    Bits { bits: Vec<FpVar>, out: FpVar },
}

/// The value a circuit value resolves to under an assignment.
pub open spec fn var_value(v: FpVar, vals: Seq<u64>) -> u64 {
    match v {
        FpVar::Constant(c) => c,
        FpVar::Var(i) => vals[i as int],
    }
}

/// The values a sequence of circuit values resolves to.
pub open spec fn resolved_vars(vars: Seq<FpVar>, vals: Seq<u64>) -> Seq<u64> {
    Seq::new(vars.len(), |i: int| var_value(vars[i], vals))
}

/// A circuit value is meaningful under `nvars` variables: an allocated
/// index is in range, a constant is a canonical residue.
pub open spec fn var_wf(v: FpVar, nvars: int, p: u64) -> bool {
    match v {
        FpVar::Constant(c) => c < p,
        FpVar::Var(i) => i < nvars,
    }
}

/// A constraint mentions only meaningful circuit values and reduced
/// coefficients; a bit decomposition fits the machine word.
pub open spec fn constraint_wf(c: Constraint, nvars: int, p: u64) -> bool {
    match c {
        Constraint::Lin { a, ca, b, cb, k, out } => {
            &&& var_wf(a, nvars, p)
            &&& var_wf(b, nvars, p)
            &&& var_wf(out, nvars, p)
            &&& ca < p
            &&& cb < p
            &&& k < p
        },
        Constraint::Pow { base, exponent, out } => var_wf(base, nvars, p) && var_wf(out, nvars, p),
        Constraint::Eq { a, b } => var_wf(a, nvars, p) && var_wf(b, nvars, p),
        Constraint::Bits { bits, out } => {
            &&& forall|i: int| 0 <= i < bits@.len() ==> var_wf(#[trigger] bits@[i], nvars, p)
            &&& var_wf(out, nvars, p)
            &&& bits@.len() <= 64
        },
    }
}

/// Whether an assignment satisfies one constraint.
pub open spec fn constraint_holds(c: Constraint, vals: Seq<u64>, p: u64) -> bool {
    match c {
        Constraint::Lin { a, ca, b, cb, k, out } => fe_add_spec(
            fe_add_spec(
                fe_mul_spec(ca, var_value(a, vals), p),
                fe_mul_spec(cb, var_value(b, vals), p),
                p,
            ),
            k,
            p,
        ) == var_value(out, vals),
        Constraint::Pow { base, exponent, out } => fe_pow_spec(var_value(base, vals), exponent, p)
            == var_value(out, vals),
        Constraint::Eq { a, b } => var_value(a, vals) == var_value(b, vals),
        Constraint::Bits { bits, out } => {
            &&& forall|i: int| 0 <= i < bits@.len() ==> var_value(#[trigger] bits@[i], vals) <= 1
            &&& le_bits_value(resolved_vars(bits@, vals)) == var_value(out, vals)
        },
    }
}

/// Every circuit value of the sequence is meaningful.
pub open spec fn vars_wf(vars: Seq<FpVar>, nvars: int, p: u64) -> bool {
    forall|i: int| 0 <= i < vars.len() ==> var_wf(#[trigger] vars[i], nvars, p)
}

/// Extending the assignment changes no existing circuit value.
pub proof fn lemma_var_value_prefix(v: FpVar, vals1: Seq<u64>, vals2: Seq<u64>, p: u64)
    requires
        var_wf(v, vals1.len() as int, p),
        vals1.is_prefix_of(vals2),
    ensures
        var_value(v, vals2) == var_value(v, vals1),
{
}

/// Extending the assignment changes the resolution of no sequence of
/// existing circuit values.
pub proof fn lemma_resolved_prefix(vars: Seq<FpVar>, vals1: Seq<u64>, vals2: Seq<u64>, p: u64)
    requires
        vars_wf(vars, vals1.len() as int, p),
        vals1.is_prefix_of(vals2),
    ensures
        resolved_vars(vars, vals2) == resolved_vars(vars, vals1),
{
    assert(resolved_vars(vars, vals2) =~= resolved_vars(vars, vals1));
}

/// Meaningful circuit values resolve to canonical residues.
pub proof fn lemma_resolved_valid(vars: Seq<FpVar>, vals: Seq<u64>, p: u64)
    requires
        vars_wf(vars, vals.len() as int, p),
        forall|i: int| 0 <= i < vals.len() ==> #[trigger] vals[i] < p,
    ensures
        crate::field::all_fe_valid(resolved_vars(vars, vals), p),
{
    assert forall|i: int| 0 <= i < resolved_vars(vars, vals).len() implies crate::field::fe_valid(
        #[trigger] resolved_vars(vars, vals)[i],
        p,
    ) by {
        assert(resolved_vars(vars, vals)[i] == var_value(vars[i], vals));
    }
}

/// Prefixes compose.
pub proof fn lemma_prefix_trans<T>(s1: Seq<T>, s2: Seq<T>, s3: Seq<T>)
    requires
        s1.is_prefix_of(s2),
        s2.is_prefix_of(s3),
    ensures
        s1.is_prefix_of(s3),
{
    assert(s1 =~= s3.subrange(0, s1.len() as int));
}

/// Extension of the record composes.
pub proof fn lemma_extends_trans(c1: ConstraintSystem, c2: ConstraintSystem, c3: ConstraintSystem)
    requires
        c2.extends(c1),
        c3.extends(c2),
    ensures
        c3.extends(c1),
{
    lemma_prefix_trans(c1.values@, c2.values@, c3.values@);
    lemma_prefix_trans(c1.kinds@, c2.kinds@, c3.kinds@);
    lemma_prefix_trans(c1.constraints@, c2.constraints@, c3.constraints@);
}

/// A satisfied constraint stays satisfied when the assignment is extended:
/// it only reads variables that already existed.
pub proof fn lemma_holds_prefix(c: Constraint, vals1: Seq<u64>, vals2: Seq<u64>, p: u64)
    requires
        constraint_wf(c, vals1.len() as int, p),
        vals1.is_prefix_of(vals2),
    ensures
        constraint_holds(c, vals2, p) == constraint_holds(c, vals1, p),
{
    match c {
        Constraint::Bits { bits, out } => {
            assert(resolved_vars(bits@, vals1) =~= resolved_vars(bits@, vals2));
        },
        _ => {},
    }
}

/// Construction only appends, so whatever satisfies the later record
/// satisfied the earlier one already: appending can never repair an
/// unsatisfied constraint.
pub proof fn lemma_extends_satisfied(prev: ConstraintSystem, next: ConstraintSystem)
    requires
        prev.wf(),
        next.extends(prev),
        next.satisfied(),
    ensures
        prev.satisfied(),
{
    assert forall|i: int| 0 <= i < prev.constraints@.len() implies constraint_holds(
        #[trigger] prev.constraints@[i],
        prev.values@,
        prev.modulus,
    ) by {
        assert(prev.constraints@[i] == next.constraints@[i]);
        assert(constraint_holds(next.constraints@[i], next.values@, next.modulus));
        lemma_holds_prefix(prev.constraints@[i], prev.values@, next.values@, prev.modulus);
    }
}

/// The record of a circuit: the assignment, what kind each variable is,
/// and the constraints.
pub struct ConstraintSystem {
    /// The field modulus every constraint is read modulo.
    pub modulus: u64,
    /// The assigned value of each allocated variable.
    pub values: Vec<u64>,
    /// Whether each variable is public input or witness.
    pub kinds: Vec<VarKind>,
    /// The constraints emitted so far.
    pub constraints: Vec<Constraint>,
}

impl ConstraintSystem {
    /// Every assigned value is a canonical residue and every constraint
    /// mentions only allocated variables.
    pub open spec fn wf(self) -> bool {
        &&& self.modulus >= 2
        &&& self.kinds@.len() == self.values@.len()
        &&& forall|i: int| 0 <= i < self.values@.len() ==> #[trigger] self.values@[i] < self.modulus
        &&& forall|i: int|
            0 <= i < self.constraints@.len() ==> constraint_wf(
                #[trigger] self.constraints@[i],
                self.values@.len() as int,
                self.modulus,
            )
    }

    /// The assignment satisfies every constraint emitted so far.
    pub open spec fn satisfied(self) -> bool {
        forall|i: int|
            0 <= i < self.constraints@.len() ==> constraint_holds(
                #[trigger] self.constraints@[i],
                self.values@,
                self.modulus,
            )
    }

    /// The value a circuit value resolves to in this record.
    pub open spec fn value_of(self, v: FpVar) -> u64 {
        var_value(v, self.values@)
    }

    /// The later record extends the earlier one: construction only appends.
    pub open spec fn extends(self, prev: Self) -> bool {
        &&& self.modulus == prev.modulus
        &&& prev.values@.is_prefix_of(self.values@)
        &&& prev.kinds@.is_prefix_of(self.kinds@)
        &&& prev.constraints@.is_prefix_of(self.constraints@)
    }

    /// An empty record over the given field.
    pub fn new(modulus: u64) -> (r: Self)
        requires
            modulus >= 2,
        ensures
            r.wf(),
            r.satisfied(),
            r.modulus == modulus,
            r.values@ == Seq::<u64>::empty(),
            r.kinds@ == Seq::<VarKind>::empty(),
            r.constraints@ == Seq::<Constraint>::empty(),
    {
        let r = ConstraintSystem { modulus, values: Vec::new(), kinds: Vec::new(), constraints: Vec::new() };
        proof {
            assert(r.values@ =~= Seq::<u64>::empty());
            assert(r.kinds@ =~= Seq::<VarKind>::empty());
            assert(r.constraints@ =~= Seq::<Constraint>::empty());
        }
        r
    }

    /// Allocates a variable with the given value and kind.
    pub(crate) fn alloc_value(&mut self, value: u64, kind: VarKind) -> (r: FpVar)
        requires
            old(self).wf(),
            value < old(self).modulus,
        ensures
            final(self).wf(),
            final(self).extends(*old(self)),
            final(self).values@ == old(self).values@.push(value),
            final(self).kinds@ == old(self).kinds@.push(kind),
            final(self).constraints@ == old(self).constraints@,
            r == FpVar::Var(old(self).values@.len() as usize),
            final(self).value_of(r) == value,
            old(self).satisfied() ==> final(self).satisfied(),
    {
        let i: usize = self.values.len();
        self.values.push(value);
        self.kinds.push(kind);
        proof {
            if old(self).satisfied() {
                assert forall|j: int|
                    0 <= j < self.constraints@.len() implies constraint_holds(
                    #[trigger] self.constraints@[j],
                    self.values@,
                    self.modulus,
                ) by {
                    lemma_holds_prefix(
                        self.constraints@[j],
                        old(self).values@,
                        self.values@,
                        self.modulus,
                    );
                }
            }
        }
        FpVar::Var(i)
    }

    /// Appends one constraint.
    pub(crate) fn push_constraint(&mut self, c: Constraint)
        requires
            old(self).wf(),
            constraint_wf(c, old(self).values@.len() as int, old(self).modulus),
        ensures
            final(self).wf(),
            final(self).extends(*old(self)),
            final(self).values@ == old(self).values@,
            final(self).kinds@ == old(self).kinds@,
            final(self).constraints@ == old(self).constraints@.push(c),
            final(self).satisfied() <==> old(self).satisfied() && constraint_holds(
                c,
                old(self).values@,
                old(self).modulus,
            ),
    {
        let ghost oldcs = *self;
        self.constraints.push(c);
        proof {
            assert(self.constraints@[self.constraints@.len() - 1] == c);
            if oldcs.satisfied() && constraint_holds(c, oldcs.values@, oldcs.modulus) {
                assert forall|j: int|
                    0 <= j < self.constraints@.len() implies constraint_holds(
                    #[trigger] self.constraints@[j],
                    self.values@,
                    self.modulus,
                ) by {
                    if j < oldcs.constraints@.len() {
                        assert(self.constraints@[j] == oldcs.constraints@[j]);
                    }
                }
            }
            if self.satisfied() {
                assert forall|j: int|
                    0 <= j < oldcs.constraints@.len() implies constraint_holds(
                    #[trigger] oldcs.constraints@[j],
                    oldcs.values@,
                    oldcs.modulus,
                ) by {
                    assert(self.constraints@[j] == oldcs.constraints@[j]);
                    assert(constraint_holds(self.constraints@[j], self.values@, self.modulus));
                }
                assert(constraint_holds(
                    self.constraints@[self.constraints@.len() - 1],
                    self.values@,
                    self.modulus,
                ));
            }
        }
    }

    /// Allocates a witness variable from an optional value; a required
    /// value that is absent aborts construction for this call.
    pub fn new_witness(&mut self, value: Option<u64>) -> (r: Result<FpVar, SynthesisError>)
        requires
            old(self).wf(),
            value matches Some(v) ==> v < old(self).modulus,
        ensures
            final(self).wf(),
            final(self).extends(*old(self)),
            final(self).constraints@ == old(self).constraints@,
            old(self).satisfied() ==> final(self).satisfied(),
            value matches Some(v) ==> {
                &&& r == Ok::<FpVar, SynthesisError>(
                    FpVar::Var(old(self).values@.len() as usize),
                )
                &&& final(self).values@ == old(self).values@.push(v)
                &&& final(self).kinds@ == old(self).kinds@.push(VarKind::Witness)
            },
            value is None ==> r == Err::<FpVar, SynthesisError>(SynthesisError::AssignmentMissing)
                && *final(self) == *old(self),
    {
        match value {
            Some(v) => Ok(self.alloc_value(v, VarKind::Witness)),
            None => Err(SynthesisError::AssignmentMissing),
        }
    }

    /// Allocates a public-input variable from an optional value.
    pub fn new_input(&mut self, value: Option<u64>) -> (r: Result<FpVar, SynthesisError>)
        requires
            old(self).wf(),
            value matches Some(v) ==> v < old(self).modulus,
        ensures
            final(self).wf(),
            final(self).extends(*old(self)),
            final(self).constraints@ == old(self).constraints@,
            old(self).satisfied() ==> final(self).satisfied(),
            value matches Some(v) ==> {
                &&& r == Ok::<FpVar, SynthesisError>(
                    FpVar::Var(old(self).values@.len() as usize),
                )
                &&& final(self).values@ == old(self).values@.push(v)
                &&& final(self).kinds@ == old(self).kinds@.push(VarKind::Instance)
            },
            value is None ==> r == Err::<FpVar, SynthesisError>(SynthesisError::AssignmentMissing)
                && *final(self) == *old(self),
    {
        match value {
            Some(v) => Ok(self.alloc_value(v, VarKind::Instance)),
            None => Err(SynthesisError::AssignmentMissing),
        }
    }

    /// Reads the concrete value a circuit value resolves to.
    pub fn value(&self, v: &FpVar) -> (r: u64)
        requires
            self.wf(),
            var_wf(*v, self.values@.len() as int, self.modulus),
        ensures
            r == self.value_of(*v),
            r < self.modulus,
    {
        match v {
            FpVar::Constant(c) => *c,
            FpVar::Var(i) => self.values[*i],
        }
    }

    /// Enforces equality of two circuit values.
    pub fn enforce_equal(&mut self, a: &FpVar, b: &FpVar)
        requires
            old(self).wf(),
            var_wf(*a, old(self).values@.len() as int, old(self).modulus),
            var_wf(*b, old(self).values@.len() as int, old(self).modulus),
        ensures
            final(self).wf(),
            final(self).extends(*old(self)),
            final(self).values@ == old(self).values@,
            final(self).satisfied() <==> old(self).satisfied() && old(self).value_of(*a) == old(
                self,
            ).value_of(*b),
    {
        self.push_constraint(Constraint::Eq { a: *a, b: *b });
    }

    /// Evaluates one constraint against the assignment.
    fn constraint_holds_exec(&self, c: &Constraint) -> (r: bool)
        requires
            self.wf(),
            constraint_wf(*c, self.values@.len() as int, self.modulus),
        ensures
            r == constraint_holds(*c, self.values@, self.modulus),
    {
        let p: u64 = self.modulus;
        match c {
            Constraint::Lin { a, ca, b, cb, k, out } => {
                let va: u64 = self.value(a);
                let vb: u64 = self.value(b);
                let vout: u64 = self.value(out);
                let left: u64 = fe_add(fe_add(fe_mul(*ca, va, p), fe_mul(*cb, vb, p), p), *k, p);
                let res: bool = left == vout;
                proof {
                    assert(res == constraint_holds(*c, self.values@, self.modulus));
                }
                res
            },
            Constraint::Pow { base, exponent, out } => {
                let vbase: u64 = self.value(base);
                let vout: u64 = self.value(out);
                let left: u64 = fe_pow(vbase, *exponent, p);
                let res: bool = left == vout;
                proof {
                    assert(res == constraint_holds(*c, self.values@, self.modulus));
                }
                res
            },
            Constraint::Eq { a, b } => {
                let va: u64 = self.value(a);
                let vb: u64 = self.value(b);
                let res: bool = va == vb;
                proof {
                    assert(res == constraint_holds(*c, self.values@, self.modulus));
                }
                res
            },
            Constraint::Bits { bits, out } => {
                let ghost rs = resolved_vars(bits@, self.values@);
                let n: usize = bits.len();
                let mut i: usize = n;
                let mut acc: u64 = 0;
                proof {
                    assert(rs.skip(n as int) =~= Seq::<u64>::empty());
                    lemma2_to64();
                }
                loop
                    invariant
                        self.wf(),
                        constraint_wf(*c, self.values@.len() as int, self.modulus),
                        c == (Constraint::Bits { bits: *bits, out: *out }),
                        n == bits@.len() <= 64,
                        rs == resolved_vars(bits@, self.values@),
                        i <= n,
                        forall|j: int| i <= j < n ==> #[trigger] rs[j] <= 1,
                        acc == le_bits_value(rs.skip(i as int)),
                        acc < pow2((n - i) as nat),
                        p == self.modulus,
                    ensures
                        acc == le_bits_value(rs),
                        forall|j: int| 0 <= j < n ==> #[trigger] rs[j] <= 1,
                    decreases i,
                {
                    if i == 0 {
                        proof {
                            assert(rs.skip(0) =~= rs);
                        }
                        break ;
                    }
                    i = i - 1;
                    let bit: u64 = self.value(&bits[i]);
                    proof {
                        assert(rs[i as int] == bit);
                    }
                    if bit > 1 {
                        proof {
                            assert(!constraint_holds(*c, self.values@, self.modulus));
                        }
                        return false;
                    }
                    proof {
                        assert(rs.skip(i as int).drop_first() =~= rs.skip(i + 1));
                        assert(rs.skip(i as int)[0] == rs[i as int]);
                        lemma_pow2_unfold((n - i) as nat);
                        lemma2_to64();
                        assert(pow2((n - i) as nat) <= pow2(64)) by {
                            if ((n - i) as nat) < 64 {
                                lemma_pow2_strictly_increases((n - i) as nat, 64);
                            }
                        }
                    }
                    acc = 2 * acc + bit;
                }
                let vout: u64 = self.value(out);
                let res: bool = acc == vout;
                proof {
                    assert forall|j: int| 0 <= j < bits@.len() implies var_value(
                        #[trigger] bits@[j],
                        self.values@,
                    ) <= 1 by {
                        assert(rs[j] == var_value(bits@[j], self.values@));
                    }
                    assert(res == constraint_holds(*c, self.values@, self.modulus));
                }
                res
            },
        }
    }

    /// Checks whether the assignment satisfies every constraint. This is
    /// the only way unsatisfiability is reported: never during
    /// construction, always as this boolean outcome.
    pub fn is_satisfied(&self) -> (r: bool)
        requires
            self.wf(),
        ensures
            r == self.satisfied(),
    {
        let n: usize = self.constraints.len();
        for i in 0..n
            invariant
                self.wf(),
                n == self.constraints@.len(),
                forall|j: int|
                    0 <= j < i ==> constraint_holds(
                        #[trigger] self.constraints@[j],
                        self.values@,
                        self.modulus,
                    ),
        {
            if !self.constraint_holds_exec(&self.constraints[i]) {
                return false;
            }
        }
        true
    }
}

} // verus!
