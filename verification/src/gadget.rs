//! The circuit sponge: the same duplex automaton as the plain sponge, over
//! circuit values, emitting one constraint per arithmetic step. Every
//! operation is proved to resolve to exactly what the plain model computes,
//! and to keep a satisfied constraint record satisfied — the nonlinear
//! inverse step under the configured inverse property.
//!
//! The inverse power map is never computed inside the constraint record:
//! its result is witnessed and the cheap forward relation
//! `result ^ alpha == input` is asserted instead.

use vstd::prelude::*;
use crate::config::RescueConfig;
use crate::duplex::{mode_ok, DuplexSpongeMode};
use crate::emitter::{
    lemma_extends_trans, lemma_resolved_prefix, lemma_resolved_valid, lemma_var_value_prefix,
    resolved_vars, var_value, var_wf, vars_wf, Constraint, ConstraintSystem, FpVar, VarKind,
};
use crate::field::{fe_add_spec, fe_mul_spec, fe_pow, fe_pow_spec, fe_valid};
use crate::permutation::{
    ark_spec, dot_spec, mix_spec, permute_spec, round_exponent, rounds_spec, sbox_spec,
};
use vstd::arithmetic::div_mod::lemma_small_mod;

verus! {

/// `ca * a + cb * b + k`, as a circuit value. When both operands are
/// constants the value is computed directly and nothing is emitted;
/// otherwise the result is witnessed and one linear constraint binds it.
fn lc(cs: &mut ConstraintSystem, a: FpVar, ca: u64, b: FpVar, cb: u64, k: u64) -> (r: FpVar)
    requires
        old(cs).wf(),
        var_wf(a, old(cs).values@.len() as int, old(cs).modulus),
        var_wf(b, old(cs).values@.len() as int, old(cs).modulus),
        ca < old(cs).modulus,
        cb < old(cs).modulus,
        k < old(cs).modulus,
    ensures
        final(cs).wf(),
        final(cs).extends(*old(cs)),
        var_wf(r, final(cs).values@.len() as int, final(cs).modulus),
        final(cs).value_of(r) == fe_add_spec(
            fe_add_spec(
                fe_mul_spec(ca, old(cs).value_of(a), old(cs).modulus),
                fe_mul_spec(cb, old(cs).value_of(b), old(cs).modulus),
                old(cs).modulus,
            ),
            k,
            old(cs).modulus,
        ),
        old(cs).satisfied() ==> final(cs).satisfied(),
{
    let p: u64 = cs.modulus;
    let va: u64 = cs.value(&a);
    let vb: u64 = cs.value(&b);
    let v: u64 = crate::field::fe_add(
        crate::field::fe_add(crate::field::fe_mul(ca, va, p), crate::field::fe_mul(cb, vb, p), p),
        k,
        p,
    );
    let folded: bool = match (&a, &b) {
        (FpVar::Constant(_), FpVar::Constant(_)) => true,
        _ => false,
    };
    if folded {
        FpVar::Constant(v)
    } else {
        let out: FpVar = cs.alloc_value(v, VarKind::Witness);
        proof {
            lemma_var_value_prefix(a, old(cs).values@, cs.values@, p);
            lemma_var_value_prefix(b, old(cs).values@, cs.values@, p);
        }
        cs.push_constraint(Constraint::Lin { a, ca, b, cb, k, out });
        out
    }
}

/// The sum of two circuit values.
fn fp_add(cs: &mut ConstraintSystem, a: FpVar, b: FpVar) -> (r: FpVar)
    requires
        old(cs).wf(),
        var_wf(a, old(cs).values@.len() as int, old(cs).modulus),
        var_wf(b, old(cs).values@.len() as int, old(cs).modulus),
    ensures
        final(cs).wf(),
        final(cs).extends(*old(cs)),
        var_wf(r, final(cs).values@.len() as int, final(cs).modulus),
        final(cs).value_of(r) == fe_add_spec(
            old(cs).value_of(a),
            old(cs).value_of(b),
            old(cs).modulus,
        ),
        old(cs).satisfied() ==> final(cs).satisfied(),
{
    let ghost p = cs.modulus;
    let ghost va = cs.value_of(a);
    let ghost vb = cs.value_of(b);
    let r: FpVar = lc(cs, a, 1, b, 1, 0);
    proof {
        lemma_small_mod(va as nat, p as nat);
        lemma_small_mod(vb as nat, p as nat);
        lemma_small_mod(fe_add_spec(va, vb, p) as nat, p as nat);
    }
    r
}

/// `a + m * b`, as a circuit value: one step of a dot product.
fn fp_add_times(cs: &mut ConstraintSystem, a: FpVar, m: u64, b: FpVar) -> (r: FpVar)
    requires
        old(cs).wf(),
        var_wf(a, old(cs).values@.len() as int, old(cs).modulus),
        var_wf(b, old(cs).values@.len() as int, old(cs).modulus),
        m < old(cs).modulus,
    ensures
        final(cs).wf(),
        final(cs).extends(*old(cs)),
        var_wf(r, final(cs).values@.len() as int, final(cs).modulus),
        final(cs).value_of(r) == fe_add_spec(
            old(cs).value_of(a),
            fe_mul_spec(m, old(cs).value_of(b), old(cs).modulus),
            old(cs).modulus,
        ),
        old(cs).satisfied() ==> final(cs).satisfied(),
{
    let ghost p = cs.modulus;
    let ghost va = cs.value_of(a);
    let ghost vb = cs.value_of(b);
    let r: FpVar = lc(cs, a, 1, b, m, 0);
    proof {
        lemma_small_mod(va as nat, p as nat);
        lemma_small_mod(fe_add_spec(va, fe_mul_spec(m, vb, p), p) as nat, p as nat);
    }
    r
}

/// The forward power map on a circuit value: the result is witnessed and
/// the power relation `a ^ e == out` is asserted of it.
fn fp_pow_forward(cs: &mut ConstraintSystem, a: FpVar, e: u64) -> (r: FpVar)
    requires
        old(cs).wf(),
        var_wf(a, old(cs).values@.len() as int, old(cs).modulus),
    ensures
        final(cs).wf(),
        final(cs).extends(*old(cs)),
        var_wf(r, final(cs).values@.len() as int, final(cs).modulus),
        final(cs).value_of(r) == fe_pow_spec(old(cs).value_of(a), e, old(cs).modulus),
        old(cs).satisfied() ==> final(cs).satisfied(),
{
    let p: u64 = cs.modulus;
    let va: u64 = cs.value(&a);
    let v: u64 = fe_pow(va, e, p);
    match &a {
        FpVar::Constant(_) => FpVar::Constant(v),
        FpVar::Var(_) => {
            let out: FpVar = cs.alloc_value(v, VarKind::Witness);
            proof {
                lemma_var_value_prefix(a, old(cs).values@, cs.values@, p);
            }
            cs.push_constraint(Constraint::Pow { base: a, exponent: e, out });
            out
        },
    }
}

/// The inverse power map on a circuit value. The result is computed only
/// to be witnessed; what is asserted is the forward relation
/// `out ^ alpha == a`, so the constraint cost does not depend on the
/// inverse exponent. The record stays satisfied exactly when raising to
/// `alpha` undoes raising to `alpha_inv` on the operand's value.
fn fp_pow_inverse(cs: &mut ConstraintSystem, a: FpVar, alpha: u64, alpha_inv: u64) -> (r: FpVar)
    requires
        old(cs).wf(),
        var_wf(a, old(cs).values@.len() as int, old(cs).modulus),
    ensures
        final(cs).wf(),
        final(cs).extends(*old(cs)),
        var_wf(r, final(cs).values@.len() as int, final(cs).modulus),
        final(cs).value_of(r) == fe_pow_spec(old(cs).value_of(a), alpha_inv, old(cs).modulus),
        old(cs).satisfied() && fe_pow_spec(
            fe_pow_spec(old(cs).value_of(a), alpha_inv, old(cs).modulus),
            alpha,
            old(cs).modulus,
        ) == old(cs).value_of(a) ==> final(cs).satisfied(),
{
    let p: u64 = cs.modulus;
    let va: u64 = cs.value(&a);
    let w: u64 = fe_pow(va, alpha_inv, p);
    match &a {
        FpVar::Constant(_) => FpVar::Constant(w),
        FpVar::Var(_) => {
            let out: FpVar = cs.alloc_value(w, VarKind::Witness);
            proof {
                lemma_var_value_prefix(a, old(cs).values@, cs.values@, p);
            }
            cs.push_constraint(Constraint::Pow { base: out, exponent: alpha, out: a });
            out
        },
    }
}

/// Applies the nonlinear layer to a state of circuit values in place;
/// `forward` picks the exponent, and the inverse direction only ever
/// asserts the forward relation of its witnessed result.
fn apply_s_box_var(cs: &mut ConstraintSystem, cfg: &RescueConfig, state: &mut Vec<FpVar>, forward: bool)
    requires
        old(cs).wf(),
        cfg.dims_ok(),
        old(cs).modulus == cfg.modulus,
        vars_wf(old(state)@, old(cs).values@.len() as int, cfg.modulus),
    ensures
        final(cs).wf(),
        final(cs).extends(*old(cs)),
        final(cs).modulus == cfg.modulus,
        vars_wf(final(state)@, final(cs).values@.len() as int, cfg.modulus),
        final(state)@.len() == old(state)@.len(),
        resolved_vars(final(state)@, final(cs).values@) == sbox_spec(
            resolved_vars(old(state)@, old(cs).values@),
            if forward {
                cfg.alpha
            } else {
                cfg.alpha_inv
            },
            cfg.modulus,
        ),
        old(cs).satisfied() && cfg.inverse_ok() ==> final(cs).satisfied(),
{
    let p: u64 = cfg.modulus;
    let e: u64 = if forward {
        cfg.alpha
    } else {
        cfg.alpha_inv
    };
    let ghost rs0 = resolved_vars(old(state)@, old(cs).values@);
    proof {
        lemma_resolved_valid(old(state)@, old(cs).values@, p);
    }
    let n: usize = state.len();
    for i in 0..n
        invariant
            cs.wf(),
            cs.extends(*old(cs)),
            cs.modulus == cfg.modulus,
            p == cfg.modulus,
            cfg.dims_ok(),
            e == (if forward {
                cfg.alpha
            } else {
                cfg.alpha_inv
            }),
            n == state@.len() == old(state)@.len(),
            rs0 == resolved_vars(old(state)@, old(cs).values@),
            crate::field::all_fe_valid(rs0, p),
            vars_wf(state@, cs.values@.len() as int, p),
            forall|k: int| i <= k < n ==> state@[k] == old(state)@[k],
            forall|k: int|
                i <= k < n ==> var_value(#[trigger] state@[k], cs.values@) == rs0[k],
            forall|k: int|
                0 <= k < i ==> var_value(#[trigger] state@[k], cs.values@) == fe_pow_spec(
                    rs0[k],
                    e,
                    p,
                ),
            old(cs).satisfied() && cfg.inverse_ok() ==> cs.satisfied(),
    {
        let ghost prev_cs = *cs;
        let ghost prev_state = state@;
        let v: FpVar = if forward {
            fp_pow_forward(cs, state[i], cfg.alpha)
        } else {
            fp_pow_inverse(cs, state[i], cfg.alpha, cfg.alpha_inv)
        };
        state[i] = v;
        proof {
            lemma_extends_trans(*old(cs), prev_cs, *cs);
            assert forall|k: int| 0 <= k < n && k != i implies var_value(
                #[trigger] state@[k],
                cs.values@,
            ) == var_value(prev_state[k], prev_cs.values@) by {
                assert(state@[k] == prev_state[k]);
                lemma_var_value_prefix(prev_state[k], prev_cs.values@, cs.values@, p);
            }
            if old(cs).satisfied() && cfg.inverse_ok() {
                assert(prev_cs.satisfied());
                if !forward {
                    assert(fe_valid(rs0[i as int], p));
                    assert(fe_pow_spec(
                        fe_pow_spec(rs0[i as int], cfg.alpha_inv, cfg.modulus),
                        cfg.alpha,
                        cfg.modulus,
                    ) == rs0[i as int]);
                }
                assert(cs.satisfied());
            }
        }
    }
    proof {
        assert(resolved_vars(state@, cs.values@) =~= sbox_spec(rs0, e, p));
    }
}

/// Adds round-constant vector `round` to a state of circuit values in
/// place. The constants are compile-time values of the configuration.
fn apply_ark_var(cs: &mut ConstraintSystem, cfg: &RescueConfig, state: &mut Vec<FpVar>, round: usize)
    requires
        old(cs).wf(),
        cfg.dims_ok(),
        old(cs).modulus == cfg.modulus,
        old(state)@.len() == cfg.width(),
        vars_wf(old(state)@, old(cs).values@.len() as int, cfg.modulus),
        round < cfg.arc.len(),
    ensures
        final(cs).wf(),
        final(cs).extends(*old(cs)),
        final(cs).modulus == cfg.modulus,
        vars_wf(final(state)@, final(cs).values@.len() as int, cfg.modulus),
        final(state)@.len() == old(state)@.len(),
        resolved_vars(final(state)@, final(cs).values@) == ark_spec(
            resolved_vars(old(state)@, old(cs).values@),
            cfg.arcs()[round as int],
            cfg.modulus,
        ),
        old(cs).satisfied() ==> final(cs).satisfied(),
{
    let p: u64 = cfg.modulus;
    let key: &Vec<u64> = &cfg.arc[round];
    proof {
        assert(cfg.arcs()[round as int] == key@);
    }
    let ghost rs0 = resolved_vars(old(state)@, old(cs).values@);
    let n: usize = state.len();
    for i in 0..n
        invariant
            cs.wf(),
            cs.extends(*old(cs)),
            cs.modulus == cfg.modulus,
            p == cfg.modulus,
            cfg.dims_ok(),
            n == state@.len() == old(state)@.len(),
            n == cfg.width(),
            key@ == cfg.arcs()[round as int],
            key@.len() == n,
            crate::field::all_fe_valid(key@, p),
            rs0 == resolved_vars(old(state)@, old(cs).values@),
            vars_wf(state@, cs.values@.len() as int, p),
            forall|k: int| i <= k < n ==> state@[k] == old(state)@[k],
            forall|k: int|
                i <= k < n ==> var_value(#[trigger] state@[k], cs.values@) == rs0[k],
            forall|k: int|
                0 <= k < i ==> var_value(#[trigger] state@[k], cs.values@) == fe_add_spec(
                    rs0[k],
                    key@[k],
                    p,
                ),
            old(cs).satisfied() ==> cs.satisfied(),
    {
        let ghost prev_cs = *cs;
        let ghost prev_state = state@;
        let v: FpVar = fp_add(cs, state[i], FpVar::Constant(key[i]));
        state[i] = v;
        proof {
            lemma_extends_trans(*old(cs), prev_cs, *cs);
            assert forall|k: int| 0 <= k < n && k != i implies var_value(
                #[trigger] state@[k],
                cs.values@,
            ) == var_value(prev_state[k], prev_cs.values@) by {
                assert(state@[k] == prev_state[k]);
                lemma_var_value_prefix(prev_state[k], prev_cs.values@, cs.values@, p);
            }
        }
    }
    proof {
        assert(resolved_vars(state@, cs.values@) =~= ark_spec(rs0, cfg.arcs()[round as int], p));
    }
}

/// Applies the mixing matrix to a state of circuit values: each new entry
/// is a dot product of a constant matrix row with the old state, built one
/// linear step at a time.
fn apply_mds_var(cs: &mut ConstraintSystem, cfg: &RescueConfig, state: &mut Vec<FpVar>)
    requires
        old(cs).wf(),
        cfg.dims_ok(),
        old(cs).modulus == cfg.modulus,
        old(state)@.len() == cfg.width(),
        vars_wf(old(state)@, old(cs).values@.len() as int, cfg.modulus),
    ensures
        final(cs).wf(),
        final(cs).extends(*old(cs)),
        final(cs).modulus == cfg.modulus,
        vars_wf(final(state)@, final(cs).values@.len() as int, cfg.modulus),
        final(state)@.len() == old(state)@.len(),
        resolved_vars(final(state)@, final(cs).values@) == mix_spec(
            cfg.mat(),
            resolved_vars(old(state)@, old(cs).values@),
            cfg.modulus,
        ),
        old(cs).satisfied() ==> final(cs).satisfied(),
{
    let p: u64 = cfg.modulus;
    let ghost rs0 = resolved_vars(old(state)@, old(cs).values@);
    let n: usize = state.len();
    let mut new_state: Vec<FpVar> = Vec::new();
    for i in 0..n
        invariant
            cs.wf(),
            cs.extends(*old(cs)),
            cs.modulus == cfg.modulus,
            p == cfg.modulus,
            cfg.dims_ok(),
            n == state@.len() == old(state)@.len(),
            n == cfg.width(),
            state@ == old(state)@,
            rs0 == resolved_vars(old(state)@, old(cs).values@),
            vars_wf(state@, cs.values@.len() as int, p),
            new_state@.len() == i,
            vars_wf(new_state@, cs.values@.len() as int, p),
            forall|k: int|
                0 <= k < n ==> var_value(#[trigger] state@[k], cs.values@) == rs0[k],
            forall|k: int|
                0 <= k < i ==> var_value(#[trigger] new_state@[k], cs.values@) == dot_spec(
                    cfg.mat()[k],
                    rs0,
                    p,
                    n as int,
                ),
            old(cs).satisfied() ==> cs.satisfied(),
    {
        let row: &Vec<u64> = &cfg.mds[i];
        proof {
            assert(cfg.mat()[i as int] == row@);
        }
        let mut cur: FpVar = FpVar::Constant(0);
        let ghost outer_cs = *cs;
        let ghost outer_new = new_state@;
        for j in 0..n
            invariant
                cs.wf(),
                cs.extends(*old(cs)),
                cs.extends(outer_cs),
                cs.modulus == cfg.modulus,
                p == cfg.modulus,
                cfg.dims_ok(),
                n == state@.len() == old(state)@.len(),
                n == cfg.width(),
                state@ == old(state)@,
                rs0 == resolved_vars(old(state)@, old(cs).values@),
                row@ == cfg.mat()[i as int],
                row@.len() == n,
                crate::field::all_fe_valid(row@, p),
                vars_wf(state@, cs.values@.len() as int, p),
                new_state@ == outer_new,
                new_state@.len() == i,
                vars_wf(new_state@, cs.values@.len() as int, p),
                var_wf(cur, cs.values@.len() as int, p),
                var_value(cur, cs.values@) == dot_spec(row@, rs0, p, j as int),
                forall|k: int|
                    0 <= k < n ==> var_value(#[trigger] state@[k], cs.values@) == rs0[k],
                forall|k: int|
                    0 <= k < i ==> var_value(#[trigger] new_state@[k], cs.values@) == dot_spec(
                        cfg.mat()[k],
                        rs0,
                        p,
                        n as int,
                    ),
                old(cs).satisfied() ==> cs.satisfied(),
        {
            let ghost prev_cs = *cs;
            cur = fp_add_times(cs, cur, row[j], state[j]);
            proof {
                lemma_extends_trans(*old(cs), prev_cs, *cs);
                lemma_extends_trans(outer_cs, prev_cs, *cs);
                assert forall|k: int| 0 <= k < n implies var_value(
                    #[trigger] state@[k],
                    cs.values@,
                ) == rs0[k] by {
                    lemma_var_value_prefix(state@[k], prev_cs.values@, cs.values@, p);
                }
                assert forall|k: int| 0 <= k < i implies var_value(
                    #[trigger] new_state@[k],
                    cs.values@,
                ) == dot_spec(cfg.mat()[k], rs0, p, n as int) by {
                    lemma_var_value_prefix(new_state@[k], prev_cs.values@, cs.values@, p);
                }
            }
        }
        new_state.push(cur);
    }
    *state = new_state;
    proof {
        assert(resolved_vars(state@, cs.values@) =~= mix_spec(cfg.mat(), rs0, p));
    }
}

/// The full permutation on a state of circuit values: round-constant
/// vector zero, then all rounds, exactly as the plain permutation.
fn permute_var(cs: &mut ConstraintSystem, cfg: &RescueConfig, state: &mut Vec<FpVar>)
    requires
        old(cs).wf(),
        cfg.dims_ok(),
        old(cs).modulus == cfg.modulus,
        old(state)@.len() == cfg.width(),
        vars_wf(old(state)@, old(cs).values@.len() as int, cfg.modulus),
    ensures
        final(cs).wf(),
        final(cs).extends(*old(cs)),
        final(cs).modulus == cfg.modulus,
        vars_wf(final(state)@, final(cs).values@.len() as int, cfg.modulus),
        final(state)@.len() == old(state)@.len(),
        resolved_vars(final(state)@, final(cs).values@) == permute_spec(
            *cfg,
            resolved_vars(old(state)@, old(cs).values@),
        ),
        old(cs).satisfied() && cfg.inverse_ok() ==> final(cs).satisfied(),
{
    let ghost rs0 = resolved_vars(old(state)@, old(cs).values@);
    apply_ark_var(cs, cfg, state, 0);
    let total: usize = 2 * cfg.rounds;
    for r in 0..total
        invariant
            total == 2 * cfg.rounds,
            cs.wf(),
            cs.extends(*old(cs)),
            cs.modulus == cfg.modulus,
            cfg.dims_ok(),
            state@.len() == cfg.width(),
            vars_wf(state@, cs.values@.len() as int, cfg.modulus),
            rs0 == resolved_vars(old(state)@, old(cs).values@),
            rounds_spec(*cfg, resolved_vars(state@, cs.values@), r as int) == permute_spec(
                *cfg,
                rs0,
            ),
            old(cs).satisfied() && cfg.inverse_ok() ==> cs.satisfied(),
    {
        let forward: bool = r % 2 == 1;
        let ghost before = resolved_vars(state@, cs.values@);
        let ghost cs_a = *cs;
        apply_s_box_var(cs, cfg, state, forward);
        let ghost cs_b = *cs;
        apply_mds_var(cs, cfg, state);
        let ghost cs_c = *cs;
        apply_ark_var(cs, cfg, state, r + 1);
        proof {
            lemma_extends_trans(*old(cs), cs_a, cs_b);
            lemma_extends_trans(*old(cs), cs_b, cs_c);
            lemma_extends_trans(*old(cs), cs_c, *cs);
            assert(resolved_vars(state@, cs.values@) == ark_spec(
                mix_spec(
                    cfg.mat(),
                    sbox_spec(before, round_exponent(*cfg, r as int), cfg.modulus),
                    cfg.modulus,
                ),
                cfg.arcs()[r + 1],
                cfg.modulus,
            ));
            assert(rounds_spec(*cfg, before, r as int) == rounds_spec(
                *cfg,
                resolved_vars(state@, cs.values@),
                r + 1,
            ));
        }
    }
}

/// The duplex sponge over circuit values: state, mode, and how many
/// permutations ran. The constraint record is a separate resource, passed
/// by exclusive mutable access into every operation.
pub struct RescueSpongeVar {
    /// The state: `rate + capacity` circuit values.
    pub state: Vec<FpVar>,
    /// Which phase the sponge is in, and where in the rate window.
    pub mode: DuplexSpongeMode,
    /// How many times the permutation has been applied.
    pub permutation_calls: u64,
}

impl RescueSpongeVar {
    /// The sponge fits the configuration and the record: the state has the
    /// configured width, every entry is a meaningful circuit value, and the
    /// mode index is inside the rate window.
    pub open spec fn wf(self, cfg: RescueConfig, cs: ConstraintSystem) -> bool {
        &&& self.state@.len() == cfg.width()
        &&& vars_wf(self.state@, cs.values@.len() as int, cfg.modulus)
        &&& mode_ok(self.mode, cfg.rate as int)
    }

    /// The plain values the sponge's state resolves to.
    pub open spec fn resolved_state(self, cs: ConstraintSystem) -> Seq<u64> {
        resolved_vars(self.state@, cs.values@)
    }

    /// A fresh circuit sponge: an all-zero constant state, absorbing at
    /// position zero. No variable is allocated and no constraint emitted.
    pub fn new(cfg: &RescueConfig) -> (r: Self)
        requires
            cfg.dims_ok(),
        ensures
            r.state@ == Seq::new(cfg.width() as nat, |i: int| FpVar::Constant(0)),
            r.mode == (DuplexSpongeMode::Absorbing { next_absorb_index: 0 }),
            r.permutation_calls == 0,
    {
        let width: usize = cfg.rate + cfg.capacity;
        let mut state: Vec<FpVar> = Vec::new();
        for i in 0..width
            invariant
                state@.len() == i,
                forall|k: int| 0 <= k < i ==> state@[k] == FpVar::Constant(0),
        {
            state.push(FpVar::Constant(0));
        }
        proof {
            assert(state@ =~= Seq::new(cfg.width() as nat, |i: int| FpVar::Constant(0)));
        }
        RescueSpongeVar {
            state,
            mode: DuplexSpongeMode::Absorbing { next_absorb_index: 0 },
            permutation_calls: 0,
        }
    }

    /// Applies the permutation to the state and counts the call.
    fn permute(&mut self, cs: &mut ConstraintSystem, cfg: &RescueConfig)
        requires
            cfg.dims_ok(),
            old(cs).wf(),
            old(cs).modulus == cfg.modulus,
            old(self).wf(*cfg, *old(cs)),
            old(self).permutation_calls < u64::MAX,
        ensures
            final(cs).wf(),
            final(cs).extends(*old(cs)),
            final(cs).modulus == cfg.modulus,
            final(self).wf(*cfg, *final(cs)),
            final(self).resolved_state(*final(cs)) == permute_spec(
                *cfg,
                old(self).resolved_state(*old(cs)),
            ),
            final(self).mode == old(self).mode,
            final(self).permutation_calls == old(self).permutation_calls + 1,
            old(cs).satisfied() && cfg.inverse_ok() ==> final(cs).satisfied(),
    {
        permute_var(cs, cfg, &mut self.state);
        self.permutation_calls = self.permutation_calls + 1;
    }

    /// Adds `m` input values, starting at `pos` of the input, into the
    /// rate window starting at position `idx`.
    fn absorb_block(
        &mut self,
        cs: &mut ConstraintSystem,
        cfg: &RescueConfig,
        idx: usize,
        input: &Vec<FpVar>,
        pos: usize,
        m: usize,
    )
        requires
            cfg.dims_ok(),
            old(cs).wf(),
            old(cs).modulus == cfg.modulus,
            old(self).wf(*cfg, *old(cs)),
            idx + m <= cfg.rate,
            pos + m <= input@.len(),
            vars_wf(input@, old(cs).values@.len() as int, cfg.modulus),
        ensures
            final(cs).wf(),
            final(cs).extends(*old(cs)),
            final(cs).modulus == cfg.modulus,
            final(self).wf(*cfg, *final(cs)),
            final(self).resolved_state(*final(cs)) == crate::duplex::add_at(
                old(self).resolved_state(*old(cs)),
                cfg.capacity + idx,
                resolved_vars(input@, old(cs).values@).subrange(pos as int, (pos + m) as int),
                cfg.modulus,
            ),
            final(self).mode == old(self).mode,
            final(self).permutation_calls == old(self).permutation_calls,
            old(cs).satisfied() ==> final(cs).satisfied(),
    {
        let p: u64 = cfg.modulus;
        let cap: usize = cfg.capacity;
        proof {
            assert(input@.len() == input.len());
        }
        let ghost rs0 = old(self).resolved_state(*old(cs));
        let ghost rin = resolved_vars(input@, old(cs).values@);
        let ghost start = cap + idx;
        let n: usize = self.state.len();
        for j in 0..m
            invariant
                cfg.dims_ok(),
                cs.wf(),
                cs.extends(*old(cs)),
                cs.modulus == cfg.modulus,
                p == cfg.modulus,
                cap == cfg.capacity,
                start == cap + idx,
                idx + m <= cfg.rate,
                pos + m <= input@.len(),
                input@.len() <= usize::MAX,
                n == self.state@.len() == old(self).state@.len(),
                n == cfg.width(),
                vars_wf(self.state@, cs.values@.len() as int, p),
                vars_wf(input@, cs.values@.len() as int, p),
                rs0 == resolved_vars(old(self).state@, old(cs).values@),
                rin == resolved_vars(input@, old(cs).values@),
                rin.len() == input@.len(),
                forall|k: int|
                    0 <= k < input@.len() ==> var_value(#[trigger] input@[k], cs.values@) == rin[k],
                forall|k: int|
                    0 <= k < n && !(start <= k < start + j) ==> self.state@[k] == old(self).state@[k],
                forall|k: int|
                    0 <= k < n && !(start <= k < start + j) ==> var_value(
                        #[trigger] self.state@[k],
                        cs.values@,
                    ) == rs0[k],
                forall|k: int|
                    start <= k < start + j ==> var_value(#[trigger] self.state@[k], cs.values@)
                        == fe_add_spec(rs0[k], rin[pos + (k - start)], p),
                self.mode == old(self).mode,
                self.permutation_calls == old(self).permutation_calls,
                old(cs).satisfied() ==> cs.satisfied(),
        {
            let si: usize = cap + idx + j;
            let ghost prev_cs = *cs;
            let ghost prev_state = self.state@;
            let v: FpVar = fp_add(cs, self.state[si], input[pos + j]);
            self.state[si] = v;
            proof {
                lemma_extends_trans(*old(cs), prev_cs, *cs);
                assert forall|k: int| 0 <= k < input@.len() implies var_value(
                    #[trigger] input@[k],
                    cs.values@,
                ) == rin[k] by {
                    lemma_var_value_prefix(input@[k], prev_cs.values@, cs.values@, p);
                }
                assert forall|k: int| 0 <= k < n && k != si implies var_value(
                    #[trigger] self.state@[k],
                    cs.values@,
                ) == var_value(prev_state[k], prev_cs.values@) by {
                    assert(self.state@[k] == prev_state[k]);
                    lemma_var_value_prefix(prev_state[k], prev_cs.values@, cs.values@, p);
                }
            }
        }
        proof {
            assert(resolved_vars(self.state@, cs.values@) =~= crate::duplex::add_at(
                rs0,
                start as int,
                rin.subrange(pos as int, (pos + m) as int),
                p,
            ));
        }
    }

    /// Absorbs the input values: the same automaton as the plain sponge,
    /// with every addition emitting its constraint. The resolved new state
    /// is exactly the plain automaton's transition on the resolved inputs.
    pub fn absorb(&mut self, cs: &mut ConstraintSystem, cfg: &RescueConfig, input: &Vec<FpVar>)
        requires
            cfg.dims_ok(),
            old(cs).wf(),
            old(cs).modulus == cfg.modulus,
            old(self).wf(*cfg, *old(cs)),
            vars_wf(input@, old(cs).values@.len() as int, cfg.modulus),
            old(self).permutation_calls + input@.len() + 1 <= u64::MAX,
        ensures
            final(cs).wf(),
            final(cs).extends(*old(cs)),
            final(cs).modulus == cfg.modulus,
            final(self).wf(*cfg, *final(cs)),
            ({
                let t = crate::duplex::absorb_trans(
                    *cfg,
                    old(self).resolved_state(*old(cs)),
                    old(self).mode,
                    resolved_vars(input@, old(cs).values@),
                );
                &&& final(self).resolved_state(*final(cs)) == t.0
                &&& final(self).mode == t.1
            }),
            final(self).permutation_calls == old(self).permutation_calls
                + crate::duplex::absorb_perm_count(*cfg, old(self).mode, input@.len()),
            old(cs).satisfied() && cfg.inverse_ok() ==> final(cs).satisfied(),
    {
        let p: u64 = cfg.modulus;
        if input.len() == 0 {
            return ;
        }
        let ghost rs0 = old(self).resolved_state(*old(cs));
        let ghost rin = resolved_vars(input@, old(cs).values@);
        let ghost t = crate::duplex::absorb_trans(*cfg, rs0, old(self).mode, rin);
        let ghost base = old(self).permutation_calls as nat;
        let ghost total = crate::duplex::absorb_perm_count(*cfg, old(self).mode, input@.len());
        proof {
            crate::duplex::lemma_absorb_perm_count_le(*cfg, old(self).mode, input@.len());
            assert(rin.len() == input@.len());
            assert(input@.len() == input.len());
        }
        let rate: usize = cfg.rate;
        let mut idx: usize = 0;
        match self.mode {
            DuplexSpongeMode::Absorbing { next_absorb_index } => {
                if next_absorb_index == rate {
                    self.permute(cs, cfg);
                    idx = 0;
                } else {
                    idx = next_absorb_index;
                }
            },
            DuplexSpongeMode::Squeezing { .. } => {
                self.permute(cs, cfg);
                idx = 0;
            },
        }
        proof {
            assert(rin.skip(0) =~= rin);
            assert forall|k: int| 0 <= k < input@.len() implies var_value(
                #[trigger] input@[k],
                cs.values@,
            ) == rin[k] by {
                lemma_var_value_prefix(input@[k], old(cs).values@, cs.values@, p);
            }
        }
        let mut pos: usize = 0;
        while input.len() - pos > rate - idx
            invariant
                cfg.dims_ok(),
                cs.wf(),
                cs.extends(*old(cs)),
                cs.modulus == cfg.modulus,
                p == cfg.modulus,
                self.wf(*cfg, *cs),
                rate == cfg.rate,
                idx < rate,
                pos <= input@.len(),
                input@.len() <= usize::MAX,
                vars_wf(input@, cs.values@.len() as int, p),
                rin == resolved_vars(input@, old(cs).values@),
                rin.len() == input@.len(),
                forall|k: int|
                    0 <= k < input@.len() ==> var_value(#[trigger] input@[k], cs.values@) == rin[k],
                crate::duplex::absorb_chunks(
                    *cfg,
                    resolved_vars(self.state@, cs.values@),
                    idx as int,
                    rin.skip(pos as int),
                ) == t,
                self.permutation_calls + crate::duplex::absorb_chunk_count(
                    *cfg,
                    idx as int,
                    (input@.len() - pos) as nat,
                ) == base + total,
                base + total <= u64::MAX,
                old(cs).satisfied() && cfg.inverse_ok() ==> cs.satisfied(),
            decreases input@.len() - pos,
        {
            let m: usize = rate - idx;
            let ghost prev_cs = *cs;
            let ghost prev_res = resolved_vars(self.state@, cs.values@);
            let ghost rem = rin.skip(pos as int);
            self.absorb_block(cs, cfg, idx, input, pos, m);
            let ghost mid_cs = *cs;
            proof {
                lemma_extends_trans(*old(cs), prev_cs, *cs);
                assert(resolved_vars(input@, prev_cs.values@) =~= rin);
                assert(rem.take(m as int) =~= rin.subrange(pos as int, (pos + m) as int));
            }
            self.permute(cs, cfg);
            proof {
                lemma_extends_trans(*old(cs), mid_cs, *cs);
                assert forall|k: int| 0 <= k < input@.len() implies var_value(
                    #[trigger] input@[k],
                    cs.values@,
                ) == rin[k] by {
                    lemma_var_value_prefix(input@[k], prev_cs.values@, mid_cs.values@, p);
                    lemma_var_value_prefix(input@[k], mid_cs.values@, cs.values@, p);
                }
                assert(rem.skip(m as int) =~= rin.skip((pos + m) as int));
                assert(crate::duplex::absorb_chunks(
                    *cfg,
                    resolved_vars(self.state@, cs.values@),
                    0int,
                    rin.skip((pos + m) as int),
                ) == t);
            }
            pos = pos + m;
            idx = 0;
        }
        let m: usize = input.len() - pos;
        let ghost rem = rin.skip(pos as int);
        let ghost prev_cs = *cs;
        self.absorb_block(cs, cfg, idx, input, pos, m);
        self.mode = DuplexSpongeMode::Absorbing { next_absorb_index: idx + m };
        proof {
            lemma_extends_trans(*old(cs), prev_cs, *cs);
            assert(resolved_vars(input@, prev_cs.values@) =~= rin);
            assert(rem =~= rin.subrange(pos as int, (pos + m) as int));
        }
    }

    /// Squeezes `num` circuit values: reads of the rate window allocate
    /// nothing and emit nothing; only the permutations between windows do.
    pub fn squeeze_field_elements(
        &mut self,
        cs: &mut ConstraintSystem,
        cfg: &RescueConfig,
        num: usize,
    ) -> (out: Vec<FpVar>)
        requires
            cfg.dims_ok(),
            old(cs).wf(),
            old(cs).modulus == cfg.modulus,
            old(self).wf(*cfg, *old(cs)),
            old(self).permutation_calls + num + 1 <= u64::MAX,
        ensures
            final(cs).wf(),
            final(cs).extends(*old(cs)),
            final(cs).modulus == cfg.modulus,
            final(self).wf(*cfg, *final(cs)),
            vars_wf(out@, final(cs).values@.len() as int, cfg.modulus),
            out@.len() == num,
            ({
                let t = crate::duplex::squeeze_trans(
                    *cfg,
                    old(self).resolved_state(*old(cs)),
                    old(self).mode,
                    num as nat,
                );
                &&& final(self).resolved_state(*final(cs)) == t.0
                &&& final(self).mode == t.1
                &&& resolved_vars(out@, final(cs).values@) == t.2
            }),
            final(self).permutation_calls == old(self).permutation_calls
                + crate::duplex::squeeze_perm_count(*cfg, old(self).mode, num as nat),
            old(cs).satisfied() && cfg.inverse_ok() ==> final(cs).satisfied(),
    {
        let p: u64 = cfg.modulus;
        let ghost t = crate::duplex::squeeze_trans(
            *cfg,
            old(self).resolved_state(*old(cs)),
            old(self).mode,
            num as nat,
        );
        let ghost base = old(self).permutation_calls as nat;
        let ghost total = crate::duplex::squeeze_perm_count(*cfg, old(self).mode, num as nat);
        proof {
            crate::duplex::lemma_squeeze_perm_count_le(*cfg, old(self).mode, num as nat);
        }
        let rate: usize = cfg.rate;
        let cap: usize = cfg.capacity;
        let mut idx: usize = 0;
        match self.mode {
            DuplexSpongeMode::Absorbing { .. } => {
                self.permute(cs, cfg);
                idx = 0;
            },
            DuplexSpongeMode::Squeezing { next_squeeze_index } => {
                if next_squeeze_index == rate {
                    self.permute(cs, cfg);
                    idx = 0;
                } else {
                    idx = next_squeeze_index;
                }
            },
        }
        let mut out: Vec<FpVar> = Vec::new();
        proof {
            assert(crate::duplex::squeeze_chunks(
                *cfg,
                resolved_vars(self.state@, cs.values@),
                idx as int,
                num as nat,
            ) == t);
            assert(resolved_vars(out@, cs.values@) =~= Seq::<u64>::empty());
            assert(Seq::<u64>::empty() + t.2 =~= t.2);
        }
        while num - out.len() > rate - idx
            invariant
                cfg.dims_ok(),
                cs.wf(),
                cs.extends(*old(cs)),
                cs.modulus == cfg.modulus,
                p == cfg.modulus,
                self.wf(*cfg, *cs),
                rate == cfg.rate,
                cap == cfg.capacity,
                idx < rate,
                out@.len() <= num,
                vars_wf(out@, cs.values@.len() as int, p),
                ({
                    let rest = crate::duplex::squeeze_chunks(
                        *cfg,
                        resolved_vars(self.state@, cs.values@),
                        idx as int,
                        (num - out@.len()) as nat,
                    );
                    &&& rest.0 == t.0
                    &&& rest.1 == t.1
                    &&& resolved_vars(out@, cs.values@) + rest.2 == t.2
                }),
                self.permutation_calls + crate::duplex::squeeze_chunk_count(
                    *cfg,
                    idx as int,
                    (num - out@.len()) as nat,
                ) == base + total,
                base + total <= u64::MAX,
                old(cs).satisfied() && cfg.inverse_ok() ==> cs.satisfied(),
            decreases num - out@.len(),
        {
            let m: usize = rate - idx;
            let ghost prev_out_res = resolved_vars(out@, cs.values@);
            let ghost prev_res = resolved_vars(self.state@, cs.values@);
            let ghost prev_out = out@;
            let ghost prev_state = self.state@;
            let ghost prev_mode = self.mode;
            let ghost prev_calls = self.permutation_calls;
            let ghost prev_cs = *cs;
            let ghost rem = (num - out@.len()) as nat;
            for j in 0..m
                invariant
                    cfg.dims_ok(),
                    *cs == prev_cs,
                    cs.wf(),
                    p == cfg.modulus,
                    cs.modulus == p,
                    self.state@ == prev_state,
                    self.wf(*cfg, *cs),
                    cap == cfg.capacity,
                    rate == cfg.rate,
                    idx + m <= rate,
                    out@ == prev_out + prev_state.subrange(
                        (cap + idx) as int,
                        (cap + idx + j) as int,
                    ),
                    vars_wf(out@, cs.values@.len() as int, p),
                    self.mode == prev_mode,
                    self.permutation_calls == prev_calls,
            {
                out.push(self.state[cap + idx + j]);
                proof {
                    assert(out@ =~= prev_out + prev_state.subrange(
                        (cap + idx) as int,
                        (cap + idx + j + 1) as int,
                    ));
                }
            }
            proof {
                assert(resolved_vars(out@, cs.values@) =~= prev_out_res + prev_res.subrange(
                    (cap + idx) as int,
                    (cap + rate) as int,
                ));
                let first = prev_res.subrange((cap + idx) as int, (cap + rate) as int);
                let rest = crate::duplex::squeeze_chunks(
                    *cfg,
                    permute_spec(*cfg, prev_res),
                    0,
                    (rem - m) as nat,
                );
                assert(crate::duplex::squeeze_chunks(*cfg, prev_res, idx as int, rem) == (
                    rest.0,
                    rest.1,
                    first + rest.2,
                ));
                assert(prev_out_res + (first + rest.2) =~= (prev_out_res + first) + rest.2);
            }
            let ghost mid_cs = *cs;
            self.permute(cs, cfg);
            proof {
                lemma_extends_trans(*old(cs), mid_cs, *cs);
                lemma_resolved_prefix(out@, mid_cs.values@, cs.values@, p);
            }
            idx = 0;
        }
        let m: usize = num - out.len();
        let ghost prev_out = out@;
        let ghost prev_state = self.state@;
        let ghost prev_mode = self.mode;
        let ghost prev_calls = self.permutation_calls;
        let ghost prev_cs = *cs;
        for j in 0..m
            invariant
                cfg.dims_ok(),
                *cs == prev_cs,
                cs.wf(),
                p == cfg.modulus,
                cs.modulus == p,
                self.state@ == prev_state,
                self.wf(*cfg, *cs),
                cap == cfg.capacity,
                rate == cfg.rate,
                idx + m <= rate,
                out@ == prev_out + prev_state.subrange((cap + idx) as int, (cap + idx + j) as int),
                vars_wf(out@, cs.values@.len() as int, p),
                self.mode == prev_mode,
                self.permutation_calls == prev_calls,
        {
            out.push(self.state[cap + idx + j]);
            proof {
                assert(out@ =~= prev_out + prev_state.subrange(
                    (cap + idx) as int,
                    (cap + idx + j + 1) as int,
                ));
            }
        }
        self.mode = DuplexSpongeMode::Squeezing { next_squeeze_index: idx + m };
        proof {
            assert(resolved_vars(out@, cs.values@) =~= resolved_vars(prev_out, cs.values@)
                + resolved_vars(self.state@, cs.values@).subrange(
                (cap + idx) as int,
                (cap + idx + m) as int,
            ));
        }
        out
    }
}

} // verus!
