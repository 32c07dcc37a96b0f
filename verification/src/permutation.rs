//! The algebraic permutation: a nonlinear power map, a linear mixing matrix
//! and round-constant addition, alternating the direction of the power map
//! by round parity. The specification functions here are the single
//! mathematical model that both the plain and the constraint-emitting
//! backend are proved against.

use vstd::prelude::*;
use crate::config::RescueConfig;
use crate::field::{
    all_fe_valid, fe_add, fe_add_spec, fe_mul, fe_mul_spec, fe_pow, fe_pow_spec, fe_valid,
};

verus! {

/// The nonlinear layer: every state element raised to the exponent.
pub open spec fn sbox_spec(s: Seq<u64>, e: u64, p: u64) -> Seq<u64> {
    s.map_values(|x: u64| fe_pow_spec(x, e, p))
}

/// Dot product of the first `n` entries of a matrix row with the state.
pub open spec fn dot_spec(row: Seq<u64>, s: Seq<u64>, p: u64, n: int) -> u64
    decreases n,
{
    if n <= 0 {
        0u64
    } else {
        fe_add_spec(dot_spec(row, s, p, n - 1), fe_mul_spec(row[n - 1], s[n - 1], p), p)
    }
}

/// The linear layer: the state multiplied by the mixing matrix.
pub open spec fn mix_spec(mat: Seq<Seq<u64>>, s: Seq<u64>, p: u64) -> Seq<u64> {
    Seq::new(s.len(), |i: int| dot_spec(mat[i], s, p, s.len() as int))
}

/// Round-constant addition: one constant vector added element-wise.
pub open spec fn ark_spec(s: Seq<u64>, key: Seq<u64>, p: u64) -> Seq<u64> {
    Seq::new(s.len(), |i: int| fe_add_spec(s[i], key[i], p))
}

/// The exponent a given round applies: even rounds use the inverse
/// exponent, odd rounds the forward one.
pub open spec fn round_exponent(cfg: RescueConfig, r: int) -> u64 {
    if r % 2 == 0 {
        cfg.alpha_inv
    } else {
        cfg.alpha
    }
}

/// The rounds from `r` on: each applies the nonlinear layer, the mixing
/// matrix and the next round-constant vector.
pub open spec fn rounds_spec(cfg: RescueConfig, s: Seq<u64>, r: int) -> Seq<u64>
    decreases 2 * cfg.rounds - r,
{
    if r < 0 || r >= 2 * cfg.rounds {
        s
    } else {
        rounds_spec(
            cfg,
            ark_spec(
                mix_spec(cfg.mat(), sbox_spec(s, round_exponent(cfg, r), cfg.modulus), cfg.modulus),
                cfg.arcs()[r + 1],
                cfg.modulus,
            ),
            r + 1,
        )
    }
}

/// The full permutation: round-constant vector zero, then all rounds.
pub open spec fn permute_spec(cfg: RescueConfig, s: Seq<u64>) -> Seq<u64> {
    rounds_spec(cfg, ark_spec(s, cfg.arcs()[0], cfg.modulus), 0)
}

/// Applies the nonlinear layer in place; `forward` picks the exponent.
pub(crate) fn apply_s_box(cfg: &RescueConfig, state: &mut Vec<u64>, forward: bool)
    requires
        cfg.dims_ok(),
        all_fe_valid(old(state)@, cfg.modulus),
    ensures
        final(state)@ == sbox_spec(
            old(state)@,
            if forward {
                cfg.alpha
            } else {
                cfg.alpha_inv
            },
            cfg.modulus,
        ),
        final(state)@.len() == old(state)@.len(),
        all_fe_valid(final(state)@, cfg.modulus),
{
    let e: u64 = if forward {
        cfg.alpha
    } else {
        cfg.alpha_inv
    };
    let n: usize = state.len();
    for i in 0..n
        invariant
            n == state@.len(),
            n == old(state)@.len(),
            cfg.modulus >= 2,
            all_fe_valid(old(state)@, cfg.modulus),
            all_fe_valid(state@, cfg.modulus),
            forall|k: int| 0 <= k < i ==> state@[k] == fe_pow_spec(#[trigger] old(state)@[k], e, cfg.modulus),
            forall|k: int| i <= k < n ==> state@[k] == old(state)@[k],
    {
        let v: u64 = fe_pow(state[i], e, cfg.modulus);
        state[i] = v;
    }
    proof {
        assert(state@ =~= sbox_spec(old(state)@, e, cfg.modulus));
    }
}

/// Adds round-constant vector `round` in place.
pub(crate) fn apply_ark(cfg: &RescueConfig, state: &mut Vec<u64>, round: usize)
    requires
        cfg.dims_ok(),
        old(state)@.len() == cfg.width(),
        all_fe_valid(old(state)@, cfg.modulus),
        round < cfg.arc.len(),
    ensures
        final(state)@ == ark_spec(old(state)@, cfg.arcs()[round as int], cfg.modulus),
        final(state)@.len() == old(state)@.len(),
        all_fe_valid(final(state)@, cfg.modulus),
{
    let key: &Vec<u64> = &cfg.arc[round];
    proof {
        assert(cfg.arcs()[round as int] == key@);
    }
    let n: usize = state.len();
    for i in 0..n
        invariant
            n == state@.len(),
            n == old(state)@.len(),
            n == cfg.width(),
            cfg.modulus >= 2,
            key@ == cfg.arcs()[round as int],
            key@.len() == n,
            all_fe_valid(key@, cfg.modulus),
            all_fe_valid(old(state)@, cfg.modulus),
            all_fe_valid(state@, cfg.modulus),
            forall|k: int|
                0 <= k < i ==> state@[k] == fe_add_spec(
                    #[trigger] old(state)@[k],
                    key@[k],
                    cfg.modulus,
                ),
            forall|k: int| i <= k < n ==> state@[k] == old(state)@[k],
    {
        let v: u64 = fe_add(state[i], key[i], cfg.modulus);
        state[i] = v;
    }
    proof {
        assert(state@ =~= ark_spec(old(state)@, cfg.arcs()[round as int], cfg.modulus));
    }
}

/// Applies the mixing matrix: each new element is the dot product of a
/// matrix row with the old state.
pub(crate) fn apply_mds(cfg: &RescueConfig, state: &mut Vec<u64>)
    requires
        cfg.dims_ok(),
        old(state)@.len() == cfg.width(),
        all_fe_valid(old(state)@, cfg.modulus),
    ensures
        final(state)@ == mix_spec(cfg.mat(), old(state)@, cfg.modulus),
        final(state)@.len() == old(state)@.len(),
        all_fe_valid(final(state)@, cfg.modulus),
{
    let p: u64 = cfg.modulus;
    let n: usize = state.len();
    let mut new_state: Vec<u64> = Vec::new();
    for i in 0..n
        invariant
            n == state@.len(),
            state@ == old(state)@,
            n == cfg.width(),
            cfg.dims_ok(),
            p == cfg.modulus,
            all_fe_valid(state@, p),
            new_state@.len() == i,
            all_fe_valid(new_state@, p),
            forall|k: int|
                0 <= k < i ==> new_state@[k] == dot_spec(#[trigger] cfg.mat()[k], state@, p, n as int),
    {
        let row: &Vec<u64> = &cfg.mds[i];
        proof {
            assert(cfg.mat()[i as int] == row@);
        }
        let mut cur: u64 = 0;
        for j in 0..n
            invariant
                n == state@.len(),
                state@ == old(state)@,
                n == cfg.width(),
                p == cfg.modulus,
                p >= 2,
                all_fe_valid(state@, p),
                row@.len() == n,
                all_fe_valid(row@, p),
                fe_valid(cur, p),
                cur == dot_spec(row@, state@, p, j as int),
        {
            let t: u64 = fe_mul(row[j], state[j], p);
            cur = fe_add(cur, t, p);
        }
        new_state.push(cur);
        proof {
            assert(new_state@[i as int] == dot_spec(cfg.mat()[i as int], state@, p, n as int));
        }
    }
    *state = new_state;
    proof {
        assert(state@ =~= mix_spec(cfg.mat(), old(state)@, cfg.modulus));
    }
}

/// The full permutation in place: constant vector zero, then `2 * rounds`
/// rounds of nonlinear layer, mixing and the next constant vector.
pub fn permute_state(cfg: &RescueConfig, state: &mut Vec<u64>)
    requires
        cfg.dims_ok(),
        old(state)@.len() == cfg.width(),
        all_fe_valid(old(state)@, cfg.modulus),
    ensures
        final(state)@ == permute_spec(*cfg, old(state)@),
        final(state)@.len() == old(state)@.len(),
        all_fe_valid(final(state)@, cfg.modulus),
{
    apply_ark(cfg, state, 0);
    let total: usize = 2 * cfg.rounds;
    for r in 0..total
        invariant
            total == 2 * cfg.rounds,
            cfg.dims_ok(),
            state@.len() == cfg.width(),
            all_fe_valid(state@, cfg.modulus),
            rounds_spec(*cfg, state@, r as int) == permute_spec(*cfg, old(state)@),
    {
        let forward: bool = r % 2 == 1;
        let ghost before = state@;
        apply_s_box(cfg, state, forward);
        apply_mds(cfg, state);
        apply_ark(cfg, state, r + 1);
        proof {
            assert(state@ == ark_spec(
                mix_spec(
                    cfg.mat(),
                    sbox_spec(before, round_exponent(*cfg, r as int), cfg.modulus),
                    cfg.modulus,
                ),
                cfg.arcs()[r + 1],
                cfg.modulus,
            ));
            assert(rounds_spec(*cfg, before, r as int) == rounds_spec(*cfg, state@, r + 1));
        }
    }
}

} // verus!
