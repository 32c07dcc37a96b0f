//! Laws of the duplex automaton, stated and proved over the shared model
//! that both backends' contracts refer to.

use vstd::prelude::*;
use crate::config::RescueConfig;
use crate::duplex::{
    absorb_perm_count, absorb_trans, squeeze_perm_count, squeeze_trans, DuplexSpongeMode,
};

verus! {

/// Determinism: identical configuration and identical state produce
/// identical output on every invocation — an absorb or squeeze is a pure
/// function of configuration, state, mode and input alone.
pub proof fn lemma_sponge_deterministic(
    cfg: RescueConfig,
    s1: Seq<u64>,
    m1: DuplexSpongeMode,
    s2: Seq<u64>,
    m2: DuplexSpongeMode,
    input: Seq<u64>,
    n: nat,
)
    requires
        s1 == s2,
        m1 == m2,
    ensures
        absorb_trans(cfg, s1, m1, input) == absorb_trans(cfg, s2, m2, input),
        squeeze_trans(cfg, s1, m1, n) == squeeze_trans(cfg, s2, m2, n),
        absorb_perm_count(cfg, m1, input.len()) == absorb_perm_count(cfg, m2, input.len()),
        squeeze_perm_count(cfg, m1, n) == squeeze_perm_count(cfg, m2, n),
{
}

/// Crossing the squeeze-to-absorb mode boundary triggers exactly one extra
/// permutation call beyond what the same input absorbed from a fresh
/// absorbing position would require.
pub proof fn lemma_absorb_boundary_cost(cfg: RescueConfig, j: usize, len: nat)
    requires
        cfg.rate >= 1,
        len > 0,
    ensures
        absorb_perm_count(cfg, DuplexSpongeMode::Squeezing { next_squeeze_index: j }, len) == 1
            + absorb_perm_count(cfg, DuplexSpongeMode::Absorbing { next_absorb_index: 0 }, len),
{
}

/// Crossing the absorb-to-squeeze mode boundary triggers exactly one extra
/// permutation call beyond what the same output squeezed from a fresh
/// squeezing position would require.
pub proof fn lemma_squeeze_boundary_cost(cfg: RescueConfig, j: usize, n: nat)
    requires
        cfg.rate >= 1,
    ensures
        squeeze_perm_count(cfg, DuplexSpongeMode::Absorbing { next_absorb_index: j }, n) == 1
            + squeeze_perm_count(cfg, DuplexSpongeMode::Squeezing { next_squeeze_index: 0 }, n),
{
}

} // verus!
