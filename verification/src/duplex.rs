//! The duplex automaton: one mathematical model of absorbing and squeezing,
//! shared by the plain sponge and the constraint-emitting sponge. The model
//! returns the new state and mode; separate counting functions give the
//! exact number of permutation calls each operation makes.

use vstd::prelude::*;
use crate::config::RescueConfig;
use crate::field::fe_add_spec;
use crate::permutation::permute_spec;

verus! {

/// Whether the sponge is collecting input or producing output, and how far
/// into the rate window the next element goes or comes from.
#[derive(Clone, Copy, PartialEq, Eq, Structural, Debug)]
pub enum DuplexSpongeMode {
    /// Input is being added at `next_absorb_index` of the rate window.
    Absorbing { next_absorb_index: usize },
    /// Output is being read at `next_squeeze_index` of the rate window.
    Squeezing { next_squeeze_index: usize },
}

/// The mode index never passes the rate.
pub open spec fn mode_ok(m: DuplexSpongeMode, rate: int) -> bool {
    match m {
        DuplexSpongeMode::Absorbing { next_absorb_index } => next_absorb_index <= rate,
        DuplexSpongeMode::Squeezing { next_squeeze_index } => next_squeeze_index <= rate,
    }
}

/// The state with `elems` added element-wise from position `start` on.
pub open spec fn add_at(s: Seq<u64>, start: int, elems: Seq<u64>, p: u64) -> Seq<u64> {
    Seq::new(
        s.len(),
        |i: int|
            if start <= i < start + elems.len() {
                fe_add_spec(s[i], elems[i - start], p)
            } else {
                s[i]
            },
    )
}

/// Absorbing from rate position `idx`: whatever fits in the rate window is
/// added; on reaching the boundary the state is permuted and absorption
/// continues at position zero.
pub open spec fn absorb_chunks(cfg: RescueConfig, s: Seq<u64>, idx: int, elems: Seq<u64>) -> (
    Seq<u64>,
    DuplexSpongeMode,
)
    decreases elems.len(),
{
    if idx + elems.len() <= cfg.rate {
        (
            add_at(s, cfg.capacity + idx, elems, cfg.modulus),
            DuplexSpongeMode::Absorbing { next_absorb_index: (idx + elems.len()) as usize },
        )
    } else if idx < 0 || idx >= cfg.rate {
        (s, DuplexSpongeMode::Absorbing { next_absorb_index: 0 })
    } else {
        let chunk = cfg.rate - idx;
        absorb_chunks(
            cfg,
            permute_spec(cfg, add_at(s, cfg.capacity + idx, elems.take(chunk), cfg.modulus)),
            0,
            elems.skip(chunk),
        )
    }
}

/// One absorb call: empty input changes nothing; squeezed output is never
/// silently reused as absorption input, so leaving squeezing mode, like
/// meeting a full rate window, forces one permutation first.
pub open spec fn absorb_trans(
    cfg: RescueConfig,
    s: Seq<u64>,
    m: DuplexSpongeMode,
    input: Seq<u64>,
) -> (Seq<u64>, DuplexSpongeMode) {
    if input.len() == 0 {
        (s, m)
    } else {
        match m {
            DuplexSpongeMode::Absorbing { next_absorb_index } => {
                if next_absorb_index == cfg.rate {
                    absorb_chunks(cfg, permute_spec(cfg, s), 0, input)
                } else {
                    absorb_chunks(cfg, s, next_absorb_index as int, input)
                }
            },
            DuplexSpongeMode::Squeezing { .. } => {
                absorb_chunks(cfg, permute_spec(cfg, s), 0, input)
            },
        }
    }
}

/// How many permutations `absorb_chunks` makes.
pub open spec fn absorb_chunk_count(cfg: RescueConfig, idx: int, len: nat) -> nat
    decreases len,
{
    if idx + len <= cfg.rate || idx < 0 || idx >= cfg.rate {
        0
    } else {
        1 + absorb_chunk_count(cfg, 0, (len - (cfg.rate - idx)) as nat)
    }
}

/// How many permutations one absorb call makes.
pub open spec fn absorb_perm_count(cfg: RescueConfig, m: DuplexSpongeMode, len: nat) -> nat {
    if len == 0 {
        0
    } else {
        match m {
            DuplexSpongeMode::Absorbing { next_absorb_index } => {
                if next_absorb_index == cfg.rate {
                    1 + absorb_chunk_count(cfg, 0, len)
                } else {
                    absorb_chunk_count(cfg, next_absorb_index as int, len)
                }
            },
            DuplexSpongeMode::Squeezing { .. } => 1 + absorb_chunk_count(cfg, 0, len),
        }
    }
}

/// Absorbing `len` elements permutes at most `len` times within the chunk
/// loop: every permutation consumes at least one element.
pub proof fn lemma_absorb_chunk_count_le(cfg: RescueConfig, idx: int, len: nat)
    ensures
        absorb_chunk_count(cfg, idx, len) <= len,
    decreases len,
{
    if !(idx + len <= cfg.rate || idx < 0 || idx >= cfg.rate) {
        lemma_absorb_chunk_count_le(cfg, 0, (len - (cfg.rate - idx)) as nat);
    }
}

/// One absorb call permutes at most once more than it has input elements.
pub proof fn lemma_absorb_perm_count_le(cfg: RescueConfig, m: DuplexSpongeMode, len: nat)
    ensures
        absorb_perm_count(cfg, m, len) <= len + 1,
{
    if len > 0 {
        match m {
            DuplexSpongeMode::Absorbing { next_absorb_index } => {
                lemma_absorb_chunk_count_le(cfg, 0, len);
                lemma_absorb_chunk_count_le(cfg, next_absorb_index as int, len);
            },
            DuplexSpongeMode::Squeezing { .. } => {
                lemma_absorb_chunk_count_le(cfg, 0, len);
            },
        }
    }
}

/// Squeezing from rate position `idx`: whatever the rate window still
/// offers is read; at the boundary the state is permuted and reading
/// continues at position zero.
pub open spec fn squeeze_chunks(cfg: RescueConfig, s: Seq<u64>, idx: int, n: nat) -> (
    Seq<u64>,
    DuplexSpongeMode,
    Seq<u64>,
)
    decreases n,
{
    if idx + n <= cfg.rate {
        (
            s,
            DuplexSpongeMode::Squeezing { next_squeeze_index: (idx + n) as usize },
            s.subrange(cfg.capacity + idx, cfg.capacity + idx + n),
        )
    } else if idx < 0 || idx >= cfg.rate {
        (s, DuplexSpongeMode::Squeezing { next_squeeze_index: 0 }, Seq::empty())
    } else {
        let chunk = cfg.rate - idx;
        let first = s.subrange(cfg.capacity + idx, cfg.capacity + cfg.rate);
        let rest = squeeze_chunks(cfg, permute_spec(cfg, s), 0, (n - chunk) as nat);
        (rest.0, rest.1, first + rest.2)
    }
}

/// One squeeze call: leaving absorbing mode, like meeting an exhausted rate
/// window, forces one permutation first.
pub open spec fn squeeze_trans(cfg: RescueConfig, s: Seq<u64>, m: DuplexSpongeMode, n: nat) -> (
    Seq<u64>,
    DuplexSpongeMode,
    Seq<u64>,
) {
    match m {
        DuplexSpongeMode::Absorbing { .. } => squeeze_chunks(cfg, permute_spec(cfg, s), 0, n),
        DuplexSpongeMode::Squeezing { next_squeeze_index } => {
            if next_squeeze_index == cfg.rate {
                squeeze_chunks(cfg, permute_spec(cfg, s), 0, n)
            } else {
                squeeze_chunks(cfg, s, next_squeeze_index as int, n)
            }
        },
    }
}

/// How many permutations `squeeze_chunks` makes.
pub open spec fn squeeze_chunk_count(cfg: RescueConfig, idx: int, n: nat) -> nat
    decreases n,
{
    if idx + n <= cfg.rate || idx < 0 || idx >= cfg.rate {
        0
    } else {
        1 + squeeze_chunk_count(cfg, 0, (n - (cfg.rate - idx)) as nat)
    }
}

/// How many permutations one squeeze call makes.
pub open spec fn squeeze_perm_count(cfg: RescueConfig, m: DuplexSpongeMode, n: nat) -> nat {
    match m {
        DuplexSpongeMode::Absorbing { .. } => 1 + squeeze_chunk_count(cfg, 0, n),
        DuplexSpongeMode::Squeezing { next_squeeze_index } => {
            if next_squeeze_index == cfg.rate {
                1 + squeeze_chunk_count(cfg, 0, n)
            } else {
                squeeze_chunk_count(cfg, next_squeeze_index as int, n)
            }
        },
    }
}

/// Squeezing `n` elements permutes at most `n` times within the chunk loop.
pub proof fn lemma_squeeze_chunk_count_le(cfg: RescueConfig, idx: int, n: nat)
    ensures
        squeeze_chunk_count(cfg, idx, n) <= n,
    decreases n,
{
    if !(idx + n <= cfg.rate || idx < 0 || idx >= cfg.rate) {
        lemma_squeeze_chunk_count_le(cfg, 0, (n - (cfg.rate - idx)) as nat);
    }
}

/// One squeeze call permutes at most once more than it produces elements.
pub proof fn lemma_squeeze_perm_count_le(cfg: RescueConfig, m: DuplexSpongeMode, n: nat)
    ensures
        squeeze_perm_count(cfg, m, n) <= n + 1,
{
    match m {
        DuplexSpongeMode::Absorbing { .. } => {
            lemma_squeeze_chunk_count_le(cfg, 0, n);
        },
        DuplexSpongeMode::Squeezing { next_squeeze_index } => {
            lemma_squeeze_chunk_count_le(cfg, 0, n);
            lemma_squeeze_chunk_count_le(cfg, next_squeeze_index as int, n);
        },
    }
}

} // verus!
