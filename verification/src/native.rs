//! The duplex sponge over plain field elements, proved against the duplex
//! automaton model. A sponge holds only its state, its mode and a count of
//! the permutation calls it has made; the immutable configuration is passed
//! into every operation and may be shared by any number of sponges.

use vstd::prelude::*;
use crate::config::RescueConfig;
use crate::duplex::{
    absorb_chunk_count, absorb_chunks, absorb_perm_count, absorb_trans, add_at,
    lemma_absorb_perm_count_le, lemma_squeeze_perm_count_le, mode_ok, squeeze_chunk_count,
    squeeze_chunks, squeeze_perm_count, squeeze_trans, DuplexSpongeMode,
};
use crate::field::{all_fe_valid, fe_add, fe_valid};
use crate::permutation::{permute_spec, permute_state};

verus! {

/// The plain duplex sponge: state, mode, and how many permutations ran.
pub struct RescueSponge {
    /// The state: `rate + capacity` field elements.
    pub state: Vec<u64>,
    /// Which phase the sponge is in, and where in the rate window.
    pub mode: DuplexSpongeMode,
    /// How many times the permutation has been applied.
    pub permutation_calls: u64,
}

impl RescueSponge {
    /// The sponge fits the configuration: the state has the configured
    /// width, every element is a canonical residue, and the mode index is
    /// inside the rate window.
    pub open spec fn wf(self, cfg: RescueConfig) -> bool {
        &&& self.state@.len() == cfg.width()
        &&& all_fe_valid(self.state@, cfg.modulus)
        &&& mode_ok(self.mode, cfg.rate as int)
    }

    /// A fresh sponge: all-zero state, absorbing at position zero.
    pub fn new(cfg: &RescueConfig) -> (r: Self)
        requires
            cfg.dims_ok(),
        ensures
            r.wf(*cfg),
            r.state@ == Seq::new(cfg.width() as nat, |i: int| 0u64),
            r.mode == (DuplexSpongeMode::Absorbing { next_absorb_index: 0 }),
            r.permutation_calls == 0,
    {
        let width: usize = cfg.rate + cfg.capacity;
        let mut state: Vec<u64> = Vec::new();
        for i in 0..width
            invariant
                state@.len() == i,
                forall|k: int| 0 <= k < i ==> state@[k] == 0u64,
        {
            state.push(0u64);
        }
        proof {
            assert(state@ =~= Seq::new(cfg.width() as nat, |i: int| 0u64));
        }
        RescueSponge {
            state,
            mode: DuplexSpongeMode::Absorbing { next_absorb_index: 0 },
            permutation_calls: 0,
        }
    }

    /// Applies the permutation to the state and counts the call.
    fn permute(&mut self, cfg: &RescueConfig)
        requires
            cfg.dims_ok(),
            old(self).wf(*cfg),
            old(self).permutation_calls < u64::MAX,
        ensures
            final(self).wf(*cfg),
            final(self).state@ == permute_spec(*cfg, old(self).state@),
            final(self).mode == old(self).mode,
            final(self).permutation_calls == old(self).permutation_calls + 1,
    {
        permute_state(cfg, &mut self.state);
        self.permutation_calls = self.permutation_calls + 1;
    }

    /// Adds `m` input elements, starting at `pos` of the input, into the
    /// rate window starting at position `idx`.
    fn absorb_block(&mut self, cfg: &RescueConfig, idx: usize, input: &Vec<u64>, pos: usize, m: usize)
        requires
            cfg.dims_ok(),
            old(self).wf(*cfg),
            idx + m <= cfg.rate,
            pos + m <= input@.len(),
            all_fe_valid(input@, cfg.modulus),
        ensures
            final(self).wf(*cfg),
            final(self).state@ == add_at(
                old(self).state@,
                cfg.capacity + idx,
                input@.subrange(pos as int, (pos + m) as int),
                cfg.modulus,
            ),
            final(self).mode == old(self).mode,
            final(self).permutation_calls == old(self).permutation_calls,
    {
        let cap: usize = cfg.capacity;
        proof {
            assert(input@.len() == input.len());
        }
        let ghost s0 = old(self).state@;
        let ghost elems = input@.subrange(pos as int, (pos + m) as int);
        for j in 0..m
            invariant
                cfg.dims_ok(),
                self.wf(*cfg),
                cap == cfg.capacity,
                idx + m <= cfg.rate,
                pos + m <= input@.len(),
                all_fe_valid(input@, cfg.modulus),
                all_fe_valid(s0, cfg.modulus),
                input@.len() <= usize::MAX,
                elems == input@.subrange(pos as int, (pos + m) as int),
                s0.len() == self.state@.len(),
                self.state@ == add_at(s0, cap + idx, elems.take(j as int), cfg.modulus),
                self.mode == old(self).mode,
                self.permutation_calls == old(self).permutation_calls,
                s0 == old(self).state@,
        {
            let si: usize = cap + idx + j;
            let v: u64 = fe_add(self.state[si], input[pos + j], cfg.modulus);
            self.state[si] = v;
            proof {
                assert(self.state@ =~= add_at(s0, cap + idx, elems.take(j + 1), cfg.modulus));
            }
        }
        proof {
            assert(elems.take(m as int) =~= elems);
        }
    }

    /// Absorbs the input: elements are added into the rate window, the
    /// state permuting whenever the window fills; a sponge that was
    /// squeezing permutes once before the first element goes in.
    pub fn absorb(&mut self, cfg: &RescueConfig, input: &Vec<u64>)
        requires
            cfg.dims_ok(),
            old(self).wf(*cfg),
            all_fe_valid(input@, cfg.modulus),
            old(self).permutation_calls + input@.len() + 1 <= u64::MAX,
        ensures
            final(self).wf(*cfg),
            (final(self).state@, final(self).mode) == absorb_trans(
                *cfg,
                old(self).state@,
                old(self).mode,
                input@,
            ),
            final(self).permutation_calls == old(self).permutation_calls + absorb_perm_count(
                *cfg,
                old(self).mode,
                input@.len(),
            ),
    {
        if input.len() == 0 {
            return ;
        }
        let ghost t = absorb_trans(*cfg, old(self).state@, old(self).mode, input@);
        let ghost base = old(self).permutation_calls as nat;
        let ghost total = absorb_perm_count(*cfg, old(self).mode, input@.len());
        proof {
            lemma_absorb_perm_count_le(*cfg, old(self).mode, input@.len());
        }
        let rate: usize = cfg.rate;
        let mut idx: usize = 0;
        match self.mode {
            DuplexSpongeMode::Absorbing { next_absorb_index } => {
                if next_absorb_index == rate {
                    self.permute(cfg);
                    idx = 0;
                } else {
                    idx = next_absorb_index;
                }
            },
            DuplexSpongeMode::Squeezing { .. } => {
                self.permute(cfg);
                idx = 0;
            },
        }
        proof {
            assert(input@.skip(0) =~= input@);
        }
        let mut pos: usize = 0;
        while input.len() - pos > rate - idx
            invariant
                cfg.dims_ok(),
                self.wf(*cfg),
                rate == cfg.rate,
                idx < rate,
                pos <= input@.len(),
                all_fe_valid(input@, cfg.modulus),
                absorb_chunks(*cfg, self.state@, idx as int, input@.skip(pos as int)) == t,
                self.permutation_calls + absorb_chunk_count(
                    *cfg,
                    idx as int,
                    (input@.len() - pos) as nat,
                ) == base + total,
                base + total <= u64::MAX,
            decreases input@.len() - pos,
        {
            let m: usize = rate - idx;
            let ghost prev_state = self.state@;
            let ghost rem = input@.skip(pos as int);
            self.absorb_block(cfg, idx, input, pos, m);
            proof {
                assert(rem.take(m as int) =~= input@.subrange(pos as int, (pos + m) as int));
            }
            self.permute(cfg);
            proof {
                assert(rem.skip(m as int) =~= input@.skip((pos + m) as int));
                assert(absorb_chunks(*cfg, self.state@, 0int, input@.skip((pos + m) as int)) == t);
            }
            pos = pos + m;
            idx = 0;
        }
        let m: usize = input.len() - pos;
        let ghost rem = input@.skip(pos as int);
        self.absorb_block(cfg, idx, input, pos, m);
        self.mode = DuplexSpongeMode::Absorbing { next_absorb_index: idx + m };
        proof {
            assert(rem =~= input@.subrange(pos as int, (pos + m) as int));
        }
    }

    /// Squeezes `num` field elements: elements are read from the rate
    /// window, the state permuting whenever the window is exhausted; a
    /// sponge that was absorbing permutes once before the first element
    /// comes out.
    pub fn squeeze_native_field_elements(&mut self, cfg: &RescueConfig, num: usize) -> (out: Vec<
        u64,
    >)
        requires
            cfg.dims_ok(),
            old(self).wf(*cfg),
            old(self).permutation_calls + num + 1 <= u64::MAX,
        ensures
            final(self).wf(*cfg),
            ({
                let t = squeeze_trans(*cfg, old(self).state@, old(self).mode, num as nat);
                &&& final(self).state@ == t.0
                &&& final(self).mode == t.1
                &&& out@ == t.2
            }),
            out@.len() == num,
            all_fe_valid(out@, cfg.modulus),
            final(self).permutation_calls == old(self).permutation_calls + squeeze_perm_count(
                *cfg,
                old(self).mode,
                num as nat,
            ),
    {
        let ghost t = squeeze_trans(*cfg, old(self).state@, old(self).mode, num as nat);
        let ghost base = old(self).permutation_calls as nat;
        let ghost total = squeeze_perm_count(*cfg, old(self).mode, num as nat);
        proof {
            lemma_squeeze_perm_count_le(*cfg, old(self).mode, num as nat);
        }
        let rate: usize = cfg.rate;
        let cap: usize = cfg.capacity;
        let mut idx: usize = 0;
        match self.mode {
            DuplexSpongeMode::Absorbing { .. } => {
                self.permute(cfg);
                idx = 0;
            },
            DuplexSpongeMode::Squeezing { next_squeeze_index } => {
                if next_squeeze_index == rate {
                    self.permute(cfg);
                    idx = 0;
                } else {
                    idx = next_squeeze_index;
                }
            },
        }
        let mut out: Vec<u64> = Vec::new();
        proof {
            assert(squeeze_chunks(*cfg, self.state@, idx as int, num as nat) == t);
            assert(out@ + t.2 =~= t.2);
        }
        while num - out.len() > rate - idx
            invariant
                cfg.dims_ok(),
                self.wf(*cfg),
                rate == cfg.rate,
                cap == cfg.capacity,
                idx < rate,
                out@.len() <= num,
                all_fe_valid(out@, cfg.modulus),
                ({
                    let rest = squeeze_chunks(
                        *cfg,
                        self.state@,
                        idx as int,
                        (num - out@.len()) as nat,
                    );
                    &&& rest.0 == t.0
                    &&& rest.1 == t.1
                    &&& out@ + rest.2 == t.2
                }),
                self.permutation_calls + squeeze_chunk_count(
                    *cfg,
                    idx as int,
                    (num - out@.len()) as nat,
                ) == base + total,
                base + total <= u64::MAX,
            decreases num - out@.len(),
        {
            let m: usize = rate - idx;
            let ghost prev_out = out@;
            let ghost prev_state = self.state@;
            let ghost prev_mode = self.mode;
            let ghost prev_calls = self.permutation_calls;
            let ghost rem = (num - out@.len()) as nat;
            for j in 0..m
                invariant
                    cfg.dims_ok(),
                    self.state@ == prev_state,
                    self.wf(*cfg),
                    cap == cfg.capacity,
                    rate == cfg.rate,
                    idx + m <= rate,
                    out@ == prev_out + prev_state.subrange(
                        (cap + idx) as int,
                        (cap + idx + j) as int,
                    ),
                    all_fe_valid(out@, cfg.modulus),
                    self.mode == prev_mode,
                    self.permutation_calls == prev_calls,
            {
                out.push(self.state[cap + idx + j]);
                proof {
                    assert(out@ =~= prev_out + prev_state.subrange(
                        (cap + idx) as int,
                        (cap + idx + j + 1) as int,
                    ));
                }
            }
            proof {
                // One chunk of the model: the rate window from `idx` on,
                // then a permutation and the rest from position zero.
                let first = prev_state.subrange((cap + idx) as int, (cap + rate) as int);
                let rest = squeeze_chunks(*cfg, permute_spec(*cfg, prev_state), 0, (rem - m) as nat);
                assert(squeeze_chunks(*cfg, prev_state, idx as int, rem) == (
                    rest.0,
                    rest.1,
                    first + rest.2,
                ));
                assert(prev_out + (first + rest.2) =~= (prev_out + first) + rest.2);
            }
            self.permute(cfg);
            idx = 0;
        }
        let m: usize = num - out.len();
        let ghost prev_out = out@;
        let ghost prev_state = self.state@;
        let ghost prev_mode = self.mode;
        let ghost prev_calls = self.permutation_calls;
        for j in 0..m
            invariant
                cfg.dims_ok(),
                self.state@ == prev_state,
                self.wf(*cfg),
                cap == cfg.capacity,
                rate == cfg.rate,
                idx + m <= rate,
                out@ == prev_out + prev_state.subrange((cap + idx) as int, (cap + idx + j) as int),
                all_fe_valid(out@, cfg.modulus),
                self.mode == prev_mode,
                self.permutation_calls == prev_calls,
        {
            out.push(self.state[cap + idx + j]);
            proof {
                assert(out@ =~= prev_out + prev_state.subrange(
                    (cap + idx) as int,
                    (cap + idx + j + 1) as int,
                ));
            }
        }
        self.mode = DuplexSpongeMode::Squeezing { next_squeeze_index: idx + m };
        out
    }
}

} // verus!
