//! The hash adapter: a one-input hash and a two-to-one compression over the
//! sponge, in both backends. The circuit variants resolve to exactly the
//! plain variants' results; when every operand is a compile-time constant
//! they emit nothing and compute directly.

use vstd::prelude::*;
use crate::config::RescueConfig;
use crate::duplex::{absorb_trans, squeeze_trans, DuplexSpongeMode};
use crate::emitter::{
    lemma_resolved_prefix, lemma_var_value_prefix, resolved_vars, var_value, var_wf, vars_wf,
    ConstraintSystem, FpVar,
};
use crate::field::{all_fe_valid, fe_valid};
use crate::gadget::RescueSpongeVar;
use crate::native::RescueSponge;

verus! {

/// The all-zero state a fresh sponge starts from.
pub open spec fn fresh_state(cfg: RescueConfig) -> Seq<u64> {
    Seq::new(cfg.width() as nat, |i: int| 0u64)
}

/// The mode a fresh sponge starts in.
pub open spec fn fresh_mode() -> DuplexSpongeMode {
    DuplexSpongeMode::Absorbing { next_absorb_index: 0 }
}

/// What the one-input hash returns: absorb the whole input into a fresh
/// sponge, then squeeze one element.
pub open spec fn evaluate_spec(cfg: RescueConfig, input: Seq<u64>) -> u64 {
    let a = absorb_trans(cfg, fresh_state(cfg), fresh_mode(), input);
    squeeze_trans(cfg, a.0, a.1, 1).2[0]
}

/// What the two-to-one compression returns: absorb the left input, then
/// the right — the order matters — then squeeze `output_size` elements and
/// return the first.
pub open spec fn compress_spec(cfg: RescueConfig, left: u64, right: u64) -> u64 {
    let a1 = absorb_trans(cfg, fresh_state(cfg), fresh_mode(), seq![left]);
    let a2 = absorb_trans(cfg, a1.0, a1.1, seq![right]);
    squeeze_trans(cfg, a2.0, a2.1, cfg.output_size as nat).2[0]
}

/// The one-input hash over plain field elements.
pub struct CRH;

impl CRH {
    /// Hashes a sequence of field elements to one field element.
    pub fn evaluate(parameters: &RescueConfig, input: &Vec<u64>) -> (r: u64)
        requires
            parameters.dims_ok(),
            all_fe_valid(input@, parameters.modulus),
            input@.len() + 3 <= u64::MAX,
        ensures
            r == evaluate_spec(*parameters, input@),
            fe_valid(r, parameters.modulus),
    {
        let mut sponge = RescueSponge::new(parameters);
        proof {
            crate::duplex::lemma_absorb_perm_count_le(
                *parameters,
                sponge.mode,
                input@.len(),
            );
        }
        sponge.absorb(parameters, input);
        let out: Vec<u64> = sponge.squeeze_native_field_elements(parameters, 1);
        out[0]
    }
}

/// The two-to-one compression over plain field elements.
pub struct TwoToOneCRH;

impl TwoToOneCRH {
    /// Compresses two field elements into one.
    pub fn compress(parameters: &RescueConfig, left_input: u64, right_input: u64) -> (r: u64)
        requires
            parameters.dims_ok(),
            fe_valid(left_input, parameters.modulus),
            fe_valid(right_input, parameters.modulus),
            parameters.output_size + 8 <= u64::MAX,
        ensures
            r == compress_spec(*parameters, left_input, right_input),
            fe_valid(r, parameters.modulus),
    {
        let mut sponge = RescueSponge::new(parameters);
        let mut left: Vec<u64> = Vec::new();
        left.push(left_input);
        let mut right: Vec<u64> = Vec::new();
        right.push(right_input);
        proof {
            assert(left@ =~= seq![left_input]);
            assert(right@ =~= seq![right_input]);
            crate::duplex::lemma_absorb_perm_count_le(*parameters, sponge.mode, 1);
        }
        sponge.absorb(parameters, &left);
        proof {
            crate::duplex::lemma_absorb_perm_count_le(*parameters, sponge.mode, 1);
        }
        sponge.absorb(parameters, &right);
        let out: Vec<u64> = sponge.squeeze_native_field_elements(
            parameters,
            parameters.output_size,
        );
        out[0]
    }

    /// The two-to-one hash is the compression itself.
    pub fn evaluate(parameters: &RescueConfig, left_input: u64, right_input: u64) -> (r: u64)
        requires
            parameters.dims_ok(),
            fe_valid(left_input, parameters.modulus),
            fe_valid(right_input, parameters.modulus),
            parameters.output_size + 8 <= u64::MAX,
        ensures
            r == compress_spec(*parameters, left_input, right_input),
            fe_valid(r, parameters.modulus),
    {
        Self::compress(parameters, left_input, right_input)
    }
}

/// The configuration as the circuit side holds it.
pub struct CRHParametersVar {
    /// The wrapped configuration; round constants and matrix entries are
    /// compile-time values, so nothing is allocated for them.
    pub parameters: RescueConfig,
}

impl CRHParametersVar {
    /// Wraps a configuration for circuit use.
    pub fn new_variable(parameters: RescueConfig) -> (r: Self)
        ensures
            r.parameters == parameters,
    {
        CRHParametersVar { parameters }
    }
}

/// The one-input hash over circuit values.
pub struct CRHGadget;

impl CRHGadget {
    /// Hashes a sequence of circuit values; the result resolves to exactly
    /// the plain hash of the resolved inputs. With constant inputs nothing
    /// is allocated or emitted.
    pub fn evaluate(
        parameters: &CRHParametersVar,
        cs: &mut ConstraintSystem,
        input: &Vec<FpVar>,
    ) -> (r: FpVar)
        requires
            parameters.parameters.dims_ok(),
            old(cs).wf(),
            old(cs).modulus == parameters.parameters.modulus,
            vars_wf(input@, old(cs).values@.len() as int, old(cs).modulus),
            input@.len() + 3 <= u64::MAX,
        ensures
            final(cs).wf(),
            final(cs).extends(*old(cs)),
            final(cs).modulus == old(cs).modulus,
            var_wf(r, final(cs).values@.len() as int, final(cs).modulus),
            final(cs).value_of(r) == evaluate_spec(
                parameters.parameters,
                resolved_vars(input@, old(cs).values@),
            ),
            old(cs).satisfied() && parameters.parameters.inverse_ok() ==> final(cs).satisfied(),
    {
        let cfg: &RescueConfig = &parameters.parameters;
        let mut sponge = RescueSpongeVar::new(cfg);
        proof {
            assert(vars_wf(sponge.state@, cs.values@.len() as int, cfg.modulus));
            assert(sponge.resolved_state(*cs) =~= fresh_state(*cfg));
            crate::duplex::lemma_absorb_perm_count_le(*cfg, sponge.mode, input@.len());
        }
        sponge.absorb(cs, cfg, input);
        let out: Vec<FpVar> = sponge.squeeze_field_elements(cs, cfg, 1);
        out[0]
    }
}

/// The two-to-one compression over circuit values.
pub struct TwoToOneCRHGadget;

impl TwoToOneCRHGadget {
    /// Compresses two circuit values into one; the result resolves to
    /// exactly the plain compression of the resolved inputs.
    pub fn compress(
        parameters: &CRHParametersVar,
        cs: &mut ConstraintSystem,
        left_input: &FpVar,
        right_input: &FpVar,
    ) -> (r: FpVar)
        requires
            parameters.parameters.dims_ok(),
            old(cs).wf(),
            old(cs).modulus == parameters.parameters.modulus,
            var_wf(*left_input, old(cs).values@.len() as int, old(cs).modulus),
            var_wf(*right_input, old(cs).values@.len() as int, old(cs).modulus),
            parameters.parameters.output_size + 8 <= u64::MAX,
        ensures
            final(cs).wf(),
            final(cs).extends(*old(cs)),
            final(cs).modulus == old(cs).modulus,
            var_wf(r, final(cs).values@.len() as int, final(cs).modulus),
            final(cs).value_of(r) == compress_spec(
                parameters.parameters,
                old(cs).value_of(*left_input),
                old(cs).value_of(*right_input),
            ),
            old(cs).satisfied() && parameters.parameters.inverse_ok() ==> final(cs).satisfied(),
    {
        let cfg: &RescueConfig = &parameters.parameters;
        let p: u64 = cfg.modulus;
        let mut sponge = RescueSpongeVar::new(cfg);
        let mut left: Vec<FpVar> = Vec::new();
        left.push(*left_input);
        let mut right: Vec<FpVar> = Vec::new();
        right.push(*right_input);
        proof {
            assert(vars_wf(sponge.state@, cs.values@.len() as int, cfg.modulus));
            assert(sponge.resolved_state(*cs) =~= fresh_state(*cfg));
            assert(resolved_vars(left@, cs.values@) =~= seq![cs.value_of(*left_input)]);
            assert(resolved_vars(right@, cs.values@) =~= seq![cs.value_of(*right_input)]);
            crate::duplex::lemma_absorb_perm_count_le(*cfg, sponge.mode, 1);
        }
        let ghost cs0 = *cs;
        sponge.absorb(cs, cfg, &left);
        proof {
            crate::duplex::lemma_absorb_perm_count_le(*cfg, sponge.mode, 1);
            assert(resolved_vars(right@, cs.values@) =~= resolved_vars(right@, cs0.values@)) by {
                lemma_resolved_prefix(right@, cs0.values@, cs.values@, p);
            }
        }
        let ghost cs1 = *cs;
        sponge.absorb(cs, cfg, &right);
        proof {
            crate::emitter::lemma_extends_trans(cs0, cs1, *cs);
        }
        let out: Vec<FpVar> = sponge.squeeze_field_elements(cs, cfg, cfg.output_size);
        proof {
            crate::emitter::lemma_extends_trans(cs0, cs1, *cs);
        }
        out[0]
    }

    /// The two-to-one hash is the compression itself.
    pub fn evaluate(
        parameters: &CRHParametersVar,
        cs: &mut ConstraintSystem,
        left_input: &FpVar,
        right_input: &FpVar,
    ) -> (r: FpVar)
        requires
            parameters.parameters.dims_ok(),
            old(cs).wf(),
            old(cs).modulus == parameters.parameters.modulus,
            var_wf(*left_input, old(cs).values@.len() as int, old(cs).modulus),
            var_wf(*right_input, old(cs).values@.len() as int, old(cs).modulus),
            parameters.parameters.output_size + 8 <= u64::MAX,
        ensures
            final(cs).wf(),
            final(cs).extends(*old(cs)),
            final(cs).modulus == old(cs).modulus,
            var_wf(r, final(cs).values@.len() as int, final(cs).modulus),
            final(cs).value_of(r) == compress_spec(
                parameters.parameters,
                old(cs).value_of(*left_input),
                old(cs).value_of(*right_input),
            ),
            old(cs).satisfied() && parameters.parameters.inverse_ok() ==> final(cs).satisfied(),
    {
        Self::compress(parameters, cs, left_input, right_input)
    }
}

/// A demonstration circuit: prove knowledge of a preimage of the hash.
/// Each instance allocates the preimage as witnesses, hashes it in-circuit
/// and binds the result to the image, which is allocated as public input.
pub struct RescueDemo {
    /// The preimage; required for construction.
    pub input: Option<Vec<u64>>,
    /// The claimed image; required for construction.
    pub image: Option<u64>,
    /// The sponge configuration.
    pub config: RescueConfig,
    /// How many copies of the relation to lay down.
    pub num_instances: usize,
}

impl RescueDemo {
    /// Lays the circuit down into the record. Construction fails exactly
    /// when a required value is absent, and then changes nothing. A laid
    /// down record is satisfied exactly when the claimed image is the hash
    /// of the preimage — that is what a later satisfiability check decides.
    pub fn generate_constraints(self, cs: &mut ConstraintSystem) -> (r: Result<
        (),
        crate::emitter::SynthesisError,
    >)
        requires
            self.config.dims_ok(),
            old(cs).wf(),
            old(cs).modulus == self.config.modulus,
            self.input matches Some(v) ==> all_fe_valid(v@, self.config.modulus) && v@.len() + 3
                <= u64::MAX,
            self.image matches Some(im) ==> fe_valid(im, self.config.modulus),
        ensures
            final(cs).wf(),
            final(cs).extends(*old(cs)),
            final(cs).modulus == old(cs).modulus,
            r is Err <==> (self.input is None || self.image is None),
            r is Err ==> *final(cs) == *old(cs),
            r is Ok ==> ({
                let v = self.input->0;
                let im = self.image->0;
                &&& (self.num_instances > 0 && final(cs).satisfied() ==> evaluate_spec(
                    self.config,
                    v@,
                ) == im)
                &&& (old(cs).satisfied() && self.config.inverse_ok() && evaluate_spec(
                    self.config,
                    v@,
                ) == im ==> final(cs).satisfied())
            }),
    {
        let input: Vec<u64> = match self.input {
            Some(v) => v,
            None => {
                return Err(crate::emitter::SynthesisError::AssignmentMissing);
            },
        };
        let image: u64 = match self.image {
            Some(im) => im,
            None => {
                return Err(crate::emitter::SynthesisError::AssignmentMissing);
            },
        };
        let params_g = CRHParametersVar::new_variable(self.config);
        let p: u64 = params_g.parameters.modulus;
        let ghost claim = evaluate_spec(params_g.parameters, input@) == image;
        let n: usize = self.num_instances;
        for k in 0..n
            invariant
                params_g.parameters.dims_ok(),
                cs.wf(),
                cs.extends(*old(cs)),
                cs.modulus == p,
                p == params_g.parameters.modulus,
                all_fe_valid(input@, p),
                input@.len() + 3 <= u64::MAX,
                fe_valid(image, p),
                claim == (evaluate_spec(params_g.parameters, input@) == image),
                old(cs).satisfied() && params_g.parameters.inverse_ok() && claim ==> cs.satisfied(),
                k > 0 && cs.satisfied() ==> claim,
        {
            let ghost iter_cs = *cs;
            let mut input_g: Vec<FpVar> = Vec::new();
            let m: usize = input.len();
            for i in 0..m
                invariant
                    cs.wf(),
                    cs.extends(iter_cs),
                    cs.extends(*old(cs)),
                    cs.modulus == p,
                    all_fe_valid(input@, p),
                    m == input@.len(),
                    input_g@.len() == i,
                    vars_wf(input_g@, cs.values@.len() as int, p),
                    forall|q: int|
                        0 <= q < i ==> var_value(#[trigger] input_g@[q], cs.values@) == input@[q],
                    iter_cs.satisfied() ==> cs.satisfied(),
                    cs.satisfied() ==> iter_cs.satisfied(),
            {
                let ghost prev_cs = *cs;
                let var: FpVar = match cs.new_witness(Some(input[i])) {
                    Ok(v) => v,
                    Err(e) => {
                        return Err(e);
                    },
                };
                input_g.push(var);
                proof {
                    crate::emitter::lemma_extends_trans(*old(cs), prev_cs, *cs);
                    crate::emitter::lemma_extends_trans(iter_cs, prev_cs, *cs);
                    assert(prev_cs.values@.len() == prev_cs.values.len());
                    assert(input_g@[i as int] == var);
                    assert(var_value(var, cs.values@) == input@[i as int]);
                    assert forall|q: int| 0 <= q < i implies var_value(
                        #[trigger] input_g@[q],
                        cs.values@,
                    ) == input@[q] by {
                        assert(input_g@[q] == input_g@.drop_last()[q]);
                        lemma_var_value_prefix(input_g@[q], prev_cs.values@, cs.values@, p);
                    }
                    if cs.satisfied() {
                        crate::emitter::lemma_extends_satisfied(prev_cs, *cs);
                    }
                }
            }
            let ghost mid0 = *cs;
            proof {
                assert(resolved_vars(input_g@, cs.values@) =~= input@);
            }
            let crh_a_g: FpVar = CRHGadget::evaluate(&params_g, cs, &input_g);
            let ghost mid1 = *cs;
            let image_instance: FpVar = match cs.new_input(Some(image)) {
                Ok(v) => v,
                Err(e) => {
                    return Err(e);
                },
            };
            let ghost mid2 = *cs;
            proof {
                crate::emitter::lemma_extends_trans(mid0, mid1, *cs);
                crate::emitter::lemma_extends_trans(iter_cs, mid0, mid1);
                crate::emitter::lemma_extends_trans(iter_cs, mid1, mid2);
                crate::emitter::lemma_extends_trans(*old(cs), iter_cs, mid2);
                lemma_var_value_prefix(crh_a_g, mid1.values@, cs.values@, p);
            }
            cs.enforce_equal(&crh_a_g, &image_instance);
            proof {
                crate::emitter::lemma_extends_trans(*old(cs), mid2, *cs);
                crate::emitter::lemma_extends_trans(iter_cs, mid2, *cs);
                // The one equality this instance enforces says exactly that
                // the in-circuit hash meets the public image.
                assert(mid1.values@.len() == mid1.values.len());
                assert(mid2.value_of(crh_a_g) == evaluate_spec(params_g.parameters, input@));
                assert(mid2.value_of(image_instance) == image);
                if cs.satisfied() {
                    crate::emitter::lemma_extends_satisfied(iter_cs, *cs);
                }
            }
        }
        Ok(())
    }
}

} // verus!
