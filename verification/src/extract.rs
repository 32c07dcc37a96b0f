//! Sized output extraction: bytes, bits, and field elements of a requested
//! bit width. A full-width element is never handed out as uniform output:
//! the top bit (for bits) or partial byte (for bytes) of each squeezed
//! element is discarded, and the remainder concatenated and truncated to
//! exactly the requested amount.

use vstd::prelude::*;
use vstd::arithmetic::div_mod::{lemma_breakdown, lemma_div_denominator, lemma_small_mod};
use vstd::arithmetic::power2::{
    lemma2_to64, lemma_pow2_adds, lemma_pow2_pos, lemma_pow2_strictly_increases,
    lemma_pow2_unfold, pow2,
};
use crate::config::RescueConfig;
use crate::emitter::{
    lemma_extends_trans, lemma_resolved_prefix, lemma_var_value_prefix, resolved_vars, var_value,
    var_wf, vars_wf, Constraint, ConstraintSystem, FpVar, VarKind,
};
use crate::field::{all_fe_valid, le_bits_value};
use crate::gadget::RescueSpongeVar;
use crate::duplex::{squeeze_perm_count, squeeze_trans};
use crate::native::RescueSponge;

verus! {

/// How many bits a value occupies.
pub open spec fn nbits(n: nat) -> nat
    decreases n,
{
    if n == 0 {
        0
    } else {
        1 + nbits(n / 2)
    }
}

/// A positive value lies between consecutive powers of two given by its
/// bit count.
pub proof fn lemma_nbits_bounds(n: nat)
    requires
        n >= 1,
    ensures
        nbits(n) >= 1,
        pow2((nbits(n) - 1) as nat) <= n < pow2(nbits(n)),
    decreases n,
{
    if n == 1 {
        lemma2_to64();
        assert(nbits(1) == 1) by {
            reveal_with_fuel(nbits, 3);
        }
    } else {
        lemma_nbits_bounds(n / 2);
        let m = nbits(n / 2);
        assert(nbits(n) == 1 + m);
        lemma_pow2_unfold((1 + m) as nat);
        if m >= 1 {
            lemma_pow2_unfold(m);
        }
        vstd::arithmetic::div_mod::lemma_fundamental_div_mod(n as int, 2);
        assert(0 <= n as int % 2 < 2) by {
            broadcast use vstd::arithmetic::div_mod::group_mod_properties;
        }
        assert(2 * (n / 2) <= n < 2 * (n / 2) + 2);
        assert(pow2(m) <= 2 * (n / 2));
        assert(n < 2 * pow2(m));
    }
}

/// A machine word occupies at most 64 bits.
pub proof fn lemma_nbits_le_64(p: u64)
    ensures
        nbits(p as nat) <= 64,
{
    if p >= 1 {
        lemma_nbits_bounds(p as nat);
        lemma2_to64();
        if nbits(p as nat) > 64 {
            if (nbits(p as nat) - 1) as nat > 64 {
                lemma_pow2_strictly_increases(64, (nbits(p as nat) - 1) as nat);
            }
        }
    }
}

/// The bit count of a value, counted by halving.
pub fn bit_size(p: u64) -> (r: usize)
    ensures
        r == nbits(p as nat),
        r <= 64,
{
    proof {
        lemma_nbits_le_64(p);
    }
    let mut v: u64 = p;
    let mut c: usize = 0;
    while v > 0
        invariant
            c + nbits(v as nat) == nbits(p as nat),
            nbits(p as nat) <= 64,
        decreases v,
    {
        v = v / 2;
        c = c + 1;
    }
    c
}

/// Bit `j` of a value, little-endian.
pub open spec fn le_bit(x: u64, j: nat) -> bool {
    (x as nat / pow2(j)) % 2 == 1
}

/// The low `k` bits of a value, little-endian.
pub open spec fn le_bits_seq(x: u64, k: nat) -> Seq<bool> {
    Seq::new(k, |j: int| le_bit(x, j as nat))
}

/// The value a little-endian bit sequence denotes.
pub open spec fn bits_val(s: Seq<bool>) -> nat
    decreases s.len(),
{
    if s.len() == 0 {
        0
    } else {
        (if s[0] {
            1nat
        } else {
            0nat
        }) + 2 * bits_val(s.drop_first())
    }
}

/// A sequence of `n` bits denotes a value below `2^n`.
pub proof fn lemma_bits_val_bound(s: Seq<bool>)
    ensures
        bits_val(s) < pow2(s.len()),
    decreases s.len(),
{
    lemma_pow2_pos(s.len());
    if s.len() > 0 {
        lemma_bits_val_bound(s.drop_first());
        lemma_pow2_unfold(s.len());
    }
}

/// The low `k` bits of a value denote the value reduced modulo `2^k`.
pub proof fn lemma_le_bits_val(x: u64, k: nat)
    ensures
        bits_val(le_bits_seq(x, k)) == x as nat % pow2(k),
    decreases k,
{
    if k == 0 {
        lemma2_to64();
        lemma_small_mod(0, 1);
        assert(x as nat % pow2(0) == x as nat % 1) by {
            assert(pow2(0) == 1);
        }
        assert(x as nat % 1 == 0) by (nonlinear_arith);
    } else {
        lemma_le_bits_val(x / 2, (k - 1) as nat);
        assert(le_bits_seq(x, k).drop_first() =~= le_bits_seq(x / 2, (k - 1) as nat)) by {
            assert forall|j: int| 0 <= j < k - 1 implies le_bits_seq(x, k).drop_first()[j]
                == le_bit(x / 2, j as nat) by {
                lemma_pow2_pos(j as nat);
                lemma_pow2_unfold((j + 1) as nat);
                lemma_div_denominator(x as int, 2, pow2(j as nat) as int);
                assert((x / 2) as nat == x as nat / 2);
                assert(x as nat / pow2((j + 1) as nat) == (x as nat / 2) / pow2(j as nat));
            }
        }
        lemma_pow2_unfold(k);
        lemma_pow2_pos((k - 1) as nat);
        lemma_breakdown(x as int, 2, pow2((k - 1) as nat) as int);
        assert(le_bits_seq(x, k)[0] == le_bit(x, 0));
        assert(x as nat / pow2(0) == x as nat) by {
            lemma2_to64();
        }
    }
}

/// The low bits of every squeezed element, concatenated: `k` bits from
/// each element in order.
pub open spec fn bits_of_elems(elems: Seq<u64>, k: nat) -> Seq<bool>
    decreases elems.len(),
{
    if elems.len() == 0 {
        Seq::empty()
    } else {
        le_bits_seq(elems[0], k) + bits_of_elems(elems.drop_first(), k)
    }
}

/// Byte `j` of a value, little-endian.
pub open spec fn le_byte(x: u64, j: nat) -> u8 {
    ((x as nat / pow2(8 * j)) % 256) as u8
}

/// The low `k` bytes of a value, little-endian.
pub open spec fn le_bytes_seq(x: u64, k: nat) -> Seq<u8> {
    Seq::new(k, |j: int| le_byte(x, j as nat))
}

/// The low bytes of every squeezed element, concatenated: `k` bytes from
/// each element in order.
pub open spec fn bytes_of_elems(elems: Seq<u64>, k: nat) -> Seq<u8>
    decreases elems.len(),
{
    if elems.len() == 0 {
        Seq::empty()
    } else {
        le_bytes_seq(elems[0], k) + bytes_of_elems(elems.drop_first(), k)
    }
}

/// Rounding up to full chunks covers the request.
proof fn lemma_ceil_div(n: int, d: int)
    requires
        n >= 0,
        d >= 1,
    ensures
        ((n + d - 1) / d) * d >= n,
        n >= 1 ==> (n + d - 1) / d <= n,
        n == 0 ==> (n + d - 1) / d == 0,
{
    vstd::arithmetic::div_mod::lemma_fundamental_div_mod(n + d - 1, d);
    vstd::arithmetic::div_mod::lemma_remainder_lower(n + d - 1, d);
    vstd::arithmetic::div_mod::lemma_remainder_upper(n + d - 1, d);
    if n >= 1 {
        assert((n + d - 1) / d <= n) by (nonlinear_arith)
            requires
                n >= 1,
                d >= 1,
        ;
    } else {
        vstd::arithmetic::div_mod::lemma_basic_div(d - 1, d);
    }
}

impl RescueSponge {
    /// Extracts the low bytes of one element into the output.
    fn push_le_bytes(out: &mut Vec<u8>, x: u64, k: usize)
        requires
            k <= 8,
        ensures
            final(out)@ == old(out)@ + le_bytes_seq(x, k as nat),
    {
        let mut v: u64 = x;
        let ghost prev = old(out)@;
        proof {
            lemma2_to64();
            vstd::arithmetic::div_mod::lemma_div_basics(x as int);
            assert(prev + le_bytes_seq(x, 0) =~= prev);
        }
        for j in 0..k
            invariant
                k <= 8,
                v as nat == x as nat / pow2((8 * j) as nat),
                out@ == prev + le_bytes_seq(x, j as nat),
        {
            let b: u8 = (v % 256) as u8;
            out.push(b);
            proof {
                assert(b == le_byte(x, j as nat));
                lemma_pow2_pos((8 * j) as nat);
                lemma_pow2_adds((8 * j) as nat, 8);
                lemma2_to64();
                lemma_div_denominator(x as int, pow2((8 * j) as nat) as int, 256);
                assert((8 * j + 8) as nat == (8 * (j + 1)) as nat);
                assert(out@ =~= prev + le_bytes_seq(x, (j + 1) as nat));
            }
            v = v / 256;
        }
    }

    /// Squeezes exactly `num_bytes` bytes: enough elements are squeezed,
    /// the low usable bytes of each are kept — a full-width element is not
    /// uniform, so the top partial byte is discarded — and the
    /// concatenation is truncated to the requested length.
    pub fn squeeze_bytes(&mut self, cfg: &RescueConfig, num_bytes: usize) -> (out: Vec<u8>)
        requires
            cfg.dims_ok(),
            cfg.modulus >= 256,
            old(self).wf(*cfg),
            old(self).permutation_calls + num_bytes + 2 <= u64::MAX,
            num_bytes <= usize::MAX - 8,
        ensures
            final(self).wf(*cfg),
            out@.len() == num_bytes,
            ({
                let ub = ((nbits(cfg.modulus as nat) - 1) as nat / 8) as nat;
                let ne = ((num_bytes + ub - 1) as nat / ub) as nat;
                let t = squeeze_trans(*cfg, old(self).state@, old(self).mode, ne);
                &&& final(self).state@ == t.0
                &&& final(self).mode == t.1
                &&& out@ == bytes_of_elems(t.2, ub).take(num_bytes as int)
                &&& final(self).permutation_calls == old(self).permutation_calls
                    + squeeze_perm_count(*cfg, old(self).mode, ne)
            }),
    {
        let nb: usize = bit_size(cfg.modulus);
        proof {
            lemma_nbits_bounds(cfg.modulus as nat);
            lemma2_to64();
            if nbits(cfg.modulus as nat) < 9 {
                if nbits(cfg.modulus as nat) <= 8 {
                    if nbits(cfg.modulus as nat) < 8 {
                        lemma_pow2_strictly_increases(nbits(cfg.modulus as nat), 8);
                    }
                }
            }
        }
        let ub: usize = (nb - 1) / 8;
        proof {
            lemma_ceil_div(num_bytes as int, ub as int);
        }
        let ne: usize = (num_bytes + ub - 1) / ub;
        let elems: Vec<u64> = self.squeeze_native_field_elements(cfg, ne);
        let mut bytes: Vec<u8> = Vec::new();
        proof {
            assert(elems@.skip(0) =~= elems@);
            assert(bytes@ + bytes_of_elems(elems@, ub as nat) =~= bytes_of_elems(
                elems@,
                ub as nat,
            ));
            assert(0 * (ub as int) == 0) by (nonlinear_arith);
            assert(bytes@.len() == 0 * ub);
        }
        for i in 0..ne
            invariant
                ub >= 1,
                ub <= 8,
                ne == elems@.len(),
                bytes@.len() == i * ub,
                bytes@ + bytes_of_elems(elems@.skip(i as int), ub as nat) == bytes_of_elems(
                    elems@,
                    ub as nat,
                ),
        {
            let ghost prev = bytes@;
            Self::push_le_bytes(&mut bytes, elems[i], ub);
            proof {
                assert((i + 1) * ub == i * ub + ub) by (nonlinear_arith);
                assert(elems@.skip(i as int).drop_first() =~= elems@.skip(i + 1));
                assert(elems@.skip(i as int)[0] == elems@[i as int]);
                assert((prev + le_bytes_seq(elems@[i as int], ub as nat)) + bytes_of_elems(
                    elems@.skip(i + 1),
                    ub as nat,
                ) =~= prev + (le_bytes_seq(elems@[i as int], ub as nat) + bytes_of_elems(
                    elems@.skip(i + 1),
                    ub as nat,
                )));
            }
        }
        proof {
            assert(bytes@ + bytes_of_elems(elems@.skip(ne as int), ub as nat) =~= bytes@);
        }
        let mut out: Vec<u8> = Vec::new();
        for i in 0..num_bytes
            invariant
                num_bytes <= bytes@.len(),
                out@ == bytes@.take(i as int),
        {
            out.push(bytes[i]);
            proof {
                assert(out@ =~= bytes@.take(i + 1));
            }
        }
        out
    }

    /// Extracts the low bits of one element into the output.
    fn push_le_bits(out: &mut Vec<bool>, x: u64, k: usize)
        requires
            k <= 64,
        ensures
            final(out)@ == old(out)@ + le_bits_seq(x, k as nat),
    {
        let mut v: u64 = x;
        let ghost prev = old(out)@;
        proof {
            lemma2_to64();
            vstd::arithmetic::div_mod::lemma_div_basics(x as int);
            assert(prev + le_bits_seq(x, 0) =~= prev);
        }
        for j in 0..k
            invariant
                k <= 64,
                v as nat == x as nat / pow2(j as nat),
                out@ == prev + le_bits_seq(x, j as nat),
        {
            let b: bool = v % 2 == 1;
            out.push(b);
            proof {
                assert(b == le_bit(x, j as nat));
                lemma_pow2_pos(j as nat);
                lemma_pow2_adds(j as nat, 1);
                lemma2_to64();
                lemma_div_denominator(x as int, pow2(j as nat) as int, 2);
                assert(out@ =~= prev + le_bits_seq(x, (j + 1) as nat));
            }
            v = v / 2;
        }
    }

    /// Squeezes exactly `num_bits` boolean values: enough elements are
    /// squeezed, the low usable bits of each are kept — the top bit is
    /// discarded — and the concatenation is truncated to the requested
    /// length.
    pub fn squeeze_bits(&mut self, cfg: &RescueConfig, num_bits: usize) -> (out: Vec<bool>)
        requires
            cfg.dims_ok(),
            old(self).wf(*cfg),
            old(self).permutation_calls + num_bits + 2 <= u64::MAX,
            num_bits <= usize::MAX - 64,
        ensures
            final(self).wf(*cfg),
            out@.len() == num_bits,
            ({
                let ub = (nbits(cfg.modulus as nat) - 1) as nat;
                let ne = ((num_bits + ub - 1) as nat / ub) as nat;
                let t = squeeze_trans(*cfg, old(self).state@, old(self).mode, ne);
                &&& final(self).state@ == t.0
                &&& final(self).mode == t.1
                &&& out@ == bits_of_elems(t.2, ub).take(num_bits as int)
                &&& final(self).permutation_calls == old(self).permutation_calls
                    + squeeze_perm_count(*cfg, old(self).mode, ne)
            }),
    {
        let nb: usize = bit_size(cfg.modulus);
        proof {
            lemma_nbits_bounds(cfg.modulus as nat);
            lemma2_to64();
            if nbits(cfg.modulus as nat) < 2 {
                lemma_pow2_strictly_increases(nbits(cfg.modulus as nat), 1);
            }
        }
        let ub: usize = nb - 1;
        proof {
            lemma_ceil_div(num_bits as int, ub as int);
        }
        let ne: usize = (num_bits + ub - 1) / ub;
        let elems: Vec<u64> = self.squeeze_native_field_elements(cfg, ne);
        let mut bits: Vec<bool> = Vec::new();
        proof {
            assert(elems@.skip(0) =~= elems@);
            assert(bits@ + bits_of_elems(elems@, ub as nat) =~= bits_of_elems(elems@, ub as nat));
            assert(0 * (ub as int) == 0) by (nonlinear_arith);
            assert(bits@.len() == 0 * ub);
        }
        for i in 0..ne
            invariant
                ub >= 1,
                ub <= 63,
                ne == elems@.len(),
                bits@.len() == i * ub,
                bits@ + bits_of_elems(elems@.skip(i as int), ub as nat) == bits_of_elems(
                    elems@,
                    ub as nat,
                ),
        {
            let ghost prev = bits@;
            Self::push_le_bits(&mut bits, elems[i], ub);
            proof {
                assert((i + 1) * ub == i * ub + ub) by (nonlinear_arith);
                assert(elems@.skip(i as int).drop_first() =~= elems@.skip(i + 1));
                assert(elems@.skip(i as int)[0] == elems@[i as int]);
                assert((prev + le_bits_seq(elems@[i as int], ub as nat)) + bits_of_elems(
                    elems@.skip(i + 1),
                    ub as nat,
                ) =~= prev + (le_bits_seq(elems@[i as int], ub as nat) + bits_of_elems(
                    elems@.skip(i + 1),
                    ub as nat,
                )));
            }
        }
        proof {
            assert(bits@ + bits_of_elems(elems@.skip(ne as int), ub as nat) =~= bits@);
        }
        let mut out: Vec<bool> = Vec::new();
        for i in 0..num_bits
            invariant
                num_bits <= bits@.len(),
                out@ == bits@.take(i as int),
        {
            out.push(bits[i]);
            proof {
                assert(out@ =~= bits@.take(i + 1));
            }
        }
        out
    }
}

/// A requested output width: the full usable width of an element — one bit
/// short of the modulus width — or a truncation to a given bit count.
#[derive(Clone, Copy, PartialEq, Eq, Structural, Debug)]
pub enum FieldElementSize {
    Full,
    Truncated(usize),
}

/// How many bits one requested size takes.
pub open spec fn size_num_bits(cfg: RescueConfig, s: FieldElementSize) -> nat {
    match s {
        FieldElementSize::Full => (nbits(cfg.modulus as nat) - 1) as nat,
        FieldElementSize::Truncated(k) => k as nat,
    }
}

/// How many bits a sequence of requested sizes takes in all.
pub open spec fn sizes_total_bits(cfg: RescueConfig, sizes: Seq<FieldElementSize>) -> nat
    decreases sizes.len(),
{
    if sizes.len() == 0 {
        0
    } else {
        size_num_bits(cfg, sizes[0]) + sizes_total_bits(cfg, sizes.drop_first())
    }
}

/// One more size adds exactly its own bits to the running total.
proof fn lemma_total_take_succ(cfg: RescueConfig, sizes: Seq<FieldElementSize>, i: int)
    requires
        0 <= i < sizes.len(),
    ensures
        sizes_total_bits(cfg, sizes.take(i + 1)) == sizes_total_bits(cfg, sizes.take(i))
            + size_num_bits(cfg, sizes[i]),
    decreases i,
{
    if i == 0 {
        assert(sizes.take(1).drop_first() =~= sizes.take(0));
        assert(sizes.take(1)[0] == sizes[0]);
    } else {
        lemma_total_take_succ(cfg, sizes.drop_first(), i - 1);
        assert(sizes.take(i + 1).drop_first() =~= sizes.drop_first().take(i));
        assert(sizes.take(i).drop_first() =~= sizes.drop_first().take(i - 1));
        assert(sizes.take(i + 1)[0] == sizes[0]);
        assert(sizes.take(i)[0] == sizes[0]);
        assert(sizes.drop_first()[i - 1] == sizes[i]);
    }
}

/// A prefix of the sizes takes no more bits than all of them.
proof fn lemma_total_take_le(cfg: RescueConfig, sizes: Seq<FieldElementSize>, i: int)
    requires
        0 <= i <= sizes.len(),
    ensures
        sizes_total_bits(cfg, sizes.take(i)) <= sizes_total_bits(cfg, sizes),
    decreases sizes.len() - i,
{
    if i == sizes.len() {
        assert(sizes.take(i) =~= sizes);
    } else {
        lemma_total_take_succ(cfg, sizes, i);
        lemma_total_take_le(cfg, sizes, i + 1);
    }
}

/// Powers of two do not decrease.
proof fn lemma_pow2_le(a: nat, b: nat)
    requires
        a <= b,
    ensures
        pow2(a) <= pow2(b),
{
    if a < b {
        lemma_pow2_strictly_increases(a, b);
    }
}

impl RescueSponge {
    /// Squeezes one field element per requested size: enough bits are
    /// squeezed for all of them, and each element is recomposed from its
    /// own chunk, so a size truncated to `k` bits is strictly below `2^k`
    /// and a full-width one strictly below half the modulus range.
    pub fn squeeze_field_elements_with_sizes(
        &mut self,
        cfg: &RescueConfig,
        sizes: &Vec<FieldElementSize>,
    ) -> (out: Vec<u64>)
        requires
            cfg.dims_ok(),
            old(self).wf(*cfg),
            forall|i: int|
                0 <= i < sizes@.len() ==> (#[trigger] sizes@[i] matches FieldElementSize::Truncated(
                    k,
                ) ==> 1 <= k <= nbits(cfg.modulus as nat) - 1),
            63 * sizes@.len() <= usize::MAX - 64,
            old(self).permutation_calls + 63 * sizes@.len() + 66 <= u64::MAX,
        ensures
            final(self).wf(*cfg),
            out@.len() == sizes@.len(),
            all_fe_valid(out@, cfg.modulus),
            forall|i: int|
                0 <= i < sizes@.len() ==> (#[trigger] sizes@[i] matches FieldElementSize::Truncated(
                    k,
                ) ==> out@[i] < pow2(k as nat)),
            ({
                let ub = (nbits(cfg.modulus as nat) - 1) as nat;
                let total = sizes_total_bits(*cfg, sizes@);
                let ne = ((total + ub - 1) as nat / ub) as nat;
                let t = squeeze_trans(*cfg, old(self).state@, old(self).mode, ne);
                let allbits = bits_of_elems(t.2, ub).take(total as int);
                &&& final(self).state@ == t.0
                &&& final(self).mode == t.1
                &&& final(self).permutation_calls == old(self).permutation_calls
                    + squeeze_perm_count(*cfg, old(self).mode, ne)
                &&& forall|i: int|
                    0 <= i < sizes@.len() ==> (#[trigger] out@[i]) as nat == bits_val(
                        allbits.subrange(
                            sizes_total_bits(*cfg, sizes@.take(i)) as int,
                            sizes_total_bits(*cfg, sizes@.take(i)) as int + size_num_bits(
                                *cfg,
                                sizes@[i],
                            ) as int,
                        ),
                    )
            }),
    {
        let nb: usize = bit_size(cfg.modulus);
        proof {
            lemma_nbits_bounds(cfg.modulus as nat);
            lemma2_to64();
            if nbits(cfg.modulus as nat) < 2 {
                lemma_pow2_strictly_increases(nbits(cfg.modulus as nat), 1);
            }
        }
        let ub: usize = nb - 1;
        let n_sizes: usize = sizes.len();
        let mut total: usize = 0;
        proof {
            assert(sizes@.take(0) =~= Seq::<FieldElementSize>::empty());
        }
        for i in 0..n_sizes
            invariant
                n_sizes == sizes@.len(),
                ub == nbits(cfg.modulus as nat) - 1,
                1 <= ub <= 63,
                forall|j: int|
                    0 <= j < sizes@.len() ==> (#[trigger] sizes@[j]
                        matches FieldElementSize::Truncated(k) ==> 1 <= k <= ub),
                63 * sizes@.len() <= usize::MAX - 64,
                total == sizes_total_bits(*cfg, sizes@.take(i as int)),
                total <= 63 * i,
        {
            let s: FieldElementSize = sizes[i];
            let add: usize = match s {
                FieldElementSize::Full => ub,
                FieldElementSize::Truncated(k) => k,
            };
            proof {
                lemma_total_take_succ(*cfg, sizes@, i as int);
            }
            total = total + add;
        }
        proof {
            assert(sizes@.take(n_sizes as int) =~= sizes@);
        }
        let bits: Vec<bool> = self.squeeze_bits(cfg, total);
        proof {
            assert(bits@.len() == bits.len());
        }
        let ghost allbits = bits@;
        let mut out: Vec<u64> = Vec::new();
        let mut off: usize = 0;
        proof {
            assert(sizes@.take(0) =~= Seq::<FieldElementSize>::empty());
            lemma2_to64();
            vstd::arithmetic::power2::lemma2_to64_rest();
        }
        for i in 0..n_sizes
            invariant
                n_sizes == sizes@.len(),
                ub == nbits(cfg.modulus as nat) - 1,
                1 <= ub <= 63,
                pow2(ub as nat) <= cfg.modulus,
                forall|j: int|
                    0 <= j < sizes@.len() ==> (#[trigger] sizes@[j]
                        matches FieldElementSize::Truncated(k) ==> 1 <= k <= ub),
                allbits == bits@,
                allbits.len() == sizes_total_bits(*cfg, sizes@),
                allbits.len() <= usize::MAX,
                off == sizes_total_bits(*cfg, sizes@.take(i as int)),
                out@.len() == i,
                pow2(63) == 0x8000000000000000,
                forall|j: int|
                    0 <= j < i ==> (#[trigger] out@[j]) as nat == bits_val(
                        allbits.subrange(
                            sizes_total_bits(*cfg, sizes@.take(j)) as int,
                            sizes_total_bits(*cfg, sizes@.take(j)) as int + size_num_bits(
                                *cfg,
                                sizes@[j],
                            ) as int,
                        ),
                    ),
                forall|j: int|
                    0 <= j < i ==> ((#[trigger] out@[j]) as nat) < pow2(
                        size_num_bits(*cfg, sizes@[j]),
                    ),
        {
            let s: FieldElementSize = sizes[i];
            let m: usize = match s {
                FieldElementSize::Full => ub,
                FieldElementSize::Truncated(k) => k,
            };
            proof {
                lemma_total_take_succ(*cfg, sizes@, i as int);
                lemma_total_take_le(*cfg, sizes@, i + 1);
            }
            let ghost chunk = allbits.subrange(off as int, (off + m) as int);
            let mut acc: u64 = 0;
            let mut jj: usize = m;
            proof {
                assert(chunk.skip(m as int) =~= Seq::<bool>::empty());
                lemma2_to64();
            }
            while jj > 0
                invariant
                    jj <= m,
                    1 <= m <= 63,
                    off + m <= bits@.len(),
                    bits@.len() <= usize::MAX,
                    allbits == bits@,
                    pow2(63) == 0x8000000000000000,
                    chunk == allbits.subrange(off as int, (off + m) as int),
                    acc as nat == bits_val(chunk.skip(jj as int)),
                    acc < pow2((m - jj) as nat),
                decreases jj,
            {
                jj = jj - 1;
                let b: u64 = if bits[off + jj] {
                    1
                } else {
                    0
                };
                proof {
                    assert(chunk.skip(jj as int)[0] == allbits[off + jj]);
                    assert(chunk.skip(jj as int).drop_first() =~= chunk.skip(jj + 1));
                    lemma_pow2_unfold((m - jj) as nat);
                    lemma_pow2_le((m - jj) as nat, 63);
                }
                acc = 2 * acc + b;
            }
            proof {
                assert(chunk.skip(0) =~= chunk);
                lemma_pow2_le(m as nat, ub as nat);
            }
            out.push(acc);
            off = off + m;
        }
        proof {
            assert forall|i: int| 0 <= i < sizes@.len() implies crate::field::fe_valid(
                #[trigger] out@[i],
                cfg.modulus,
            ) by {
                lemma_pow2_le(size_num_bits(*cfg, sizes@[i]), ub as nat);
            }
        }
        out
    }
}

/// Booleans as field elements: one for true, zero for false.
pub open spec fn bools_to_fe(s: Seq<bool>) -> Seq<u64> {
    Seq::new(s.len(), |i: int| if s[i] {
        1u64
    } else {
        0u64
    })
}

/// The two bit-value readings agree: a boolean sequence and its zero-one
/// field encoding denote the same value.
proof fn lemma_bits_val_as_fe(s: Seq<bool>)
    ensures
        le_bits_value(bools_to_fe(s)) == bits_val(s),
    decreases s.len(),
{
    if s.len() > 0 {
        lemma_bits_val_as_fe(s.drop_first());
        assert(bools_to_fe(s).drop_first() =~= bools_to_fe(s.drop_first()));
    }
}

/// Allocates the full little-endian bit decomposition of one circuit
/// value and asserts that the bits recompose to it; a constant value folds
/// to constant bits with nothing emitted.
fn decompose_var(cs: &mut ConstraintSystem, x: FpVar, k: usize) -> (r: Vec<FpVar>)
    requires
        old(cs).wf(),
        var_wf(x, old(cs).values@.len() as int, old(cs).modulus),
        k <= 64,
        old(cs).value_of(x) < pow2(k as nat),
    ensures
        final(cs).wf(),
        final(cs).extends(*old(cs)),
        final(cs).modulus == old(cs).modulus,
        r@.len() == k,
        vars_wf(r@, final(cs).values@.len() as int, final(cs).modulus),
        resolved_vars(r@, final(cs).values@) == bools_to_fe(
            le_bits_seq(old(cs).value_of(x), k as nat),
        ),
        old(cs).satisfied() ==> final(cs).satisfied(),
{
    let p: u64 = cs.modulus;
    let xv: u64 = cs.value(&x);
    let ghost bseq = le_bits_seq(xv, k as nat);
    let constant: bool = match &x {
        FpVar::Constant(_) => true,
        FpVar::Var(_) => false,
    };
    let mut bits: Vec<FpVar> = Vec::new();
    let mut v: u64 = xv;
    proof {
        lemma2_to64();
        vstd::arithmetic::div_mod::lemma_div_basics(xv as int);
    }
    for j in 0..k
        invariant
            cs.wf(),
            cs.extends(*old(cs)),
            cs.modulus == p,
            p >= 2,
            k <= 64,
            bseq == le_bits_seq(xv, k as nat),
            v as nat == xv as nat / pow2(j as nat),
            bits@.len() == j,
            vars_wf(bits@, cs.values@.len() as int, p),
            forall|i: int|
                0 <= i < j ==> var_value(#[trigger] bits@[i], cs.values@) == (if bseq[i] {
                    1u64
                } else {
                    0u64
                }),
            constant ==> *cs == *old(cs),
            constant ==> (forall|i: int| 0 <= i < j ==> #[trigger] bits@[i] is Constant),
            old(cs).satisfied() ==> cs.satisfied(),
    {
        let b: u64 = v % 2;
        let ghost prev_cs = *cs;
        let ghost prev_bits = bits@;
        let bv: FpVar = if constant {
            FpVar::Constant(b)
        } else {
            cs.alloc_value(b, VarKind::Witness)
        };
        bits.push(bv);
        proof {
            assert(b == (if le_bit(xv, j as nat) {
                1u64
            } else {
                0u64
            }));
            lemma_extends_trans(*old(cs), prev_cs, *cs);
            assert forall|i: int| 0 <= i < j implies var_value(#[trigger] bits@[i], cs.values@)
                == (if bseq[i] {
                1u64
            } else {
                0u64
            }) by {
                assert(bits@[i] == prev_bits[i]);
                lemma_var_value_prefix(prev_bits[i], prev_cs.values@, cs.values@, p);
            }
            lemma_pow2_pos(j as nat);
            lemma_pow2_adds(j as nat, 1);
            lemma2_to64();
            lemma_div_denominator(xv as int, pow2(j as nat) as int, 2);
        }
        v = v / 2;
    }
    if !constant {
        let ghost prev_cs = *cs;
        proof {
            assert forall|i: int| 0 <= i < k implies var_wf(
                #[trigger] bits@[i],
                cs.values@.len() as int,
                p,
            ) by {
            }
            lemma_var_value_prefix(x, old(cs).values@, cs.values@, p);
        }
        cs.push_constraint(Constraint::Bits { bits: clone_vars(&bits), out: x });
        proof {
            lemma_extends_trans(*old(cs), prev_cs, *cs);
            assert(resolved_vars(bits@, prev_cs.values@) =~= bools_to_fe(bseq));
            lemma_bits_val_as_fe(bseq);
            lemma_le_bits_val(xv, k as nat);
            vstd::arithmetic::div_mod::lemma_small_mod(xv as nat, pow2(k as nat));
        }
    }
    proof {
        assert(resolved_vars(bits@, cs.values@) =~= bools_to_fe(bseq));
    }
    bits
}

/// A copy of a vector of circuit values.
fn clone_vars(v: &Vec<FpVar>) -> (r: Vec<FpVar>)
    ensures
        r@ == v@,
{
    let mut r: Vec<FpVar> = Vec::new();
    let n: usize = v.len();
    for i in 0..n
        invariant
            n == v@.len(),
            r@ == v@.take(i as int),
    {
        r.push(v[i]);
        proof {
            assert(r@ =~= v@.take(i + 1));
        }
    }
    proof {
        assert(v@.take(n as int) =~= v@);
    }
    r
}

impl RescueSpongeVar {
    /// Squeezes exactly `num_bits` boolean circuit values, each asserted
    /// boolean by the bit decomposition of the squeezed element it came
    /// from, and resolving to exactly the plain sponge's bit output.
    pub fn squeeze_bits(
        &mut self,
        cs: &mut ConstraintSystem,
        cfg: &RescueConfig,
        num_bits: usize,
    ) -> (out: Vec<FpVar>)
        requires
            cfg.dims_ok(),
            old(cs).wf(),
            old(cs).modulus == cfg.modulus,
            old(self).wf(*cfg, *old(cs)),
            old(self).permutation_calls + num_bits + 2 <= u64::MAX,
            num_bits <= usize::MAX - 64,
        ensures
            final(cs).wf(),
            final(cs).extends(*old(cs)),
            final(cs).modulus == cfg.modulus,
            final(self).wf(*cfg, *final(cs)),
            out@.len() == num_bits,
            vars_wf(out@, final(cs).values@.len() as int, cfg.modulus),
            ({
                let ub = (nbits(cfg.modulus as nat) - 1) as nat;
                let ne = ((num_bits + ub - 1) as nat / ub) as nat;
                let t = squeeze_trans(
                    *cfg,
                    old(self).resolved_state(*old(cs)),
                    old(self).mode,
                    ne,
                );
                &&& final(self).resolved_state(*final(cs)) == t.0
                &&& final(self).mode == t.1
                &&& resolved_vars(out@, final(cs).values@) == bools_to_fe(
                    bits_of_elems(t.2, ub).take(num_bits as int),
                )
                &&& final(self).permutation_calls == old(self).permutation_calls
                    + squeeze_perm_count(*cfg, old(self).mode, ne)
            }),
            old(cs).satisfied() && cfg.inverse_ok() ==> final(cs).satisfied(),
    {
        let p: u64 = cfg.modulus;
        let nb: usize = bit_size(cfg.modulus);
        proof {
            lemma_nbits_bounds(cfg.modulus as nat);
            lemma2_to64();
            if nbits(cfg.modulus as nat) < 2 {
                lemma_pow2_strictly_increases(nbits(cfg.modulus as nat), 1);
            }
        }
        let ub: usize = nb - 1;
        proof {
            lemma_ceil_div(num_bits as int, ub as int);
        }
        let ne: usize = (num_bits + ub - 1) / ub;
        let ghost cs0 = *old(cs);
        let elems: Vec<FpVar> = self.squeeze_field_elements(cs, cfg, ne);
        let ghost cs1 = *cs;
        let ghost rs = resolved_vars(elems@, cs.values@);
        let mut bits: Vec<FpVar> = Vec::new();
        proof {
            assert(rs.skip(0) =~= rs);
            assert(resolved_vars(bits@, cs.values@) =~= Seq::<u64>::empty());
            assert(Seq::<u64>::empty() + bools_to_fe(bits_of_elems(rs, ub as nat)) =~= bools_to_fe(
                bits_of_elems(rs, ub as nat),
            ));
            assert(0 * (ub as int) == 0) by (nonlinear_arith);
            assert(bits@.len() == 0 * ub);
        }
        for i in 0..ne
            invariant
                cfg.dims_ok(),
                cs.wf(),
                cs.extends(cs0),
                cs1.extends(cs0),
                cs.extends(cs1),
                cs.modulus == p,
                p == cfg.modulus,
                nb == nbits(p as nat),
                nb <= 64,
                pow2((nb - 1) as nat) <= p < pow2(nb as nat),
                ub == nb - 1,
                1 <= ub <= 63,
                ne == elems@.len(),
                self.wf(*cfg, *cs),
                self.resolved_state(*cs) == self.resolved_state(cs1),
                vars_wf(elems@, cs.values@.len() as int, p),
                rs == resolved_vars(elems@, cs1.values@),
                forall|k: int|
                    0 <= k < elems@.len() ==> var_value(#[trigger] elems@[k], cs.values@) == rs[k],
                bits@.len() == i * ub,
                vars_wf(bits@, cs.values@.len() as int, p),
                resolved_vars(bits@, cs.values@) + bools_to_fe(
                    bits_of_elems(rs.skip(i as int), ub as nat),
                ) == bools_to_fe(bits_of_elems(rs, ub as nat)),
                cs0.satisfied() && cfg.inverse_ok() ==> cs.satisfied(),
        {
            let ghost prev_cs = *cs;
            let ghost prev_bits = bits@;
            proof {
                assert(cs.value_of(elems@[i as int]) == rs[i as int]);
                assert(rs[i as int] < p);
                lemma_pow2_le(nb as nat, 64);
            }
            let mut elem_bits: Vec<FpVar> = decompose_var(cs, elems[i], nb);
            proof {
                lemma_extends_trans(cs0, prev_cs, *cs);
                lemma_extends_trans(cs1, prev_cs, *cs);
            }
            let ghost mid_cs = *cs;
            let ghost full = resolved_vars(elem_bits@, cs.values@);
            for j in 0..ub
                invariant
                    ub < nb == elem_bits@.len(),
                    *cs == mid_cs,
                    bits@ == prev_bits + elem_bits@.take(j as int),
                    full == resolved_vars(elem_bits@, cs.values@),
            {
                bits.push(elem_bits[j]);
                proof {
                    assert(bits@ =~= prev_bits + elem_bits@.take(j + 1));
                }
            }
            proof {
                assert((i + 1) * ub == i * ub + ub) by (nonlinear_arith);
                assert forall|k: int| 0 <= k < elems@.len() implies var_value(
                    #[trigger] elems@[k],
                    cs.values@,
                ) == rs[k] by {
                    lemma_var_value_prefix(elems@[k], prev_cs.values@, cs.values@, p);
                }
                assert forall|k: int| 0 <= k < prev_bits.len() implies var_value(
                    #[trigger] bits@[k],
                    cs.values@,
                ) == var_value(prev_bits[k], prev_cs.values@) by {
                    assert(bits@[k] == prev_bits[k]);
                    lemma_var_value_prefix(prev_bits[k], prev_cs.values@, cs.values@, p);
                }
                assert(self.resolved_state(*cs) =~= self.resolved_state(prev_cs)) by {
                    lemma_resolved_prefix(self.state@, prev_cs.values@, cs.values@, p);
                }
                assert(rs.skip(i as int).drop_first() =~= rs.skip(i + 1));
                assert(rs.skip(i as int)[0] == rs[i as int]);
                assert(elem_bits@.take(ub as int).len() == ub);
                assert(resolved_vars(bits@, cs.values@) =~= resolved_vars(
                    prev_bits,
                    prev_cs.values@,
                ) + bools_to_fe(le_bits_seq(rs[i as int], ub as nat))) by {
                    assert forall|k: int| 0 <= k < ub implies var_value(
                        #[trigger] elem_bits@.take(ub as int)[k],
                        cs.values@,
                    ) == bools_to_fe(le_bits_seq(rs[i as int], nb as nat))[k] by {
                        assert(full[k] == var_value(elem_bits@[k], cs.values@));
                        assert(le_bits_seq(rs[i as int], nb as nat)[k] == le_bit(
                            rs[i as int],
                            k as nat,
                        ));
                    }
                    assert forall|k: int| 0 <= k < ub implies le_bit(rs[i as int], k as nat)
                        == le_bits_seq(rs[i as int], ub as nat)[k] by {
                    }
                }
                assert((resolved_vars(prev_bits, prev_cs.values@) + bools_to_fe(
                    le_bits_seq(rs[i as int], ub as nat),
                )) + bools_to_fe(bits_of_elems(rs.skip(i + 1), ub as nat)) =~= resolved_vars(
                    prev_bits,
                    prev_cs.values@,
                ) + (bools_to_fe(le_bits_seq(rs[i as int], ub as nat)) + bools_to_fe(
                    bits_of_elems(rs.skip(i + 1), ub as nat),
                )));
                assert(bools_to_fe(le_bits_seq(rs[i as int], ub as nat)) + bools_to_fe(
                    bits_of_elems(rs.skip(i + 1), ub as nat),
                ) =~= bools_to_fe(bits_of_elems(rs.skip(i as int), ub as nat)));
            }
        }
        proof {
            assert(bits_of_elems(rs.skip(ne as int), ub as nat) =~= Seq::<bool>::empty());
            assert(resolved_vars(bits@, cs.values@) + bools_to_fe(
                bits_of_elems(rs.skip(ne as int), ub as nat),
            ) =~= resolved_vars(bits@, cs.values@));
        }
        let mut out: Vec<FpVar> = Vec::new();
        for i in 0..num_bits
            invariant
                num_bits <= bits@.len(),
                out@ == bits@.take(i as int),
        {
            out.push(bits[i]);
            proof {
                assert(out@ =~= bits@.take(i + 1));
            }
        }
        proof {
            assert(resolved_vars(out@, cs.values@) =~= resolved_vars(bits@, cs.values@).take(
                num_bits as int,
            ));
            assert(resolved_vars(bits@, cs.values@).take(num_bits as int) =~= bools_to_fe(
                bits_of_elems(rs, ub as nat).take(num_bits as int),
            ));
        }
        out
    }
}

/// Bytes as field elements.
pub open spec fn bytes_to_fe(s: Seq<u8>) -> Seq<u64> {
    Seq::new(s.len(), |i: int| s[i] as u64)
}

/// Eight consecutive bits of a value denote exactly one of its bytes.
proof fn lemma_bits_chunk_is_byte(x: u64, nb: nat, j: nat)
    requires
        8 * j + 8 <= nb,
    ensures
        bits_val(le_bits_seq(x, nb).subrange(8 * j as int, 8 * j as int + 8)) == le_byte(
            x,
            j,
        ) as nat,
{
    lemma_pow2_pos(8 * j);
    vstd::arithmetic::div_mod::lemma_div_nonincreasing(x as int, pow2(8 * j) as int);
    let y: u64 = (x as nat / pow2(8 * j)) as u64;
    assert(le_bits_seq(x, nb).subrange(8 * j as int, 8 * j as int + 8) =~= le_bits_seq(y, 8)) by {
        assert forall|i: int| 0 <= i < 8 implies le_bits_seq(x, nb)[8 * j + i] == #[trigger] le_bit(
            y,
            i as nat,
        ) by {
            lemma_pow2_pos(i as nat);
            lemma_pow2_adds(8 * j, i as nat);
            lemma_div_denominator(x as int, pow2(8 * j) as int, pow2(i as nat) as int);
        }
    }
    lemma_le_bits_val(y, 8);
    lemma2_to64();
}

impl RescueSpongeVar {
    /// Squeezes exactly `num_bytes` byte-valued circuit values: each
    /// squeezed element is bit-decomposed, and each emitted byte is
    /// asserted to recompose from its own eight bits of that
    /// decomposition. The bytes resolve to exactly the plain sponge's byte
    /// output.
    pub fn squeeze_bytes(
        &mut self,
        cs: &mut ConstraintSystem,
        cfg: &RescueConfig,
        num_bytes: usize,
    ) -> (out: Vec<FpVar>)
        requires
            cfg.dims_ok(),
            cfg.modulus >= 256,
            old(cs).wf(),
            old(cs).modulus == cfg.modulus,
            old(self).wf(*cfg, *old(cs)),
            old(self).permutation_calls + num_bytes + 2 <= u64::MAX,
            num_bytes <= usize::MAX - 8,
        ensures
            final(cs).wf(),
            final(cs).extends(*old(cs)),
            final(cs).modulus == cfg.modulus,
            final(self).wf(*cfg, *final(cs)),
            out@.len() == num_bytes,
            vars_wf(out@, final(cs).values@.len() as int, cfg.modulus),
            ({
                let ub = ((nbits(cfg.modulus as nat) - 1) as nat / 8) as nat;
                let ne = ((num_bytes + ub - 1) as nat / ub) as nat;
                let t = squeeze_trans(
                    *cfg,
                    old(self).resolved_state(*old(cs)),
                    old(self).mode,
                    ne,
                );
                &&& final(self).resolved_state(*final(cs)) == t.0
                &&& final(self).mode == t.1
                &&& resolved_vars(out@, final(cs).values@) == bytes_to_fe(
                    bytes_of_elems(t.2, ub).take(num_bytes as int),
                )
                &&& final(self).permutation_calls == old(self).permutation_calls
                    + squeeze_perm_count(*cfg, old(self).mode, ne)
            }),
            old(cs).satisfied() && cfg.inverse_ok() ==> final(cs).satisfied(),
    {
        let p: u64 = cfg.modulus;
        let nb: usize = bit_size(cfg.modulus);
        proof {
            lemma_nbits_bounds(cfg.modulus as nat);
            lemma2_to64();
            if nbits(cfg.modulus as nat) < 9 {
                if nbits(cfg.modulus as nat) < 8 {
                    lemma_pow2_strictly_increases(nbits(cfg.modulus as nat), 8);
                }
            }
        }
        let ub: usize = (nb - 1) / 8;
        proof {
            lemma_ceil_div(num_bytes as int, ub as int);
            vstd::arithmetic::div_mod::lemma_fundamental_div_mod((nb - 1) as int, 8);
            vstd::arithmetic::div_mod::lemma_mod_division_less_than_divisor((nb - 1) as int, 8);
            assert(8 * ub <= nb - 1);
        }
        let ne: usize = (num_bytes + ub - 1) / ub;
        let ghost cs0 = *old(cs);
        let elems: Vec<FpVar> = self.squeeze_field_elements(cs, cfg, ne);
        let ghost cs1 = *cs;
        let ghost rs = resolved_vars(elems@, cs.values@);
        let mut bytes: Vec<FpVar> = Vec::new();
        proof {
            assert(rs.skip(0) =~= rs);
            assert(resolved_vars(bytes@, cs.values@) =~= Seq::<u64>::empty());
            assert(Seq::<u64>::empty() + bytes_to_fe(bytes_of_elems(rs, ub as nat))
                =~= bytes_to_fe(bytes_of_elems(rs, ub as nat)));
            assert(0 * (ub as int) == 0) by (nonlinear_arith);
            assert(bytes@.len() == 0 * ub);
        }
        for i in 0..ne
            invariant
                cfg.dims_ok(),
                cs.wf(),
                cs.extends(cs0),
                cs.extends(cs1),
                cs.modulus == p,
                p == cfg.modulus,
                p >= 256,
                nb == nbits(p as nat),
                9 <= nb <= 64,
                pow2((nb - 1) as nat) <= p < pow2(nb as nat),
                ub == (nb - 1) / 8,
                1 <= ub <= 8,
                8 * ub <= nb - 1,
                ne == elems@.len(),
                self.wf(*cfg, *cs),
                self.resolved_state(*cs) == self.resolved_state(cs1),
                vars_wf(elems@, cs.values@.len() as int, p),
                rs == resolved_vars(elems@, cs1.values@),
                forall|k: int|
                    0 <= k < elems@.len() ==> var_value(#[trigger] elems@[k], cs.values@) == rs[k],
                bytes@.len() == i * ub,
                vars_wf(bytes@, cs.values@.len() as int, p),
                resolved_vars(bytes@, cs.values@) + bytes_to_fe(
                    bytes_of_elems(rs.skip(i as int), ub as nat),
                ) == bytes_to_fe(bytes_of_elems(rs, ub as nat)),
                cs0.satisfied() && cfg.inverse_ok() ==> cs.satisfied(),
        {
            let ghost prev_cs = *cs;
            let ghost prev_bytes = bytes@;
            let xv: u64 = cs.value(&elems[i]);
            proof {
                assert(cs.value_of(elems@[i as int]) == rs[i as int]);
                lemma_pow2_le(nb as nat, 64);
            }
            let elem_bits: Vec<FpVar> = decompose_var(cs, elems[i], nb);
            let ghost bits_cs = *cs;
            let ghost bseq = le_bits_seq(xv, nb as nat);
            proof {
                lemma_extends_trans(cs0, prev_cs, *cs);
                lemma_extends_trans(cs1, prev_cs, *cs);
            }
            let constant: bool = match &elems[i] {
                FpVar::Constant(_) => true,
                FpVar::Var(_) => false,
            };
            let mut v: u64 = xv;
            proof {
                lemma2_to64();
                vstd::arithmetic::div_mod::lemma_div_basics(xv as int);
            }
            for j in 0..ub
                invariant
                    cs.wf(),
                    cs.extends(cs0),
                    cs.extends(cs1),
                    cs.extends(bits_cs),
                    cs.modulus == p,
                    p >= 256,
                    9 <= nb <= 64,
                    1 <= ub <= 8,
                    8 * ub <= nb - 1,
                    xv < p,
                    xv == rs[i as int],
                    0 <= i < rs.len(),
                    i < elems@.len(),
                    ne == elems@.len(),
                    rs == resolved_vars(elems@, cs1.values@),
                    vars_wf(elems@, cs.values@.len() as int, p),
                    forall|k: int|
                        0 <= k < elems@.len() ==> var_value(#[trigger] elems@[k], cs.values@)
                            == rs[k],
                    bseq == le_bits_seq(xv, nb as nat),
                    v as nat == xv as nat / pow2((8 * j) as nat),
                    elem_bits@.len() == nb,
                    vars_wf(elem_bits@, cs.values@.len() as int, p),
                    resolved_vars(elem_bits@, cs.values@) == bools_to_fe(bseq),
                    bytes@.len() == prev_bytes.len() + j,
                    prev_bytes.len() == i * ub,
                    vars_wf(bytes@, cs.values@.len() as int, p),
                    forall|k: int|
                        0 <= k < prev_bytes.len() ==> #[trigger] bytes@[k] == prev_bytes[k],
                    forall|k: int|
                        0 <= k < prev_bytes.len() ==> var_value(#[trigger] bytes@[k], cs.values@)
                            == var_value(prev_bytes[k], prev_cs.values@),
                    forall|k: int|
                        prev_bytes.len() <= k < bytes@.len() ==> var_value(
                            #[trigger] bytes@[k],
                            cs.values@,
                        ) == le_byte(xv, (k - prev_bytes.len()) as nat) as u64,
                    cs0.satisfied() && cfg.inverse_ok() ==> cs.satisfied(),
                    constant ==> elems@[i as int] is Constant,
            {
                let bv: u64 = v % 256;
                proof {
                    assert(bv == le_byte(xv, j as nat));
                }
                let ghost inner_cs = *cs;
                let ghost inner_bytes = bytes@;
                let byte_var: FpVar = if constant {
                    FpVar::Constant(bv)
                } else {
                    let alloc: FpVar = cs.alloc_value(bv, VarKind::Witness);
                    let ghost alloc_cs = *cs;
                    let mut eight: Vec<FpVar> = Vec::new();
                    let base: usize = 8 * j;
                    for q in 0..8usize
                        invariant
                            *cs == alloc_cs,
                            base == 8 * j,
                            base + 8 <= elem_bits@.len(),
                            eight@ == elem_bits@.subrange(base as int, base as int + q),
                    {
                        eight.push(elem_bits[base + q]);
                        proof {
                            assert(eight@ =~= elem_bits@.subrange(
                                base as int,
                                base as int + q + 1,
                            ));
                        }
                    }
                    proof {
                        assert forall|k: int| 0 <= k < eight@.len() implies var_wf(
                            #[trigger] eight@[k],
                            cs.values@.len() as int,
                            p,
                        ) by {
                            assert(eight@[k] == elem_bits@[base + k]);
                        }
                    }
                    proof {
                        // The eight bit values recompose to exactly this
                        // byte of the element.
                        let rbits = resolved_vars(
                            elem_bits@.subrange(base as int, base as int + 8),
                            alloc_cs.values@,
                        );
                        assert forall|k: int| 0 <= k < 8 implies #[trigger] rbits[k]
                            == bools_to_fe(bseq.subrange(base as int, base as int + 8))[k] by {
                            assert(elem_bits@.subrange(base as int, base as int + 8)[k]
                                == elem_bits@[base + k]);
                            lemma_var_value_prefix(
                                elem_bits@[base + k],
                                inner_cs.values@,
                                alloc_cs.values@,
                                p,
                            );
                            assert(resolved_vars(elem_bits@, inner_cs.values@)[base + k]
                                == var_value(elem_bits@[base + k], inner_cs.values@));
                            assert(bools_to_fe(bseq)[base + k] == bools_to_fe(
                                bseq.subrange(base as int, base as int + 8),
                            )[k]);
                        }
                        assert(rbits =~= bools_to_fe(bseq.subrange(base as int, base as int + 8)));
                        lemma_bits_val_as_fe(bseq.subrange(base as int, base as int + 8));
                        lemma_bits_chunk_is_byte(xv, nb as nat, j as nat);
                        assert(le_bits_value(rbits) == le_byte(xv, j as nat) as nat);
                        assert(resolved_vars(eight@, alloc_cs.values@) == rbits);
                        assert forall|k2: int| 0 <= k2 < eight@.len() implies var_value(
                            #[trigger] eight@[k2],
                            cs.values@,
                        ) <= 1 by {
                            assert(resolved_vars(eight@, alloc_cs.values@)[k2] == var_value(
                                eight@[k2],
                                alloc_cs.values@,
                            ));
                            assert(rbits[k2] == bools_to_fe(
                                bseq.subrange(base as int, base as int + 8),
                            )[k2]);
                        }
                        assert(crate::emitter::constraint_holds(
                            (Constraint::Bits { bits: eight, out: alloc }),
                            cs.values@,
                            p,
                        ));
                    }
                    cs.push_constraint(Constraint::Bits { bits: eight, out: alloc });
                    alloc
                };
                bytes.push(byte_var);
                proof {
                    lemma_extends_trans(cs0, inner_cs, *cs);
                    lemma_extends_trans(cs1, inner_cs, *cs);
                    lemma_extends_trans(bits_cs, inner_cs, *cs);
                    assert forall|k: int| 0 <= k < inner_bytes.len() implies var_value(
                        #[trigger] bytes@[k],
                        cs.values@,
                    ) == var_value(inner_bytes[k], inner_cs.values@) by {
                        assert(bytes@[k] == inner_bytes[k]);
                        lemma_var_value_prefix(inner_bytes[k], inner_cs.values@, cs.values@, p);
                    }
                    assert forall|k: int| 0 <= k < elem_bits@.len() implies var_value(
                        #[trigger] elem_bits@[k],
                        cs.values@,
                    ) == var_value(elem_bits@[k], inner_cs.values@) by {
                        lemma_var_value_prefix(elem_bits@[k], inner_cs.values@, cs.values@, p);
                    }
                    assert(resolved_vars(elem_bits@, cs.values@) =~= resolved_vars(
                        elem_bits@,
                        inner_cs.values@,
                    ));
                    assert forall|k: int| 0 <= k < elems@.len() implies var_value(
                        #[trigger] elems@[k],
                        cs.values@,
                    ) == rs[k] by {
                        lemma_var_value_prefix(elems@[k], inner_cs.values@, cs.values@, p);
                    }
                    lemma_pow2_pos((8 * j) as nat);
                    lemma_pow2_adds((8 * j) as nat, 8);
                    lemma2_to64();
                    lemma_div_denominator(xv as int, pow2((8 * j) as nat) as int, 256);
                    assert((8 * j + 8) as nat == (8 * (j + 1)) as nat);
                }
                v = v / 256;
            }
            proof {
                lemma_extends_trans(cs0, prev_cs, *cs);
                assert((i + 1) * ub == i * ub + ub) by (nonlinear_arith);
                assert(self.resolved_state(*cs) =~= self.resolved_state(prev_cs)) by {
                    lemma_resolved_prefix(self.state@, prev_cs.values@, cs.values@, p);
                }
                assert(rs.skip(i as int).drop_first() =~= rs.skip(i + 1));
                assert(rs.skip(i as int)[0] == rs[i as int]);
                assert(resolved_vars(bytes@, cs.values@) =~= resolved_vars(
                    prev_bytes,
                    prev_cs.values@,
                ) + bytes_to_fe(le_bytes_seq(xv, ub as nat)));
                assert((resolved_vars(prev_bytes, prev_cs.values@) + bytes_to_fe(
                    le_bytes_seq(xv, ub as nat),
                )) + bytes_to_fe(bytes_of_elems(rs.skip(i + 1), ub as nat)) =~= resolved_vars(
                    prev_bytes,
                    prev_cs.values@,
                ) + (bytes_to_fe(le_bytes_seq(xv, ub as nat)) + bytes_to_fe(
                    bytes_of_elems(rs.skip(i + 1), ub as nat),
                )));
                assert(bytes_to_fe(le_bytes_seq(xv, ub as nat)) + bytes_to_fe(
                    bytes_of_elems(rs.skip(i + 1), ub as nat),
                ) =~= bytes_to_fe(bytes_of_elems(rs.skip(i as int), ub as nat)));
            }
        }
        proof {
            assert(bytes_of_elems(rs.skip(ne as int), ub as nat) =~= Seq::<u8>::empty());
            assert(resolved_vars(bytes@, cs.values@) + bytes_to_fe(
                bytes_of_elems(rs.skip(ne as int), ub as nat),
            ) =~= resolved_vars(bytes@, cs.values@));
        }
        let mut out: Vec<FpVar> = Vec::new();
        for i in 0..num_bytes
            invariant
                num_bytes <= bytes@.len(),
                out@ == bytes@.take(i as int),
        {
            out.push(bytes[i]);
            proof {
                assert(out@ =~= bytes@.take(i + 1));
            }
        }
        proof {
            assert(resolved_vars(out@, cs.values@) =~= resolved_vars(bytes@, cs.values@).take(
                num_bytes as int,
            ));
            assert(resolved_vars(bytes@, cs.values@).take(num_bytes as int) =~= bytes_to_fe(
                bytes_of_elems(rs, ub as nat).take(num_bytes as int),
            ));
        }
        out
    }
}

impl RescueSpongeVar {
    /// Squeezes one circuit value per requested size, together with the
    /// boolean circuit values it was recomposed from. Each element is
    /// asserted to recompose from its own chunk of squeezed bits, so a size
    /// truncated to `k` bits resolves strictly below `2^k`; the values
    /// mirror the plain sponge's sized output exactly.
    pub fn squeeze_field_elements_with_sizes(
        &mut self,
        cs: &mut ConstraintSystem,
        cfg: &RescueConfig,
        sizes: &Vec<FieldElementSize>,
    ) -> (out: (Vec<FpVar>, Vec<Vec<FpVar>>))
        requires
            cfg.dims_ok(),
            old(cs).wf(),
            old(cs).modulus == cfg.modulus,
            old(self).wf(*cfg, *old(cs)),
            forall|i: int|
                0 <= i < sizes@.len() ==> (#[trigger] sizes@[i] matches FieldElementSize::Truncated(
                    k,
                ) ==> 1 <= k <= nbits(cfg.modulus as nat) - 1),
            63 * sizes@.len() <= usize::MAX - 64,
            old(self).permutation_calls + 63 * sizes@.len() + 66 <= u64::MAX,
        ensures
            final(cs).wf(),
            final(cs).extends(*old(cs)),
            final(cs).modulus == cfg.modulus,
            final(self).wf(*cfg, *final(cs)),
            out.0@.len() == sizes@.len(),
            out.1@.len() == sizes@.len(),
            vars_wf(out.0@, final(cs).values@.len() as int, cfg.modulus),
            ({
                let ub = (nbits(cfg.modulus as nat) - 1) as nat;
                let total = sizes_total_bits(*cfg, sizes@);
                let ne = ((total + ub - 1) as nat / ub) as nat;
                let t = squeeze_trans(
                    *cfg,
                    old(self).resolved_state(*old(cs)),
                    old(self).mode,
                    ne,
                );
                let allbits = bits_of_elems(t.2, ub).take(total as int);
                &&& final(self).resolved_state(*final(cs)) == t.0
                &&& final(self).mode == t.1
                &&& final(self).permutation_calls == old(self).permutation_calls
                    + squeeze_perm_count(*cfg, old(self).mode, ne)
                &&& forall|i: int|
                    0 <= i < sizes@.len() ==> var_value(#[trigger] out.0@[i], final(cs).values@)
                        as nat == bits_val(
                        allbits.subrange(
                            sizes_total_bits(*cfg, sizes@.take(i)) as int,
                            sizes_total_bits(*cfg, sizes@.take(i)) as int + size_num_bits(
                                *cfg,
                                sizes@[i],
                            ) as int,
                        ),
                    )
                &&& forall|i: int|
                    0 <= i < sizes@.len() ==> (var_value(#[trigger] out.0@[i], final(cs).values@)
                        as nat) < pow2(size_num_bits(*cfg, sizes@[i]))
                &&& forall|i: int|
                    0 <= i < sizes@.len() ==> (#[trigger] out.1@[i])@.len() == size_num_bits(
                        *cfg,
                        sizes@[i],
                    )
            }),
            old(cs).satisfied() && cfg.inverse_ok() ==> final(cs).satisfied(),
    {
        let p: u64 = cfg.modulus;
        let nb: usize = bit_size(cfg.modulus);
        proof {
            lemma_nbits_bounds(cfg.modulus as nat);
            lemma2_to64();
            vstd::arithmetic::power2::lemma2_to64_rest();
            if nbits(cfg.modulus as nat) < 2 {
                lemma_pow2_strictly_increases(nbits(cfg.modulus as nat), 1);
            }
        }
        let ub: usize = nb - 1;
        let n_sizes: usize = sizes.len();
        let mut total: usize = 0;
        proof {
            assert(sizes@.take(0) =~= Seq::<FieldElementSize>::empty());
        }
        for i in 0..n_sizes
            invariant
                n_sizes == sizes@.len(),
                ub == nbits(cfg.modulus as nat) - 1,
                1 <= ub <= 63,
                forall|j: int|
                    0 <= j < sizes@.len() ==> (#[trigger] sizes@[j]
                        matches FieldElementSize::Truncated(k) ==> 1 <= k <= ub),
                63 * sizes@.len() <= usize::MAX - 64,
                total == sizes_total_bits(*cfg, sizes@.take(i as int)),
                total <= 63 * i,
        {
            let s: FieldElementSize = sizes[i];
            let add: usize = match s {
                FieldElementSize::Full => ub,
                FieldElementSize::Truncated(k) => k,
            };
            proof {
                lemma_total_take_succ(*cfg, sizes@, i as int);
            }
            total = total + add;
        }
        proof {
            assert(sizes@.take(n_sizes as int) =~= sizes@);
        }
        let ghost cs0 = *old(cs);
        let bit_vars: Vec<FpVar> = self.squeeze_bits(cs, cfg, total);
        let ghost cs1 = *cs;
        let ghost allbits_full = bit_vars@;
        let ghost boolbits = ({
            let ne = ((total as nat + (ub as nat) - 1) as nat / (ub as nat)) as nat;
            let t = squeeze_trans(*cfg, old(self).resolved_state(cs0), old(self).mode, ne);
            bits_of_elems(t.2, ub as nat).take(total as int)
        });
        proof {
            assert(resolved_vars(bit_vars@, cs.values@) == bools_to_fe(boolbits));
            assert(bit_vars@.len() == boolbits.len());
        }
        let mut elems: Vec<FpVar> = Vec::new();
        let mut bits_out: Vec<Vec<FpVar>> = Vec::new();
        let mut off: usize = 0;
        proof {
            assert(sizes@.take(0) =~= Seq::<FieldElementSize>::empty());
        }
        for i in 0..n_sizes
            invariant
                n_sizes == sizes@.len(),
                ub == nbits(cfg.modulus as nat) - 1,
                1 <= ub <= 63,
                p == cfg.modulus,
                pow2(63) == 0x8000000000000000,
                pow2(ub as nat) <= cfg.modulus,
                cfg.dims_ok(),
                cs.wf(),
                cs.extends(cs0),
                cs.extends(cs1),
                cs.modulus == p,
                self.wf(*cfg, *cs),
                self.resolved_state(*cs) == self.resolved_state(cs1),
                forall|j: int|
                    0 <= j < sizes@.len() ==> (#[trigger] sizes@[j]
                        matches FieldElementSize::Truncated(k) ==> 1 <= k <= ub),
                bit_vars@ == allbits_full,
                vars_wf(bit_vars@, cs.values@.len() as int, p),
                boolbits.len() == bit_vars@.len(),
                boolbits.len() == sizes_total_bits(*cfg, sizes@),
                forall|q: int|
                    0 <= q < bit_vars@.len() ==> var_value(#[trigger] bit_vars@[q], cs.values@)
                        == bools_to_fe(boolbits)[q],
                off == sizes_total_bits(*cfg, sizes@.take(i as int)),
                elems@.len() == i,
                bits_out@.len() == i,
                vars_wf(elems@, cs.values@.len() as int, p),
                forall|j: int|
                    0 <= j < i ==> var_value(#[trigger] elems@[j], cs.values@) as nat == bits_val(
                        boolbits.subrange(
                            sizes_total_bits(*cfg, sizes@.take(j)) as int,
                            sizes_total_bits(*cfg, sizes@.take(j)) as int + size_num_bits(
                                *cfg,
                                sizes@[j],
                            ) as int,
                        ),
                    ),
                forall|j: int|
                    0 <= j < i ==> (var_value(#[trigger] elems@[j], cs.values@) as nat) < pow2(
                        size_num_bits(*cfg, sizes@[j]),
                    ),
                forall|j: int|
                    0 <= j < i ==> (#[trigger] bits_out@[j])@.len() == size_num_bits(
                        *cfg,
                        sizes@[j],
                    ),
                cs0.satisfied() && cfg.inverse_ok() ==> cs.satisfied(),
        {
            let s: FieldElementSize = sizes[i];
            let m: usize = match s {
                FieldElementSize::Full => ub,
                FieldElementSize::Truncated(k) => k,
            };
            proof {
                lemma_total_take_succ(*cfg, sizes@, i as int);
                lemma_total_take_le(*cfg, sizes@, i + 1);
            }
            let ghost chunk = boolbits.subrange(off as int, (off + m) as int);
            let chunk_vars: Vec<FpVar> = copy_var_range(&bit_vars, off, m);
            let mut acc: u64 = 0;
            let mut jj: usize = m;
            proof {
                assert(chunk.skip(m as int) =~= Seq::<bool>::empty());
                lemma2_to64();
                assert(bit_vars@.len() == bit_vars.len());
            }
            while jj > 0
                invariant
                    jj <= m,
                    1 <= m <= 63,
                    off + m <= bit_vars@.len(),
                    bit_vars@.len() <= usize::MAX,
                    cs.wf(),
                    cs.modulus == p,
                    pow2(63) == 0x8000000000000000,
                    vars_wf(bit_vars@, cs.values@.len() as int, p),
                    boolbits.len() == bit_vars@.len(),
                    forall|q: int|
                        0 <= q < bit_vars@.len() ==> var_value(#[trigger] bit_vars@[q], cs.values@)
                            == bools_to_fe(boolbits)[q],
                    chunk == boolbits.subrange(off as int, (off + m) as int),
                    acc as nat == bits_val(chunk.skip(jj as int)),
                    acc < pow2((m - jj) as nat),
                decreases jj,
            {
                jj = jj - 1;
                let bitv: u64 = cs.value(&bit_vars[off + jj]);
                proof {
                    assert(bitv == bools_to_fe(boolbits)[(off + jj) as int]);
                    assert(chunk.skip(jj as int)[0] == boolbits[(off + jj) as int]);
                    assert(chunk.skip(jj as int).drop_first() =~= chunk.skip(jj + 1));
                    lemma_pow2_unfold((m - jj) as nat);
                    lemma_pow2_le((m - jj) as nat, 63);
                }
                acc = 2 * acc + bitv;
            }
            proof {
                assert(chunk.skip(0) =~= chunk);
                lemma_bits_val_bound(chunk);
                lemma_pow2_le(m as nat, ub as nat);
            }
            let ghost prev_cs = *cs;
            let ghost prev_elems = elems@;
            let out_var: FpVar = cs.alloc_value(acc, VarKind::Witness);
            proof {
                assert(prev_cs.values@.len() == prev_cs.values.len());
                assert forall|q: int| 0 <= q < chunk_vars@.len() implies var_wf(
                    #[trigger] chunk_vars@[q],
                    cs.values@.len() as int,
                    p,
                ) by {
                    assert(chunk_vars@[q] == bit_vars@[off + q]);
                }
                assert forall|q: int| 0 <= q < chunk_vars@.len() implies var_value(
                    #[trigger] chunk_vars@[q],
                    cs.values@,
                ) == bools_to_fe(chunk)[q] by {
                    assert(chunk_vars@[q] == bit_vars@[off + q]);
                    lemma_var_value_prefix(bit_vars@[off + q], prev_cs.values@, cs.values@, p);
                    assert(bools_to_fe(boolbits)[off + q] == bools_to_fe(chunk)[q]);
                }
                assert(resolved_vars(chunk_vars@, cs.values@) =~= bools_to_fe(chunk));
                lemma_bits_val_as_fe(chunk);
                assert(crate::emitter::constraint_holds(
                    (Constraint::Bits { bits: chunk_vars, out: out_var }),
                    cs.values@,
                    p,
                ));
            }
            cs.push_constraint(Constraint::Bits { bits: chunk_vars, out: out_var });
            elems.push(out_var);
            bits_out.push(copy_var_range(&bit_vars, off, m));
            proof {
                lemma_extends_trans(cs0, prev_cs, *cs);
                lemma_extends_trans(cs1, prev_cs, *cs);
                assert forall|q: int| 0 <= q < bit_vars@.len() implies var_value(
                    #[trigger] bit_vars@[q],
                    cs.values@,
                ) == bools_to_fe(boolbits)[q] by {
                    lemma_var_value_prefix(bit_vars@[q], prev_cs.values@, cs.values@, p);
                }
                assert forall|j: int| 0 <= j < i implies var_value(
                    #[trigger] elems@[j],
                    cs.values@,
                ) == var_value(prev_elems[j], prev_cs.values@) by {
                    assert(elems@[j] == prev_elems[j]);
                    lemma_var_value_prefix(prev_elems[j], prev_cs.values@, cs.values@, p);
                }
                assert(self.resolved_state(*cs) =~= self.resolved_state(prev_cs)) by {
                    lemma_resolved_prefix(self.state@, prev_cs.values@, cs.values@, p);
                }
                assert(var_value(out_var, cs.values@) == acc);
            }
            off = off + m;
        }
        proof {
            assert forall|i: int| 0 <= i < sizes@.len() implies crate::field::fe_valid(
                var_value(#[trigger] elems@[i], cs.values@),
                cfg.modulus,
            ) by {
                lemma_pow2_le(size_num_bits(*cfg, sizes@[i]), ub as nat);
            }
        }
        (elems, bits_out)
    }
}

/// A copy of a range of a vector of circuit values.
fn copy_var_range(v: &Vec<FpVar>, start: usize, m: usize) -> (r: Vec<FpVar>)
    requires
        start + m <= v@.len(),
    ensures
        r@ == v@.subrange(start as int, (start + m) as int),
{
    let mut r: Vec<FpVar> = Vec::new();
    proof {
        assert(v@.len() == v.len());
    }
    for q in 0..m
        invariant
            start + m <= v@.len(),
            v@.len() <= usize::MAX,
            r@ == v@.subrange(start as int, (start + q) as int),
    {
        r.push(v[start + q]);
        proof {
            assert(r@ =~= v@.subrange(start as int, (start + q + 1) as int));
        }
    }
    r
}

} // verus!
