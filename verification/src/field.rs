//! Arithmetic modulo a prime, on `u64` values held strictly below the modulus.
//!
//! A field element is a canonical residue: a `u64` below the modulus `p`.
//! The executable operations are proved against the plain mathematical
//! residue arithmetic, with exponentiation defined through `vstd`'s `pow`.

use vstd::prelude::*;
use vstd::arithmetic::div_mod::{
    lemma_mod_add_multiples_vanish, lemma_mul_mod_noop_left, lemma_mul_mod_noop_right,
};
use vstd::arithmetic::mul::{lemma_mul_is_associative, lemma_mul_is_commutative};
use vstd::arithmetic::power::{
    lemma_pow_adds, lemma_pow_multiplies, lemma_square_is_pow2, pow,
};
use vstd::arithmetic::power2::{lemma_pow2_pos, lemma_pow2_unfold, pow2};

verus! {

/// A field element is a canonical residue below the modulus.
pub open spec fn fe_valid(x: u64, p: u64) -> bool {
    x < p
}

/// Every entry of the sequence is a canonical residue below the modulus.
pub open spec fn all_fe_valid(s: Seq<u64>, p: u64) -> bool {
    forall|i: int| 0 <= i < s.len() ==> fe_valid(#[trigger] s[i], p)
}

/// The sum of two residues, reduced.
pub open spec fn fe_add_spec(a: u64, b: u64, p: u64) -> u64 {
    ((a + b) % (p as int)) as u64
}

/// The difference of two residues, reduced (the Euclidean remainder is
/// non-negative, so this is the canonical residue of `a - b`).
pub open spec fn fe_sub_spec(a: u64, b: u64, p: u64) -> u64 {
    ((a - b) % (p as int)) as u64
}

/// The product of two residues, reduced.
pub open spec fn fe_mul_spec(a: u64, b: u64, p: u64) -> u64 {
    ((a * b) % (p as int)) as u64
}

/// The power map `b^e mod p`.
pub open spec fn fe_pow_spec(b: u64, e: u64, p: u64) -> u64 {
    (pow(b as int, e as nat) % (p as int)) as u64
}

/// Addition in the field.
pub fn fe_add(a: u64, b: u64, p: u64) -> (r: u64)
    requires
        p >= 2,
        fe_valid(a, p),
        fe_valid(b, p),
    ensures
        r == fe_add_spec(a, b, p),
        fe_valid(r, p),
{
    let s: u128 = a as u128 + b as u128;
    let m: u128 = s % (p as u128);
    m as u64
}

/// Subtraction in the field.
pub fn fe_sub(a: u64, b: u64, p: u64) -> (r: u64)
    requires
        p >= 2,
        fe_valid(a, p),
        fe_valid(b, p),
    ensures
        r == fe_sub_spec(a, b, p),
        fe_valid(r, p),
{
    let s: u128 = a as u128 + p as u128 - b as u128;
    let m: u128 = s % (p as u128);
    proof {
        lemma_mod_add_multiples_vanish(a - b, p as int);
    }
    m as u64
}

/// Multiplication in the field.
pub fn fe_mul(a: u64, b: u64, p: u64) -> (r: u64)
    requires
        p >= 2,
        fe_valid(a, p),
        fe_valid(b, p),
    ensures
        r == fe_mul_spec(a, b, p),
        fe_valid(r, p),
{
    proof {
        vstd::arithmetic::mul::lemma_mul_upper_bound(
            a as int,
            u64::MAX as int,
            b as int,
            u64::MAX as int,
        );
    }
    let s: u128 = a as u128 * b as u128;
    let m: u128 = s % (p as u128);
    m as u64
}

/// The value a little-endian sequence of bits denotes: entry zero is the
/// lowest bit.
pub open spec fn le_bits_value(s: Seq<u64>) -> nat
    decreases s.len(),
{
    if s.len() == 0 {
        0
    } else {
        (s[0] + 2 * le_bits_value(s.drop_first())) as nat
    }
}

/// A sequence of `n` bits denotes a value below `2^n`.
pub proof fn lemma_le_bits_value_bound(s: Seq<u64>)
    requires
        forall|i: int| 0 <= i < s.len() ==> #[trigger] s[i] <= 1,
    ensures
        le_bits_value(s) < pow2(s.len()),
    decreases s.len(),
{
    lemma_pow2_pos(s.len());
    if s.len() > 0 {
        lemma_le_bits_value_bound(s.drop_first());
        lemma_pow2_unfold(s.len());
    }
}

/// Splitting an exponent into its lowest bit and the rest: the square of the
/// base, raised to half the exponent, accounts for the even part.
proof fn lemma_pow_split(b: int, e: nat)
    requires
        b >= 0,
    ensures
        pow(b, e) == pow(b * b, e / 2) * pow(b, e % 2),
{
    lemma_square_is_pow2(b);
    lemma_pow_multiplies(b, 2, e / 2);
    lemma_pow_adds(b, 2 * (e / 2), e % 2);
    assert(e == 2 * (e / 2) + e % 2);
}

/// Exponentiation in the field by binary square-and-multiply.
pub fn fe_pow(base: u64, e: u64, p: u64) -> (r: u64)
    requires
        p >= 2,
        fe_valid(base, p),
    ensures
        r == fe_pow_spec(base, e, p),
        fe_valid(r, p),
{
    let mut result: u64 = 1 % p;
    let mut b: u64 = base;
    let mut exp: u64 = e;
    proof {
        assert(result == 1) by {
            vstd::arithmetic::div_mod::lemma_small_mod(1nat, p as nat);
        }
        assert(result * pow(b as int, exp as nat) == pow(base as int, e as nat));
    }
    while exp > 0
        invariant
            p >= 2,
            fe_valid(result, p),
            fe_valid(b, p),
            (result * pow(b as int, exp as nat)) % (p as int) == pow(base as int, e as nat) % (
            p as int),
        decreases exp,
    {
        let ghost prev_result = result;
        let ghost prev_b = b;
        let ghost prev_exp = exp as nat;
        let odd: bool = exp % 2 == 1;
        if odd {
            result = fe_mul(result, b, p);
        }
        b = fe_mul(b, b, p);
        exp = exp / 2;
        proof {
            let pi = p as int;
            let rb = prev_result as int;
            let bb = prev_b as int;
            let half = prev_exp / 2;
            lemma_pow_split(bb, prev_exp);
            // Reducing the squared base before exponentiation changes nothing
            // modulo p.
            vstd::arithmetic::power::lemma_pow_mod_noop(bb * bb, half, pi);
            assert(pow(b as int, exp as nat) == pow((bb * bb) % pi, half));
            if odd {
                assert(pow(bb, prev_exp % 2) == bb) by {
                    vstd::arithmetic::power::lemma_pow1(bb);
                }
                assert((result * pow(b as int, exp as nat)) % pi == (rb * pow(bb, prev_exp))
                    % pi) by {
                    lemma_mul_mod_noop_left(rb * bb, pow((bb * bb) % pi, half), pi);
                    lemma_mul_mod_noop_right((rb * bb) % pi, pow((bb * bb) % pi, half), pi);
                    lemma_mul_mod_noop_right((rb * bb) % pi, pow(bb * bb, half), pi);
                    lemma_mul_mod_noop_left(rb * bb, pow(bb * bb, half), pi);
                    assert((rb * bb) * pow(bb * bb, half) == rb * (pow(bb * bb, half) * bb)) by {
                        lemma_mul_is_associative(rb, bb, pow(bb * bb, half));
                        lemma_mul_is_commutative(bb, pow(bb * bb, half));
                        lemma_mul_is_associative(rb, pow(bb * bb, half), bb);
                    }
                    assert(pow(bb * bb, half) * bb == pow(bb, prev_exp));
                }
            } else {
                assert(pow(bb, prev_exp % 2) == 1) by {
                    vstd::arithmetic::power::lemma_pow0(bb);
                }
                assert((result * pow(b as int, exp as nat)) % pi == (rb * pow(bb, prev_exp))
                    % pi) by {
                    lemma_mul_mod_noop_right(rb, pow((bb * bb) % pi, half), pi);
                    lemma_mul_mod_noop_right(rb, pow(bb * bb, half), pi);
                    assert(pow(bb * bb, half) == pow(bb, prev_exp));
                }
            }
        }
    }
    proof {
        vstd::arithmetic::power::lemma_pow0(b as int);
        vstd::arithmetic::div_mod::lemma_small_mod(result as nat, p as nat);
    }
    result
}

} // verus!
