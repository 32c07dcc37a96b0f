//! The immutable sponge configuration: round count, the forward and inverse
//! exponents of the nonlinear layer, the mixing matrix, the round-constant
//! vectors, and the rate/capacity split of the state.

use vstd::prelude::*;
use crate::field::{all_fe_valid, fe_pow_spec, fe_valid};

verus! {

/// Rejection of a configuration whose dimensions are inconsistent.
#[derive(Clone, Copy, PartialEq, Eq, Structural, Debug)]
pub enum ConfigError {
    ConfigurationMismatch,
}

/// The round count of the configuration that `create_test_rescue_parameter`
/// builds.
pub const RESCUE_ROUNDS: usize = 12;

/// The modulus of the small test field: a prime.
pub const TEST_MODULUS: u64 = 2147483647;

/// The forward exponent of the test configuration.
pub const TEST_ALPHA: u64 = 5;

/// The inverse of `TEST_ALPHA` modulo `TEST_MODULUS - 1`.
pub const TEST_ALPHA_INV: u64 = 1717986917;

/// An immutable parameter block for the permutation and both sponges.
#[derive(Debug)]
pub struct RescueConfig {
    /// Number of rounds; the permutation applies `2 * rounds` half-rounds.
    pub rounds: usize,
    /// Forward exponent of the nonlinear layer.
    pub alpha: u64,
    /// Multiplicative inverse of `alpha` modulo the order of the field's
    /// multiplicative group.
    pub alpha_inv: u64,
    /// Square mixing matrix of size `rate + capacity`.
    pub mds: Vec<Vec<u64>>,
    /// Round-constant vectors: `2 * rounds + 1` of them, each of size
    /// `rate + capacity`.
    pub arc: Vec<Vec<u64>>,
    /// Number of state elements exposed to absorbed and squeezed data.
    pub rate: usize,
    /// Number of reserved state elements.
    pub capacity: usize,
    /// Number of elements the two-to-one compression squeezes.
    pub output_size: usize,
    /// The field modulus.
    pub modulus: u64,
}

impl RescueConfig {
    /// The state width: rate plus capacity.
    pub open spec fn width(self) -> int {
        self.rate + self.capacity
    }

    /// The mixing matrix as a sequence of rows.
    pub open spec fn mat(self) -> Seq<Seq<u64>> {
        self.mds@.map_values(|row: Vec<u64>| row@)
    }

    /// The round-constant vectors as a sequence of rows.
    pub open spec fn arcs(self) -> Seq<Seq<u64>> {
        self.arc@.map_values(|row: Vec<u64>| row@)
    }

    /// A matrix is a stack of rows of the state width whose entries are
    /// canonical residues.
    pub open spec fn rows_wf(rows: Seq<Seq<u64>>, width: int, p: u64) -> bool {
        forall|i: int|
            0 <= i < rows.len() ==> (#[trigger] rows[i]).len() == width && all_fe_valid(
                rows[i],
                p,
            )
    }

    /// Structural well-formedness: every dimension agrees with the state
    /// width, every entry is a canonical residue, and the sizes leave room
    /// for the index arithmetic of the sponges.
    pub open spec fn dims_ok(self) -> bool {
        &&& self.modulus >= 2
        &&& 1 <= self.rate
        &&& self.rate + self.capacity <= usize::MAX
        &&& 1 <= self.rounds
        &&& 2 * self.rounds + 1 <= usize::MAX
        &&& self.arc.len() == 2 * self.rounds + 1
        &&& self.mds.len() == self.width()
        &&& Self::rows_wf(self.mat(), self.width(), self.modulus)
        &&& Self::rows_wf(self.arcs(), self.width(), self.modulus)
        &&& 1 <= self.output_size
    }

    /// Raising to `alpha_inv` is a genuine inverse of raising to `alpha`:
    /// the two power maps compose to the identity on canonical residues.
    /// This is the semantic content of `alpha * alpha_inv` being congruent
    /// to one modulo the order of the multiplicative group.
    pub open spec fn inverse_ok(self) -> bool {
        forall|x: u64|
            fe_valid(x, self.modulus) ==> fe_pow_spec(
                #[trigger] fe_pow_spec(x, self.alpha_inv, self.modulus),
                self.alpha,
                self.modulus,
            ) == x
    }

    /// Builds a configuration, rejecting inconsistent dimensions before any
    /// sponge can be built on them.
    pub fn new(
        rounds: usize,
        alpha: u64,
        alpha_inv: u64,
        mds: Vec<Vec<u64>>,
        arc: Vec<Vec<u64>>,
        rate: usize,
        capacity: usize,
        output_size: usize,
        modulus: u64,
    ) -> (r: Result<RescueConfig, ConfigError>)
        ensures
            ({
                let c = (RescueConfig {
                    rounds,
                    alpha,
                    alpha_inv,
                    mds,
                    arc,
                    rate,
                    capacity,
                    output_size,
                    modulus,
                });
                &&& (r matches Ok(got) ==> got == c && c.dims_ok())
                &&& (r is Err <==> !c.dims_ok())
            }),
    {
        if modulus < 2 || rate < 1 || rounds < 1 || output_size < 1 {
            return Err(ConfigError::ConfigurationMismatch);
        }
        if capacity > usize::MAX - rate {
            return Err(ConfigError::ConfigurationMismatch);
        }
        let width: usize = rate + capacity;
        if rounds > (usize::MAX - 1) / 2 {
            return Err(ConfigError::ConfigurationMismatch);
        }
        if arc.len() != 2 * rounds + 1 || mds.len() != width {
            return Err(ConfigError::ConfigurationMismatch);
        }
        if !rows_ok(&mds, width, modulus) || !rows_ok(&arc, width, modulus) {
            return Err(ConfigError::ConfigurationMismatch);
        }
        Ok(
            RescueConfig {
                rounds,
                alpha,
                alpha_inv,
                mds,
                arc,
                rate,
                capacity,
                output_size,
                modulus,
            },
        )
    }
}

/// Checks that every row has the given width and holds canonical residues.
fn rows_ok(rows: &Vec<Vec<u64>>, width: usize, p: u64) -> (r: bool)
    ensures
        r == RescueConfig::rows_wf(rows@.map_values(|row: Vec<u64>| row@), width as int, p),
{
    let ghost view = rows@.map_values(|row: Vec<u64>| row@);
    for i in 0..rows.len()
        invariant
            view == rows@.map_values(|row: Vec<u64>| row@),
            view.len() == rows@.len(),
            forall|k: int|
                0 <= k < i ==> (#[trigger] view[k]).len() == width && all_fe_valid(view[k], p),
    {
        let row: &Vec<u64> = &rows[i];
        proof {
            assert(view[i as int] == rows@[i as int]@);
        }
        if row.len() != width {
            return false;
        }
        for j in 0..row.len()
            invariant
                view == rows@.map_values(|row: Vec<u64>| row@),
                view.len() == rows@.len(),
                i < view.len(),
                row@ == view[i as int],
                row@.len() == width,
                forall|k: int|
                    0 <= k < i ==> (#[trigger] view[k]).len() == width && all_fe_valid(view[k], p),
                forall|k: int| 0 <= k < j ==> fe_valid(#[trigger] row@[k], p),
        {
            if row[j] >= p {
                proof {
                    assert(!fe_valid(view[i as int][j as int], p));
                }
                return false;
            }
        }
    }
    true
}

/// Builds the fixed test configuration over the small prime field: `RESCUE_ROUNDS`
/// rounds, forward exponent `TEST_ALPHA`, rate 3, capacity 1, one output
/// element. The mixing matrix takes the first 16 supplied values and the
/// round-constant vectors the next 100, each reduced to a canonical residue.
pub fn create_test_rescue_parameter(randomness: &Vec<u64>) -> (r: RescueConfig)
    requires
        randomness@.len() >= 116,
    ensures
        r.dims_ok(),
        r.rounds == RESCUE_ROUNDS,
        r.alpha == TEST_ALPHA,
        r.alpha_inv == TEST_ALPHA_INV,
        r.rate == 3,
        r.capacity == 1,
        r.output_size == 1,
        r.modulus == TEST_MODULUS,
        forall|i: int, j: int|
            0 <= i < 4 && 0 <= j < 4 ==> r.mat()[i][j] == randomness@[4 * i + j] as int % (
            TEST_MODULUS as int),
        forall|i: int, j: int|
            0 <= i < 25 && 0 <= j < 4 ==> r.arcs()[i][j] == randomness@[16 + 4 * i + j] as int % (
            TEST_MODULUS as int),
{
    let mut mds: Vec<Vec<u64>> = Vec::new();
    for i in 0..4usize
        invariant
            randomness@.len() >= 116,
            mds@.len() == i,
            forall|k: int|
                0 <= k < i ==> (#[trigger] mds@[k])@.len() == 4 && (forall|j: int|
                    0 <= j < 4 ==> (#[trigger] mds@[k]@[j]) == randomness@[4 * k + j] as int % (
                    TEST_MODULUS as int)),
    {
        let mut row: Vec<u64> = Vec::new();
        for j in 0..4usize
            invariant
                randomness@.len() >= 116,
                i < 4,
                row@.len() == j,
                forall|k: int|
                    0 <= k < j ==> (#[trigger] row@[k]) == randomness@[4 * i + k] as int % (
                    TEST_MODULUS as int),
        {
            row.push(randomness[4 * i + j] % TEST_MODULUS);
        }
        mds.push(row);
    }
    let mut arc: Vec<Vec<u64>> = Vec::new();
    for i in 0..25usize
        invariant
            randomness@.len() >= 116,
            arc@.len() == i,
            forall|k: int|
                0 <= k < i ==> (#[trigger] arc@[k])@.len() == 4 && (forall|j: int|
                    0 <= j < 4 ==> (#[trigger] arc@[k]@[j]) == randomness@[16 + 4 * k + j] as int % (
                    TEST_MODULUS as int)),
    {
        let mut row: Vec<u64> = Vec::new();
        for j in 0..4usize
            invariant
                randomness@.len() >= 116,
                i < 25,
                row@.len() == j,
                forall|k: int|
                    0 <= k < j ==> (#[trigger] row@[k]) == randomness@[16 + 4 * i + k] as int % (
                    TEST_MODULUS as int),
        {
            row.push(randomness[16 + 4 * i + j] % TEST_MODULUS);
        }
        arc.push(row);
    }
    let r = RescueConfig {
        rounds: RESCUE_ROUNDS,
        alpha: TEST_ALPHA,
        alpha_inv: TEST_ALPHA_INV,
        mds,
        arc,
        rate: 3,
        capacity: 1,
        output_size: 1,
        modulus: TEST_MODULUS,
    };
    proof {
        assert forall|i: int| 0 <= i < r.mat().len() implies (#[trigger] r.mat()[i]).len() == 4
            && all_fe_valid(r.mat()[i], TEST_MODULUS) by {
            assert(r.mat()[i] == r.mds@[i]@);
        }
        assert forall|i: int| 0 <= i < r.arcs().len() implies (#[trigger] r.arcs()[i]).len() == 4
            && all_fe_valid(r.arcs()[i], TEST_MODULUS) by {
            assert(r.arcs()[i] == r.arc@[i]@);
        }
    }
    r
}

} // verus!
