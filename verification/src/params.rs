use crate::error::AuthError;
use vstd::arithmetic::power2::{lemma_pow2_strictly_increases, pow2};
use vstd::bits::lemma_u64_shl_is_mul;
use vstd::prelude::*;

verus! {

/// The largest `log_cost` for which the working memory can fit any address
/// space at all: above it `128 * 2^log_cost` alone exceeds `isize::MAX`.
pub const MAX_LOG_COST: u8 = 55;

/// Whether the hashing primitive can run under the three cost values.
///
/// The primitive works on `2^log_cost` blocks of `128 * block_size` bytes and
/// on `parallelism` lanes of the same block size; both buffers have to be
/// allocatable, `2^log_cost` has to stay below `2^(16 * block_size)`, and
/// `block_size * parallelism` below `2^30`.
pub open spec fn acceptable(log_cost: u8, block_size: u32, parallelism: u32) -> bool {
    &&& log_cost >= 1
    &&& block_size >= 1
    &&& parallelism >= 1
    &&& log_cost < 16 * block_size
    &&& block_size * parallelism < 0x4000_0000
    &&& 128 * block_size * pow2(log_cost as nat) <= isize::MAX
    &&& 128 * block_size * parallelism <= isize::MAX
}

/// The work factor of one hash. A value of this type always describes work
/// that the primitive can carry out; it never changes once made.
#[derive(Clone, Copy, Debug, PartialEq, Eq, Structural)]
pub struct CostParameters {
    log_cost: u8,
    block_size: u32,
    parallelism: u32,
}

impl CostParameters {
    /// The invariant of the type: the three values are acceptable.
    #[verifier::type_invariant]
    pub closed spec fn is_valid(self) -> bool {
        acceptable(self.log_cost, self.block_size, self.parallelism)
    }

    pub closed spec fn spec_log_cost(&self) -> u8 {
        self.log_cost
    }

    pub closed spec fn spec_block_size(&self) -> u32 {
        self.block_size
    }

    pub closed spec fn spec_parallelism(&self) -> u32 {
        self.parallelism
    }

    /// Validity is a property of the three values alone.
    pub proof fn lemma_valid_by_fields(self)
        ensures
            self.is_valid() == acceptable(
                self.spec_log_cost(),
                self.spec_block_size(),
                self.spec_parallelism(),
            ),
    {
    }

    /// Two parameter sets are equal exactly when all three values match.
    pub proof fn lemma_equal_by_fields(self, other: CostParameters)
        ensures
            (self == other) <==> (self.spec_log_cost() == other.spec_log_cost()
                && self.spec_block_size() == other.spec_block_size()
                && self.spec_parallelism() == other.spec_parallelism()),
    {
    }

    /// Makes a parameter set, or refuses values under which the primitive
    /// could not run.
    pub fn new(log_cost: u8, block_size: u32, parallelism: u32) -> (made: Result<
        CostParameters,
        AuthError,
    >)
        ensures
            match made {
                Ok(params) => {
                    &&& acceptable(log_cost, block_size, parallelism)
                    &&& params.is_valid()
                    &&& params.spec_log_cost() == log_cost
                    &&& params.spec_block_size() == block_size
                    &&& params.spec_parallelism() == parallelism
                },
                Err(e) => e == AuthError::InvalidParameters && !acceptable(
                    log_cost,
                    block_size,
                    parallelism,
                ),
            },
    {
        if check_acceptable(log_cost, block_size, parallelism) {
            Ok(CostParameters { log_cost, block_size, parallelism })
        } else {
            Err(AuthError::InvalidParameters)
        }
    }

    #[verifier::when_used_as_spec(spec_log_cost)]
    pub fn log_cost(&self) -> (value: u8)
        ensures
            value == self.spec_log_cost(),
    {
        self.log_cost
    }

    #[verifier::when_used_as_spec(spec_block_size)]
    pub fn block_size(&self) -> (value: u32)
        ensures
            value == self.spec_block_size(),
    {
        self.block_size
    }

    #[verifier::when_used_as_spec(spec_parallelism)]
    pub fn parallelism(&self) -> (value: u32)
        ensures
            value == self.spec_parallelism(),
    {
        self.parallelism
    }
}

/// Decides `acceptable` on machine integers.
pub fn check_acceptable(log_cost: u8, block_size: u32, parallelism: u32) -> (ok: bool)
    ensures
        ok == acceptable(log_cost, block_size, parallelism),
{
    if log_cost == 0 || block_size == 0 || parallelism == 0 {
        return false;
    }
    if log_cost > MAX_LOG_COST {
        proof {
            if log_cost > 56 {
                lemma_pow2_strictly_increases(56, log_cost as nat);
            }
            lemma_pow2_56();
            assert(128 * block_size * pow2(log_cost as nat) >= 128 * pow2(log_cost as nat))
                by (nonlinear_arith)
                requires
                    block_size >= 1,
            ;
        }
        return false;
    }
    let block_bytes: u64 = 128 * (block_size as u64);
    if (log_cost as u64) >= 16 * (block_size as u64) {
        return false;
    }
    assert(block_size * parallelism <= 0xffff_ffff * 0xffff_ffff) by (nonlinear_arith)
        requires
            block_size <= 0xffff_ffff,
            parallelism <= 0xffff_ffff,
    ;
    let lanes: u64 = (block_size as u64) * (parallelism as u64);
    if lanes >= 0x4000_0000 {
        return false;
    }
    let limit: u128 = isize::MAX as u128;
    let blocks: u64 = 1u64 << (log_cost as u64);
    proof {
        lemma_pow2_strictly_increases(log_cost as nat, 56);
        lemma_pow2_56();
        lemma_u64_shl_is_mul(1u64, log_cost as u64);
    }
    assert(block_bytes * blocks <= 0x80_0000_0000 * 0x100_0000_0000_0000) by (nonlinear_arith)
        requires
            block_bytes <= 0x80_0000_0000,
            blocks <= 0x100_0000_0000_0000,
    ;
    let memory: u128 = (block_bytes as u128) * (blocks as u128);
    let lane_bytes: u128 = 128 * (lanes as u128);
    proof {
        assert(128 * block_size * pow2(log_cost as nat) == memory) by (nonlinear_arith)
            requires
                memory == (128 * block_size) * pow2(log_cost as nat),
        ;
        assert(128 * block_size * parallelism == lane_bytes) by (nonlinear_arith)
            requires
                lane_bytes == 128 * (block_size * parallelism),
        ;
    }
    memory <= limit && lane_bytes <= limit
}

proof fn lemma_pow2_56()
    ensures
        pow2(56) == 0x100_0000_0000_0000,
{
    vstd::arithmetic::power2::lemma2_to64_rest();
}

} // verus!
