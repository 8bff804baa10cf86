//! Pruning limits for the blockbuilding search.
use vstd::arithmetic::power2::pow2;
use vstd::bits::lemma_usize_pow2_no_overflow;
use vstd::bits::lemma_usize_shl_is_mul;
use vstd::prelude::*;

verus! {

/// Heuristic for pruning search branches.
#[derive(Debug, Clone, Copy, PartialEq, Eq, Structural)]
pub enum Heuristic {
    /// Prune aggressively; prune branches that are unlikely to result in a
    /// solution.
    Fast,
    /// Prune conservatively; never prune a branch that could possibly result in
    /// a solution.
    Correct,
}

impl Default for Heuristic {
    fn default() -> (h: Self)
        ensures
            h == Heuristic::Correct,
    {
        Heuristic::Correct
    }
}

impl Heuristic {
    /// The most block pairings that a naive count allows within
    /// `remaining_moves`: at most `2^n` pairings in `n` moves, and for the
    /// correct heuristic that many per expected block.
    pub open spec fn spec_combinatoric_limit(self, expected_blocks: nat, remaining_moves: nat) -> nat {
        match self {
            Heuristic::Fast => pow2(remaining_moves),
            Heuristic::Correct => pow2(remaining_moves) * expected_blocks,
        }
    }

    /// Returns the maximum number of block pairings possible using a naive
    /// combinatoric approach.
    pub fn combinatoric_limit(self, expected_blocks: usize, remaining_moves: usize) -> (limit: usize)
        requires
            remaining_moves < usize::BITS,
            self == Heuristic::Correct ==> pow2(remaining_moves as nat) * expected_blocks
                <= usize::MAX,
        ensures
            limit == self.spec_combinatoric_limit(expected_blocks as nat, remaining_moves as nat),
    {
        proof {
            lemma_usize_pow2_no_overflow(remaining_moves as nat);
            lemma_usize_shl_is_mul(1, remaining_moves);
        }
        let power: usize = 1usize << remaining_moves;
        match self {
            Heuristic::Fast => power,
            Heuristic::Correct => power * expected_blocks,
        }
    }
}

/// The naive pairing limits: with no move left at most one pairing for the
/// fast heuristic, each further move at most doubles it, and the correct
/// heuristic allows that many for every expected block.
pub proof fn lemma_combinatoric_limit_laws(expected_blocks: nat, remaining_moves: nat)
    ensures
        Heuristic::Fast.spec_combinatoric_limit(expected_blocks, 0) == 1,
        Heuristic::Fast.spec_combinatoric_limit(expected_blocks, remaining_moves + 1) == 2
            * Heuristic::Fast.spec_combinatoric_limit(expected_blocks, remaining_moves),
        Heuristic::Correct.spec_combinatoric_limit(expected_blocks, remaining_moves) == expected_blocks
            * Heuristic::Fast.spec_combinatoric_limit(expected_blocks, remaining_moves),
{
    vstd::arithmetic::power2::lemma2_to64();
    vstd::arithmetic::power2::lemma_pow2_unfold(remaining_moves + 1);
    vstd::arithmetic::mul::lemma_mul_is_commutative(
        vstd::arithmetic::power2::pow2(remaining_moves) as int,
        expected_blocks as int,
    );
}

} // verus!
