//! The decisions of the blockbuilding search: when a depth-first branch has
//! found enough blocks, gives up or goes on, which grips are worth twisting
//! next, how the search deepens until it has enough solutions, and which
//! block counts a stage aims for in turn.
use crate::grips::GripId;
use crate::heuristic::Heuristic;
use vstd::prelude::*;

verus! {

/// What a depth-first branch does next.
#[derive(Debug, Clone, Copy, PartialEq, Eq, Structural)]
pub enum BranchStep {
    /// The branch has at most the expected number of blocks: keep it.
    Found,
    /// Nothing more is searched from this branch.
    GiveUp,
    /// Try every twist worth testing.
    Expand,
}

/// Decides a branch of the depth-first search from its block count, the
/// block count it aims for, the depth left, and how many solutions are still
/// wanted (`None` when there is no such count). `might_be_solvable` is the
/// pruning heuristic's answer, asked only when nothing else decides.
pub fn branch_step(
    block_count: usize,
    expected_blocks: usize,
    remaining_depth: usize,
    solutions_left_to_find: Option<i64>,
    might_be_solvable: bool,
) -> (r: BranchStep)
    ensures
        block_count <= expected_blocks <==> r == BranchStep::Found,
        r == BranchStep::Expand <==> block_count > expected_blocks && remaining_depth > 0 && !(
        solutions_left_to_find matches Some(n) && n <= 0) && might_be_solvable,
{
    if block_count <= expected_blocks {
        return BranchStep::Found;
    }
    if remaining_depth == 0 {
        return BranchStep::GiveUp;
    }
    if let Some(n) = solutions_left_to_find {
        if n <= 0 {
            return BranchStep::GiveUp;
        }
    }
    if !might_be_solvable {
        return BranchStep::GiveUp;
    }
    BranchStep::Expand
}

/// Twisting `grip` after the branch's last twists can lead somewhere new: it
/// is not the grip just twisted, nor the grip twisted two moves ago when the
/// last move was on its opposite (the two commute), and some block moves
/// with it.
pub open spec fn spec_grip_is_worth_testing(
    grip: GripId,
    last_grip: Option<GripId>,
    second_to_last_grip: Option<GripId>,
    moves_some_block: bool,
) -> bool {
    &&& last_grip != Some(grip)
    &&& !(last_grip == Some(grip.spec_opposite()) && second_to_last_grip == Some(grip))
    &&& moves_some_block
}

/// Returns whether twisting `grip` next is worth testing; see
/// [`spec_grip_is_worth_testing`].
pub fn grip_is_worth_testing(
    grip: GripId,
    last_grip: Option<GripId>,
    second_to_last_grip: Option<GripId>,
    moves_some_block: bool,
) -> (b: bool)
    ensures
        b == spec_grip_is_worth_testing(grip, last_grip, second_to_last_grip, moves_some_block),
{
    if let Some(last) = last_grip {
        if last == grip {
            return false;
        }
        if last == grip.opposite() {
            if let Some(before) = second_to_last_grip {
                if before == grip {
                    return false;
                }
            }
        }
    }
    moves_some_block
}

impl Heuristic {
    /// Whether `block_count` blocks can come down to `expected_blocks` within
    /// the pairing limits: the pairings still needed fit both the
    /// combinatoric limit and `grip_theoretic_limit`.
    pub fn pairings_fit(
        self,
        block_count: usize,
        expected_blocks: usize,
        remaining_moves: usize,
        grip_theoretic_limit: usize,
    ) -> (b: bool)
        requires
            expected_blocks <= block_count,
            remaining_moves < usize::BITS,
            self == Heuristic::Correct ==> vstd::arithmetic::power2::pow2(remaining_moves as nat) * expected_blocks
                <= usize::MAX,
        ensures
            b == (block_count - expected_blocks <= self.spec_combinatoric_limit(
                expected_blocks as nat,
                remaining_moves as nat,
            ) && block_count - expected_blocks <= grip_theoretic_limit),
    {
        let needed = block_count - expected_blocks;
        needed <= self.combinatoric_limit(expected_blocks, remaining_moves) && needed <= grip_theoretic_limit
    }
}

/// How many solutions a blockbuilding step wants before it stops
/// deepening, by depth: `counts[0]` up to depth one, then one entry per
/// depth up to four and beyond.
pub open spec fn spec_desired_solution_count(counts: [usize; 4], depth: nat) -> usize {
    if depth <= 1 {
        counts[0]
    } else if depth == 2 {
        counts[1]
    } else if depth == 3 {
        counts[2]
    } else {
        counts[3]
    }
}

/// Returns how many solutions a step wants at `depth`.
pub fn desired_solution_count(counts: [usize; 4], depth: usize) -> (n: usize)
    ensures
        n == spec_desired_solution_count(counts, depth as nat),
{
    if depth <= 1 {
        counts[0]
    } else if depth == 2 {
        counts[1]
    } else if depth == 3 {
        counts[2]
    } else {
        counts[3]
    }
}

/// What a blockbuilding step does after a search.
#[derive(Debug, Clone, Copy, PartialEq, Eq, Structural)]
pub enum Deepening {
    /// Search again at `depth`, for at most `solutions_left` more solutions.
    Search { depth: usize, solutions_left: usize },
    /// Enough solutions, or no depth left.
    Stop,
}

/// The first search of a step: depth zero, for as many solutions as depth
/// zero wants.
pub fn first_search(counts: [usize; 4]) -> (r: Deepening)
    ensures
        r == (Deepening::Search { depth: 0, solutions_left: spec_desired_solution_count(counts, 0) }),
{
    Deepening::Search { depth: 0, solutions_left: desired_solution_count(counts, 0) }
}

/// After searching at `depth` and holding `found` solutions: stop when the
/// depth wanted no more than that or `max_depth` is reached, else search one
/// level deeper for what the next depth still wants.
pub fn after_search(counts: [usize; 4], max_depth: usize, depth: usize, found: usize) -> (r: Deepening)
    ensures
        found >= spec_desired_solution_count(counts, depth as nat) || depth >= max_depth ==> r
            == Deepening::Stop,
        found < spec_desired_solution_count(counts, depth as nat) && depth < max_depth ==> r == (Deepening::Search {
            depth: (depth + 1) as usize,
            solutions_left: if found < spec_desired_solution_count(counts, (depth + 1) as nat) {
                (spec_desired_solution_count(counts, (depth + 1) as nat) - found) as usize
            } else {
                0
            },
        }),
{
    if found >= desired_solution_count(counts, depth) || depth >= max_depth {
        return Deepening::Stop;
    }
    let next = depth + 1;
    let desired = desired_solution_count(counts, next);
    Deepening::Search { depth: next, solutions_left: desired.saturating_sub(found) }
}

/// The block counts a stage aims for in turn: from one below the count it
/// starts with down to its target.
pub fn stage_targets(target_block_count: usize, initial_blocks: usize) -> (r: Vec<usize>)
    ensures
        r@.len() == if target_block_count < initial_blocks {
            initial_blocks - target_block_count
        } else {
            0
        },
        forall|i: int| 0 <= i < r@.len() ==> #[trigger] r@[i] == initial_blocks - 1 - i,
{
    let mut r: Vec<usize> = Vec::new();
    let mut t = initial_blocks;
    while t > target_block_count
        invariant
            target_block_count <= initial_blocks ==> target_block_count <= t <= initial_blocks,
            target_block_count > initial_blocks ==> t == initial_blocks,
            r@.len() == initial_blocks - t,
            forall|i: int| 0 <= i < r@.len() ==> #[trigger] r@[i] == initial_blocks - 1 - i,
        decreases t,
    {
        t -= 1;
        r.push(t);
    }
    r
}

/// How few moves, by the grip-theoretic count, pair block `i` with block
/// `j`: 1 when their merge grips already agree, 2 when a twist of a free
/// grip takes one to the other, 3 otherwise, and 0 when they do not merge
/// even when solved.
pub open spec fn pair_moves_at(pair_moves: Seq<Vec<u8>>, i: int, j: int) -> u8 {
    pair_moves[i]@[j]
}

/// The pairings block `i` can take part in within `remaining` moves: all of
/// them when a later block pairs with it in one move, one fewer when one
/// pairs in two, and two fewer otherwise.
pub open spec fn pairings_with(pair_moves: Seq<Vec<u8>>, i: int, remaining: nat) -> nat {
    let n = pair_moves.len();
    if exists|j: int| i < j < n && #[trigger] pair_moves_at(pair_moves, i, j) == 1 {
        remaining
    } else if remaining > 1 && exists|j: int| i < j < n && #[trigger] pair_moves_at(pair_moves, i, j) == 2 {
        (remaining - 1) as nat
    } else if remaining >= 2 {
        (remaining - 2) as nat
    } else {
        0
    }
}

/// The sum of [`pairings_with`] over the first `k` blocks.
pub open spec fn pairings_upto(pair_moves: Seq<Vec<u8>>, k: int, remaining: nat) -> nat
    decreases k,
{
    if k <= 0 {
        0
    } else {
        pairings_upto(pair_moves, k - 1, remaining) + pairings_with(pair_moves, k - 1, remaining)
    }
}

proof fn lemma_pairings_upto_bound(pair_moves: Seq<Vec<u8>>, k: int, remaining: nat)
    requires
        0 <= k,
    ensures
        pairings_upto(pair_moves, k, remaining) <= k * remaining,
    decreases k,
{
    if k > 0 {
        lemma_pairings_upto_bound(pair_moves, k - 1, remaining);
        assert((k - 1) * remaining + remaining == k * remaining) by (nonlinear_arith);
    }
}

/// The most block pairings the grip-theoretic count allows within
/// `remaining_moves`, given how few moves pair each block with each later
/// one (`pair_moves[i][j]` for `i < j`; see [`pair_moves_at`]).
pub fn grip_theoretic_limit_of(pair_moves: &Vec<Vec<u8>>, remaining_moves: usize) -> (limit: usize)
    requires
        forall|i: int| 0 <= i < pair_moves@.len() ==> (#[trigger] pair_moves@[i])@.len() == pair_moves@.len(),
        pair_moves@.len() * remaining_moves <= usize::MAX,
    ensures
        limit == pairings_upto(pair_moves@, pair_moves@.len() as int, remaining_moves as nat),
{
    let n = pair_moves.len();
    let mut total: usize = 0;
    let mut i: usize = 0;
    while i < n
        invariant
            0 <= i <= n,
            n == pair_moves@.len(),
            forall|r: int| 0 <= r < n ==> (#[trigger] pair_moves@[r])@.len() == n,
            n * remaining_moves <= usize::MAX,
            total == pairings_upto(pair_moves@, i as int, remaining_moves as nat),
        decreases n - i,
    {
        let row = &pair_moves[i];
        let mut best: usize = remaining_moves.saturating_sub(2);
        let mut one = false;
        let mut two = false;
        let mut j: usize = i + 1;
        while j < n
            invariant
                i < n,
                i + 1 <= j <= n,
                n == pair_moves@.len(),
                row@ == pair_moves@[i as int]@,
                row@.len() == n,
                one <==> exists|q: int| i < q < j && #[trigger] pair_moves_at(pair_moves@, i as int, q) == 1,
                two <==> exists|q: int| i < q < j && #[trigger] pair_moves_at(pair_moves@, i as int, q) == 2,
            decreases n - j,
        {
            if row[j] == 1 {
                one = true;
            } else if row[j] == 2 {
                two = true;
            }
            proof {
                assert(pair_moves_at(pair_moves@, i as int, j as int) == row@[j as int]);
            }
            j += 1;
        }
        if one {
            best = remaining_moves;
        } else if two && remaining_moves > 1 {
            best = remaining_moves - 1;
        }
        proof {
            lemma_pairings_upto_bound(pair_moves@, i + 1, remaining_moves as nat);
            assert((i + 1) * remaining_moves <= n * remaining_moves) by (nonlinear_arith)
                requires
                    i + 1 <= n,
            ;
        }
        total = total + best;
        i += 1;
    }
    total
}

/// The grip-theoretic count bounds the pairings block `i` can take part in
/// from above, never below what its quickest pairing allows: a block that
/// pairs with a later one in one move may pair on every remaining move; one
/// that pairs with a later one in two moves, with at least two moves left,
/// on all but one; any block, with at least two moves left, on all but two;
/// and no block on more moves than remain.
pub proof fn lemma_pairings_with_bounds(pair_moves: Seq<Vec<u8>>, i: int, remaining: nat)
    ensures
        pairings_with(pair_moves, i, remaining) <= remaining,
        (exists|j: int| i < j < pair_moves.len() && #[trigger] pair_moves_at(pair_moves, i, j) == 1) ==> pairings_with(
            pair_moves,
            i,
            remaining,
        ) == remaining,
        remaining >= 2 && (exists|j: int| i < j < pair_moves.len() && #[trigger] pair_moves_at(pair_moves, i, j) == 2)
            ==> pairings_with(pair_moves, i, remaining) >= remaining - 1,
        remaining >= 2 ==> pairings_with(pair_moves, i, remaining) >= remaining - 2,
{
}

/// The limit over all blocks adds up each block's share, so it is at least
/// what any one block is allowed: in particular at least `remaining - 1`
/// when some block pairs with a later one in two moves and at least two
/// moves remain.
pub proof fn lemma_pairings_upto_covers(pair_moves: Seq<Vec<u8>>, k: int, i: int, remaining: nat)
    requires
        0 <= i < k,
    ensures
        pairings_upto(pair_moves, k, remaining) >= pairings_with(pair_moves, i, remaining),
    decreases k,
{
    if i < k - 1 {
        lemma_pairings_upto_covers(pair_moves, k - 1, i, remaining);
    }
}

/// Which grips are worth twisting next: never the grip just twisted, never
/// one that moves no block, and otherwise every grip but one: the grip
/// twisted two moves ago when the last twist was of its opposite (the two
/// commute, so the line repeats one already searched). With fewer than two
/// twists so far, every grip other than the last that moves a block is
/// worth testing, its opposite included.
pub proof fn lemma_grip_worth_testing_rules(
    grip: GripId,
    last_grip: Option<GripId>,
    second_to_last_grip: Option<GripId>,
    moves_some_block: bool,
)
    ensures
        last_grip == Some(grip) ==> !spec_grip_is_worth_testing(grip, last_grip, second_to_last_grip, moves_some_block),
        !moves_some_block ==> !spec_grip_is_worth_testing(grip, last_grip, second_to_last_grip, moves_some_block),
        last_grip != Some(grip) && second_to_last_grip is None ==> spec_grip_is_worth_testing(
            grip,
            last_grip,
            second_to_last_grip,
            moves_some_block,
        ) == moves_some_block,
        last_grip != Some(grip) && second_to_last_grip != Some(grip) ==> spec_grip_is_worth_testing(
            grip,
            last_grip,
            second_to_last_grip,
            moves_some_block,
        ) == moves_some_block,
        last_grip != Some(grip) && last_grip != Some(grip.spec_opposite()) ==> spec_grip_is_worth_testing(
            grip,
            last_grip,
            second_to_last_grip,
            moves_some_block,
        ) == moves_some_block,
        moves_some_block && last_grip != Some(grip) && !spec_grip_is_worth_testing(
            grip,
            last_grip,
            second_to_last_grip,
            moves_some_block,
        ) ==> last_grip == Some(grip.spec_opposite()) && second_to_last_grip == Some(grip),
{
}

} // verus!
