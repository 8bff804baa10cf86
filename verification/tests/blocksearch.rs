use robodoan::blocksearch::{
    after_search, branch_step, desired_solution_count, first_search, grip_is_worth_testing,
    grip_theoretic_limit_of, stage_targets, BranchStep, Deepening,
};
use robodoan::{GripId, Heuristic};

#[test]
fn test_branch_step_found() {
    assert_eq!(BranchStep::Found, branch_step(3, 3, 0, Some(0), false));
    assert_eq!(BranchStep::Found, branch_step(1, 2, 4, None, true));
}

#[test]
fn test_branch_step_gives_up() {
    assert_eq!(BranchStep::GiveUp, branch_step(5, 3, 0, None, true));
    assert_eq!(BranchStep::GiveUp, branch_step(5, 3, 2, Some(0), true));
    assert_eq!(BranchStep::GiveUp, branch_step(5, 3, 2, Some(-4), true));
    assert_eq!(BranchStep::GiveUp, branch_step(5, 3, 2, Some(7), false));
}

#[test]
fn test_branch_step_expands() {
    assert_eq!(BranchStep::Expand, branch_step(5, 3, 2, Some(7), true));
    assert_eq!(BranchStep::Expand, branch_step(5, 3, 1, None, true));
}

#[test]
fn test_grip_pruning() {
    // Not the grip just twisted.
    assert!(!grip_is_worth_testing(GripId::R, Some(GripId::R), None, true));
    // R then L then R again: the two R twists could have been one.
    assert!(!grip_is_worth_testing(GripId::R, Some(GripId::L), Some(GripId::R), true));
    // L after R after U is fine.
    assert!(grip_is_worth_testing(GripId::R, Some(GripId::L), Some(GripId::U), true));
    assert!(grip_is_worth_testing(GripId::U, Some(GripId::R), Some(GripId::U), true));
    assert!(grip_is_worth_testing(GripId::U, None, None, true));
    // A grip that moves no block is never worth it.
    assert!(!grip_is_worth_testing(GripId::U, None, None, false));
}

#[test]
fn test_pairings_fit() {
    // Fast: 2^2 = 4 pairings; grip limit 3.
    assert!(Heuristic::Fast.pairings_fit(6, 3, 2, 3));
    assert!(!Heuristic::Fast.pairings_fit(8, 3, 2, 10));
    assert!(!Heuristic::Fast.pairings_fit(6, 3, 2, 2));
    // Correct: 2^2 * 3 = 12 pairings.
    assert!(Heuristic::Correct.pairings_fit(15, 3, 2, 12));
    assert!(!Heuristic::Correct.pairings_fit(16, 3, 2, 100));
}

#[test]
fn test_deepening() {
    let counts = [10, 20, 30, 40];
    assert_eq!(10, desired_solution_count(counts, 0));
    assert_eq!(10, desired_solution_count(counts, 1));
    assert_eq!(20, desired_solution_count(counts, 2));
    assert_eq!(30, desired_solution_count(counts, 3));
    assert_eq!(40, desired_solution_count(counts, 9));
    assert_eq!(Deepening::Search { depth: 0, solutions_left: 10 }, first_search(counts));
    assert_eq!(Deepening::Search { depth: 1, solutions_left: 6 }, after_search(counts, 4, 0, 4));
    assert_eq!(Deepening::Search { depth: 2, solutions_left: 11 }, after_search(counts, 4, 1, 9));
    assert_eq!(Deepening::Stop, after_search(counts, 4, 2, 20));
    assert_eq!(Deepening::Stop, after_search(counts, 4, 4, 0));
    assert_eq!(Deepening::Search { depth: 3, solutions_left: 0 }, after_search([10, 40, 5, 5], 4, 2, 39));
}

#[test]
fn test_stage_targets() {
    assert_eq!(vec![15, 14, 13, 12, 11, 10, 9, 8, 7, 6, 5, 4, 3, 2, 1], stage_targets(1, 16));
    assert_eq!(vec![5, 4, 3, 2], stage_targets(2, 6));
    assert!(stage_targets(5, 5).is_empty());
    assert!(stage_targets(7, 5).is_empty());
}

#[test]
fn test_grip_theoretic_limit() {
    // Block 0 pairs with block 2 in one move, block 1 with block 2 in two,
    // block 2 has no later block: 4 + 3 + 2.
    let pairs = vec![vec![0, 3, 1], vec![0, 0, 2], vec![0, 0, 0]];
    assert_eq!(9, grip_theoretic_limit_of(&pairs, 4));
    // Only entries after the diagonal count.
    let lower = vec![vec![0, 0, 0], vec![1, 0, 0], vec![2, 2, 0]];
    assert_eq!(6, grip_theoretic_limit_of(&lower, 4));
    // With one move left, two moves are no better than three.
    assert_eq!(1, grip_theoretic_limit_of(&pairs, 1));
    assert_eq!(0, grip_theoretic_limit_of(&Vec::new(), 5));
}
