use robodoan::search::{
    run_stage, solve_last_cell, stage_algs, LastCellSearchParams, LastCellSolver, OrientationCases, Stage, STAGES,
    orientation_key,
};
use robodoan::{
    find_canonical_frame, parse_twists, twist_count, twists_for_grip, Alg, AlgPass, AlgTable, AlgTableParams,
    CellState, PuzzleState, Twist, HYPERCUBE_GRIPS, I, R, U,
};

fn table() -> AlgTable {
    AlgTable::generate(&AlgTableParams {
        passes: vec![AlgPass { grips: vec![R, U], half_depth: 3 }],
        max_bucket: 512,
        verbosity: 0,
    })
}

fn params() -> LastCellSearchParams {
    LastCellSearchParams { verbosity: 0, ..Default::default() }
}

fn apply_all(start: CellState, algs: &[Alg]) -> CellState {
    algs.iter().fold(start, |s, a| a.effect.apply(s))
}

/// A last cell that is already solved needs no moves at all.
#[test]
fn test_solved_cell_is_a_no_op() {
    let solution = solve_last_cell(&PuzzleState::default(), &table(), &params());
    assert_eq!(0, solution.cost);
    assert!(solution.twists.is_empty());
    assert!(solution.is_cell_solved());
    assert_eq!(STAGES.len(), solution.stages_completed.len());
}

/// The solver must work for whichever cell blockbuilding left until last,
/// not just the canonical one, and its answer must survive replay.
#[test]
fn test_solves_in_any_frame() {
    let table = table();
    // One prepared solver serves every scramble, as a fresh one per call
    // would: preparing is deterministic.
    let solver = LastCellSolver::new(&table, params());
    for last_cell in HYPERCUBE_GRIPS {
        // Scramble only that cell, so F2L is untouched by construction.
        let mut state = PuzzleState::default();
        let scramble: Vec<Twist> = twists_for_grip(last_cell).into_iter().step_by(5).collect();
        state.do_twists(&scramble);
        assert!(state.is_f2l_solved(last_cell));

        let solution = solver.solve(&state);
        assert_eq!(twist_count(&solution.twists), solution.cost);

        let mut check = state;
        check.do_twists(&solution.twists);
        let frame = find_canonical_frame(&check).unwrap_or_else(|| panic!("{last_cell:?} broke F2L"));
        assert_eq!(
            CellState::of(&check.reorient(frame)).canonicalize(),
            solution.residual.canonicalize(),
            "{last_cell:?} residual disagrees with replay",
        );
    }
}

/// Falling short of a goal must still return the progress made.
#[test]
fn test_partial_progress_is_kept() {
    let table = table();
    let stage = STAGES[0];
    let mut state = PuzzleState::default();
    state.do_twists(&parse_twists("RU IU2 RD IL2 RU IB2 RD").unwrap());
    let start = CellState::of(&state);
    assert!(stage.remaining(start) > 0);

    let algs = stage_algs(stage, &table, &params());
    let cases = OrientationCases::of(&table, stage.preserve(), &params());
    let (path, reached) = run_stage(
        stage,
        &algs,
        &cases,
        start,
        &LastCellSearchParams {
            max_rounds: 1,
            beam_width: 20,
            max_algs_per_stage: 500,
            verbosity: 0,
            ..Default::default()
        },
    );
    if !reached {
        assert!(!path.is_empty(), "gave up without keeping any progress");
        let after = apply_all(start, &path);
        assert!(stage.distance(after, &cases) <= stage.distance(start, &cases), "kept a line that made things worse");
    }
}

/// A recorded finisher must genuinely finish.
#[test]
fn test_finishers_really_finish() {
    let table = table();
    let cases = OrientationCases::of(&table, STAGES[0].preserve(), &params());
    assert!(!cases.has_no_finishers());
    assert_eq!(0, cases.distance(CellState::solved()));

    for alg in table.algs().iter().step_by(9_999) {
        let scrambled = alg.effect.apply(CellState::solved());
        if scrambled.unoriented() == [0, 0, 0] {
            continue;
        }
        assert_eq!(1, cases.distance(scrambled), "{alg:?}");

        let finish = cases.finisher(scrambled).expect("no finisher recorded");
        let finished = apply_all(scrambled, &finish);
        assert_eq!([0, 0, 0], finished.unoriented(), "the recorded finish did not orient {alg:?}");
        assert_eq!(cases.finish_cost(scrambled), Some(finish.iter().map(|a| a.cost).sum::<usize>()));
    }
}

/// The banded ranking puts a state one algorithm from done before one
/// with no known finish.
#[test]
fn test_ranking_prefers_finishable_states() {
    let table = table();
    let cases = OrientationCases::of(&table, STAGES[0].preserve(), &params());

    let one_away = table
        .algs()
        .iter()
        .map(|alg| alg.effect.apply(CellState::solved()))
        .find(|state| state.unoriented() != [0, 0, 0])
        .expect("no algorithm misorients anything");
    assert_eq!(1, cases.distance(one_away));

    let stranded = table
        .algs()
        .iter()
        .map(|alg| alg.effect.apply(one_away))
        .find(|state| cases.finisher(*state).is_none())
        .expect("expected some reachable state with no one-algorithm finish");

    assert!(cases.distance(one_away) < cases.distance(stranded));
    assert!(
        cases.distance(one_away) < cases.distance(stranded)
            || one_away.unoriented().iter().sum::<usize>() <= stranded.unoriented().iter().sum::<usize>(),
    );
}

/// The default search parameters.
#[test]
fn test_search_params_default() {
    let p = LastCellSearchParams::default();
    assert_eq!(100, p.beam_width);
    assert_eq!(6000, p.max_algs_per_stage);
    assert_eq!(10, p.max_rounds);
    assert_eq!(600, p.ids_algs);
    assert_eq!(20, p.max_ids_cost);
    assert_eq!(3, p.max_ids_algs);
    assert_eq!(1500, p.backward_algs);
    assert_eq!(2, p.verbosity);
}

/// Cells with one orientation key agree on which pieces are oriented, and
/// the solved cell's key has every slot on the last cell's grip.
#[test]
fn test_orientation_key() {
    let solved = CellState::solved();
    let mut expected: u128 = 0;
    for _ in 0..26 {
        expected = expected * 8 + 7;
    }
    assert_eq!(expected, orientation_key(solved));
    let table = table();
    let scrambled = table
        .algs()
        .iter()
        .map(|alg| alg.effect.apply(solved))
        .find(|state| state.unoriented() != [0, 0, 0])
        .unwrap();
    assert_ne!(orientation_key(solved), orientation_key(scrambled));
}

/// Each stage keeps at most its budget of algorithms, cheapest first, each
/// with its own behaviour.
#[test]
fn test_stage_algs_are_distinct_and_cheapest_first() {
    let table = table();
    for stage in STAGES {
        let limited = LastCellSearchParams { max_algs_per_stage: 50, ..params() };
        let algs = stage_algs(stage, &table, &limited);
        assert!(algs.len() <= 50);
        assert!(algs.windows(2).all(|w| w[0].cost <= w[1].cost));
        for i in 0..algs.len() {
            for j in i + 1..algs.len() {
                assert_ne!(
                    algs[i].effect.signature(stage.relevant()),
                    algs[j].effect.signature(stage.relevant())
                );
            }
        }
    }
    assert_eq!("OLC", Stage::Olc.name());
    assert_eq!("PLC 2c", Stage::Plc2c.name());
}

/// A prepared solver gives the same answer as the one-shot call.
#[test]
fn test_solver_matches_one_shot() {
    let table = table();
    let mut state = PuzzleState::default();
    let scramble: Vec<Twist> = twists_for_grip(I).into_iter().step_by(7).collect();
    state.do_twists(&scramble);
    let solver = LastCellSolver::new(&table, params());
    let a = solver.solve(&state);
    let b = solve_last_cell(&state, &table, &params());
    assert_eq!(a.twists, b.twists);
    assert_eq!(a.cost, b.cost);
    assert_eq!(a.steps.len(), b.steps.len());
}

/// A stage is recorded exactly when the cell after its own steps meets its
/// goal: OLC leaves nothing misoriented, PLC at most one unsolved ridge.
#[test]
fn test_stages_recorded_exactly_when_goals_met() {
    let table = table();
    for scramble in ["RU IU2 RD IL2 RU IB2 RD", "IU IR", "IF2 IU IR2"] {
        let mut state = PuzzleState::default();
        state.do_twists(&parse_twists(scramble).unwrap());
        let solution = solve_last_cell(&state, &table, &params());
        let olc_steps = solution.steps.iter().filter(|s| s.stage == STAGES[0].name()).count();
        assert!(solution.steps[..olc_steps].iter().all(|s| s.stage == STAGES[0].name()));
        assert!(solution.steps[olc_steps..].iter().all(|s| s.stage == STAGES[1].name()));
        let after_olc = if olc_steps == 0 {
            let start = solution.steps.first().map(|s| s.unoriented[0]);
            start.unwrap_or(solution.residual.unoriented())
        } else {
            solution.steps[olc_steps - 1].unoriented[1]
        };
        if CellState::of(&state).unoriented() != [0, 0, 0] {
            assert!(olc_steps > 0, "{scramble}: OLC took no step");
        }
        let olc_done = after_olc == [0, 0, 0];
        assert_eq!(olc_done, !solution.stages_completed.is_empty(), "{scramble}");
        if solution.stages_completed.len() == 2 {
            assert!(solution.residual.unsolved()[0] <= 1, "{scramble}");
        }
        if solution.stages_completed.is_empty() {
            assert_eq!(olc_steps, solution.steps.len(), "{scramble}");
        }
    }
}

/// An effect keeps a piece type oriented on the solved cell exactly when it
/// reports that it preserves that type's orientation, and it leaves a type
/// alone on every cell tried when it reports fixing it.
#[test]
fn test_orientation_and_fixing_reports_match_action() {
    let mut other = PuzzleState::default();
    other.do_twists(&parse_twists("IU IR").unwrap());
    let cells = [CellState::solved(), CellState::of(&other)];
    for scramble in ["", "IU", "IF2 IU IR2", "RU IU2 RD IL2 RU IB2 RD"] {
        let mut state = PuzzleState::default();
        state.do_twists(&parse_twists(scramble).unwrap());
        let e = robodoan::CellEffect::of(&state);
        let kept = e.preserves_orientation();
        let after = e.apply(CellState::solved()).unoriented();
        for kind in 0..3 {
            assert_eq!(kept[kind], after[kind] == 0, "{scramble} {kind}");
        }
        let fixes = e.fixes([true, true, true]);
        let unchanged = cells.iter().all(|&c| e.apply(c) == c);
        if fixes {
            assert!(unchanged, "{scramble}");
        }
        if !unchanged {
            assert!(!fixes, "{scramble}");
        }
    }
}
