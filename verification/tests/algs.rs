use std::collections::HashSet;

use robodoan::{
    build_alg, close_under_rotations, insert_cheapest, invert_twists, join_halves, parse_twists, twist_count,
    twists_for_grip,
    Alg, AlgPass, AlgTable, AlgTableParams, CellEffect, CellState, Direct, GripId, PuzzleState, StackVec, Tables, Twist,
    HYPERCUBE_GRIPS, I, O, R, U,
};

fn parse(s: &str) -> Vec<Twist> {
    parse_twists(s).unwrap()
}

/// Two side grips, because no algorithm on one grip alone can misorient a
/// ridge.
fn small_table() -> AlgTable {
    AlgTable::generate(&AlgTableParams {
        passes: vec![AlgPass { grips: vec![R, U], half_depth: 3 }],
        max_bucket: 512,
        verbosity: 0,
    })
}

#[test]
fn test_generated_algs_are_valid() {
    let table = small_table();
    assert!(!table.is_empty());

    // The same operations as the plain calls, looked up in tables.
    let tables = Tables::new();
    for alg in table.algs() {
        let mut state = PuzzleState::default();
        state.do_twists_by(alg.twists.as_slice(), &tables);
        assert!(state.is_f2l_solved_by(I, &tables), "{alg:?}");
        assert!(!state.is_solved(), "{alg:?}");
        assert_eq!(twist_count(alg.twists.as_slice()), alg.cost, "{alg:?}");
        assert_eq!(
            CellState::of(&state).canonicalize_by(&tables),
            alg.effect.apply(CellState::solved()).canonicalize_by(&tables),
            "{alg:?}",
        );
        assert!(
            alg.twists.as_slice().windows(2).all(|w| w[0].grip != w[1].grip),
            "{alg:?}"
        );
    }
}

#[test]
fn test_table_covers_all_grips() {
    let table = small_table();
    let grips: HashSet<GripId> = table
        .algs()
        .iter()
        .flat_map(|alg| alg.twists.as_slice().iter().map(|t| t.grip).collect::<Vec<_>>())
        .collect();
    for g in HYPERCUBE_GRIPS {
        if g != O {
            assert!(grips.contains(&g), "no algorithm uses {g:?}");
        }
    }
}

#[test]
fn test_filter_preserving() {
    let table = small_table();

    let mut messy = PuzzleState::default();
    messy.do_twists(&parse("IU IUFR IL2 IUR"));
    let messy = CellState::of(&messy);
    assert_eq!(0, messy.unoriented()[0]);
    assert_ne!([0, 0, 0], messy.unsolved());

    let preserving = table.filter_preserving([true, false, false]);
    assert!(!preserving.is_empty());
    for alg in &preserving {
        assert_eq!(0, alg.effect.apply(messy).unoriented()[0], "{alg:?}");
        assert_eq!(0, alg.effect.apply(CellState::solved()).unoriented()[0], "{alg:?}");
    }

    let unsafe_count = table.algs().len() - preserving.len();
    assert!(unsafe_count > 0);

    assert!(preserving.windows(2).all(|w| w[0].cost <= w[1].cost));
}

#[test]
fn test_build_alg_accepts_an_algorithm() {
    let ts = parse("RU IU2 RD IL2 RU IB2 RD");
    let alg = build_alg(&ts).expect("an F2L-preserving algorithm");
    assert_eq!(ts, alg.twists.as_slice().to_vec());
    assert_eq!(7, alg.cost);
    let mut state = PuzzleState::default();
    state.do_twists(&ts);
    assert!(alg.effect.equals(&CellEffect::of(&state)));
    assert!(!alg.effect.is_identity());
}

#[test]
fn test_build_alg_rejects() {
    // Empty once simplified.
    assert!(build_alg(&[]).is_none());
    assert!(build_alg(&parse("R R'")).is_none());
    // Breaks F2L.
    assert!(build_alg(&parse("R")).is_none());
    // Restores F2L but leaves the last cell as it was.
    assert!(build_alg(&parse("R L R' L'")).is_none());
    // Too long to store.
    assert!(build_alg(&parse("RU IU RU IU RU IU RU IU RU IU RU IU RU IU")).is_none());
}

#[test]
fn test_build_alg_simplifies() {
    let alg = build_alg(&parse("IU IU2")).expect("a whole-cell turn");
    assert_eq!(parse("IU'"), alg.twists.as_slice().to_vec());
    assert_eq!(1, alg.cost);
}

#[test]
fn test_inverted_undoes() {
    let alg = build_alg(&parse("RU IU2 RD IL2 RU IB2 RD")).unwrap();
    let inv = alg.inverted();
    assert_eq!(alg.cost, inv.cost);
    let mut state = PuzzleState::default();
    state.do_twists(alg.twists.as_slice());
    state.do_twists(inv.twists.as_slice());
    assert!(state.is_solved());
}

#[test]
fn test_insert_cheapest() {
    let short = build_alg(&parse("IU2")).unwrap();
    let long = build_alg(&parse("IU IU")).unwrap();
    let mut dear = long;
    dear.cost = 5;
    let other = build_alg(&parse("IR")).unwrap();
    assert!(long.effect.equals(&short.effect));

    let mut algs: Vec<Alg> = Vec::new();
    insert_cheapest(&mut algs, other);
    assert_eq!(1, algs.len());
    insert_cheapest(&mut algs, short);
    assert_eq!(2, algs.len());
    // Same effect and not cheaper: the one already there stays.
    insert_cheapest(&mut algs, dear);
    assert_eq!(2, algs.len());
    assert_eq!(1, algs[1].cost);
}

#[test]
fn test_insert_cheapest_replaces_dearer() {
    let dear = build_alg(&parse("RU IU2 RD IL2 RU IB2 RD")).unwrap();
    let mut cheap = dear;
    cheap.cost = 1;
    let mut algs = vec![dear];
    insert_cheapest(&mut algs, cheap);
    assert_eq!(1, algs.len());
    assert_eq!(1, algs[0].cost);
}

#[test]
fn test_twists_for_grip() {
    for g in HYPERCUBE_GRIPS {
        let twists = twists_for_grip(g);
        assert_eq!(23, twists.len());
        assert!(twists.iter().all(|t| t.grip == g));
        let distinct: HashSet<_> = twists.iter().map(|t| t.transform).collect();
        assert_eq!(23, distinct.len());
    }
}

#[test]
fn test_close_under_rotations() {
    let alg = build_alg(&parse("IU")).unwrap();
    let closed = close_under_rotations(&[alg], &Direct);
    // The rotations about the last cell carry `IU` to the quarter turn of
    // the whole cell about each of its six faces.
    assert_eq!(6, closed.len());
    for (i, a) in closed.iter().enumerate() {
        assert!(a.twists.as_slice().iter().all(|t| t.grip == I));
        for b in &closed[..i] {
            assert!(!a.effect.equals(&b.effect));
        }
    }
}

#[test]
fn test_join_halves() {
    // Halves are only paired within their bucket: the lone `RU` makes
    // nothing, while the empty sequence and `IR` make `IR` and its inverse.
    let r = StackVec::from_slice(&parse("RU")).unwrap();
    let empty = StackVec::new();
    let ir = StackVec::from_slice(&parse("IR")).unwrap();
    let buckets = vec![vec![empty, ir], vec![r]];
    let algs = join_halves(512, &buckets, &Direct);
    assert_eq!(2, algs.len());
    for a in &algs {
        assert!(a.twists.as_slice().iter().all(|t| t.grip == I));
    }
}

#[test]
fn test_alg_table_basics() {
    let table = AlgTable::new();
    assert!(table.is_empty());
    assert_eq!(0, table.len());
    assert!(table.filter_preserving([true, true, true]).is_empty());
    let params = AlgTableParams::default();
    assert_eq!(2, params.passes.len());
    assert_eq!(vec![R], params.passes[0].grips);
    assert_eq!(4, params.passes[0].half_depth);
    assert_eq!(vec![R, U], params.passes[1].grips);
    assert_eq!(3, params.passes[1].half_depth);
    assert_eq!(512, params.max_bucket);
}

#[test]
fn test_equal_keys_meet_in_the_middle() {
    // Turning the last cell first changes nothing outside it, so these two
    // halves leave F2L in the same place.
    let first = parse("IU RU");
    let second = parse("IR RU");
    let mut a = PuzzleState::default();
    a.do_twists(&first);
    let mut b = PuzzleState::default();
    b.do_twists(&second);
    assert_eq!(a.f2l_key(I), b.f2l_key(I));
    assert!(!a.is_f2l_solved(I));

    let mut paired = first.clone();
    paired.extend(invert_twists(&second));
    let mut state = PuzzleState::default();
    state.do_twists(&paired);
    assert!(state.is_f2l_solved(I));
    assert!(!state.is_solved());

    // Different F2L damage, different keys.
    let mut c = PuzzleState::default();
    c.do_twists(&parse("RD"));
    assert_ne!(a.f2l_key(I), c.f2l_key(I));
}
