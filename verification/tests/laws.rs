use robodoan::{
    hypercube_rotations, invert_twists, parse_twists, simplify_twists, ElemId, PuzzleState, Twist,
    ELEM_COUNT, HYPERCUBE_GRIPS,
};

fn parse(s: &str) -> Vec<Twist> {
    parse_twists(s).unwrap()
}

fn elems() -> Vec<ElemId> {
    (0..ELEM_COUNT as u8).map(ElemId::new).collect()
}

#[test]
fn test_inverse_is_an_involution() {
    for a in elems() {
        assert_eq!(a, a.inv().inv());
        assert_eq!(ElemId::ident(), a.mul(a.inv()));
        assert_eq!(ElemId::ident(), a.inv().mul(a));
    }
}

#[test]
fn test_identity_is_neutral() {
    for a in elems() {
        assert_eq!(a, ElemId::ident().mul(a));
        assert_eq!(a, a.mul(ElemId::ident()));
    }
}

#[test]
fn test_multiplication_is_associative() {
    let all = elems();
    for &a in &all {
        for &b in all.iter().step_by(7) {
            for &c in all.iter().step_by(11) {
                assert_eq!(a.mul(b).mul(c), a.mul(b.mul(c)));
            }
        }
    }
}

#[test]
fn test_rotations_act_on_grips() {
    let all = elems();
    for &a in &all {
        for &b in all.iter().step_by(5) {
            for g in HYPERCUBE_GRIPS {
                assert_eq!(a.mul(b).mul_grip(g), a.mul_grip(b.mul_grip(g)));
            }
        }
    }
    for g in HYPERCUBE_GRIPS {
        assert_eq!(g, ElemId::ident().mul_grip(g));
    }
}

#[test]
fn test_invert_twists_undoes() {
    let scramble = parse("R U IUFR RU IL2 F OUB' D2");
    let mut state = PuzzleState::default();
    state.do_twists(&scramble);
    assert!(!state.is_solved());
    state.do_twists(&invert_twists(&scramble));
    assert_eq!(PuzzleState::default(), state);
}

#[test]
fn test_simplify_keeps_effect() {
    let ts = parse("R R IU IU2 IU F F' F B OU OU");
    let simple = simplify_twists(&ts);
    assert!(simple.len() < ts.len());
    let mut a = PuzzleState::default();
    a.do_twists(&ts);
    let mut b = PuzzleState::default();
    b.do_twists(&simple);
    assert_eq!(a, b);
}

#[test]
fn test_reorient_keeps_solvedness() {
    let mut scrambled = PuzzleState::default();
    scrambled.do_twists(&parse("R U R'"));
    for e in hypercube_rotations() {
        assert!(!scrambled.reorient(e).is_solved());
        assert!(PuzzleState::default().reorient(e).is_solved());
    }
}

#[test]
fn test_homes_stay_distinct() {
    let mut state = PuzzleState::default();
    state.do_twists(&parse("IUFR OL2 RD' B2 UFR"));
    let mut homes: Vec<usize> = (0..72).map(|i| state.piece_home(i)).collect();
    homes.sort();
    assert_eq!((0..72).collect::<Vec<_>>(), homes);
}

#[test]
fn test_canonicalize_is_idempotent_and_keeps_counts() {
    let mut state = PuzzleState::default();
    state.do_twists(&parse("IU IR2 IF IU2"));
    let c = robodoan::CellState::of(&state);
    let d = c.canonicalize();
    assert_eq!(d, d.canonicalize());
    assert_eq!(c.unoriented(), d.unoriented());
    assert_eq!(c.unsolved(), d.unsolved());
    assert_eq!(c.is_solved(), d.is_solved());
}

#[test]
fn test_simplify_leaves_no_identity_and_never_lengthens() {
    let ts = parse("IU IU IU IU RU RD IF");
    let r = simplify_twists(&ts);
    assert!(r.len() <= ts.len());
    assert!(r.iter().all(|t| t.transform != ElemId::ident()));
    assert!(r.windows(2).all(|w| w[0].grip != w[1].grip));
    assert!(robodoan::twist_count(&r) <= robodoan::twist_count(&ts));
}

#[test]
fn test_signature_length_and_meaning() {
    let mut state = PuzzleState::default();
    state.do_twists(&parse("IU IR"));
    let e = robodoan::CellEffect::of(&state);
    assert_eq!(26, e.signature([true, true, true]).len());
    assert_eq!(6, e.signature([true, false, false]).len());
    assert_eq!(12, e.signature([false, true, false]).len());
    assert_eq!(8, e.signature([false, false, true]).len());
    let same = robodoan::CellEffect::of(&state);
    assert_eq!(e.signature([true, true, true]), same.signature([true, true, true]));
    let c = robodoan::CellState::solved();
    assert_eq!(e.apply(c), same.apply(c));
}

#[test]
fn test_identity_fixes_every_kind() {
    let id = robodoan::CellEffect::identity();
    assert!(id.fixes([true, true, true]));
    let mut state = PuzzleState::default();
    state.do_twists(&parse("IU"));
    let e = robodoan::CellEffect::of(&state);
    assert!(e.fixes([false, false, false]));
}

#[test]
fn test_meet_in_the_middle_for_another_grip() {
    // Two sequences of twists of one side cell reach states whose F2L key
    // for that cell is the solved one, so pairing them keeps that F2L.
    let a = parse("RU");
    let b = parse("RF");
    let mut sa = PuzzleState::default();
    sa.do_twists(&a);
    let mut sb = PuzzleState::default();
    sb.do_twists(&b);
    assert_eq!(sa.f2l_key(robodoan::R), sb.f2l_key(robodoan::R));
    let mut paired = a.clone();
    paired.extend(invert_twists(&b));
    let mut s = PuzzleState::default();
    s.do_twists(&paired);
    assert!(s.is_f2l_solved(robodoan::R));
}
