use std::collections::HashSet;

use robodoan::{
    canonical_attitude, gen_mul_elem_index_table, hypercube_rotations,
    indistinguishable_attitude_classes, indices_for_grip, mul_elem_index, parse_twists,
    piece_grips, ElemId, PuzzleState, Twist, CELL_CORNERS, CELL_EDGES, CELL_RIDGES, D,
    ELEM_COUNT, HYPERCUBE_GRIPS, I, U,
};
use std::collections::HashMap;

fn parse(s: &str) -> Vec<Twist> {
    parse_twists(s).unwrap()
}

#[test]
fn test_all_pieces_indices() {
    for g1 in HYPERCUBE_GRIPS {
        for g2 in HYPERCUBE_GRIPS {
            if g1 == g2 {
                continue;
            }
            let set1: HashSet<_> = HashSet::from_iter(indices_for_grip(g1));
            let set2: HashSet<_> = HashSet::from_iter(indices_for_grip(g2));
            let expected_intersection = if g1.axis() == g2.axis() { 0 } else { 9 };
            assert_eq!(expected_intersection, set1.intersection(&set2).count());
        }
    }
}

#[test]
fn test_unoriented_pieces() {
    let mut state = PuzzleState::default();
    state.do_twists(&parse("R U R' U R U2 R'"));
    assert_eq!(state.unoriented_pieces(D), [0, 0, 0]);
    assert_eq!(state.unoriented_pieces(U), [0, 3, 6]);
}

#[test]
fn test_piece_grips() {
    let mut counts: HashMap<usize, usize> = HashMap::new();
    for i in 0..72 {
        *counts.entry(piece_grips(i).len()).or_default() += 1;
    }
    assert_eq!(counts[&2], 24); // ridges (2c)
    assert_eq!(counts[&3], 32); // edges (3c)
    assert_eq!(counts[&4], 16); // corners (4c)
    assert_eq!(counts.len(), 3); // no centers or core

    // Each cell has 6 ridges, 12 edges, and 8 corners.
    for g in HYPERCUBE_GRIPS {
        let indices = indices_for_grip(g);
        for (kind, len) in [
            (CELL_RIDGES.as_slice(), 2),
            (CELL_EDGES.as_slice(), 3),
            (CELL_CORNERS.as_slice(), 4),
        ] {
            for &i in kind {
                assert_eq!(piece_grips(indices[i] as usize).len(), len);
                assert!(piece_grips(indices[i] as usize).contains(&g));
            }
        }
    }
}

#[test]
fn test_indistinguishable_attitude_classes() {
    let table = indistinguishable_attitude_classes();
    for i in 0..72 {
        let mut classes: HashMap<u8, usize> = HashMap::new();
        for &c in table[i].iter() {
            *classes.entry(c).or_default() += 1;
        }
        // Only ridges are ambiguous, and they have a 4-element stabilizer.
        let expected = if piece_grips(i).len() == 2 { 4 } else { 1 };
        assert!(classes.values().all(|&n| n == expected), "piece {i}");
        assert_eq!(classes.len(), ELEM_COUNT / expected);
    }
}

/// Canonicalizing an attitude must not change anything anyone can see, and
/// must survive being carried to another location by a twist.
#[test]
fn test_canonical_attitude() {
    let classes = indistinguishable_attitude_classes();
    let canonical_attitude = |i: usize, e: ElemId| {
        assert_eq!(classes[i][e.id() as usize], canonical_attitude(i, e).id());
        ElemId::new(classes[i][e.id() as usize])
    };
    let moves = gen_mul_elem_index_table();
    let rotations = hypercube_rotations();
    for i in 0..72 {
        for id in 0..ELEM_COUNT as u8 {
            let attitude = ElemId::new(id);
            let canonical = canonical_attitude(i, attitude);

            for g in piece_grips(i) {
                assert_eq!(
                    attitude.inv().mul_grip(g),
                    canonical.inv().mul_grip(g),
                    "piece {i} {id}"
                );
            }
            assert_eq!(canonical, ElemId::new(classes[i][canonical.id() as usize]));

            for &elem in &rotations {
                let moved_to = moves[elem.id() as usize][i] as usize;
                assert_eq!(
                    classes[moved_to][elem.mul(attitude).id() as usize],
                    classes[moved_to][elem.mul(canonical).id() as usize],
                    "piece {i} {id} under {elem:?}",
                );
            }
        }
    }
}

#[test]
fn test_piece_home() {
    let mut state = PuzzleState::default();
    for i in 0..72 {
        assert_eq!(i, state.piece_home(i));
    }
    state.do_twists(&parse("R U IUFR RU"));
    // Every piece has a distinct home, and solved pieces are already there
    // (though a piece can be home and still be misoriented).
    let homes: HashSet<usize> = (0..72).map(|i| state.piece_home(i)).collect();
    assert_eq!(72, homes.len());
    assert!((0..72).any(|i| !state.is_piece_solved(i)));
    for i in 0..72 {
        assert!(!state.is_piece_solved(i) || state.piece_home(i) == i);
    }
}

/// Reorienting and then twisting is the same as twisting the conjugated
/// twist and then reorienting.
#[test]
fn test_reorient() {
    let scramble = parse("R U IUFR RU IL2 F");
    let mut scrambled = PuzzleState::default();
    scrambled.do_twists(&scramble);

    for elem in hypercube_rotations() {
        assert!(PuzzleState::default().reorient(elem).is_solved());
        assert_eq!(scrambled, scrambled.reorient(elem).reorient(elem.inv()));

        let mut conjugated = PuzzleState::default();
        conjugated.do_twists(&scramble.iter().map(|&t| elem.transform(t)).collect::<Vec<_>>());
        assert_eq!(scrambled.reorient(elem), conjugated);
    }
}

/// A twist of grip `g` must move exactly the cell that `g` points at.
#[test]
fn test_twists_move_their_own_cell() {
    for g in HYPERCUBE_GRIPS {
        for i in indices_for_grip(g) {
            assert!(piece_grips(i as usize).contains(&g), "{g:?} piece {i}");
        }
    }
}

/// A word that is trivial on the 3^3 is also trivial on the 3^4 when
/// written with "big 3D" moves, because every such twist fixes the W axis
/// and acts as the same 3D move on each of the three W layers.
#[test]
fn test_is_solved() {
    let sexy = "R U R' U' ";
    for (should_be_solved, alg) in [
        (true, ""),
        (false, "R"),
        (false, "IU"),
        (false, "F R U R' U' F'"), // preserves F2L of a *layer*, not a cell
        (true, "R R'"),
        (true, "R L R' L'"),
        (true, &sexy.repeat(6)),
    ] {
        let mut state = PuzzleState::default();
        state.do_twists(&parse(alg));
        assert_eq!(should_be_solved, state.is_solved(), "{alg:?}");
    }
}

/// Twists of the last cell never disturb F2L, and any state agrees with
/// solved on its F2L key exactly when F2L is intact.
#[test]
fn test_f2l_solved_and_key() {
    let solved_key = PuzzleState::default().f2l_key(I);

    let mut state = PuzzleState::default();
    for name in ["IU", "IUR", "IU2", "IUFR"] {
        state.do_twists(&parse(name));
        assert!(state.is_f2l_solved(I), "{name:?}");
        assert!(!state.is_solved(), "{name:?}");
        assert_eq!(solved_key, state.f2l_key(I), "{name:?}");
        assert_eq!(0, state.unsolved_pieces_outside_cell(I));
    }

    // A twist of any other cell does disturb F2L.
    for name in ["R", "RU", "OU", "LUF"] {
        let mut state = PuzzleState::default();
        state.do_twists(&parse(name));
        assert!(!state.is_f2l_solved(I), "{name:?}");
        assert_ne!(solved_key, state.f2l_key(I), "{name:?}");
    }
}

/// The whole point of the F2L key: matching keys means the two sequences
/// differ by something that leaves F2L alone.
#[test]
fn test_f2l_key_finds_algs() {
    // The "4D sune": preserves F2L but permutes and reorients the last
    // cell.
    let alg = parse("RU IU2 RD IL2 RU IB2 RD");
    let (first, second) = alg.split_at(4);

    let mut a = PuzzleState::default();
    a.do_twists(first);

    // `b` walks the second half backwards from solved.
    let mut b = PuzzleState::default();
    b.do_twists(&second.iter().rev().map(|t| t.inv()).collect::<Vec<_>>());

    assert_eq!(a.f2l_key(I), b.f2l_key(I));
    assert!(!a.is_f2l_solved(I)); // neither half is F2L-safe alone

    let mut whole = PuzzleState::default();
    whole.do_twists(&alg);
    assert!(whole.is_f2l_solved(I));
    assert!(!whole.is_solved());
}
