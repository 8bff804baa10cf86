use std::collections::{HashMap, HashSet};

use robodoan::{
    cell_pieces, cell_rows_list, piece_grips, invert_twists, parse_twists, simplify_twists, twist_count, CellEffect, CellState, PuzzleState,
    Twist,
};

fn parse(s: &str) -> Vec<Twist> {
    parse_twists(s).unwrap()
}

#[test]
fn test_cell_state_solved() {
    assert!(CellState::solved().is_solved());
    assert_eq!([0, 0, 0], CellState::solved().unoriented());
    assert_eq!([0, 0, 0], CellState::solved().unsolved());

    let mut state = PuzzleState::default();
    state.do_twists(&parse("IU"));
    let cell = CellState::of(&state);
    assert!(!cell.is_solved());
    // A whole-cell rotation misorients nothing with respect to the last
    // cell's own axis, but it does move almost everything. The two ridges
    // on the axis `IU` turns about are left alone.
    assert_eq!([0, 0, 0], cell.unoriented());
    assert_eq!([4, 12, 8], cell.unsolved());
}

#[test]
fn test_cell_effect_matches_replay() {
    let alg = parse("RU IU2 RD IL2 RU IB2 RD");
    let mut after_alg = PuzzleState::default();
    after_alg.do_twists(&alg);
    let effect = CellEffect::of(&after_alg);

    // Applying the effect to solved reproduces the algorithm's own result.
    assert_eq!(
        CellState::of(&after_alg).canonicalize(),
        effect.apply(CellState::solved()).canonicalize(),
    );

    // Applying it on top of another state matches replaying the twists.
    let setup = parse("IUFR IL2");
    let mut state = PuzzleState::default();
    state.do_twists(&setup);
    let before = CellState::of(&state);
    state.do_twists(&alg);
    assert_eq!(
        CellState::of(&state).canonicalize(),
        effect.apply(before).canonicalize(),
    );

    assert_eq!(
        CellState::solved(),
        CellEffect::identity().apply(CellState::solved())
    );
    assert_eq!(before, CellEffect::identity().apply(before));
}

#[test]
fn test_bars() {
    // A solved cell is all 24 bars.
    assert_eq!(24, CellState::solved().bars());

    // Rotating the whole cell keeps every row rigid, so all 24 survive --
    // a bar need not be in the right place, only internally consistent.
    let mut state = PuzzleState::default();
    state.do_twists(&parse("IU"));
    assert_eq!(24, CellState::of(&state).bars());

    // Twisting one cell face breaks the rows that cross it.
    let mut state = PuzzleState::default();
    state.do_twists(&parse("RU IU2 RD IL2 RU IB2 RD"));
    let broken = CellState::of(&state);
    assert!(broken.bars() < 24, "{} bars", broken.bars());
    assert!(broken.bars() > 0, "expected some rows to survive");
}

#[test]
fn test_simplify_and_count() {
    assert_eq!(parse(""), simplify_twists(&parse("IU IU2 IU")));
    assert_eq!(parse("R2"), simplify_twists(&parse("R R")));
    assert_eq!(parse("IU2 R2"), simplify_twists(&parse("IU IU R R")));
    // Nothing to merge across a different grip.
    assert_eq!(parse("IU R IU"), simplify_twists(&parse("IU R IU")));

    assert_eq!(0, twist_count(&parse("")));
    assert_eq!(3, twist_count(&parse("IU R IU")));
    assert_eq!(2, twist_count(&parse("IU IU2 R"))); // same grip in a row
    assert_eq!(
        parse("R U R' U' R' F R F'"),
        invert_twists(&invert_twists(&parse("R U R' U' R' F R F'"))),
    );
}

#[test]
fn test_cell_rows() {
    let rows = cell_rows_list();
    let pieces = cell_pieces();
    // 24 rows: 12 of `[4c, 3c, 4c]` and 12 of `[3c, 2c, 3c]`.
    assert_eq!(24, rows.len());
    assert_eq!(24, rows.iter().collect::<HashSet<_>>().len());

    let mut sticker_counts: HashMap<[usize; 3], usize> = HashMap::new();
    for row in &rows {
        *sticker_counts
            .entry(row.map(|j| piece_grips(pieces[j]).len()))
            .or_default() += 1;
    }
    assert_eq!(12, sticker_counts[&[4, 3, 4]]);
    assert_eq!(12, sticker_counts[&[3, 2, 3]]);

    // Every piece of the cell lies on some row.
    assert_eq!(
        26,
        rows.iter().flatten().collect::<HashSet<_>>().len(),
        "some piece is on no row",
    );
}

#[test]
fn test_effect_hash_key() {
    let mut a = PuzzleState::default();
    a.do_twists(&parse("IU"));
    let mut b = PuzzleState::default();
    b.do_twists(&parse("IU2 IU'"));
    let ea = CellEffect::of(&a);
    let eb = CellEffect::of(&b);
    assert!(ea.equals(&eb));
    assert_eq!(ea.hash_key(), eb.hash_key());
    let identity = CellEffect::identity();
    assert!(!ea.equals(&identity));
    assert_ne!(ea.hash_key(), identity.hash_key());
}
