use robodoan::{Direct, ElemId, PieceOps, Tables, HYPERCUBE_GRIPS};

#[test]
fn test_tables_agree_with_direct() {
    let tables = Tables::new();
    for a in (0..192u8).map(ElemId::new) {
        assert_eq!(Direct.inv(a), tables.inv(a));
        for b in (0..192u8).step_by(7).map(ElemId::new) {
            assert_eq!(Direct.mul(a, b), tables.mul(a, b));
        }
        for i in 0..72 {
            assert_eq!(Direct.mul_index(a, i), tables.mul_index(a, i));
            assert_eq!(Direct.canonical(i, a), tables.canonical(i, a));
            assert_eq!(Direct.shows_home(i, a), tables.shows_home(i, a));
        }
    }
    for g in HYPERCUBE_GRIPS {
        assert_eq!(Direct.cell(g), tables.cell(g));
        for i in 0..72 {
            assert_eq!(Direct.touches(i, g), tables.touches(i, g));
        }
    }
    for k in 0..72 {
        assert_eq!(Direct.last_cell_slot(k), tables.last_cell_slot(k));
    }
}

#[test]
fn test_direct_values() {
    let ident = ElemId::new(0);
    // The identity shows every piece at home and moves nothing.
    for i in 0..72 {
        assert!(Direct.shows_home(i, ident));
        assert_eq!(i, Direct.mul_index(ident, i));
        assert_eq!(ident, Direct.canonical(i, ident));
    }
    // A cell has 26 pieces, each touching its grip.
    for g in HYPERCUBE_GRIPS {
        let cell = Direct.cell(g);
        for &k in &cell {
            assert!(Direct.touches(k as usize, g));
        }
    }
    // Exactly the 26 pieces of the last cell have a slot in it.
    let slotted = (0..72).filter(|&k| Direct.last_cell_slot(k) != 255).count();
    assert_eq!(26, slotted);
}
