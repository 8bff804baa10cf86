//! The piece operations that twisting and reading a state repeat: computed
//! directly, or looked up in tables built once for a long search.
use vstd::prelude::*;

use crate::elements::ElemId;
use crate::grips::{grip_of, GripId};
use crate::lastcell::{canonical_of, cell_piece_index, cell_slot, lemma_canonical_unique};
use crate::locations::{
    cell_index, gen_mul_elem_index_table, indices_for_grip, lemma_mul_index, mul_elem_index, piece_has_grip,
    piece_touches, spec_mul_index,
};
use crate::puzzle_state::{
    canonical_attitude, indistinguishable_attitude_classes, is_canonical_attitude, shows_home, shows_home_exec,
};

verus! {

/// The operations on rotations and pieces that states are made of.
pub trait PieceOps {
    /// The product `a * b`.
    fn mul(&self, a: ElemId, b: ElemId) -> (r: ElemId)
        requires
            a.wf(),
            b.wf(),
        ensures
            r == a.spec_times(b),
            r.wf(),
    ;

    /// Where rotation `e` carries location `i`.
    fn mul_index(&self, e: ElemId, i: usize) -> (k: usize)
        requires
            e.wf(),
            i < 72,
        ensures
            k == spec_mul_index(e, i as int),
            k < 72,
    ;

    /// The least attitude that looks like `a` at location `i`.
    fn canonical(&self, i: usize, a: ElemId) -> (c: ElemId)
        requires
            i < 72,
            a.wf(),
        ensures
            is_canonical_attitude(i as int, a, c),
    ;

    /// Whether a piece at location `i` with attitude `a` shows every sticker
    /// on the grip it belongs to.
    fn shows_home(&self, i: usize, a: ElemId) -> (b: bool)
        requires
            i < 72,
            a.wf(),
        ensures
            b == shows_home(i as int, a),
    ;

    /// The inverse of `a`.
    fn inv(&self, a: ElemId) -> (r: ElemId)
        requires
            a.wf(),
        ensures
            r == a.spec_inverse(),
            r.wf(),
    ;

    /// The locations of the cell of `g`, in slot order.
    fn cell(&self, g: GripId) -> (c: [u8; 26])
        ensures
            forall|o: int| 0 <= o < 26 ==> #[trigger] c[o] == cell_index(g, o),
            forall|o: int| 0 <= o < 26 ==> #[trigger] c[o] < 72,
    ;

    /// Whether the piece whose home is location `i` shows a sticker on `g`.
    fn touches(&self, i: usize, g: GripId) -> (b: bool)
        requires
            i < 72,
        ensures
            b == piece_touches(i as int, g),
    ;

    /// The slot of location `k` within the canonical last cell, or 255.
    fn last_cell_slot(&self, k: usize) -> (slot: u8)
        requires
            k < 72,
        ensures
            slot == cell_slot(k as int),
    ;
}

/// Computes every operation from scratch.
#[derive(Debug, Clone, Copy)]
pub struct Direct;

impl PieceOps for Direct {
    fn mul(&self, a: ElemId, b: ElemId) -> (r: ElemId) {
        a.mul(b)
    }

    fn mul_index(&self, e: ElemId, i: usize) -> (k: usize) {
        mul_elem_index(e, i) as usize
    }

    fn canonical(&self, i: usize, a: ElemId) -> (c: ElemId) {
        canonical_attitude(i, a)
    }

    fn shows_home(&self, i: usize, a: ElemId) -> (b: bool) {
        shows_home_exec(i, a)
    }

    fn inv(&self, a: ElemId) -> (r: ElemId) {
        a.inv()
    }

    fn cell(&self, g: GripId) -> (c: [u8; 26]) {
        indices_for_grip(g)
    }

    fn touches(&self, i: usize, g: GripId) -> (b: bool) {
        piece_has_grip(i, g)
    }

    fn last_cell_slot(&self, k: usize) -> (slot: u8) {
        cell_piece_index(k)
    }
}

/// What the tables hold, row by row: products, where rotations carry
/// locations, least look-alike attitudes, whether attitudes show home,
/// inverses, the locations of each cell, which grips each piece touches,
/// and the slots of the canonical last cell.
pub type TablesView = (
    Seq<Seq<u8>>,
    Seq<Seq<u8>>,
    Seq<Seq<u8>>,
    Seq<Seq<bool>>,
    Seq<u8>,
    Seq<Seq<u8>>,
    Seq<Seq<bool>>,
    Seq<u8>,
);

/// The contents of complete tables, entry by entry.
pub open spec fn full_tables() -> TablesView {
    (
        Seq::new(192, |a: int| Seq::new(192, |b: int| ElemId(a as u8).spec_times(ElemId(b as u8)).0)),
        Seq::new(192, |e: int| Seq::new(72, |i: int| spec_mul_index(ElemId(e as u8), i) as u8)),
        Seq::new(72, |i: int| Seq::new(192, |a: int| canonical_of(i, ElemId(a as u8)).0)),
        Seq::new(72, |i: int| Seq::new(192, |a: int| shows_home(i, ElemId(a as u8)))),
        Seq::new(192, |a: int| ElemId(a as u8).spec_inverse().0),
        Seq::new(8, |g: int| Seq::new(26, |o: int| cell_index(grip_of(g), o) as u8)),
        Seq::new(72, |i: int| Seq::new(8, |g: int| piece_touches(i, grip_of(g)))),
        Seq::new(72, |k: int| cell_slot(k) as u8),
    )
}

/// Every operation, tabulated.
#[derive(Debug)]
pub struct Tables {
    /// `mul[a][b]` is the product of `a` and `b`.
    mul: Vec<[u8; 192]>,
    /// `index[e][i]` is where `e` carries location `i`.
    index: Vec<[u8; 72]>,
    /// `canon[i][a]` is the least attitude that looks like `a` at `i`.
    canon: Vec<[u8; 192]>,
    /// `home[i][a]` is whether a piece at `i` with attitude `a` shows its
    /// home stickers.
    home: Vec<[bool; 192]>,
    /// `inv[a]` is the inverse of `a`.
    inv: Vec<u8>,
    /// `cells[g]` lists the locations of the cell of grip number `g`.
    cells: Vec<[u8; 26]>,
    /// `touches[i][g]` is whether the piece at home `i` touches grip number
    /// `g`.
    touches: Vec<[bool; 8]>,
    /// `slots[k]` is the slot of location `k` in the canonical last cell.
    slots: Vec<u8>,
}

impl View for Tables {
    type V = TablesView;

    closed spec fn view(&self) -> TablesView {
        (
            self.mul@.map_values(|r: [u8; 192]| r@),
            self.index@.map_values(|r: [u8; 72]| r@),
            self.canon@.map_values(|r: [u8; 192]| r@),
            self.home@.map_values(|r: [bool; 192]| r@),
            self.inv@,
            self.cells@.map_values(|r: [u8; 26]| r@),
            self.touches@.map_values(|r: [bool; 8]| r@),
            self.slots@,
        )
    }
}

impl Tables {
    #[verifier::type_invariant]
    spec fn tables_ok(self) -> bool {
        &&& self.mul@.len() == 192
        &&& forall|a: int, b: int|
            0 <= a < 192 && 0 <= b < 192 ==> ElemId(#[trigger] self.mul@[a][b]) == ElemId(
                a as u8,
            ).spec_times(ElemId(b as u8))
        &&& self.index@.len() == 192
        &&& forall|e: int, i: int|
            0 <= e < 192 && 0 <= i < 72 ==> #[trigger] self.index@[e][i] == spec_mul_index(
                ElemId(e as u8),
                i,
            )
        &&& self.canon@.len() == 72
        &&& forall|i: int, a: int|
            0 <= i < 72 && 0 <= a < 192 ==> is_canonical_attitude(
                i,
                ElemId(a as u8),
                ElemId(#[trigger] self.canon@[i][a]),
            )
        &&& self.home@.len() == 72
        &&& forall|i: int, a: int|
            0 <= i < 72 && 0 <= a < 192 ==> #[trigger] self.home@[i][a] == shows_home(
                i,
                ElemId(a as u8),
            )
        &&& self.inv@.len() == 192
        &&& forall|a: int| 0 <= a < 192 ==> ElemId(#[trigger] self.inv@[a]) == ElemId(a as u8).spec_inverse()
        &&& self.cells@.len() == 8
        &&& forall|g: int, o: int|
            0 <= g < 8 && 0 <= o < 26 ==> #[trigger] self.cells@[g][o] == cell_index(grip_of(g), o)
                && self.cells@[g][o] < 72
        &&& self.touches@.len() == 72
        &&& forall|i: int, g: int|
            0 <= i < 72 && 0 <= g < 8 ==> #[trigger] self.touches@[i][g] == piece_touches(i, grip_of(g))
        &&& self.slots@.len() == 72
        &&& forall|k: int| 0 <= k < 72 ==> #[trigger] self.slots@[k] == cell_slot(k)
    }

    /// Builds every table.
    pub fn new() -> (t: Self)
        ensures
            t@ == full_tables(),
    {
        let mut mul: Vec<[u8; 192]> = Vec::new();
        let mut a: u8 = 0;
        while a < 192
            invariant
                0 <= a <= 192,
                mul@.len() == a,
                forall|x: int, y: int|
                    0 <= x < a && 0 <= y < 192 ==> ElemId(#[trigger] mul@[x][y]) == ElemId(
                        x as u8,
                    ).spec_times(ElemId(y as u8)),
            decreases 192 - a,
        {
            let mut row = [0u8; 192];
            let mut b: u8 = 0;
            while b < 192
                invariant
                    0 <= b <= 192,
                    a < 192,
                    forall|y: int|
                        0 <= y < b ==> ElemId(#[trigger] row[y]) == ElemId(a).spec_times(
                            ElemId(y as u8),
                        ),
                decreases 192 - b,
            {
                row[b as usize] = ElemId(a).mul(ElemId(b)).0;
                b += 1;
            }
            mul.push(row);
            a += 1;
        }
        let mut home: Vec<[bool; 192]> = Vec::new();
        let mut i: usize = 0;
        while i < 72
            invariant
                0 <= i <= 72,
                home@.len() == i,
                forall|p: int, x: int|
                    0 <= p < i && 0 <= x < 192 ==> #[trigger] home@[p][x] == shows_home(
                        p,
                        ElemId(x as u8),
                    ),
            decreases 72 - i,
        {
            let mut row = [false; 192];
            let mut x: u8 = 0;
            while x < 192
                invariant
                    0 <= x <= 192,
                    i < 72,
                    forall|y: int| 0 <= y < x ==> #[trigger] row[y] == shows_home(i as int, ElemId(y as u8)),
                decreases 192 - x,
            {
                row[x as usize] = shows_home_exec(i, ElemId(x));
                x += 1;
            }
            home.push(row);
            i += 1;
        }
        let mut inv: Vec<u8> = Vec::new();
        let mut a: u8 = 0;
        while a < 192
            invariant
                0 <= a <= 192,
                inv@.len() == a,
                forall|x: int| 0 <= x < a ==> ElemId(#[trigger] inv@[x]) == ElemId(x as u8).spec_inverse(),
            decreases 192 - a,
        {
            inv.push(ElemId(a).inv().0);
            a += 1;
        }
        let mut cells: Vec<[u8; 26]> = Vec::new();
        let mut g: u8 = 0;
        while g < 8
            invariant
                0 <= g <= 8,
                cells@.len() == g,
                forall|h: int, o: int|
                    0 <= h < g && 0 <= o < 26 ==> #[trigger] cells@[h][o] == cell_index(grip_of(h), o)
                        && cells@[h][o] < 72,
            decreases 8 - g,
        {
            cells.push(indices_for_grip(GripId::new(g)));
            g += 1;
        }
        let mut touches: Vec<[bool; 8]> = Vec::new();
        let mut slots: Vec<u8> = Vec::new();
        let mut i: usize = 0;
        while i < 72
            invariant
                0 <= i <= 72,
                touches@.len() == i,
                slots@.len() == i,
                forall|p: int, h: int|
                    0 <= p < i && 0 <= h < 8 ==> #[trigger] touches@[p][h] == piece_touches(p, grip_of(h)),
                forall|p: int| 0 <= p < i ==> #[trigger] slots@[p] == cell_slot(p),
            decreases 72 - i,
        {
            let mut row = [false; 8];
            let mut h: u8 = 0;
            while h < 8
                invariant
                    0 <= h <= 8,
                    i < 72,
                    forall|x: int| 0 <= x < h ==> #[trigger] row[x] == piece_touches(i as int, grip_of(x)),
                decreases 8 - h,
            {
                row[h as usize] = piece_has_grip(i, GripId::new(h));
                h += 1;
            }
            touches.push(row);
            slots.push(cell_piece_index(i));
            i += 1;
        }
        let index = gen_mul_elem_index_table();
        let canon = indistinguishable_attitude_classes();
        let t = Tables { mul, index, canon, home, inv, cells, touches, slots };
        proof {
            t.lemma_view_full();
        }
        t
    }

    /// Tables that meet their invariant hold exactly the full tables.
    proof fn lemma_view_full(&self)
        requires
            self.tables_ok(),
        ensures
            self@ == full_tables(),
    {
        let f = full_tables();
        let v = self@;
        assert forall|a: int| 0 <= a < 192 implies #[trigger] v.0[a] == f.0[a] by {
            assert forall|b: int| 0 <= b < 192 implies v.0[a][b] == f.0[a][b] by {
                assert(ElemId(self.mul@[a][b]) == ElemId(a as u8).spec_times(ElemId(b as u8)));
            }
            assert(v.0[a] =~= f.0[a]);
        }
        assert(v.0 =~= f.0);
        assert forall|e: int| 0 <= e < 192 implies #[trigger] v.1[e] == f.1[e] by {
            assert forall|i: int| 0 <= i < 72 implies v.1[e][i] == f.1[e][i] by {
                assert(self.index@[e][i] == spec_mul_index(ElemId(e as u8), i));
            }
            assert(v.1[e] =~= f.1[e]);
        }
        assert(v.1 =~= f.1);
        assert forall|i: int| 0 <= i < 72 implies #[trigger] v.2[i] == f.2[i] by {
            assert forall|a: int| 0 <= a < 192 implies v.2[i][a] == f.2[i][a] by {
                let c = ElemId(self.canon@[i][a]);
                assert(is_canonical_attitude(i, ElemId(a as u8), c));
                lemma_canonical_unique(i, ElemId(a as u8), c, canonical_of(i, ElemId(a as u8)));
            }
            assert(v.2[i] =~= f.2[i]);
        }
        assert(v.2 =~= f.2);
        assert forall|i: int| 0 <= i < 72 implies #[trigger] v.3[i] == f.3[i] by {
            assert forall|a: int| 0 <= a < 192 implies v.3[i][a] == f.3[i][a] by {
                assert(self.home@[i][a] == shows_home(i, ElemId(a as u8)));
            }
            assert(v.3[i] =~= f.3[i]);
        }
        assert(v.3 =~= f.3);
        assert forall|a: int| 0 <= a < 192 implies v.4[a] == f.4[a] by {
            assert(ElemId(self.inv@[a]) == ElemId(a as u8).spec_inverse());
        }
        assert(v.4 =~= f.4);
        assert forall|g: int| 0 <= g < 8 implies #[trigger] v.5[g] == f.5[g] by {
            assert forall|o: int| 0 <= o < 26 implies v.5[g][o] == f.5[g][o] by {
                assert(self.cells@[g][o] == cell_index(grip_of(g), o));
            }
            assert(v.5[g] =~= f.5[g]);
        }
        assert(v.5 =~= f.5);
        assert forall|i: int| 0 <= i < 72 implies #[trigger] v.6[i] == f.6[i] by {
            assert forall|g: int| 0 <= g < 8 implies v.6[i][g] == f.6[i][g] by {
                assert(self.touches@[i][g] == piece_touches(i, grip_of(g)));
            }
            assert(v.6[i] =~= f.6[i]);
        }
        assert(v.6 =~= f.6);
        assert forall|k: int| 0 <= k < 72 implies v.7[k] == f.7[k] by {
            assert(self.slots@[k] == cell_slot(k));
        }
        assert(v.7 =~= f.7);
    }
}

impl PieceOps for Tables {
    fn mul(&self, a: ElemId, b: ElemId) -> (r: ElemId) {
        proof {
            use_type_invariant(self);
            assert(a == ElemId(a.0 as int as u8));
            assert(b == ElemId(b.0 as int as u8));
            crate::algebra::lemma_mul_wf(a, b);
        }
        ElemId(self.mul[a.0 as usize][b.0 as usize])
    }

    fn mul_index(&self, e: ElemId, i: usize) -> (k: usize) {
        proof {
            use_type_invariant(self);
            assert(e == ElemId(e.0 as int as u8));
            lemma_mul_index(e, i as int, i as int);
        }
        self.index[e.0 as usize][i] as usize
    }

    fn canonical(&self, i: usize, a: ElemId) -> (c: ElemId) {
        proof {
            use_type_invariant(self);
            assert(a == ElemId(a.0 as int as u8));
        }
        ElemId(self.canon[i][a.0 as usize])
    }

    fn shows_home(&self, i: usize, a: ElemId) -> (b: bool) {
        proof {
            use_type_invariant(self);
            assert(a == ElemId(a.0 as int as u8));
        }
        self.home[i][a.0 as usize]
    }

    fn inv(&self, a: ElemId) -> (r: ElemId) {
        proof {
            use_type_invariant(self);
            assert(a == ElemId(a.0 as int as u8));
            crate::algebra::lemma_mul_inv(a);
        }
        ElemId(self.inv[a.0 as usize])
    }

    fn cell(&self, g: GripId) -> (c: [u8; 26]) {
        proof {
            use_type_invariant(self);
            g.lemma_id_roundtrip();
        }
        self.cells[g.id() as usize]
    }

    fn touches(&self, i: usize, g: GripId) -> (b: bool) {
        proof {
            use_type_invariant(self);
            g.lemma_id_roundtrip();
        }
        self.touches[i][g.id() as usize]
    }

    fn last_cell_slot(&self, k: usize) -> (slot: u8) {
        proof {
            use_type_invariant(self);
        }
        self.slots[k]
    }
}

} // verus!
