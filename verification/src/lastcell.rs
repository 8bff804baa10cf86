//! Solving the last cell, once blockbuilding has finished F2L.
//!
//! Blockbuilding stops when every piece outside one cell is solved. What's left
//! is a 3x3x3 cell whose 26 pieces are scrambled, and which can only be fixed
//! by sequences that leave and then restore F2L. Everything here works in a
//! canonical frame where the last cell is [`CANONICAL_LAST_CELL`].
use std::collections::hash_map::DefaultHasher;
use std::hash::Hasher;

use vstd::prelude::*;
use vstd::std_specs::hash::DefaultHasherAdditionalSpecFns;

use crate::elements::{spec_ident, spec_mul_grip, ElemId};
use crate::grips::{grip_of, GripId, HYPERCUBE_GRIPS, I};
use crate::group::hypercube_rotations;
use crate::locations::{cell_index, indices_for_grip, piece_has_grip, piece_touches, spec_mul_index};
use crate::puzzle_state::{
    attitudes_wf, canonical_attitude, f2l_solved, reoriented, is_canonical_attitude, kind_slots, PuzzleState, CELL_CORNERS,
    CELL_EDGES, CELL_RIDGES,
};
use crate::tables::{Direct, PieceOps};
use crate::twist::Twist;

verus! {

/// Cell that algorithms are generated for.
pub const CANONICAL_LAST_CELL: GripId = I;

/// Longest algorithm we will store.
pub const MAX_ALG_LEN: usize = 12;

/// Location of the `j`th piece of the canonical last cell.
pub open spec fn cell_piece(j: int) -> int {
    cell_index(I, j)
}

/// Returns the piece locations of the canonical last cell.
pub fn cell_pieces() -> (r: [usize; 26])
    ensures
        forall|j: int| 0 <= j < 26 ==> #[trigger] r[j] == cell_piece(j),
        forall|j: int| 0 <= j < 26 ==> #[trigger] r[j] < 72,
{
    let cell = indices_for_grip(I);
    let mut r = [0usize; 26];
    let mut j: usize = 0;
    while j < 26
        invariant
            0 <= j <= 26,
            forall|k: int| 0 <= k < 26 ==> #[trigger] cell[k] == cell_index(I, k),
            forall|k: int| 0 <= k < 26 ==> #[trigger] cell[k] < 72,
            forall|k: int| 0 <= k < j ==> #[trigger] r[k] == cell_piece(k),
            forall|k: int| 0 <= k < 26 ==> #[trigger] r[k] < 72,
        decreases 26 - j,
    {
        r[j] = cell[j] as usize;
        j += 1;
    }
    r
}

/// Slot within the canonical last cell of piece location `k`: the last slot
/// holding it, or 255 when no slot does.
pub open spec fn cell_slot(k: int) -> int {
    if exists|j: int| 0 <= j < 26 && cell_piece(j) == k {
        choose|j: int|
            0 <= j < 26 && cell_piece(j) == k && forall|l: int|
                j < l < 26 ==> cell_piece(l) != k
    } else {
        255
    }
}

/// Returns the slot within the canonical last cell of piece location `k`,
/// or 255 if `k` is not in that cell.
pub fn cell_piece_index(k: usize) -> (slot: u8)
    ensures
        slot == cell_slot(k as int),
{
    let pieces = cell_pieces();
    let mut j: usize = 26;
    while j > 0
        invariant
            0 <= j <= 26,
            forall|l: int| 0 <= l < 26 ==> #[trigger] pieces[l] == cell_piece(l),
            forall|l: int| j <= l < 26 ==> cell_piece(l) != k,
        decreases j,
    {
        j -= 1;
        if pieces[j] == k {
            proof {
                let w = j as int;
                assert(0 <= w < 26 && cell_piece(w) == k);
                let c = choose|c: int|
                    0 <= c < 26 && cell_piece(c) == k && forall|l: int|
                        c < l < 26 ==> cell_piece(l) != k;
                assert(forall|l: int| w < l < 26 ==> cell_piece(l) != k);
                if c < w {
                } else if c > w {
                }
            }
            return j as u8;
        }
    }
    255
}

/// Index within the canonical last cell of `(x, y, z)`, skipping its
/// centre.
pub open spec fn slot_at(x: int, y: int, z: int) -> Option<usize> {
    let j = x + 3 * y + 9 * z;
    if j == 13 {
        None
    } else if j > 13 {
        Some((j - 1) as usize)
    } else {
        Some(j as usize)
    }
}

/// The `k`th cell along `axis` in the row at `(a, b)` of the other two.
pub open spec fn row_slot(axis: int, a: int, b: int, k: int) -> Option<usize> {
    if axis == 0 {
        slot_at(k, a, b)
    } else if axis == 1 {
        slot_at(a, k, b)
    } else {
        slot_at(a, b, k)
    }
}

/// Whether row number `n` (that is `(axis, a, b) = (n / 9, n / 3 % 3, n % 3)`)
/// avoids the centre of the cell.
pub open spec fn row_exists(n: int) -> bool {
    row_slot(n / 9, (n / 3) % 3, n % 3, 1) is Some
}

/// Row number `n`, as indices into the 26 pieces of the cell.
pub open spec fn row_of(n: int) -> [usize; 3] {
    [
        row_slot(n / 9, (n / 3) % 3, n % 3, 0)->0,
        row_slot(n / 9, (n / 3) % 3, n % 3, 1)->0,
        row_slot(n / 9, (n / 3) % 3, n % 3, 2)->0,
    ]
}

/// The rows among the first `n`, in order.
pub open spec fn rows_upto(n: int) -> Seq<[usize; 3]>
    decreases n,
{
    if n <= 0 {
        seq![]
    } else if row_exists(n - 1) {
        rows_upto(n - 1).push(row_of(n - 1))
    } else {
        rows_upto(n - 1)
    }
}

/// The 1x1x3 rows of the last cell that avoid its centre, as indices into
/// its 26 pieces, in `(axis, a, b)` order.
///
/// These are the "vertical bars" that good last-cell algorithms move around
/// as units.
pub open spec fn cell_rows() -> Seq<[usize; 3]> {
    rows_upto(27)
}

fn exec_slot_at(x: usize, y: usize, z: usize) -> (r: Option<usize>)
    requires
        x < 3,
        y < 3,
        z < 3,
    ensures
        r == slot_at(x as int, y as int, z as int),
        r matches Some(k) ==> k < 26,
{
    let j = x + 3 * y + 9 * z;
    if j == 13 {
        None
    } else if j > 13 {
        Some(j - 1)
    } else {
        Some(j)
    }
}

fn exec_row_slot(axis: usize, a: usize, b: usize, k: usize) -> (r: Option<usize>)
    requires
        axis < 3,
        a < 3,
        b < 3,
        k < 3,
    ensures
        r == row_slot(axis as int, a as int, b as int, k as int),
        r matches Some(x) ==> x < 26,
{
    if axis == 0 {
        exec_slot_at(k, a, b)
    } else if axis == 1 {
        exec_slot_at(a, k, b)
    } else {
        exec_slot_at(a, b, k)
    }
}

/// Returns the 24 rows of the last cell that avoid its centre.
pub fn cell_rows_list() -> (rows: Vec<[usize; 3]>)
    ensures
        rows@ == cell_rows(),
        forall|r: int, k: int| 0 <= r < rows@.len() && 0 <= k < 3 ==> #[trigger] rows@[r][k] < 26,
{
    let mut rows: Vec<[usize; 3]> = Vec::new();
    let mut n: usize = 0;
    while n < 27
        invariant
            0 <= n <= 27,
            rows@ == rows_upto(n as int),
            forall|r: int, k: int|
                0 <= r < rows@.len() && 0 <= k < 3 ==> #[trigger] rows@[r][k] < 26,
        decreases 27 - n,
    {
        let axis = n / 9;
        let a = (n / 3) % 3;
        let b = n % 3;
        match (exec_row_slot(axis, a, b, 0), exec_row_slot(axis, a, b, 1), exec_row_slot(axis, a, b, 2)) {
            (Some(p), Some(q), Some(r)) => {
                rows.push([p, q, r]);
            },
            _ => {},
        }
        n += 1;
    }
    rows
}

/// The piece in slot `j` of the canonical last cell, with attitude `a`,
/// shows every sticker on the grip it belongs to.
pub open spec fn slot_solved(a: ElemId, j: int) -> bool {
    forall|g: GripId| #![trigger piece_touches(cell_piece(j), g)]
        piece_touches(cell_piece(j), g) ==> a.spec_times_grip(g) == g
}

/// A piece with attitude `a` shows its last-cell sticker outward.
pub open spec fn oriented(a: ElemId) -> bool {
    a.spec_times_grip(I) == I
}

/// Whether the attitudes at slots `row` of `att` agree up to what each
/// piece can show.
pub open spec fn row_is_bar(att: Seq<ElemId>, row: [usize; 3]) -> bool {
    forall|k: int|
        0 <= k < 3 ==> #[trigger] canonical_of(cell_piece(row[k] as int), att[row[0] as int])
            == canonical_of(cell_piece(row[k] as int), att[row[k] as int])
}

/// The least attitude that looks like `a` at location `i`.
pub open spec fn canonical_of(i: int, a: ElemId) -> ElemId {
    choose|c: ElemId| is_canonical_attitude(i, a, c)
}

/// The canonical attitude is unique.
pub proof fn lemma_canonical_unique(i: int, a: ElemId, c: ElemId, d: ElemId)
    requires
        is_canonical_attitude(i, a, c),
        is_canonical_attitude(i, a, d),
    ensures
        c == d,
{
    if c.0 < d.0 {
        assert(!crate::puzzle_state::looks_same(i, ElemId(c.0), a));
    } else if d.0 < c.0 {
        assert(!crate::puzzle_state::looks_same(i, ElemId(d.0), a));
    }
}

/// Configuration of the 26 pieces of the last cell.
///
/// Entry `j` is the attitude of the piece currently at the cell's `j`th
/// location, so this carries both permutation and orientation. It is only
/// meaningful when F2L is intact.
#[derive(Debug, Copy, Clone, PartialEq, Eq, Hash, PartialOrd, Ord)]
pub struct CellState(pub [ElemId; 26]);

impl CellState {
    /// Every attitude is an element of the group.
    pub open spec fn wf(self) -> bool {
        forall|j: int| 0 <= j < 26 ==> (#[trigger] self.0[j]).wf()
    }

    /// The solved cell.
    pub fn solved() -> (s: Self)
        ensures
            forall|j: int| 0 <= j < 26 ==> #[trigger] s.0[j] == spec_ident(),
            s.wf(),
    {
        CellState([ElemId::ident(); 26])
    }

    /// Reads the last cell out of a puzzle state that is already in the
    /// canonical frame.
    pub fn of(state: &PuzzleState) -> (s: Self)
        ensures
            forall|j: int| 0 <= j < 26 ==> #[trigger] s.0[j] == state@[cell_piece(j)],
            s.wf(),
    {
        CellState(state.cell_attitudes(CANONICAL_LAST_CELL))
    }

    /// Replaces each attitude with the least attitude indistinguishable from
    /// it, so that states that look identical compare equal.
    pub fn canonicalize(self) -> (s: Self)
        requires
            self.wf(),
        ensures
            forall|j: int|
                0 <= j < 26 ==> is_canonical_attitude(cell_piece(j), self.0[j], #[trigger] s.0[j]),
            s.wf(),
    {
        self.canonicalize_by(&Direct)
    }

    /// [`CellState::canonicalize`], computing with `ops`.
    pub fn canonicalize_by<O: PieceOps>(self, ops: &O) -> (s: Self)
        requires
            self.wf(),
        ensures
            forall|j: int|
                0 <= j < 26 ==> is_canonical_attitude(cell_piece(j), self.0[j], #[trigger] s.0[j]),
            s.wf(),
    {
        let pieces = cell_pieces();
        let mut r = self.0;
        let mut j: usize = 0;
        while j < 26
            invariant
                0 <= j <= 26,
                self.wf(),
                forall|k: int| 0 <= k < 26 ==> #[trigger] pieces[k] == cell_piece(k),
                forall|k: int| 0 <= k < 26 ==> #[trigger] pieces[k] < 72,
                forall|k: int|
                    0 <= k < j ==> is_canonical_attitude(cell_piece(k), self.0[k], #[trigger] r[k]),
                forall|k: int| j <= k < 26 ==> #[trigger] r[k] == self.0[k],
                forall|k: int| 0 <= k < 26 ==> (#[trigger] r[k]).wf(),
            decreases 26 - j,
        {
            r[j] = ops.canonical(pieces[j], self.0[j]);
            j += 1;
        }
        CellState(r)
    }

    /// Returns whether every piece of the cell is solved.
    pub fn is_solved(self) -> (b: bool)
        requires
            self.wf(),
        ensures
            b == forall|j: int| 0 <= j < 26 ==> #[trigger] slot_solved(self.0[j], j),
    {
        let mut j: usize = 0;
        while j < 26
            invariant
                0 <= j <= 26,
                self.wf(),
                forall|k: int| 0 <= k < j ==> #[trigger] slot_solved(self.0[k], k),
            decreases 26 - j,
        {
            if !self.is_piece_solved(j) {
                return false;
            }
            j += 1;
        }
        true
    }

    /// Returns whether the piece in slot `j` is solved.
    pub fn is_piece_solved(self, j: usize) -> (b: bool)
        requires
            self.wf(),
            j < 26,
        ensures
            b == slot_solved(self.0[j as int], j as int),
    {
        let pieces = cell_pieces();
        let i = pieces[j];
        let a = self.0[j];
        let mut k: u8 = 0;
        while k < 8
            invariant
                0 <= k <= 8,
                j < 26,
                i == cell_piece(j as int),
                i < 72,
                a == self.0[j as int],
                a.wf(),
                forall|g: GripId| #![trigger piece_touches(cell_piece(j as int), g)]
                    g.spec_id() < k && piece_touches(cell_piece(j as int), g) ==> a.spec_times_grip(g)
                        == g,
            decreases 8 - k,
        {
            let g = GripId::new(k);
            if piece_has_grip(i, g) && a.mul_grip(g) != g {
                return false;
            }
            k += 1;
        }
        proof {
            assert forall|g: GripId| #![trigger piece_touches(cell_piece(j as int), g)]
                piece_touches(cell_piece(j as int), g) implies a.spec_times_grip(g) == g by {
                assert(g.spec_id() < 8);
            }
        }
        true
    }

    /// Returns whether the piece at `j` shows its last-cell sticker outward.
    pub fn is_piece_oriented(self, j: usize) -> (b: bool)
        requires
            self.wf(),
            j < 26,
        ensures
            b == oriented(self.0[j as int]),
    {
        self.0[j].mul_grip(CANONICAL_LAST_CELL) == CANONICAL_LAST_CELL
    }

    /// Returns the number of misoriented `[ridges, edges, corners]`.
    ///
    /// All zeroes means OLC is done.
    pub fn unoriented(self) -> (counts: [usize; 3])
        requires
            self.wf(),
        ensures
            forall|kind: int|
                0 <= kind < 3 ==> #[trigger] counts[kind] == kind_slots(kind).filter(
                    |j: usize| !oriented(self.0[j as int]),
                ).len(),
    {
        let ridges = CELL_RIDGES;
        let edges = CELL_EDGES;
        let corners = CELL_CORNERS;
        proof {
            assert(ridges@ == kind_slots(0));
            assert(edges@ == kind_slots(1));
            assert(corners@ == kind_slots(2));
        }
        [
            self.count_kind(&ridges, false),
            self.count_kind(&edges, false),
            self.count_kind(&corners, false),
        ]
    }

    /// Returns the number of unsolved `[ridges, edges, corners]`.
    pub fn unsolved(self) -> (counts: [usize; 3])
        requires
            self.wf(),
        ensures
            forall|kind: int|
                0 <= kind < 3 ==> #[trigger] counts[kind] == kind_slots(kind).filter(
                    |j: usize| !slot_solved(self.0[j as int], j as int),
                ).len(),
    {
        let ridges = CELL_RIDGES;
        let edges = CELL_EDGES;
        let corners = CELL_CORNERS;
        proof {
            assert(ridges@ == kind_slots(0));
            assert(edges@ == kind_slots(1));
            assert(corners@ == kind_slots(2));
        }
        [
            self.count_kind(&ridges, true),
            self.count_kind(&edges, true),
            self.count_kind(&corners, true),
        ]
    }

    /// Counts the slots among `slots` whose piece is not solved (when
    /// `solved` is set) or not oriented.
    fn count_kind(self, slots: &[usize], solved: bool) -> (n: usize)
        requires
            self.wf(),
            forall|k: int| 0 <= k < slots@.len() ==> #[trigger] slots@[k] < 26,
        ensures
            solved ==> n == slots@.filter(|j: usize| !slot_solved(self.0[j as int], j as int)).len(),
            !solved ==> n == slots@.filter(|j: usize| !oriented(self.0[j as int])).len(),
    {
        let ghost bad = if solved {
            |j: usize| !slot_solved(self.0[j as int], j as int)
        } else {
            |j: usize| !oriented(self.0[j as int])
        };
        let mut n: usize = 0;
        let mut k: usize = 0;
        while k < slots.len()
            invariant
                0 <= k <= slots@.len(),
                self.wf(),
                forall|j: int| 0 <= j < slots@.len() ==> #[trigger] slots@[j] < 26,
                bad == (if solved {
                    |j: usize| !slot_solved(self.0[j as int], j as int)
                } else {
                    |j: usize| !oriented(self.0[j as int])
                }),
                n == slots@.take(k as int).filter(bad).len(),
                n <= k,
            decreases slots.len() - k,
        {
            proof {
                reveal_with_fuel(Seq::filter, 1);
                assert(slots@.take(k + 1).drop_last() == slots@.take(k as int));
            }
            let j = slots[k];
            let counts = if solved {
                !self.is_piece_solved(j)
            } else {
                !self.is_piece_oriented(j)
            };
            if counts {
                n += 1;
            }
            k += 1;
        }
        proof {
            assert(slots@.take(slots@.len() as int) == slots@);
        }
        n
    }

    /// Returns how many of the cell's 24 rows are built into bars: rows
    /// whose three pieces share one attitude up to what each can show, so
    /// that they sit rigidly together.
    pub fn bars(self) -> (n: usize)
        requires
            self.wf(),
        ensures
            n == cell_rows().filter(|row: [usize; 3]| row_is_bar(self.0@, row)).len(),
    {
        self.bars_by(&Direct)
    }

    /// [`Self::bars`], computing with `ops`.
    pub fn bars_by<O: PieceOps>(self, ops: &O) -> (n: usize)
        requires
            self.wf(),
        ensures
            n == cell_rows().filter(|row: [usize; 3]| row_is_bar(self.0@, row)).len(),
    {
        let rows = cell_rows_list();
        let mut n: usize = 0;
        let mut k: usize = 0;
        while k < rows.len()
            invariant
                0 <= k <= rows@.len(),
                self.wf(),
                rows@ == cell_rows(),
                forall|r: int, c: int| 0 <= r < rows@.len() && 0 <= c < 3 ==> #[trigger] rows@[r][c] < 26,
                n == rows@.take(k as int).filter(|row: [usize; 3]| row_is_bar(self.0@, row)).len(),
                n <= k,
            decreases rows.len() - k,
        {
            proof {
                reveal_with_fuel(Seq::filter, 1);
                assert(rows@.take(k + 1).drop_last() == rows@.take(k as int));
            }
            if self.is_bar_by(&rows[k], ops) {
                n += 1;
            }
            k += 1;
        }
        proof {
            assert(rows@.take(rows@.len() as int) == rows@);
        }
        n
    }

    /// Returns whether the pieces at slots `row` form a bar.
    fn is_bar_by<O: PieceOps>(self, row: &[usize; 3], ops: &O) -> (b: bool)
        requires
            self.wf(),
            forall|c: int| 0 <= c < 3 ==> #[trigger] row[c] < 26,
        ensures
            b == row_is_bar(self.0@, *row),
    {
        let pieces = cell_pieces();
        let attitude = self.0[row[0]];
        let mut k: usize = 0;
        while k < 3
            invariant
                0 <= k <= 3,
                self.wf(),
                forall|c: int| 0 <= c < 3 ==> #[trigger] row[c] < 26,
                forall|l: int| 0 <= l < 26 ==> #[trigger] pieces[l] == cell_piece(l),
                forall|l: int| 0 <= l < 26 ==> #[trigger] pieces[l] < 72,
                attitude == self.0[row[0] as int],
                forall|c: int|
                    0 <= c < k ==> #[trigger] canonical_of(cell_piece(row[c] as int), self.0@[row[0] as int])
                        == canonical_of(cell_piece(row[c] as int), self.0@[row[c] as int]),
            decreases 3 - k,
        {
            let i = pieces[row[k]];
            let x = ops.canonical(i, attitude);
            let y = ops.canonical(i, self.0[row[k]]);
            proof {
                let ca = canonical_of(i as int, attitude);
                let cb = canonical_of(i as int, self.0[row[k as int] as int]);
                assert(is_canonical_attitude(i as int, attitude, ca));
                assert(is_canonical_attitude(i as int, self.0[row[k as int] as int], cb));
                lemma_canonical_unique(i as int, attitude, x, ca);
                lemma_canonical_unique(i as int, self.0[row[k as int] as int], y, cb);
            }
            if !x.equals(y) {
                return false;
            }
            k += 1;
        }
        true
    }
}

/// Signature entry of slot `j`: the slot its piece came from and the
/// attitude it gains.
pub open spec fn signature_entry(source: u8, attitude: ElemId) -> u16 {
    ((source as u16) << 8u16) | (attitude.0 as u16)
}

/// The bytes that describe an effect with these sources and gains: the
/// sources, then the number of each gain.
pub open spec fn effect_bytes(sources: Seq<u8>, gains: Seq<ElemId>) -> Seq<u8> {
    sources + gains.map_values(|g: ElemId| g.0)
}

/// The hash of an effect with these sources and gains.
pub open spec fn effect_key(sources: Seq<u8>, gains: Seq<ElemId>) -> u64 {
    DefaultHasher::spec_finish(seq![effect_bytes(sources, gains)])
}

/// What an algorithm does to the last cell, as a lookup table.
///
/// Storing the effect this way makes applying an algorithm 26 group
/// multiplications, with no need to replay its twists.
#[derive(Debug, Copy, Clone, PartialEq, Eq, Hash, PartialOrd, Ord)]
pub struct CellEffect {
    /// Where the piece that ends up at each location came from.
    source: [u8; 26],
    /// The attitude each piece gains.
    attitude: [ElemId; 26],
}

impl CellEffect {
    #[verifier::type_invariant]
    spec fn attitudes_are_elements(self) -> bool {
        forall|j: int| 0 <= j < 26 ==> (#[trigger] self.attitude[j]).wf()
    }

    /// Where the piece that ends up at each slot came from.
    pub closed spec fn sources(self) -> Seq<u8> {
        self.source@
    }

    /// The attitude each piece gains.
    pub closed spec fn gains(self) -> Seq<ElemId> {
        self.attitude@
    }

    /// This is the effect read out of attitudes `a`: each slot's source is
    /// the slot of the home of the piece there, and its gain the least
    /// attitude that looks like the piece's.
    pub open spec fn records(self, a: Seq<ElemId>) -> bool {
        &&& self.sources().len() == 26
        &&& self.gains().len() == 26
        &&& forall|j: int|
            0 <= j < 26 ==> #[trigger] self.sources()[j] == cell_slot(
                spec_mul_index(a[cell_piece(j)].spec_inverse(), cell_piece(j)),
            )
        &&& forall|j: int|
            0 <= j < 26 ==> is_canonical_attitude(
                cell_piece(j),
                a[cell_piece(j)],
                #[trigger] self.gains()[j],
            )
    }

    /// This is the effect of doing nothing.
    pub open spec fn is_identity_spec(self) -> bool {
        forall|j: int| 0 <= j < 26 ==> #[trigger] self.slot_untouched(j)
    }

    /// Slot `j` keeps its own piece, which gains nothing.
    pub open spec fn slot_untouched(self, j: int) -> bool {
        self.sources()[j] == j && self.gains()[j] == spec_ident()
    }

    /// Slot `j` does the same in both effects.
    pub open spec fn slot_agrees(self, other: CellEffect, j: int) -> bool {
        self.sources()[j] == other.sources()[j] && self.gains()[j] == other.gains()[j]
    }

    /// The two effects do the same thing.
    pub open spec fn same_as(self, other: CellEffect) -> bool {
        self.sources() == other.sources() && self.gains() == other.gains()
    }

    /// Returns whether this is the effect of doing nothing.
    pub fn is_identity(&self) -> (b: bool)
        ensures
            b == self.is_identity_spec(),
    {
        let mut j: usize = 0;
        while j < 26
            invariant
                0 <= j <= 26,
                forall|k: int| 0 <= k < j ==> #[trigger] self.slot_untouched(k),
            decreases 26 - j,
        {
            proof {
                assert(self.sources()[j as int] == self.source[j as int]);
                assert(self.gains()[j as int] == self.attitude[j as int]);
            }
            if self.source[j] as usize != j || !self.attitude[j].equals(ElemId::ident()) {
                assert(!self.slot_untouched(j as int));
                return false;
            }
            assert(self.slot_untouched(j as int));
            j += 1;
        }
        true
    }

    /// Returns whether the two effects do the same thing.
    pub fn equals(&self, other: &CellEffect) -> (b: bool)
        ensures
            b == self.same_as(*other),
    {
        let mut j: usize = 0;
        while j < 26
            invariant
                0 <= j <= 26,
                forall|k: int| 0 <= k < j ==> #[trigger] self.slot_agrees(*other, k),
            decreases 26 - j,
        {
            proof {
                assert(self.sources()[j as int] == self.source[j as int]);
                assert(self.gains()[j as int] == self.attitude[j as int]);
                assert(other.sources()[j as int] == other.source[j as int]);
                assert(other.gains()[j as int] == other.attitude[j as int]);
            }
            if self.source[j] != other.source[j] || !self.attitude[j].equals(other.attitude[j]) {
                return false;
            }
            j += 1;
        }
        proof {
            assert forall|k: int| 0 <= k < 26 implies self.sources()[k] == other.sources()[k]
                && self.gains()[k] == other.gains()[k] by {
                assert(self.slot_agrees(*other, k));
            }
            assert(self.sources() =~= other.sources());
            assert(self.gains() =~= other.gains());
        }
        true
    }

    /// Returns a hash of the effect: of its sources, then the numbers of its
    /// gains. Effects that do the same thing hash alike.
    pub fn hash_key(&self) -> (h: u64)
        ensures
            h == effect_key(self.sources(), self.gains()),
    {
        let mut bytes = [0u8; 52];
        let mut j: usize = 0;
        while j < 26
            invariant
                0 <= j <= 26,
                forall|k: int| 0 <= k < j ==> #[trigger] bytes[k] == self.source[k],
                forall|k: int| 26 <= k < 26 + j ==> #[trigger] bytes[k] == self.attitude[k - 26].0,
            decreases 26 - j,
        {
            bytes[j] = self.source[j];
            bytes[26 + j] = self.attitude[j].0;
            j += 1;
        }
        proof {
            assert(bytes@ =~= effect_bytes(self.sources(), self.gains()));
        }
        let mut hasher = DefaultHasher::new();
        hasher.write(bytes.as_slice());
        proof {
            assert(hasher@ =~= seq![effect_bytes(self.sources(), self.gains())]);
        }
        hasher.finish()
    }

    /// Every source is a slot of the cell.
    pub open spec fn sources_in_cell(self) -> bool {
        forall|j: int| 0 <= j < 26 ==> #[trigger] self.sources()[j] < 26
    }

    /// Returns whether every source is a slot of the cell, which is what
    /// [`Self::apply`] needs.
    pub fn sources_ok(&self) -> (b: bool)
        ensures
            b == self.sources_in_cell(),
            self.sources().len() == 26,
            self.gains().len() == 26,
            forall|j: int| 0 <= j < 26 ==> (#[trigger] self.gains()[j]).wf(),
    {
        proof {
            use_type_invariant(self);
        }
        let mut j: usize = 0;
        while j < 26
            invariant
                0 <= j <= 26,
                forall|k: int| 0 <= k < j ==> #[trigger] self.sources()[k] < 26,
                forall|k: int| 0 <= k < 26 ==> (#[trigger] self.gains()[k]).wf(),
            decreases 26 - j,
        {
            if self.source[j] >= 26 {
                proof {
                    assert(self.sources()[j as int] >= 26);
                }
                return false;
            }
            j += 1;
        }
        true
    }

    /// The effect of doing nothing.
    pub fn identity() -> (e: Self)
        ensures
            forall|j: int| 0 <= j < 26 ==> #[trigger] e.sources()[j] == j,
            forall|j: int| 0 <= j < 26 ==> #[trigger] e.gains()[j] == spec_ident(),
            e.sources().len() == 26,
            e.gains().len() == 26,
            e.sources_in_cell(),
    {
        let mut source = [0u8; 26];
        let mut j: usize = 0;
        while j < 26
            invariant
                0 <= j <= 26,
                forall|k: int| 0 <= k < j ==> #[trigger] source[k] == k,
            decreases 26 - j,
        {
            source[j] = j as u8;
            j += 1;
        }
        CellEffect { source, attitude: [ElemId::ident(); 26] }
    }

    /// Reads the effect out of the state that results from applying an
    /// algorithm to a solved puzzle, which must have restored F2L.
    pub fn of(state: &PuzzleState) -> (e: Self)
        requires
            f2l_solved(state@, CANONICAL_LAST_CELL),
        ensures
            e.records(state@),
    {
        CellEffect::of_by(state, &Direct)
    }

    /// Reads the effect out of `state`, computing with `ops`.
    pub fn of_by<O: PieceOps>(state: &PuzzleState, ops: &O) -> (e: Self)
        requires
            f2l_solved(state@, CANONICAL_LAST_CELL),
        ensures
            e.records(state@),
    {
        let pieces = cell_pieces();
        let attitudes = state.piece_attitudes();
        let mut source = [0u8; 26];
        let mut attitude = [ElemId::ident(); 26];
        let mut j: usize = 0;
        while j < 26
            invariant
                0 <= j <= 26,
                forall|k: int| 0 <= k < 26 ==> #[trigger] pieces[k] == cell_piece(k),
                forall|k: int| 0 <= k < 26 ==> #[trigger] pieces[k] < 72,
                attitudes@ == state@,
                forall|k: int| 0 <= k < 72 ==> (#[trigger] attitudes@[k]).wf(),
                forall|k: int|
                    0 <= k < j ==> #[trigger] source[k] == cell_slot(
                        spec_mul_index(state@[cell_piece(k)].spec_inverse(), cell_piece(k)),
                    ),
                forall|k: int|
                    0 <= k < j ==> is_canonical_attitude(
                        cell_piece(k),
                        state@[cell_piece(k)],
                        #[trigger] attitude[k],
                    ),
                forall|k: int| 0 <= k < 26 ==> (#[trigger] attitude[k]).wf(),
            decreases 26 - j,
        {
            let i = pieces[j];
            source[j] = ops.last_cell_slot(state.piece_home_by(i, ops));
            attitude[j] = ops.canonical(i, attitudes[i]);
            j += 1;
        }
        CellEffect { source, attitude }
    }

    /// Applies the effect: slot `j` gets the piece from `source[j]`, which
    /// gains `attitude[j]`.
    ///
    /// For the effect recorded from an algorithm, this agrees with replaying
    /// the algorithm once both cells are canonicalized
    /// ([`crate::replay::lemma_effect_matches_replay_canonical`]), and the
    /// identity effect leaves every cell as it is
    /// ([`crate::replay::lemma_identity_effect`]).
    pub fn apply(&self, state: CellState) -> (r: CellState)
        requires
            state.wf(),
            self.sources_in_cell(),
        ensures
            forall|j: int|
                0 <= j < 26 ==> #[trigger] r.0[j] == self.gains()[j].spec_times(
                    state.0[self.sources()[j] as int],
                ),
            r.wf(),
    {
        self.apply_by(state, &Direct)
    }

    /// [`Self::apply`], computing with `ops`.
    pub fn apply_by<O: PieceOps>(&self, state: CellState, ops: &O) -> (r: CellState)
        requires
            state.wf(),
            self.sources_in_cell(),
        ensures
            forall|j: int|
                0 <= j < 26 ==> #[trigger] r.0[j] == self.gains()[j].spec_times(
                    state.0[self.sources()[j] as int],
                ),
            r.wf(),
    {
        proof {
            use_type_invariant(self);
        }
        let mut r = state.0;
        let mut j: usize = 0;
        while j < 26
            invariant
                0 <= j <= 26,
                state.wf(),
                self.sources_in_cell(),
                forall|k: int| 0 <= k < 26 ==> (#[trigger] self.attitude[k]).wf(),
                forall|k: int|
                    0 <= k < j ==> #[trigger] r[k] == self.gains()[k].spec_times(
                        state.0[self.sources()[k] as int],
                    ),
                forall|k: int| 0 <= k < 26 ==> (#[trigger] r[k]).wf(),
            decreases 26 - j,
        {
            proof {
                assert(self.sources()[j as int] < 26);
            }
            r[j] = ops.mul(self.attitude[j], state.0[self.source[j] as usize]);
            j += 1;
        }
        CellState(r)
    }

    /// Returns, for `[ridges, edges, corners]`, whether this effect leaves that
    /// piece type oriented whenever it started out oriented: whether every
    /// attitude it gives that type fixes the last cell's grip.
    /// [`crate::search::lemma_kind_orientation_iff`] proves that this holds
    /// exactly when the type stays oriented on every cell where that type
    /// starts out oriented, for an effect that takes each type from itself,
    /// as every effect read out of a state does
    /// ([`crate::search::lemma_recorded_sources_keep_kind`]).
    pub fn preserves_orientation(&self) -> (r: [bool; 3])
        ensures
            forall|kind: int| 0 <= kind < 3 ==> #[trigger] r[kind] == kind_slots_keep_oriented(*self, kind),
    {
        let ridges = CELL_RIDGES;
        let edges = CELL_EDGES;
        let corners = CELL_CORNERS;
        proof {
            assert(ridges@ == kind_slots(0));
            assert(edges@ == kind_slots(1));
            assert(corners@ == kind_slots(2));
        }
        [
            self.all_oriented(&ridges),
            self.all_oriented(&edges),
            self.all_oriented(&corners),
        ]
    }

    fn all_oriented(&self, slots: &[usize]) -> (b: bool)
        requires
            forall|k: int| 0 <= k < slots@.len() ==> #[trigger] slots@[k] < 26,
        ensures
            b == forall|k: int| 0 <= k < slots@.len() ==> oriented(#[trigger] self.gains()[slots@[k] as int]),
    {
        proof {
            use_type_invariant(self);
        }
        let mut k: usize = 0;
        while k < slots.len()
            invariant
                0 <= k <= slots@.len(),
                forall|i: int| 0 <= i < slots@.len() ==> #[trigger] slots@[i] < 26,
                forall|i: int| 0 <= i < 26 ==> (#[trigger] self.attitude[i]).wf(),
                forall|i: int| 0 <= i < k ==> oriented(#[trigger] self.gains()[slots@[i] as int]),
            decreases slots.len() - k,
        {
            if self.attitude[slots[k]].mul_grip(CANONICAL_LAST_CELL) != CANONICAL_LAST_CELL {
                proof {
                    let i = k as int;
                    assert(!oriented(self.gains()[slots@[i] as int]));
                }
                return false;
            }
            k += 1;
        }
        true
    }

    /// The signature entries of the slots `slots`.
    pub open spec fn kind_signature(self, slots: Seq<usize>) -> Seq<u16> {
        slots.map_values(
            |j: usize| signature_entry(self.sources()[j as int], self.gains()[j as int]),
        )
    }

    /// Everything this effect does to the piece types in `kinds`, in
    /// `[ridges, edges, corners]` order.
    pub open spec fn spec_signature(self, kinds: [bool; 3]) -> Seq<u16> {
        (if kinds[0] {
            self.kind_signature(kind_slots(0))
        } else {
            seq![]
        }) + (if kinds[1] {
            self.kind_signature(kind_slots(1))
        } else {
            seq![]
        }) + (if kinds[2] {
            self.kind_signature(kind_slots(2))
        } else {
            seq![]
        })
    }

    /// Returns everything this effect does to the given piece types, and
    /// nothing about the others.
    ///
    /// Two algorithms with equal signatures are interchangeable for any purpose
    /// that only looks at those types: [`crate::search::lemma_signature_iff`]
    /// proves that equal signatures mean acting alike on those slots of every
    /// cell, and the converse; [`lemma_signature_len`] gives the length.
    pub fn signature(&self, kinds: [bool; 3]) -> (sig: Vec<u16>)
        ensures
            sig@ == self.spec_signature(kinds),
    {
        let ridges = CELL_RIDGES;
        let edges = CELL_EDGES;
        let corners = CELL_CORNERS;
        proof {
            assert(ridges@ == kind_slots(0));
            assert(edges@ == kind_slots(1));
            assert(corners@ == kind_slots(2));
        }
        let mut sig: Vec<u16> = Vec::new();
        if kinds[0] {
            self.push_signature(&ridges, &mut sig);
        }
        let ghost after0 = sig@;
        if kinds[1] {
            self.push_signature(&edges, &mut sig);
        }
        let ghost after1 = sig@;
        if kinds[2] {
            self.push_signature(&corners, &mut sig);
        }
        proof {
            assert(after0 == (if kinds[0] {
                self.kind_signature(kind_slots(0))
            } else {
                seq![]
            }));
            assert(sig@ =~= self.spec_signature(kinds));
        }
        sig
    }

    fn push_signature(&self, slots: &[usize], sig: &mut Vec<u16>)
        requires
            forall|k: int| 0 <= k < slots@.len() ==> #[trigger] slots@[k] < 26,
        ensures
            final(sig)@ == old(sig)@ + self.kind_signature(slots@),
    {
        proof {
            use_type_invariant(self);
        }
        let ghost start = sig@;
        let mut k: usize = 0;
        while k < slots.len()
            invariant
                0 <= k <= slots@.len(),
                forall|i: int| 0 <= i < slots@.len() ==> #[trigger] slots@[i] < 26,
                sig@ == start + self.kind_signature(slots@.take(k as int)),
            decreases slots.len() - k,
        {
            let j = slots[k];
            let entry = ((self.source[j] as u16) << 8u16) | (self.attitude[j].0 as u16);
            sig.push(entry);
            proof {
                assert(self.kind_signature(slots@.take(k + 1)) =~= self.kind_signature(
                    slots@.take(k as int),
                ).push(entry));
            }
            k += 1;
        }
        proof {
            assert(slots@.take(slots@.len() as int) == slots@);
        }
    }

    /// Returns whether this effect leaves every piece of the given types
    /// completely untouched; [`crate::search::lemma_fixes_iff`] proves that
    /// this holds exactly when it leaves those slots of every cell as they
    /// were.
    pub fn fixes(&self, kinds: [bool; 3]) -> (b: bool)
        ensures
            b == forall|kind: int|
                0 <= kind < 3 && #[trigger] kinds[kind] ==> forall|k: int|
                    0 <= k < kind_slots(kind).len() ==> {
                        let j = #[trigger] kind_slots(kind)[k];
                        self.sources()[j as int] == j && self.gains()[j as int] == spec_ident()
                    },
    {
        let ridges = CELL_RIDGES;
        let edges = CELL_EDGES;
        let corners = CELL_CORNERS;
        proof {
            assert(ridges@ == kind_slots(0));
            assert(edges@ == kind_slots(1));
            assert(corners@ == kind_slots(2));
        }
        let r = (!kinds[0] || self.fixes_slots(&ridges)) && (!kinds[1] || self.fixes_slots(&edges))
            && (!kinds[2] || self.fixes_slots(&corners));
        proof {
            if r {
                assert forall|kind: int| 0 <= kind < 3 && #[trigger] kinds[kind] implies forall|k: int|
                    0 <= k < kind_slots(kind).len() ==> {
                        let j = #[trigger] kind_slots(kind)[k];
                        self.sources()[j as int] == j && self.gains()[j as int] == spec_ident()
                    } by {
                    if kind == 0 {
                    } else if kind == 1 {
                    } else {
                    }
                }
            } else {
                if kinds[0] && !self.fixes_slots_spec(ridges@) {
                    assert(kinds[0]);
                } else if kinds[1] && !self.fixes_slots_spec(edges@) {
                    assert(kinds[1]);
                } else {
                    assert(kinds[2]);
                }
            }
        }
        r
    }

    pub open spec fn fixes_slots_spec(self, slots: Seq<usize>) -> bool {
        forall|k: int|
            0 <= k < slots.len() ==> {
                let j = #[trigger] slots[k];
                self.sources()[j as int] == j && self.gains()[j as int] == spec_ident()
            }
    }

    fn fixes_slots(&self, slots: &[usize]) -> (b: bool)
        requires
            forall|k: int| 0 <= k < slots@.len() ==> #[trigger] slots@[k] < 26,
        ensures
            b == self.fixes_slots_spec(slots@),
    {
        let mut k: usize = 0;
        while k < slots.len()
            invariant
                0 <= k <= slots@.len(),
                forall|i: int| 0 <= i < slots@.len() ==> #[trigger] slots@[i] < 26,
                forall|i: int|
                    0 <= i < k ==> {
                        let j = #[trigger] slots@[i];
                        self.sources()[j as int] == j && self.gains()[j as int] == spec_ident()
                    },
            decreases slots.len() - k,
        {
            let j = slots[k];
            proof {
                assert(self.sources()[j as int] == self.source[j as int]);
                assert(self.gains()[j as int] == self.attitude[j as int]);
            }
            if self.source[j] as usize != j || !self.attitude[j].equals(ElemId::ident()) {
                assert(!self.slot_untouched(j as int));
                return false;
            }
            k += 1;
        }
        true
    }
}

/// One step of [`simplify_twists`]: `t` folds into a last twist of the same
/// grip (twists apply on the left, so the later one goes first), and the
/// pair disappears if it cancels.
pub open spec fn simplify_step(ret: Seq<Twist>, t: Twist) -> Seq<Twist> {
    if ret.len() > 0 && ret.last().grip == t.grip {
        let combined = t.transform.spec_times(ret.last().transform);
        if combined == spec_ident() {
            ret.drop_last()
        } else {
            ret.update(ret.len() - 1, Twist { grip: t.grip, transform: combined })
        }
    } else {
        ret.push(t)
    }
}

/// The result of [`simplify_twists`].
pub open spec fn simplified(ts: Seq<Twist>) -> Seq<Twist>
    decreases ts.len(),
{
    if ts.len() == 0 {
        seq![]
    } else {
        simplify_step(simplified(ts.drop_last()), ts.last())
    }
}

/// No two neighbouring twists use the same grip.
pub open spec fn no_repeated_grip(ts: Seq<Twist>) -> bool {
    forall|k: int| 0 < k < ts.len() ==> #[trigger] ts[k - 1].grip != ts[k].grip
}

/// Every twist is well formed.
pub open spec fn all_wf(ts: Seq<Twist>) -> bool {
    forall|k: int| 0 <= k < ts.len() ==> (#[trigger] ts[k]).wf()
}

/// Simplifying never leaves two neighbouring twists of one grip, and keeps
/// twists well formed.
pub proof fn lemma_simplified_no_repeated_grip(ts: Seq<Twist>)
    requires
        all_wf(ts),
    ensures
        no_repeated_grip(simplified(ts)),
        all_wf(simplified(ts)),
    decreases ts.len(),
{
    if ts.len() > 0 {
        let rest = ts.drop_last();
        let t = ts.last();
        assert forall|k: int| 0 <= k < rest.len() implies (#[trigger] rest[k]).wf() by {
            assert(rest[k] == ts[k]);
        }
        lemma_simplified_no_repeated_grip(rest);
        let r = simplified(rest);
        if r.len() > 0 && r.last().grip == t.grip {
            let combined = t.transform.spec_times(r.last().transform);
            crate::algebra::lemma_mul_wf(t.transform, r.last().transform);
            if combined == spec_ident() {
                assert forall|k: int| 0 < k < r.drop_last().len() implies #[trigger] r.drop_last()[k
                    - 1].grip != r.drop_last()[k].grip by {
                    assert(r[k - 1].grip != r[k].grip);
                }
            } else {
                let u = r.update(r.len() - 1, Twist { grip: t.grip, transform: combined });
                assert forall|k: int| 0 < k < u.len() implies #[trigger] u[k - 1].grip
                    != u[k].grip by {
                    assert(r[k - 1].grip != r[k].grip);
                }
            }
        } else {
            let u = r.push(t);
            assert forall|k: int| 0 < k < u.len() implies #[trigger] u[k - 1].grip != u[k].grip by {
                if k < r.len() {
                    assert(r[k - 1].grip != r[k].grip);
                }
            }
        }
    }
}

/// Simplifying twists with no two neighbours of one grip leaves them as
/// they are.
pub proof fn lemma_simplified_idempotent(ts: Seq<Twist>)
    requires
        no_repeated_grip(ts),
    ensures
        simplified(ts) == ts,
    decreases ts.len(),
{
    if ts.len() > 0 {
        let rest = ts.drop_last();
        assert forall|k: int| 0 < k < rest.len() implies #[trigger] rest[k - 1].grip
            != rest[k].grip by {
            assert(ts[k - 1].grip != ts[k].grip);
        }
        lemma_simplified_idempotent(rest);
        if rest.len() > 0 {
            assert(ts[rest.len() - 1].grip != ts[rest.len() as int].grip);
        }
        assert(rest.push(ts.last()) =~= ts);
    }
}

/// Merges runs of twists that use the same grip, dropping any that cancel.
///
/// Concatenating two algorithms routinely leaves two twists of one grip next to
/// each other; the solver's metric already counts those as one move, so folding
/// them together keeps the move count honest.
pub fn simplify_twists(twists: &[Twist]) -> (ret: Vec<Twist>)
    requires
        all_wf(twists@),
    ensures
        ret@ == simplified(twists@),
        no_repeated_grip(ret@),
        all_wf(ret@),
        move_starts(ret@).len() <= move_starts(twists@).len(),
        (forall|k: int| 0 <= k < twists@.len() ==> (#[trigger] twists@[k]).transform != spec_ident()) ==> ret@.len()
            <= twists@.len() && forall|k: int| 0 <= k < ret@.len() ==> (#[trigger] ret@[k]).transform != spec_ident(),
{
    proof {
        lemma_simplified_count(twists@);
        if forall|k: int| 0 <= k < twists@.len() ==> (#[trigger] twists@[k]).transform != spec_ident() {
            lemma_simplified_bounds(twists@);
        }
    }
    let mut ret: Vec<Twist> = Vec::new();
    let mut k: usize = 0;
    while k < twists.len()
        invariant
            0 <= k <= twists@.len(),
            all_wf(twists@),
            ret@ == simplified(twists@.take(k as int)),
            no_repeated_grip(ret@),
            all_wf(ret@),
        decreases twists.len() - k,
    {
        proof {
            assert(twists@.take(k + 1).drop_last() == twists@.take(k as int));
        }
        let twist = twists[k];
        let n = ret.len();
        if n > 0 && ret[n - 1].grip == twist.grip {
            let last = ret[n - 1];
            let combined = twist.transform.mul(last.transform);
            if combined.equals(ElemId::ident()) {
                ret.pop();
                proof {
                    assert(ret@ == simplified(twists@.take(k + 1)));
                }
            } else {
                ret.set(n - 1, Twist { grip: twist.grip, transform: combined });
            }
        } else {
            ret.push(twist);
        }
        k += 1;
    }
    proof {
        assert(twists@.take(twists@.len() as int) == twists@);
    }
    ret
}

/// The inverse of a twist sequence: the inverses of its twists, last first.
pub open spec fn inverted(ts: Seq<Twist>) -> Seq<Twist> {
    Seq::new(ts.len(), |k: int| ts[ts.len() - 1 - k].spec_inv())
}

/// Inverting a sequence of twists twice gives it back.
pub proof fn lemma_inverted_involution(ts: Seq<Twist>)
    requires
        all_wf(ts),
    ensures
        all_wf(inverted(ts)),
        inverted(inverted(ts)) == ts,
{
    assert forall|k: int| 0 <= k < ts.len() implies #[trigger] inverted(inverted(ts))[k] == ts[k] by {
        crate::algebra::lemma_mul_inv(ts[k].transform);
    }
    assert forall|k: int| 0 <= k < ts.len() implies (#[trigger] inverted(ts)[k]).wf() by {
        crate::algebra::lemma_mul_inv(ts[ts.len() - 1 - k].transform);
    }
    assert(inverted(inverted(ts)) =~= ts);
}

/// Returns the inverse of a twist sequence.
pub fn invert_twists(twists: &[Twist]) -> (ret: Vec<Twist>)
    requires
        all_wf(twists@),
    ensures
        ret@ == inverted(twists@),
        all_wf(ret@),
{
    let n = twists.len();
    let mut ret: Vec<Twist> = Vec::new();
    let mut k: usize = 0;
    while k < n
        invariant
            0 <= k <= n,
            n == twists@.len(),
            all_wf(twists@),
            ret@ == inverted(twists@).take(k as int),
            all_wf(ret@),
        decreases n - k,
    {
        ret.push(twists[n - 1 - k].inv());
        proof {
            assert(inverted(twists@).take(k + 1) == inverted(twists@).take(k as int).push(
                twists@[n - 1 - k].spec_inv(),
            ));
        }
        k += 1;
    }
    proof {
        assert(inverted(twists@).take(n as int) == inverted(twists@));
    }
    ret
}

/// Positions where a new move starts: the first twist, and every twist
/// whose grip differs from the one before.
pub open spec fn move_starts(ts: Seq<Twist>) -> Seq<int> {
    Seq::new(ts.len(), |k: int| k).filter(|k: int| k == 0 || ts[k - 1].grip != ts[k].grip)
}

/// Counts a twist sequence in ETM: twists of the same grip in a row count
/// once.
pub fn twist_count(twists: &[Twist]) -> (n: usize)
    ensures
        n == move_starts(twists@).len(),
{
    let ghost idx = Seq::new(twists@.len(), |k: int| k);
    let ghost starts = |k: int| k == 0 || twists@[k - 1].grip != twists@[k].grip;
    let mut n: usize = 0;
    let mut k: usize = 0;
    while k < twists.len()
        invariant
            0 <= k <= twists@.len(),
            idx == Seq::new(twists@.len(), |j: int| j),
            starts == (|j: int| j == 0 || twists@[j - 1].grip != twists@[j].grip),
            n == idx.take(k as int).filter(starts).len(),
            n <= k,
        decreases twists.len() - k,
    {
        proof {
            reveal_with_fuel(Seq::filter, 1);
            assert(idx.take(k + 1).drop_last() == idx.take(k as int));
        }
        if k == 0 || twists[k - 1].grip != twists[k].grip {
            n += 1;
        }
        k += 1;
    }
    proof {
        assert(idx.take(twists@.len() as int) == idx);
    }
    n
}

/// A rotation, for each grip, that carries it to the canonical last cell.
spec fn rotation_to_canonical(g: u8) -> u8 {
    if g == 0 {
        145
    } else if g == 1 {
        144
    } else if g == 2 {
        34
    } else if g == 3 {
        32
    } else if g == 4 {
        12
    } else if g == 5 {
        8
    } else if g == 6 {
        1
    } else {
        0
    }
}

/// Every grip can be rotated onto the canonical last cell.
proof fn lemma_rotation_to_canonical(g: GripId)
    ensures
        ElemId(rotation_to_canonical(g.spec_id())).wf(),
        ElemId(rotation_to_canonical(g.spec_id())).spec_times_grip(g) == I,
{
    reveal(crate::elements::unrank);
    reveal(crate::elements::parity);
    let id = g.spec_id();
    g.lemma_id_roundtrip();
    assert(spec_mul_grip(rotation_to_canonical(id), id) == 7) by (bit_vector)
        requires
            id < 8,
    ;
}

/// Every attitude that `effect` gives the slots of piece type `kind` keeps
/// the last cell's grip in place.
pub open spec fn kind_slots_keep_oriented(effect: CellEffect, kind: int) -> bool {
    forall|k: int|
        0 <= k < kind_slots(kind).len() ==> oriented(
            #[trigger] effect.gains()[kind_slots(kind)[k] as int],
        )
}

/// The least grip ID whose F2L is intact in `a`.
pub open spec fn first_f2l_grip(a: Seq<ElemId>) -> GripId {
    grip_of(
        choose|k: int|
            0 <= k < 8 && f2l_solved(a, grip_of(k)) && forall|j: int|
                0 <= j < k ==> !f2l_solved(a, grip_of(j)),
    )
}

/// Returns a rotation that puts `state` into the frame of the canonical last
/// cell, or `None` if F2L is not intact in any frame.
///
/// If F2L is intact for some grip, this is the least rotation carrying the
/// least such grip to the canonical last cell; otherwise the least rotation
/// after which F2L is intact for the canonical last cell.
pub fn find_canonical_frame(state: &PuzzleState) -> (r: Option<ElemId>)
    ensures
        (exists|g: GripId| f2l_solved(state@, g)) ==> (r matches Some(e) && e.wf()
            && e.spec_times_grip(first_f2l_grip(state@)) == I && forall|j: u8|
            j < e.0 ==> ElemId(j).spec_times_grip(first_f2l_grip(state@)) != I),
        !(exists|g: GripId| f2l_solved(state@, g)) ==> match r {
            Some(e) => e.wf() && f2l_solved(reoriented(state@, e), I) && forall|j: u8|
                j < e.0 ==> !f2l_solved(reoriented(state@, ElemId(j)), I),
            None => forall|j: u8| j < 192 ==> !f2l_solved(reoriented(state@, ElemId(j)), I),
        },
        r matches Some(e) ==> e.wf() && f2l_solved(reoriented(state@, e), I),
{
    let grips = HYPERCUBE_GRIPS;
    let attitudes = state.piece_attitudes();
    let mut k: usize = 0;
    while k < 8
        invariant
            0 <= k <= 8,
            grips@ == crate::grips::hypercube_grips(),
            attitudes_wf(state@),
            forall|j: int| 0 <= j < k ==> !f2l_solved(state@, grip_of(j)),
        decreases 8 - k,
    {
        let g = grips[k];
        assert(g == grip_of(k as int));
        if state.is_f2l_solved(g) {
            proof {
                assert(first_f2l_grip(state@) == g) by {
                    let c = choose|c: int|
                        0 <= c < 8 && f2l_solved(state@, grip_of(c)) && forall|j: int|
                            0 <= j < c ==> !f2l_solved(state@, grip_of(j));
                    assert(0 <= k < 8 && f2l_solved(state@, grip_of(k as int)));
                    if c < k {
                    } else if c > k {
                    }
                }
                lemma_rotation_to_canonical(g);
            }
            let mut id: u8 = 0;
            while id < 192
                invariant
                    0 <= id <= 192,
                    g == first_f2l_grip(state@),
                    f2l_solved(state@, g),
                    attitudes_wf(state@),
                    ElemId(rotation_to_canonical(g.spec_id())).spec_times_grip(g) == I,
                    rotation_to_canonical(g.spec_id()) < 192,
                    forall|j: u8| j < id ==> ElemId(j).spec_times_grip(g) != I,
                decreases 192 - id,
            {
                let e = ElemId::new(id);
                if e.mul_grip(g) == I {
                    proof {
                        crate::symmetry::lemma_reorient_f2l(state@, e, g);
                    }
                    return Some(e);
                }
                id += 1;
            }
            proof {
                assert(ElemId(rotation_to_canonical(g.spec_id())).spec_times_grip(g) != I);
            }
            return None;
        }
        k += 1;
    }
    proof {
        assert forall|g: GripId| !f2l_solved(state@, g) by {
            g.lemma_id_roundtrip();
            assert(!f2l_solved(state@, grip_of(g.spec_id() as int)));
        }
    }
    let rotations = hypercube_rotations();
    let mut i: usize = 0;
    while i < 192
        invariant
            0 <= i <= 192,
            rotations@ == crate::group::all_elems(),
            forall|g: GripId| !f2l_solved(state@, g),
            forall|j: u8| j < i ==> !f2l_solved(reoriented(state@, ElemId(j)), I),
        decreases 192 - i,
    {
        let e = rotations[i];
        if state.reorient(e).is_f2l_solved(I) {
            return Some(e);
        }
        i += 1;
    }
    None
}


/// Attitudes that look alike at a piece of the last cell agree on whether
/// it is oriented and whether it is solved.
pub proof fn lemma_look_alike_same_status(j: int, a: ElemId, b: ElemId)
    requires
        0 <= j < 26,
        a.wf(),
        b.wf(),
        crate::puzzle_state::looks_same(cell_piece(j), a, b),
    ensures
        oriented(a) == oriented(b),
        slot_solved(a, j) == slot_solved(b, j),
{
    reveal(crate::puzzle_state::looks_same);
    let c = cell_piece(j);
    crate::locations::lemma_cell_raw(I, j);
    assert(crate::locations::in_cell(I, c));
    crate::locations::lemma_in_cell_touches(I, c);
    crate::algebra::lemma_grip_inverse(a, I);
    crate::algebra::lemma_grip_inverse(b, I);
    assert forall|g: GripId| #![trigger piece_touches(c, g)] piece_touches(c, g) implies (a.spec_times_grip(g) == g
        <==> b.spec_times_grip(g) == g) by {
        crate::algebra::lemma_grip_inverse(a, g);
        crate::algebra::lemma_grip_inverse(b, g);
    }
}

/// Filtering by two tests that agree on every element gives one result.
pub(crate) proof fn lemma_filter_agrees<A>(s: Seq<A>, p: spec_fn(A) -> bool, q: spec_fn(A) -> bool)
    requires
        forall|i: int| 0 <= i < s.len() ==> p(#[trigger] s[i]) == q(s[i]),
    ensures
        s.filter(p) == s.filter(q),
    decreases s.len(),
{
    reveal_with_fuel(Seq::filter, 1);
    if s.len() > 0 {
        let r = s.drop_last();
        assert forall|i: int| 0 <= i < r.len() implies p(#[trigger] r[i]) == q(r[i]) by {
            assert(r[i] == s[i]);
        }
        lemma_filter_agrees(r, p, q);
        assert(p(s[s.len() - 1]) == q(s[s.len() - 1]));
    }
}

/// Canonicalizing a cell twice gives what canonicalizing it once gives, and
/// canonicalizing keeps which pieces are oriented and which are solved, so
/// it keeps the misoriented and unsolved counts too. Here `d` is `c`
/// canonicalized and `e` is `d` canonicalized.
pub proof fn lemma_canonicalize_laws(c: CellState, d: CellState, e: CellState)
    requires
        c.wf(),
        forall|j: int| 0 <= j < 26 ==> is_canonical_attitude(cell_piece(j), c.0[j], #[trigger] d.0[j]),
        forall|j: int| 0 <= j < 26 ==> is_canonical_attitude(cell_piece(j), d.0[j], #[trigger] e.0[j]),
    ensures
        e == d,
        forall|j: int|
            0 <= j < 26 ==> oriented(#[trigger] d.0[j]) == oriented(c.0[j]) && slot_solved(d.0[j], j)
                == slot_solved(c.0[j], j),
        forall|kind: int|
            #![trigger kind_slots(kind)]
            0 <= kind < 3 ==> kind_slots(kind).filter(|j: usize| !oriented(d.0[j as int])).len()
                == kind_slots(kind).filter(|j: usize| !oriented(c.0[j as int])).len(),
        forall|kind: int|
            #![trigger kind_slots(kind)]
            0 <= kind < 3 ==> kind_slots(kind).filter(|j: usize| !slot_solved(d.0[j as int], j as int)).len()
                == kind_slots(kind).filter(|j: usize| !slot_solved(c.0[j as int], j as int)).len(),
{
    reveal(crate::puzzle_state::looks_same);
    assert forall|j: int| 0 <= j < 26 implies #[trigger] e.0[j] == d.0[j] by {
        let i = cell_piece(j);
        assert(is_canonical_attitude(i, c.0[j], d.0[j]));
        assert(is_canonical_attitude(i, d.0[j], e.0[j]));
        assert forall|id: u8| id < e.0[j].0 implies !crate::puzzle_state::looks_same(i, ElemId(id), c.0[j]) by {
            assert(!crate::puzzle_state::looks_same(i, ElemId(id), d.0[j]));
        }
        assert(is_canonical_attitude(i, c.0[j], e.0[j]));
        lemma_canonical_unique(i, c.0[j], d.0[j], e.0[j]);
    }
    assert(e.0 =~= d.0);
    assert forall|j: int|
        0 <= j < 26 implies oriented(#[trigger] d.0[j]) == oriented(c.0[j]) && slot_solved(d.0[j], j)
            == slot_solved(c.0[j], j) by {
        assert(is_canonical_attitude(cell_piece(j), c.0[j], d.0[j]));
        lemma_look_alike_same_status(j, d.0[j], c.0[j]);
    }
    assert forall|kind: int| #![trigger kind_slots(kind)] 0 <= kind < 3 implies kind_slots(kind).filter(|j: usize| !oriented(d.0[j as int])).len()
        == kind_slots(kind).filter(|j: usize| !oriented(c.0[j as int])).len() && kind_slots(kind).filter(
        |j: usize| !slot_solved(d.0[j as int], j as int),
    ).len() == kind_slots(kind).filter(|j: usize| !slot_solved(c.0[j as int], j as int)).len() by {
        let ks = kind_slots(kind);
        assert forall|i: int| 0 <= i < ks.len() implies ks[i] < 26 by {}
        lemma_filter_agrees(ks, |j: usize| !oriented(d.0[j as int]), |j: usize| !oriented(c.0[j as int]));
        lemma_filter_agrees(
            ks,
            |j: usize| !slot_solved(d.0[j as int], j as int),
            |j: usize| !slot_solved(c.0[j as int], j as int),
        );
    }
}

/// Simplifying twists none of which does nothing leaves no such twist, and
/// never lengthens the sequence.
pub proof fn lemma_simplified_bounds(ts: Seq<Twist>)
    requires
        forall|k: int| 0 <= k < ts.len() ==> (#[trigger] ts[k]).transform != spec_ident(),
    ensures
        simplified(ts).len() <= ts.len(),
        forall|k: int| 0 <= k < simplified(ts).len() ==> (#[trigger] simplified(ts)[k]).transform != spec_ident(),
    decreases ts.len(),
{
    if ts.len() > 0 {
        let r = ts.drop_last();
        assert forall|k: int| 0 <= k < r.len() implies (#[trigger] r[k]).transform != spec_ident() by {
            assert(r[k] == ts[k]);
        }
        lemma_simplified_bounds(r);
        let p = simplified(r);
        let t = ts.last();
        assert(t == ts[ts.len() - 1]);
        let q = simplified(ts);
        assert(q == simplify_step(p, t));
        assert forall|k: int| 0 <= k < q.len() implies (#[trigger] q[k]).transform != spec_ident() by {
            if p.len() > 0 && p.last().grip == t.grip {
                let combined = t.transform.spec_times(p.last().transform);
                if combined != spec_ident() {
                    if k < p.len() - 1 {
                        assert(q[k] == p[k]);
                    }
                } else {
                    assert(q[k] == p[k]);
                }
            } else {
                if k < p.len() {
                    assert(q[k] == p[k]);
                }
            }
        }
    }
}

/// A signature holds six entries per ridge kind, twelve for edges and
/// eight for corners, for the kinds asked for.
pub proof fn lemma_signature_len(e: CellEffect, kinds: [bool; 3])
    ensures
        e.spec_signature(kinds).len() == (if kinds[0] { 6int } else { 0int }) + (if kinds[1] { 12int } else { 0int }) + (
        if kinds[2] { 8int } else { 0int }),
{
}


/// A signature entry gives back the slot and the attitude it was made of.
proof fn lemma_entry_injective(s1: u8, a1: u8, s2: u8, a2: u8)
    by (bit_vector)
    requires
        ((s1 as u16) << 8u16) | (a1 as u16) == ((s2 as u16) << 8u16) | (a2 as u16),
    ensures
        s1 == s2,
        a1 == a2,
{
}

/// Two effects with equal signatures on some piece types take every slot
/// of those types from the same slot with the same gain, so they act alike
/// on those slots of every cell.
pub proof fn lemma_signature_means_action(e1: CellEffect, e2: CellEffect, kinds: [bool; 3])
    requires
        e1.spec_signature(kinds) == e2.spec_signature(kinds),
    ensures
        forall|kind: int, k: int|
            0 <= kind < 3 && kinds[kind] && 0 <= k < kind_slots(kind).len() ==> {
                let j = #[trigger] kind_slots(kind)[k] as int;
                e1.sources()[j] == e2.sources()[j] && e1.gains()[j] == e2.gains()[j]
            },
{
    let a1 = if kinds[0] { e1.kind_signature(kind_slots(0)) } else { seq![] };
    let b1 = if kinds[1] { e1.kind_signature(kind_slots(1)) } else { seq![] };
    let c1 = if kinds[2] { e1.kind_signature(kind_slots(2)) } else { seq![] };
    let a2 = if kinds[0] { e2.kind_signature(kind_slots(0)) } else { seq![] };
    let b2 = if kinds[1] { e2.kind_signature(kind_slots(1)) } else { seq![] };
    let c2 = if kinds[2] { e2.kind_signature(kind_slots(2)) } else { seq![] };
    let whole = e1.spec_signature(kinds);
    assert(whole == a1 + b1 + c1);
    assert(whole == a2 + b2 + c2);
    assert(a1.len() == a2.len() && b1.len() == b2.len() && c1.len() == c2.len());
    assert(a1 =~= whole.subrange(0, a1.len() as int));
    assert(a2 =~= whole.subrange(0, a1.len() as int));
    assert(b1 =~= whole.subrange(a1.len() as int, (a1.len() + b1.len()) as int));
    assert(b2 =~= whole.subrange(a1.len() as int, (a1.len() + b1.len()) as int));
    assert(c1 =~= whole.subrange((a1.len() + b1.len()) as int, whole.len() as int));
    assert(c2 =~= whole.subrange((a1.len() + b1.len()) as int, whole.len() as int));
    assert forall|kind: int, k: int|
        0 <= kind < 3 && kinds[kind] && 0 <= k < kind_slots(kind).len() implies {
            let j = #[trigger] kind_slots(kind)[k] as int;
            e1.sources()[j] == e2.sources()[j] && e1.gains()[j] == e2.gains()[j]
        } by {
        let j = kind_slots(kind)[k] as int;
        let x1 = e1.kind_signature(kind_slots(kind));
        let x2 = e2.kind_signature(kind_slots(kind));
        if kind == 0 {
            assert(x1 == a1 && x2 == a2);
        } else if kind == 1 {
            assert(x1 == b1 && x2 == b2);
        } else {
            assert(x1 == c1 && x2 == c2);
        }
        assert(x1[k] == signature_entry(e1.sources()[j], e1.gains()[j]));
        assert(x2[k] == signature_entry(e2.sources()[j], e2.gains()[j]));
        lemma_entry_injective(e1.sources()[j], e1.gains()[j].0, e2.sources()[j], e2.gains()[j].0);
    }
}


/// How many runs of one grip `ts` has: its length in ETM.
pub open spec fn runs(ts: Seq<Twist>) -> int
    decreases ts.len(),
{
    if ts.len() == 0 {
        0
    } else {
        runs(ts.drop_last()) + (if ts.len() == 1 || ts[ts.len() - 2].grip != ts.last().grip {
            1int
        } else {
            0int
        })
    }
}

/// Counting move starts is counting runs.
proof fn lemma_move_starts_runs(ts: Seq<Twist>)
    ensures
        move_starts(ts).len() == runs(ts),
    decreases ts.len(),
{
    reveal_with_fuel(Seq::filter, 1);
    if ts.len() > 0 {
        let n = ts.len() - 1;
        let r = ts.drop_last();
        lemma_move_starts_runs(r);
        let pt = |k: int| k == 0 || ts[k - 1].grip != ts[k].grip;
        let pr = |k: int| k == 0 || r[k - 1].grip != r[k].grip;
        let whole = Seq::new(ts.len(), |k: int| k);
        let front = Seq::new(r.len(), |k: int| k);
        assert(whole.drop_last() =~= front);
        assert forall|i: int| 0 <= i < front.len() implies pt(#[trigger] front[i]) == pr(front[i]) by {
            if i > 0 {
                assert(r[i - 1] == ts[i - 1]);
                assert(r[i] == ts[i]);
            }
        }
        lemma_filter_agrees(front, pt, pr);
        assert(whole.last() == n);
        if n > 0 {
            assert(ts[n - 1] == ts[ts.len() - 2]);
        }
    }
}

/// Dropping the last twist removes at most one run.
proof fn lemma_runs_drop_last(ts: Seq<Twist>)
    requires
        ts.len() > 0,
    ensures
        runs(ts.drop_last()) <= runs(ts) <= runs(ts.drop_last()) + 1,
{
}

/// A sequence with no two neighbouring twists of one grip has one run per
/// twist.
proof fn lemma_runs_no_repeats(ts: Seq<Twist>)
    requires
        no_repeated_grip(ts),
    ensures
        runs(ts) == ts.len(),
    decreases ts.len(),
{
    if ts.len() > 0 {
        let r = ts.drop_last();
        assert forall|k: int| 0 < k < r.len() implies #[trigger] r[k - 1].grip != r[k].grip by {
            assert(r[k - 1] == ts[k - 1]);
            assert(r[k] == ts[k]);
        }
        lemma_runs_no_repeats(r);
        if ts.len() > 1 {
            assert(ts[ts.len() - 2].grip != ts[ts.len() - 1].grip);
        }
    }
}

/// The simplified sequence has at most as many twists as the input has
/// runs, one fewer when its last run cancelled out.
proof fn lemma_simplified_runs(ts: Seq<Twist>)
    requires
        all_wf(ts),
    ensures
        simplified(ts).len() + (if ts.len() > 0 && (simplified(ts).len() == 0 || simplified(ts).last().grip
            != ts.last().grip) {
            1int
        } else {
            0int
        }) <= runs(ts),
    decreases ts.len(),
{
    if ts.len() > 0 {
        let p = ts.drop_last();
        let t = ts.last();
        assert(all_wf(p)) by {
            assert forall|k: int| 0 <= k < p.len() implies (#[trigger] p[k]).wf() by {
                assert(p[k] == ts[k]);
            }
        }
        lemma_simplified_runs(p);
        lemma_simplified_no_repeated_grip(p);
        let q = simplified(p);
        let big_q = simplified(ts);
        assert(big_q == simplify_step(q, t));
        if p.len() > 0 {
            assert(p.last() == ts[ts.len() - 2]);
        }
    }
}

/// Simplifying never raises the move count in ETM.
pub proof fn lemma_simplified_count(ts: Seq<Twist>)
    requires
        all_wf(ts),
    ensures
        move_starts(simplified(ts)).len() <= move_starts(ts).len(),
{
    lemma_simplified_runs(ts);
    lemma_simplified_no_repeated_grip(ts);
    lemma_runs_no_repeats(simplified(ts));
    lemma_move_starts_runs(ts);
    lemma_move_starts_runs(simplified(ts));
}

} // verus!
