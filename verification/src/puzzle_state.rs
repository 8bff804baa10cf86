//! The state of the 3x3x3x3, as the attitude of each of its 72 pieces.
use vstd::prelude::*;

use crate::elements::{spec_ident, ElemId};
use crate::grips::GripId;
use crate::locations::{
    cell_contains, cell_index, in_cell, indices_for_grip, lemma_cell_raw, lemma_mul_index, mul_elem_index,
    piece_has_grip, piece_touches, spec_mul_index,
};
use crate::tables::{Direct, PieceOps};
use crate::twist::Twist;

verus! {

/// Slots within a cell (indices into [`indices_for_grip`]) of its 6 ridges
/// (2c pieces).
pub const CELL_RIDGES: [usize; 6] = [4, 10, 12, 13, 15, 21];
/// Slots within a cell of its 12 edges (3c pieces).
pub const CELL_EDGES: [usize; 12] = [1, 3, 5, 7, 9, 11, 14, 16, 18, 20, 22, 24];
/// Slots within a cell of its 8 corners (4c pieces).
pub const CELL_CORNERS: [usize; 8] = [0, 2, 6, 8, 17, 19, 23, 25];

/// The slots of the ridges, edges and corners of a cell.
pub open spec fn kind_slots(kind: int) -> Seq<usize> {
    if kind == 0 {
        seq![4usize, 10, 12, 13, 15, 21]
    } else if kind == 1 {
        seq![1usize, 3, 5, 7, 9, 11, 14, 16, 18, 20, 22, 24]
    } else {
        seq![0usize, 2, 6, 8, 17, 19, 23, 25]
    }
}

/// Attitudes `a` and `b` look the same for a piece at location `i`: a piece
/// at `i` shows, on each grip `g` it touches, the sticker that started out
/// on `attitude.inv() * g`.
#[verifier::opaque]
pub open spec fn looks_same(i: int, a: ElemId, b: ElemId) -> bool {
    forall|g: GripId|
        #![trigger piece_touches(i, g)]
        piece_touches(i, g) ==> a.spec_inverse().spec_times_grip(g) == b.spec_inverse().spec_times_grip(
            g,
        )
}

/// The least attitude that looks the same as `attitude` at location `i`.
pub open spec fn is_canonical_attitude(i: int, attitude: ElemId, c: ElemId) -> bool {
    &&& c.wf()
    &&& looks_same(i, c, attitude)
    &&& forall|id: u8| id < c.0 ==> !looks_same(i, ElemId(id), attitude)
}

fn exec_looks_same(i: usize, a: ElemId, b: ElemId) -> (r: bool)
    requires
        i < 72,
        a.wf(),
        b.wf(),
    ensures
        r == looks_same(i as int, a, b),
{
    let ai = a.inv();
    let bi = b.inv();
    let mut k: u8 = 0;
    while k < 8
        invariant
            0 <= k <= 8,
            i < 72,
            ai == a.spec_inverse(),
            bi == b.spec_inverse(),
            ai.wf(),
            bi.wf(),
            forall|g: GripId| #![trigger piece_touches(i as int, g)]
                g.spec_id() < k && piece_touches(i as int, g) ==> ai.spec_times_grip(g)
                    == bi.spec_times_grip(g),
        decreases 8 - k,
    {
        let g = GripId::new(k);
        if piece_has_grip(i, g) && ai.mul_grip(g) != bi.mul_grip(g) {
            proof {
                reveal(looks_same);
            }
            return false;
        }
        k += 1;
    }
    proof {
        reveal(looks_same);
        assert forall|g: GripId| #![trigger piece_touches(i as int, g)]
            piece_touches(i as int, g) implies ai.spec_times_grip(g) == bi.spec_times_grip(g) by {
            assert(g.spec_id() < 8);
        }
    }
    true
}

/// Returns the least attitude that is indistinguishable from `attitude` for
/// a piece at location `i`.
///
/// Only ridges are ever changed; every other piece shows enough stickers to
/// pin its attitude down exactly.
pub fn canonical_attitude(i: usize, attitude: ElemId) -> (c: ElemId)
    requires
        i < 72,
        attitude.wf(),
    ensures
        is_canonical_attitude(i as int, attitude, c),
{
    let mut id: u8 = 0;
    while id < attitude.0
        invariant
            0 <= id <= attitude.0,
            i < 72,
            attitude.wf(),
            forall|x: u8| x < id ==> !looks_same(i as int, ElemId(x), attitude),
        decreases attitude.0 - id,
    {
        if exec_looks_same(i, ElemId(id), attitude) {
            return ElemId(id);
        }
        id += 1;
    }
    proof {
        reveal(looks_same);
    }
    attitude
}

/// For each piece location, maps each attitude to the least attitude that
/// looks identical to it (see [`canonical_attitude`]).
pub fn indistinguishable_attitude_classes() -> (table: Vec<[u8; 192]>)
    ensures
        table@.len() == 72,
        forall|i: int, id: int|
            0 <= i < 72 && 0 <= id < 192 ==> is_canonical_attitude(
                i,
                ElemId(id as u8),
                ElemId(#[trigger] table@[i][id]),
            ),
{
    let mut table: Vec<[u8; 192]> = Vec::new();
    let mut i: usize = 0;
    while i < 72
        invariant
            0 <= i <= 72,
            table@.len() == i,
            forall|p: int, id: int|
                0 <= p < i && 0 <= id < 192 ==> is_canonical_attitude(
                    p,
                    ElemId(id as u8),
                    ElemId(#[trigger] table@[p][id]),
                ),
        decreases 72 - i,
    {
        let mut row = [0u8; 192];
        let mut id: u8 = 0;
        while id < 192
            invariant
                0 <= id <= 192,
                i < 72,
                forall|x: int|
                    0 <= x < id ==> is_canonical_attitude(
                        i as int,
                        ElemId(x as u8),
                        ElemId(#[trigger] row[x]),
                    ),
            decreases 192 - id,
        {
            row[id as usize] = canonical_attitude(i, ElemId(id)).0;
            id += 1;
        }
        table.push(row);
        i += 1;
    }
    table
}

/// Where the `o`th piece of the cell that `t` turns ends up.
pub open spec fn twist_target(t: Twist, o: int) -> int {
    spec_mul_index(t.transform, cell_index(t.grip, o))
}

/// Whether `t` puts some piece of its cell at location `k`.
pub open spec fn moved_to(t: Twist, k: int) -> bool {
    exists|o: int| 0 <= o < 26 && twist_target(t, o) == k
}

/// Attitudes after twisting `t`: the `o`th piece of the cell moves to
/// `twist_target(t, o)` and gains `t.transform`; every other piece stays.
pub open spec fn twisted(a: Seq<ElemId>, t: Twist) -> Seq<ElemId> {
    Seq::new(
        72,
        |k: int|
            if moved_to(t, k) {
                let o = choose|o: int| 0 <= o < 26 && twist_target(t, o) == k;
                t.transform.spec_times(a[cell_index(t.grip, o)])
            } else {
                a[k]
            },
    )
}

/// Attitudes after twisting each of `ts` in order.
pub open spec fn twists_applied(a: Seq<ElemId>, ts: Seq<Twist>) -> Seq<ElemId>
    decreases ts.len(),
{
    if ts.len() == 0 {
        a
    } else {
        twisted(twists_applied(a, ts.drop_last()), ts.last())
    }
}

/// Whether rotation `e` puts some piece at location `k`.
pub open spec fn reached_by(e: ElemId, k: int) -> bool {
    exists|i: int| 0 <= i < 72 && spec_mul_index(e, i) == k
}

/// Attitudes after rotating the whole puzzle by `e`: the piece at `i` moves
/// to `spec_mul_index(e, i)` and its attitude is conjugated by `e`.
pub open spec fn reoriented(a: Seq<ElemId>, e: ElemId) -> Seq<ElemId> {
    Seq::new(
        72,
        |k: int|
            if reached_by(e, k) {
                let i = choose|i: int| 0 <= i < 72 && spec_mul_index(e, i) == k;
                e.spec_times(a[i]).spec_times(e.spec_inverse())
            } else {
                a[k]
            },
    )
}

/// A piece at location `i` with attitude `x` shows, on every grip it
/// touches, the sticker that belongs there.
pub open spec fn shows_home(i: int, x: ElemId) -> bool {
    forall|g: GripId| #![trigger piece_touches(i, g)]
        piece_touches(i, g) ==> x.spec_times_grip(g) == g
}

/// The piece at `i` shows every sticker on the grip it belongs to.
pub open spec fn piece_solved(a: Seq<ElemId>, i: int) -> bool {
    shows_home(i, a[i])
}

/// Returns whether a piece at location `i` with attitude `a` shows its home
/// stickers.
pub fn shows_home_exec(i: usize, a: ElemId) -> (b: bool)
    requires
        i < 72,
        a.wf(),
    ensures
        b == shows_home(i as int, a),
{
    let mut k: u8 = 0;
    while k < 8
        invariant
            0 <= k <= 8,
            i < 72,
            a.wf(),
            forall|g: GripId| #![trigger piece_touches(i as int, g)]
                g.spec_id() < k && piece_touches(i as int, g) ==> a.spec_times_grip(g) == g,
        decreases 8 - k,
    {
        let g = GripId::new(k);
        if piece_has_grip(i, g) && a.mul_grip(g) != g {
            return false;
        }
        k += 1;
    }
    proof {
        assert forall|g: GripId| #![trigger piece_touches(i as int, g)]
            piece_touches(i as int, g) implies a.spec_times_grip(g) == g by {
            assert(g.spec_id() < 8);
        }
    }
    true
}

/// Every piece is solved.
pub open spec fn all_solved(a: Seq<ElemId>) -> bool {
    forall|i: int| 0 <= i < 72 ==> #[trigger] piece_solved(a, i)
}

/// Every piece outside the cell of `last_cell` is solved.
pub open spec fn f2l_solved(a: Seq<ElemId>, last_cell: GripId) -> bool {
    forall|i: int| 0 <= i < 72 ==> in_cell(last_cell, i) || #[trigger] piece_solved(a, i)
}

/// The piece at `i` belongs in the cell of `grip`.
pub open spec fn belongs_to_cell(a: Seq<ElemId>, i: int, grip: GripId) -> bool {
    piece_touches(i, a[i].spec_times_grip(grip))
}

/// The piece in slot `slot` of the cell of `g` does not face the cell's own
/// direction outward.
pub open spec fn unoriented_in(a: Seq<ElemId>, g: GripId, slot: usize) -> bool {
    a[cell_index(g, slot as int)].spec_times_vec(g.spec_vec()) != g.spec_vec()
}

/// The locations of pieces outside the cell of `g` that are unsolved.
pub open spec fn unsolved_outside(a: Seq<ElemId>, g: GripId) -> Seq<int> {
    Seq::new(72, |i: int| i).filter(|i: int| !in_cell(g, i) && !piece_solved(a, i))
}

/// `key` is the F2L key of attitudes `a` for the cell of `last_cell`: 255
/// where the piece belongs to that cell, and otherwise the least attitude
/// that looks like the piece's.
pub open spec fn is_f2l_key(a: Seq<ElemId>, last_cell: GripId, key: Seq<u8>) -> bool {
    &&& key.len() == 72
    &&& forall|i: int|
        0 <= i < 72 ==> (if belongs_to_cell(a, i, last_cell) {
            #[trigger] key[i] == 255
        } else {
            is_canonical_attitude(i, a[i], ElemId(key[i]))
        })
}

/// The attitudes are those of 72 pieces.
pub open spec fn attitudes_wf(a: Seq<ElemId>) -> bool {
    a.len() == 72 && forall|k: int| 0 <= k < 72 ==> (#[trigger] a[k]).wf()
}

/// The state of the puzzle.
#[derive(Debug, Copy, Clone, PartialEq, Eq, Hash, PartialOrd, Ord)]
pub struct PuzzleState {
    /// Piece attitudes, excluding 1 core and 8 centers.
    ///
    /// Index corresponds to *current* piece location, not the piece's home
    /// location. Pieces are permuted during twists.
    piece_attitudes: [ElemId; 72],
}

impl View for PuzzleState {
    type V = Seq<ElemId>;

    closed spec fn view(&self) -> Seq<ElemId> {
        self.piece_attitudes@
    }
}

impl PuzzleState {
    #[verifier::type_invariant]
    spec fn attitudes_are_elements(self) -> bool {
        forall|k: int| 0 <= k < 72 ==> (#[trigger] self.piece_attitudes[k]).wf()
    }

    /// The solved state: every piece at home with the identity attitude.
    pub fn solved() -> (s: Self)
        ensures
            s@ == Seq::new(72, |k: int| spec_ident()),
            attitudes_wf(s@),
    {
        let s = PuzzleState { piece_attitudes: [ElemId::ident(); 72] };
        proof {
            assert(s@ =~= Seq::new(72, |k: int| spec_ident()));
        }
        s
    }


    /// Applies `twist`: each piece of the twisted cell moves where the
    /// twist's rotation carries it and gains that rotation.
    pub fn do_twist(&mut self, twist: Twist)
        requires
            twist.wf(),
        ensures
            final(self)@ == twisted(old(self)@, twist),
            attitudes_wf(final(self)@),
    {
        self.do_twist_by(twist, &Direct);
    }

    /// Applies `twist`, computing with `ops`.
    #[verifier::rlimit(40)]
    pub fn do_twist_by<O: PieceOps>(&mut self, twist: Twist, ops: &O)
        requires
            twist.wf(),
        ensures
            final(self)@ == twisted(old(self)@, twist),
            attitudes_wf(final(self)@),
    {
        proof {
            use_type_invariant(&*self);
        }
        let before = self.piece_attitudes;
        let mut ret = self.piece_attitudes;
        let cell = ops.cell(twist.grip);
        let t = twist.transform;
        let mut o: usize = 0;
        while o < 26
            invariant
                0 <= o <= 26,
                t == twist.transform,
                t.wf(),
                before@ == old(self)@,
                forall|k: int| 0 <= k < 72 ==> (#[trigger] before[k]).wf(),
                forall|k: int| 0 <= k < 72 ==> (#[trigger] ret[k]).wf(),
                forall|p: int| 0 <= p < 26 ==> #[trigger] cell[p] == cell_index(twist.grip, p),
                forall|p: int| 0 <= p < 26 ==> #[trigger] cell[p] < 72,
                forall|p: int|
                    0 <= p < o ==> ret[#[trigger] twist_target(twist, p)] == t.spec_times(
                        before[cell_index(twist.grip, p)],
                    ),
                forall|k: int|
                    0 <= k < 72 && (forall|p: int| 0 <= p < o ==> twist_target(twist, p) != k)
                        ==> #[trigger] ret[k] == before[k],
            decreases 26 - o,
        {
            let old_index = cell[o] as usize;
            let new_index = ops.mul_index(t, old_index);
            proof {
                assert forall|p: int|
                    0 <= p < o && twist_target(twist, p) == new_index implies cell_index(
                        twist.grip,
                        p,
                    ) == old_index by {
                    lemma_cell_raw(twist.grip, p);
                    lemma_mul_index(t, cell_index(twist.grip, p), old_index as int);
                }
            }
            let ghost prev = ret;
            ret[new_index] = ops.mul(t, before[old_index]);
            proof {
                assert(new_index == twist_target(twist, o as int));
                assert forall|p: int| 0 <= p < o + 1 implies ret[#[trigger] twist_target(twist, p)]
                    == t.spec_times(before[cell_index(twist.grip, p)]) by {
                    lemma_cell_raw(twist.grip, p);
                    lemma_mul_index(t, cell_index(twist.grip, p), old_index as int);
                    if p < o && twist_target(twist, p) != new_index {
                        assert(prev[twist_target(twist, p)] == t.spec_times(
                            before[cell_index(twist.grip, p)],
                        ));
                    }
                }
                assert forall|k: int|
                    0 <= k < 72 && (forall|p: int| 0 <= p < o + 1 ==> twist_target(twist, p) != k)
                        implies #[trigger] ret[k] == before[k] by {
                    assert(twist_target(twist, o as int) != k);
                    assert(prev[k] == before[k]);
                }
            }
            o += 1;
        }
        self.piece_attitudes = ret;
        proof {
            assert forall|k: int| 0 <= k < 72 implies #[trigger] ret@[k] == twisted(
                before@,
                twist,
            )[k] by {
                if moved_to(twist, k) {
                    let p = choose|p: int| 0 <= p < 26 && twist_target(twist, p) == k;
                    assert(ret[twist_target(twist, p)] == t.spec_times(
                        before[cell_index(twist.grip, p)],
                    ));
                }
            }
            assert(self@ =~= twisted(old(self)@, twist));
        }
    }

    /// Applies each of `twists` in order.
    pub fn do_twists(&mut self, twists: &[Twist])
        requires
            forall|k: int| 0 <= k < twists@.len() ==> (#[trigger] twists@[k]).wf(),
        ensures
            final(self)@ == twists_applied(old(self)@, twists@),
            attitudes_wf(final(self)@),
    {
        self.do_twists_by(twists, &Direct);
    }

    /// Applies each of `twists` in order, computing with `ops`.
    pub fn do_twists_by<O: PieceOps>(&mut self, twists: &[Twist], ops: &O)
        requires
            forall|k: int| 0 <= k < twists@.len() ==> (#[trigger] twists@[k]).wf(),
        ensures
            final(self)@ == twists_applied(old(self)@, twists@),
            attitudes_wf(final(self)@),
    {
        proof {
            use_type_invariant(&*self);
        }
        let mut k: usize = 0;
        while k < twists.len()
            invariant
                0 <= k <= twists@.len(),
                forall|j: int| 0 <= j < twists@.len() ==> (#[trigger] twists@[j]).wf(),
                self@ == twists_applied(old(self)@, twists@.take(k as int)),
                attitudes_wf(self@),
            decreases twists.len() - k,
        {
            proof {
                assert(twists@.take(k + 1).drop_last() == twists@.take(k as int));
            }
            self.do_twist_by(twists[k], ops);
            k += 1;
        }
        proof {
            assert(twists@.take(twists@.len() as int) == twists@);
        }
    }

    /// Returns how many of the `[ridges, edges, corners]` of the cell of
    /// `last_layer` do not face that cell's direction outward.
    pub fn unoriented_pieces(&self, last_layer: GripId) -> (counts: [usize; 3])
        ensures
            forall|kind: int|
                0 <= kind < 3 ==> #[trigger] counts[kind] == kind_slots(kind).filter(
                    |slot: usize| unoriented_in(self@, last_layer, slot),
                ).len(),
    {
        let ridges = CELL_RIDGES;
        let edges = CELL_EDGES;
        let corners = CELL_CORNERS;
        proof {
            assert(ridges@ == kind_slots(0));
            assert(edges@ == kind_slots(1));
            assert(corners@ == kind_slots(2));
        }
        [
            self.count_unoriented(last_layer, &ridges),
            self.count_unoriented(last_layer, &edges),
            self.count_unoriented(last_layer, &corners),
        ]
    }

    fn count_unoriented(&self, g: GripId, slots: &[usize]) -> (n: usize)
        requires
            forall|k: int| 0 <= k < slots@.len() ==> #[trigger] slots@[k] < 26,
        ensures
            n == slots@.filter(|slot: usize| unoriented_in(self@, g, slot)).len(),
    {
        proof {
            use_type_invariant(self);
        }
        let cell = indices_for_grip(g);
        let v = g.vec();
        let mut n: usize = 0;
        let mut k: usize = 0;
        while k < slots.len()
            invariant
                0 <= k <= slots@.len(),
                forall|j: int| 0 <= j < slots@.len() ==> #[trigger] slots@[j] < 26,
                forall|p: int| 0 <= p < 26 ==> #[trigger] cell[p] == cell_index(g, p),
                forall|p: int| 0 <= p < 26 ==> #[trigger] cell[p] < 72,
                forall|j: int| 0 <= j < 72 ==> (#[trigger] self@[j]).wf(),
                self@.len() == 72,
                v == g.spec_vec(),
                n == slots@.take(k as int).filter(|slot: usize| unoriented_in(self@, g, slot)).len(),
                n <= k,
            decreases slots.len() - k,
        {
            proof {
                reveal_with_fuel(Seq::filter, 1);
                assert(slots@.take(k + 1).drop_last() == slots@.take(k as int));
            }
            let a = self.piece_attitudes[cell[slots[k]] as usize];
            proof {
                assert(v.bounded(-127, 127));
            }
            if !a.mul_vec(v).equals(&v) {
                n += 1;
            }
            k += 1;
        }
        proof {
            assert(slots@.take(slots@.len() as int) == slots@);
        }
        n
    }

    /// Returns the attitudes of the pieces, by current location.
    pub fn piece_attitudes(&self) -> (a: &[ElemId; 72])
        ensures
            a@ == self@,
            attitudes_wf(a@),
    {
        proof {
            use_type_invariant(self);
        }
        &self.piece_attitudes
    }

    /// Returns the location that the piece currently at `i` belongs in.
    ///
    /// Attitudes accumulate from a piece's home, so the piece at `i` came from
    /// `attitude.inv() * v`, where `v` is the location vector of `i`.
    pub fn piece_home(&self, i: usize) -> (home: usize)
        requires
            i < 72,
        ensures
            home == spec_mul_index(self@[i as int].spec_inverse(), i as int),
            home < 72,
    {
        self.piece_home_by(i, &Direct)
    }

    /// Returns the home of the piece at location `i`, computing with `ops`.
    pub fn piece_home_by<O: PieceOps>(&self, i: usize, ops: &O) -> (home: usize)
        requires
            i < 72,
        ensures
            home == spec_mul_index(self@[i as int].spec_inverse(), i as int),
            home < 72,
    {
        proof {
            use_type_invariant(self);
        }
        ops.mul_index(ops.inv(self.piece_attitudes[i]), i)
    }

    /// Rotates the whole puzzle, leaving it just as solved (or unsolved) as it
    /// was.
    ///
    /// This is the state-space counterpart of [`ElemId::transform`] on a
    /// twist.
    pub fn reorient(&self, elem: ElemId) -> (r: Self)
        requires
            elem.wf(),
        ensures
            r@ == reoriented(self@, elem),
            attitudes_wf(r@),
    {
        proof {
            use_type_invariant(self);
        }
        let before = self.piece_attitudes;
        let mut ret = self.piece_attitudes;
        let inv = elem.inv();
        let mut i: usize = 0;
        while i < 72
            invariant
                0 <= i <= 72,
                elem.wf(),
                inv == elem.spec_inverse(),
                inv.wf(),
                before@ == self@,
                forall|k: int| 0 <= k < 72 ==> (#[trigger] before[k]).wf(),
                forall|k: int| 0 <= k < 72 ==> (#[trigger] ret[k]).wf(),
                forall|p: int|
                    0 <= p < i ==> ret[#[trigger] spec_mul_index(elem, p)] == elem.spec_times(
                        before[p],
                    ).spec_times(inv),
                forall|k: int|
                    0 <= k < 72 && (forall|p: int| 0 <= p < i ==> spec_mul_index(elem, p) != k)
                        ==> #[trigger] ret[k] == before[k],
            decreases 72 - i,
        {
            let new_index = mul_elem_index(elem, i) as usize;
            proof {
                assert forall|p: int| 0 <= p < i && spec_mul_index(elem, p) == new_index implies p
                    == i by {
                    lemma_mul_index(elem, p, i as int);
                }
            }
            let ghost prev = ret;
            ret[new_index] = elem.mul(before[i]).mul(inv);
            proof {
                assert forall|p: int| 0 <= p < i + 1 implies ret[#[trigger] spec_mul_index(elem, p)]
                    == elem.spec_times(before[p]).spec_times(inv) by {
                    lemma_mul_index(elem, p, i as int);
                    if p < i {
                        assert(prev[spec_mul_index(elem, p)] == elem.spec_times(
                            before[p],
                        ).spec_times(inv));
                    }
                }
                assert forall|k: int|
                    0 <= k < 72 && (forall|p: int| 0 <= p < i + 1 ==> spec_mul_index(elem, p) != k)
                        implies #[trigger] ret[k] == before[k] by {
                    assert(spec_mul_index(elem, i as int) != k);
                    assert(prev[k] == before[k]);
                }
            }
            i += 1;
        }
        let r = PuzzleState { piece_attitudes: ret };
        proof {
            assert forall|k: int| 0 <= k < 72 implies #[trigger] ret@[k] == reoriented(
                before@,
                elem,
            )[k] by {
                if reached_by(elem, k) {
                    let p = choose|p: int| 0 <= p < 72 && spec_mul_index(elem, p) == k;
                    assert(ret[spec_mul_index(elem, p)] == elem.spec_times(before[p]).spec_times(
                        inv,
                    ));
                }
            }
            assert(r@ =~= reoriented(self@, elem));
        }
        r
    }

    /// Returns whether the piece at location `i` is solved, accounting for
    /// indistinguishable attitudes: its attitude fixes every grip it
    /// touches.
    pub fn is_piece_solved(&self, i: usize) -> (b: bool)
        requires
            i < 72,
        ensures
            b == piece_solved(self@, i as int),
    {
        proof {
            use_type_invariant(self);
        }
        shows_home_exec(i, self.piece_attitudes[i])
    }

    /// Returns whether the piece at location `i` belongs in `grip`'s cell.
    ///
    /// The piece's home stickers are `attitude.inv() * PIECE_GRIPS[i]`, so it
    /// belongs to `grip`'s cell exactly when that set contains `grip`.
    pub fn piece_belongs_to_cell(&self, i: usize, grip: GripId) -> (b: bool)
        requires
            i < 72,
        ensures
            b == belongs_to_cell(self@, i as int, grip),
    {
        proof {
            use_type_invariant(self);
        }
        piece_has_grip(i, self.piece_attitudes[i].mul_grip(grip))
    }

    /// Returns whether every piece is solved.
    pub fn is_solved(&self) -> (b: bool)
        ensures
            b == all_solved(self@),
    {
        let mut i: usize = 0;
        while i < 72
            invariant
                0 <= i <= 72,
                forall|j: int| 0 <= j < i ==> #[trigger] piece_solved(self@, j),
            decreases 72 - i,
        {
            if !self.is_piece_solved(i) {
                return false;
            }
            i += 1;
        }
        true
    }

    /// Returns whether every piece outside of `last_cell`'s cell is solved,
    /// i.e. whether F2L is intact.
    pub fn is_f2l_solved(&self, last_cell: GripId) -> (b: bool)
        ensures
            b == f2l_solved(self@, last_cell),
    {
        self.is_f2l_solved_by(last_cell, &Direct)
    }

    /// Returns whether F2L is intact, computing with `ops`.
    pub fn is_f2l_solved_by<O: PieceOps>(&self, last_cell: GripId, ops: &O) -> (b: bool)
        ensures
            b == f2l_solved(self@, last_cell),
    {
        proof {
            use_type_invariant(self);
        }
        let mut i: usize = 0;
        while i < 72
            invariant
                0 <= i <= 72,
                forall|j: int| 0 <= j < i ==> in_cell(last_cell, j) || #[trigger] piece_solved(self@, j),
                forall|k: int| 0 <= k < 72 ==> (#[trigger] self.piece_attitudes[k]).wf(),
            decreases 72 - i,
        {
            proof {
                crate::locations::lemma_in_cell_touches(last_cell, i as int);
            }
            if !ops.touches(i, last_cell) && !ops.shows_home(i, self.piece_attitudes[i]) {
                assert(!piece_solved(self@, i as int));
                return false;
            }
            i += 1;
        }
        true
    }

    /// Returns the number of pieces outside of `last_cell`'s cell that are not
    /// solved.
    pub fn unsolved_pieces_outside_cell(&self, last_cell: GripId) -> (n: usize)
        ensures
            n == unsolved_outside(self@, last_cell).len(),
    {
        let ghost all = Seq::new(72, |i: int| i);
        let mut n: usize = 0;
        let mut i: usize = 0;
        while i < 72
            invariant
                0 <= i <= 72,
                all == Seq::new(72, |j: int| j),
                n == all.take(i as int).filter(
                    |j: int| !in_cell(last_cell, j) && !piece_solved(self@, j),
                ).len(),
                n <= i,
            decreases 72 - i,
        {
            proof {
                reveal_with_fuel(Seq::filter, 1);
                assert(all.take(i + 1).drop_last() == all.take(i as int));
            }
            if !cell_contains(last_cell, i) && !self.is_piece_solved(i) {
                n += 1;
            }
            i += 1;
        }
        proof {
            assert(all.take(72) == all);
        }
        n
    }

    /// Returns the attitudes of the 26 pieces in `last_cell`'s cell, ordered
    /// by [`indices_for_grip`].
    pub fn cell_attitudes(&self, last_cell: GripId) -> (r: [ElemId; 26])
        ensures
            forall|o: int| 0 <= o < 26 ==> #[trigger] r[o] == self@[cell_index(last_cell, o)],
            forall|o: int| 0 <= o < 26 ==> (#[trigger] r[o]).wf(),
    {
        proof {
            use_type_invariant(self);
        }
        let cell = indices_for_grip(last_cell);
        let mut r = [ElemId::ident(); 26];
        let mut o: usize = 0;
        while o < 26
            invariant
                0 <= o <= 26,
                forall|p: int| 0 <= p < 26 ==> #[trigger] cell[p] == cell_index(last_cell, p),
                forall|p: int| 0 <= p < 26 ==> #[trigger] cell[p] < 72,
                forall|k: int| 0 <= k < 72 ==> (#[trigger] self.piece_attitudes[k]).wf(),
                forall|p: int| 0 <= p < o ==> #[trigger] r[p] == self@[cell_index(last_cell, p)],
                forall|p: int| 0 <= p < 26 ==> (#[trigger] r[p]).wf(),
            decreases 26 - o,
        {
            r[o] = self.piece_attitudes[cell[o] as usize];
            o += 1;
        }
        r
    }

    /// Returns a key identifying everything about this state *except* which
    /// last-cell piece is where.
    ///
    /// Entry `i` is 255 when the piece at `i` belongs to `last_cell`'s cell
    /// and otherwise the ID of the least attitude that looks like the piece's.
    /// So two states share a key iff they agree on the placement of all the
    /// pieces that don't belong to `last_cell`'s cell.
    pub fn f2l_key(&self, last_cell: GripId) -> (key: [u8; 72])
        ensures
            is_f2l_key(self@, last_cell, key@),
    {
        self.f2l_key_by(last_cell, &Direct)
    }

    /// Returns the F2L key, computing with `ops`.
    pub fn f2l_key_by<O: PieceOps>(&self, last_cell: GripId, ops: &O) -> (key: [u8; 72])
        ensures
            is_f2l_key(self@, last_cell, key@),
    {
        proof {
            use_type_invariant(self);
        }
        let mut key = [0u8; 72];
        let mut i: usize = 0;
        while i < 72
            invariant
                0 <= i <= 72,
                forall|k: int| 0 <= k < 72 ==> (#[trigger] self.piece_attitudes[k]).wf(),
                forall|j: int|
                    0 <= j < i ==> (if belongs_to_cell(self@, j, last_cell) {
                        #[trigger] key[j] == 255
                    } else {
                        is_canonical_attitude(j, self@[j], ElemId(key[j]))
                    }),
            decreases 72 - i,
        {
            if self.piece_belongs_to_cell(i, last_cell) {
                key[i] = 255;
            } else {
                key[i] = ops.canonical(i, self.piece_attitudes[i]).0;
            }
            i += 1;
        }
        proof {
            assert forall|i: int| 0 <= i < 72 implies #[trigger] key@[i] == key[i] by {}
        }
        key
    }
}

impl Default for PuzzleState {
    fn default() -> (s: Self)
        ensures
            s@ == Seq::new(72, |k: int| spec_ident()),
    {
        PuzzleState::solved()
    }
}

} // verus!
