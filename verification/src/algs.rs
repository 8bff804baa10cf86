//! Algorithms: twist sequences that leave F2L exactly as they found it, each
//! stored with what it does to the last cell.
//!
//! A direct search for such sequences is far too wide, so the table is built
//! by meeting in the middle. Every short sequence of twists of the last cell
//! and of a few side grips (a half) is filed under the hash of its F2L key,
//! which records where the F2L pieces went and nothing about the last cell.
//! Two halves with the same key moved F2L to the same place, so the first
//! followed by the reverse of the second restores F2L
//! ([`lemma_meet_in_the_middle`]); pairing the halves of each bucket
//! therefore yields algorithms up to twice the depth searched. Rotating the
//! whole puzzle about the last cell costs nothing, so each algorithm found
//! also brings its rotations.
use std::collections::hash_map::DefaultHasher;
use std::collections::HashMap;
use std::hash::Hasher;

use vstd::prelude::*;
use vstd::std_specs::hash::DefaultHasherAdditionalSpecFns;

use crate::grips::{GripId, I};
use crate::group::hypercube_rotations;
use crate::lastcell::{
    all_wf, canonical_of, cell_piece, cell_slot, effect_key, invert_twists, no_repeated_grip, simplify_step, inverted, kind_slots_keep_oriented,
    lemma_canonical_unique, move_starts, simplified, simplify_twists, twist_count, CellEffect,
    MAX_ALG_LEN,
};
use crate::locations::{in_cell, piece_touches};
use crate::puzzle_state::{
    attitudes_wf, belongs_to_cell, f2l_solved, is_canonical_attitude, is_f2l_key, piece_solved, twists_applied,
    PuzzleState,
};
use crate::replay::solved_attitudes;
use crate::stackvec::StackVec;
use crate::symmetry::home_of;
use crate::tables::{Direct, PieceOps, Tables};
use crate::elements::{ElemId, TransformByElem};
use crate::twist::Twist;

verus! {

broadcast use vstd::seq_lib::group_to_multiset_ensures, vstd::multiset::group_multiset_axioms;

/// The attitudes that `ts` reaches from solved.
pub open spec fn reached(ts: Seq<Twist>) -> Seq<ElemId> {
    twists_applied(solved_attitudes(), ts)
}

/// The effect read out of attitudes `a` would be that of doing nothing.
pub open spec fn records_nothing(a: Seq<ElemId>) -> bool {
    forall|j: int|
        0 <= j < 26 ==> #[trigger] cell_slot(home_of(a, cell_piece(j))) == j
            && is_canonical_attitude(cell_piece(j), a[cell_piece(j)], ElemId(0))
}

/// `ts` is worth storing as an algorithm: it is not empty, fits, restores
/// F2L and does something to the last cell.
pub open spec fn is_alg(ts: Seq<Twist>) -> bool {
    &&& 0 < ts.len() <= MAX_ALG_LEN
    &&& f2l_solved(reached(ts), I)
    &&& !records_nothing(reached(ts))
}

/// One F2L-preserving algorithm.
#[derive(Debug, Clone, Copy, PartialEq, Eq)]
pub struct Alg {
    pub twists: StackVec<Twist, MAX_ALG_LEN>,
    pub effect: CellEffect,
    /// Move count in ETM.
    pub cost: usize,
}

impl Alg {
    /// The algorithm is what [`build_alg`] makes of `ts`.
    pub open spec fn built_from(self, ts: Seq<Twist>) -> bool {
        &&& self.twists@ == simplified(ts)
        &&& self.effect.records(reached(simplified(ts)))
        &&& self.cost == move_starts(simplified(ts)).len()
    }

    /// The algorithm is a stored algorithm: its twists are simplified and
    /// well formed, it is worth storing, and its effect and cost are those of
    /// its twists.
    pub open spec fn valid(self) -> bool {
        &&& all_wf(self.twists@)
        &&& self.built_from(self.twists@)
        &&& is_alg(self.twists@)
    }

    /// Returns the algorithm that undoes this one, which must itself be worth
    /// storing.
    pub fn inverted(&self) -> (r: Alg)
        requires
            all_wf(self.twists@),
            is_alg(simplified(inverted(self.twists@))),
        ensures
            r.built_from(inverted(self.twists@)),
            crate::replay::all_turn_own_cell(self.twists@) ==> twists_applied(
                reached(self.twists@),
                r.twists@,
            ) == solved_attitudes(),
    {
        let inv = invert_twists(self.twists.as_slice());
        let r = build_alg(&inv).unwrap();
        proof {
            if crate::replay::all_turn_own_cell(self.twists@) {
                let t = self.twists@;
                lemma_inverted_turns_own_cell(t);
                crate::symmetry::lemma_applied_wf(solved_attitudes(), t);
                crate::replay::lemma_simplified_same_effect(reached(t), inverted(t));
                crate::symmetry::lemma_inverted_undoes(solved_attitudes(), t);
            }
        }
        r
    }
}

/// The recorded effect of attitudes `a` is that of doing nothing exactly
/// when `records_nothing` says so.
proof fn lemma_records_nothing(eff: CellEffect, a: Seq<ElemId>)
    requires
        eff.records(a),
    ensures
        eff.is_identity_spec() == records_nothing(a),
{
    if eff.is_identity_spec() {
        assert forall|j: int| 0 <= j < 26 implies #[trigger] cell_slot(
            home_of(a, cell_piece(j)),
        ) == j && is_canonical_attitude(cell_piece(j), a[cell_piece(j)], ElemId(0)) by {
            assert(eff.slot_untouched(j));
        }
    }
    if records_nothing(a) {
        assert forall|j: int| 0 <= j < 26 implies #[trigger] eff.slot_untouched(j) by {
            assert(cell_slot(home_of(a, cell_piece(j))) == j);
            lemma_canonical_unique(cell_piece(j), a[cell_piece(j)], eff.gains()[j], ElemId(0));
        }
    }
}

/// Checks a candidate and works out what it does to the last cell.
///
/// Returns `None` when, once simplified, it is empty, too long to store,
/// does not restore F2L, or does nothing to the last cell.
pub fn build_alg(twists: &[Twist]) -> (r: Option<Alg>)
    requires
        all_wf(twists@),
    ensures
        r is Some <==> is_alg(simplified(twists@)),
        r matches Some(alg) ==> alg.built_from(twists@) && alg.valid(),
{
    build_alg_by(twists, &Direct)
}

/// [`build_alg`], computing with `ops`.
pub fn build_alg_by<O: PieceOps>(twists: &[Twist], ops: &O) -> (r: Option<Alg>)
    requires
        all_wf(twists@),
    ensures
        r is Some <==> is_alg(simplified(twists@)),
        r matches Some(alg) ==> alg.built_from(twists@) && alg.valid(),
{
    proof {
        crate::lastcell::lemma_simplified_no_repeated_grip(twists@);
        crate::lastcell::lemma_simplified_idempotent(simplified(twists@));
    }
    let simple = simplify_twists(twists);
    if simple.len() == 0 {
        return None;
    }
    let stored = match StackVec::<Twist, MAX_ALG_LEN>::from_slice(simple.as_slice()) {
        Some(v) => v,
        None => {
            return None;
        },
    };
    let mut state = PuzzleState::default();
    state.do_twists_by(stored.as_slice(), ops);
    if !state.is_f2l_solved_by(I, ops) {
        return None;
    }
    let effect = CellEffect::of_by(&state, ops);
    proof {
        lemma_records_nothing(effect, state@);
    }
    if effect.is_identity() {
        return None;
    }
    Some(Alg { cost: twist_count(stored.as_slice()), twists: stored, effect })
}

/// No two algorithms of `algs` do the same thing.
pub open spec fn distinct_effects(algs: Seq<Alg>) -> bool {
    forall|i: int, j: int|
        0 <= i < j < algs.len() ==> !(#[trigger] algs[i].effect).same_as(#[trigger] algs[j].effect)
}

/// Adds `alg` to `algs`, unless an algorithm with the same effect is
/// already there; then the cheaper of the two stays, the one already there
/// on a tie.
pub fn insert_cheapest(algs: &mut Vec<Alg>, alg: Alg)
    ensures
        forall|i: int|
            0 <= i < old(algs)@.len() && old(algs)@[i].effect.same_as(alg.effect) && (forall|j: int|
                0 <= j < i ==> !old(algs)@[j].effect.same_as(alg.effect)) ==> final(algs)@ == (if alg.cost
                < old(algs)@[i].cost {
                old(algs)@.update(i, alg)
            } else {
                old(algs)@
            }),
        (forall|i: int| 0 <= i < old(algs)@.len() ==> !old(algs)@[i].effect.same_as(alg.effect))
            ==> final(algs)@ == old(algs)@.push(alg),
        distinct_effects(old(algs)@) ==> distinct_effects(final(algs)@),
        forall|x: Alg| covers(old(algs)@, x) ==> #[trigger] covers(final(algs)@, x),
        covers(final(algs)@, alg),
        all_valid(old(algs)@) && alg.valid() ==> all_valid(final(algs)@),
{
    let n = algs.len();
    let mut i: usize = 0;
    while i < n
        invariant
            0 <= i <= n,
            n == algs@.len(),
            algs@ == old(algs)@,
            forall|j: int| 0 <= j < i ==> !old(algs)@[j].effect.same_as(alg.effect),
        decreases n - i,
    {
        if algs[i].effect.equals(&alg.effect) {
            if alg.cost < algs[i].cost {
                algs.set(i, alg);
                proof {
                    assert forall|p: int, q: int|
                        0 <= p < q < algs@.len() && distinct_effects(old(algs)@) implies !(
                        #[trigger] algs@[p].effect).same_as(#[trigger] algs@[q].effect) by {
                        assert(old(algs)@[i as int].effect.same_as(alg.effect));
                        if p == i {
                            assert(!old(algs)@[p].effect.same_as(old(algs)@[q].effect));
                        } else if q == i {
                            assert(!old(algs)@[p].effect.same_as(old(algs)@[q].effect));
                        }
                    }
                }
            }
            proof {
                lemma_replace_covers(old(algs)@, algs@, alg, i as int);
            }
            return;
        }
        i += 1;
    }
    algs.push(alg);
    proof {
        lemma_push_covers(old(algs)@, algs@, alg);
    }
}

/// Some algorithm of `algs` does what `x` does, at no greater cost.
pub open spec fn covers(algs: Seq<Alg>, x: Alg) -> bool {
    exists|i: int| 0 <= i < algs.len() && algs[i].effect.same_as(x.effect) && algs[i].cost <= x.cost
}

/// Every algorithm of `algs` is a valid stored algorithm.
pub open spec fn all_valid(algs: Seq<Alg>) -> bool {
    forall|i: int| 0 <= i < algs.len() ==> (#[trigger] algs[i]).valid()
}

/// Replacing an algorithm by a cheaper one with the same effect, or keeping
/// it, keeps every algorithm covered that was covered and covers the new one.
proof fn lemma_replace_covers(old_algs: Seq<Alg>, new_algs: Seq<Alg>, alg: Alg, i: int)
    requires
        0 <= i < old_algs.len(),
        old_algs[i].effect.same_as(alg.effect),
        new_algs == (if alg.cost < old_algs[i].cost {
            old_algs.update(i, alg)
        } else {
            old_algs
        }),
    ensures
        forall|x: Alg| covers(old_algs, x) ==> #[trigger] covers(new_algs, x),
        covers(new_algs, alg),
        all_valid(old_algs) && alg.valid() ==> all_valid(new_algs),
{
    assert forall|x: Alg| covers(old_algs, x) implies #[trigger] covers(new_algs, x) by {
        let k = choose|k: int|
            0 <= k < old_algs.len() && old_algs[k].effect.same_as(x.effect) && old_algs[k].cost
                <= x.cost;
        if k == i && alg.cost < old_algs[i].cost {
            assert(new_algs[k].effect.same_as(x.effect));
        } else {
            assert(new_algs[k] == old_algs[k]);
        }
    }
    if alg.cost < old_algs[i].cost {
        assert(new_algs[i] == alg);
    } else {
        assert(new_algs[i] == old_algs[i]);
    }
    if all_valid(old_algs) && alg.valid() {
        assert forall|k: int| 0 <= k < new_algs.len() implies (#[trigger] new_algs[k]).valid() by {
            if k != i {
                assert(new_algs[k] == old_algs[k]);
            }
        }
    }
}

/// Appending an algorithm keeps every algorithm covered that was covered and
/// covers the new one.
proof fn lemma_push_covers(old_algs: Seq<Alg>, new_algs: Seq<Alg>, alg: Alg)
    requires
        new_algs == old_algs.push(alg),
    ensures
        forall|x: Alg| covers(old_algs, x) ==> #[trigger] covers(new_algs, x),
        covers(new_algs, alg),
        all_valid(old_algs) && alg.valid() ==> all_valid(new_algs),
{
    assert forall|x: Alg| covers(old_algs, x) implies #[trigger] covers(new_algs, x) by {
        let k = choose|k: int|
            0 <= k < old_algs.len() && old_algs[k].effect.same_as(x.effect) && old_algs[k].cost
                <= x.cost;
        assert(new_algs[k] == old_algs[k]);
    }
    assert(new_algs[old_algs.len() as int] == alg);
    if all_valid(old_algs) && alg.valid() {
        assert forall|k: int| 0 <= k < new_algs.len() implies (#[trigger] new_algs[k]).valid() by {
            if k < old_algs.len() {
                assert(new_algs[k] == old_algs[k]);
            }
        }
    }
}

/// Effects read out of the same attitudes do the same thing.
proof fn lemma_records_unique(e1: CellEffect, e2: CellEffect, a: Seq<ElemId>)
    requires
        e1.records(a),
        e2.records(a),
    ensures
        e1.same_as(e2),
{
    assert forall|j: int| 0 <= j < 26 implies e1.gains()[j] == e2.gains()[j] by {
        lemma_canonical_unique(cell_piece(j), a[cell_piece(j)], e1.gains()[j], e2.gains()[j]);
    }
    assert(e1.sources() =~= e2.sources());
    assert(e1.gains() =~= e2.gains());
}

/// An algorithm covering one built from `ts` covers every algorithm built
/// from `ts`.
proof fn lemma_covers_built(algs: Seq<Alg>, y: Alg, x: Alg, ts: Seq<Twist>)
    requires
        covers(algs, y),
        y.built_from(ts),
        x.built_from(ts),
    ensures
        covers(algs, x),
{
    lemma_records_unique(y.effect, x.effect, reached(simplified(ts)));
    let i = choose|i: int| 0 <= i < algs.len() && algs[i].effect.same_as(y.effect) && algs[i].cost <= y.cost;
    assert(algs[i].effect.same_as(x.effect));
}

/// Covering an algorithm covers every algorithm that does the same at no
/// less cost.
proof fn lemma_covers_trans(algs: Seq<Alg>, y: Alg, x: Alg)
    requires
        covers(algs, y),
        y.effect.same_as(x.effect),
        y.cost <= x.cost,
    ensures
        covers(algs, x),
{
    let i = choose|i: int| 0 <= i < algs.len() && algs[i].effect.same_as(y.effect) && algs[i].cost <= y.cost;
    assert(algs[i].effect.same_as(x.effect));
}

/// Seen after rotating by the identity, every twist is itself.
proof fn lemma_transformed_by_identity(ts: Seq<Twist>)
    requires
        all_wf(ts),
    ensures
        crate::symmetry::transformed_twists(ts, ElemId(0)) == ts,
{
    assert forall|k: int| 0 <= k < ts.len() implies crate::symmetry::transformed_twists(ts, ElemId(0))[k]
        == ts[k] by {
        let t = ts[k];
        assert(t.wf());
        crate::algebra::lemma_grip_action_law(ElemId(0), ElemId(0), t.grip);
        crate::algebra::lemma_mul_ident(t.transform);
        crate::symmetry::lemma_ident_inverse();
    }
    assert(crate::symmetry::transformed_twists(ts, ElemId(0)) =~= ts);
}

/// Algorithms with distinct effects, each found again through the hash of
/// its effect, so that adding one does not scan them all.
struct AlgSet {
    algs: Vec<Alg>,
    /// For each hash, the positions of the algorithms whose effect has it.
    index: HashMap<u64, Vec<usize>>,
}

/// The hash of what `alg` does.
spec fn alg_key(alg: Alg) -> u64 {
    effect_key(alg.effect.sources(), alg.effect.gains())
}

impl View for AlgSet {
    type V = Seq<Alg>;

    closed spec fn view(&self) -> Seq<Alg> {
        self.algs@
    }
}

impl AlgSet {
    /// The effects are distinct and the index finds each algorithm.
    spec fn wf(&self) -> bool {
        &&& distinct_effects(self.algs@)
        &&& forall|i: int|
            #![trigger self.algs@[i]]
            0 <= i < self.algs@.len() ==> self.index@.contains_key(alg_key(self.algs@[i]))
                && self.index@[alg_key(self.algs@[i])]@.contains(i as usize)
        &&& forall|h: u64, k: int|
            #![trigger self.index@[h]@[k]]
            self.index@.contains_key(h) && 0 <= k < self.index@[h]@.len() ==> self.index@[h]@[k]
                < self.algs@.len()
    }

    fn new() -> (s: Self)
        ensures
            s.wf(),
            s@ == Seq::<Alg>::empty(),
    {
        AlgSet { algs: Vec::new(), index: HashMap::new() }
    }

    /// Returns the position, among those of `bucket`, of the algorithm that
    /// does what `effect` does, if there is one.
    fn find_in(&self, bucket: &Vec<usize>, effect: &CellEffect) -> (r: Option<usize>)
        requires
            forall|k: int| 0 <= k < bucket@.len() ==> #[trigger] bucket@[k] < self.algs@.len(),
        ensures
            r matches Some(j) ==> j < self.algs@.len() && self.algs@[j as int].effect.same_as(*effect),
            r is None ==> forall|k: int|
                0 <= k < bucket@.len() ==> !self.algs@[#[trigger] bucket@[k] as int].effect.same_as(
                    *effect,
                ),
    {
        let mut k: usize = 0;
        while k < bucket.len()
            invariant
                0 <= k <= bucket@.len(),
                forall|m: int| 0 <= m < bucket@.len() ==> #[trigger] bucket@[m] < self.algs@.len(),
                forall|m: int|
                    0 <= m < k ==> !self.algs@[#[trigger] bucket@[m] as int].effect.same_as(*effect),
            decreases bucket@.len() - k,
        {
            let j = bucket[k];
            if self.algs[j].effect.equals(effect) {
                return Some(j);
            }
            k += 1;
        }
        None
    }

    /// Adds `alg`, unless an algorithm with the same effect is already
    /// there; then the cheaper of the two stays, the one already there on a
    /// tie.
    fn insert_cheapest(&mut self, alg: Alg)
        requires
            old(self).wf(),
        ensures
            final(self).wf(),
            forall|i: int|
                0 <= i < old(self)@.len() && old(self)@[i].effect.same_as(alg.effect) ==> final(self)@
                    == (if alg.cost < old(self)@[i].cost {
                    old(self)@.update(i, alg)
                } else {
                    old(self)@
                }),
            (forall|i: int| 0 <= i < old(self)@.len() ==> !old(self)@[i].effect.same_as(alg.effect))
                ==> final(self)@ == old(self)@.push(alg),
            forall|x: Alg| covers(old(self)@, x) ==> #[trigger] covers(final(self)@, x),
            covers(final(self)@, alg),
            all_valid(old(self)@) && alg.valid() ==> all_valid(final(self)@),
            forall|i: int|
                0 <= i < final(self)@.len() ==> #[trigger] final(self)@[i] == alg || old(self)@.contains(
                    final(self)@[i],
                ),
    {
        broadcast use vstd::std_specs::hash::group_hash_axioms;

        let h = alg.effect.hash_key();
        let found = match self.index.get(&h) {
            Some(bucket) => {
                proof {
                    assert(self.index@.contains_key(h) && *bucket == self.index@[h]);
                    assert forall|k: int| 0 <= k < bucket@.len() implies #[trigger] bucket@[k]
                        < self.algs@.len() by {
                        assert(self.index@[h]@[k] < self.algs@.len());
                    }
                }
                self.find_in(bucket, &alg.effect)
            },
            None => None,
        };
        assert(found is None ==> !self.index@.contains_key(h) || forall|k: int|
            0 <= k < self.index@[h]@.len() ==> !self.algs@[#[trigger] self.index@[h]@[k] as int].effect.same_as(
                alg.effect,
            ));
        match found {
            Some(j) => {
                let ghost before = self.algs@;
                proof {
                    assert forall|i: int|
                        0 <= i < before.len() && before[i].effect.same_as(alg.effect) implies i
                        == j by {
                        if i != j {
                            if i < j {
                                assert(!before[i].effect.same_as(before[j as int].effect));
                            } else {
                                assert(!before[j as int].effect.same_as(before[i].effect));
                            }
                        }
                    }
                }
                if alg.cost < self.algs[j].cost {
                    self.algs.set(j, alg);
                    proof {
                        assert(alg_key(alg) == alg_key(before[j as int]));
                        assert forall|p: int, q: int|
                            0 <= p < q < self.algs@.len() implies !(
                            #[trigger] self.algs@[p].effect).same_as(#[trigger] self.algs@[q].effect) by {
                            if p == j {
                                assert(!before[p].effect.same_as(before[q].effect));
                            } else if q == j {
                                assert(!before[p].effect.same_as(before[q].effect));
                            }
                        }
                        assert forall|i: int|
                            #![trigger self.algs@[i]]
                            0 <= i < self.algs@.len() implies self.index@.contains_key(
                                alg_key(self.algs@[i]),
                            ) && self.index@[alg_key(self.algs@[i])]@.contains(i as usize) by {
                            assert(before[i] == before[i]);
                        }
                    }
                }
                proof {
                    lemma_replace_covers(before, self.algs@, alg, j as int);
                    assert forall|i: int| 0 <= i < self.algs@.len() implies #[trigger] self.algs@[i] == alg
                        || before.contains(self.algs@[i]) by {
                        if self.algs@[i] != alg {
                            assert(self.algs@[i] == before[i]);
                        }
                    }
                }
            },
            None => {
                let ghost before = self.algs@;
                let ghost old_index = self.index@;
                proof {
                    assert forall|i: int|
                        0 <= i < before.len() implies !before[i].effect.same_as(alg.effect) by {
                        if before[i].effect.same_as(alg.effect) {
                            assert(alg_key(before[i]) == h);
                            assert(self.algs@[i] == before[i]);
                            assert(old_index.contains_key(h));
                            assert(old_index[h]@.contains(i as usize));
                            let k = choose|k: int|
                                0 <= k < old_index[h]@.len() && old_index[h]@[k] == i as usize;
                            assert(self.algs.len() == before.len());
                            assert(old_index[h]@[k] as int == i);
                            assert(!self.algs@[self.index@[h]@[k] as int].effect.same_as(alg.effect));
                            assert(false);
                        }
                    }
                }
                let n = self.algs.len();
                let mut bucket: Vec<usize> = Vec::new();
                match self.index.get(&h) {
                    Some(b) => {
                        let mut k: usize = 0;
                        while k < b.len()
                            invariant
                                0 <= k <= b@.len(),
                                bucket@ == b@.take(k as int),
                            decreases b@.len() - k,
                        {
                            bucket.push(b[k]);
                            proof {
                                assert(b@.take(k + 1) == b@.take(k as int).push(b@[k as int]));
                            }
                            k += 1;
                        }
                        proof {
                            assert(b@.take(b@.len() as int) == b@);
                        }
                    },
                    None => {},
                }
                let ghost old_bucket = bucket@;
                bucket.push(n);
                self.algs.push(alg);
                self.index.insert(h, bucket);
                proof {
                    assert(self.algs@ == before.push(alg));
                    assert forall|p: int, q: int|
                        0 <= p < q < self.algs@.len() implies !(
                        #[trigger] self.algs@[p].effect).same_as(#[trigger] self.algs@[q].effect) by {
                        if q == n {
                            assert(!before[p].effect.same_as(alg.effect));
                        } else {
                            assert(!before[p].effect.same_as(before[q].effect));
                        }
                    }
                    assert forall|i: int|
                        #![trigger self.algs@[i]]
                        0 <= i < self.algs@.len() implies self.index@.contains_key(
                            alg_key(self.algs@[i]),
                        ) && self.index@[alg_key(self.algs@[i])]@.contains(i as usize) by {
                        if i == n {
                            assert(self.index@[h]@[old_bucket.len() as int] == n);
                        } else {
                            assert(self.algs@[i] == before[i]);
                            let hi = alg_key(before[i]);
                            assert(old_index.contains_key(hi) && old_index[hi]@.contains(i as usize));
                            if hi == h {
                                let k = choose|k: int|
                                    0 <= k < old_index[h]@.len() && old_index[h]@[k] == i as usize;
                                assert(self.index@[h]@[k] == i as usize);
                            }
                        }
                    }
                    assert forall|hh: u64, k: int|
                        #![trigger self.index@[hh]@[k]]
                        self.index@.contains_key(hh) && 0 <= k < self.index@[hh]@.len() implies self.index@[hh]@[k]
                            < self.algs@.len() by {
                        if hh == h {
                            if k < old_bucket.len() {
                                assert(old_index[h]@[k] < n);
                            }
                        } else {
                            assert(old_index[hh]@[k] < n);
                        }
                    }
                    lemma_push_covers(before, self.algs@, alg);
                    assert forall|i: int| 0 <= i < self.algs@.len() implies #[trigger] self.algs@[i] == alg
                        || before.contains(self.algs@[i]) by {
                        if i < before.len() {
                            assert(self.algs@[i] == before[i]);
                        }
                    }
                }
            },
        }
    }

    /// The algorithms, in the order they were first added.
    fn into_algs(self) -> (r: Vec<Alg>)
        ensures
            r@ == self@,
    {
        self.algs
    }
}

/// The rotations that keep grip `g` in place, in ID order.
fn rotations_fixing(g: GripId) -> (r: Vec<ElemId>)
    ensures
        forall|k: int| 0 <= k < r@.len() ==> (#[trigger] r@[k]).wf() && r@[k].fixes_grip(g),
        forall|e: ElemId| e.wf() && e.fixes_grip(g) ==> #[trigger] r@.contains(e),
        forall|p: int, q: int| 0 <= p < q < r@.len() ==> (#[trigger] r@[p]).0 < (#[trigger] r@[q]).0,
{
    let all = hypercube_rotations();
    let mut r: Vec<ElemId> = Vec::new();
    let mut i: usize = 0;
    while i < all.len()
        invariant
            0 <= i <= all@.len(),
            all@ == crate::group::all_elems(),
            forall|k: int| 0 <= k < r@.len() ==> (#[trigger] r@[k]).wf() && r@[k].fixes_grip(g),
            forall|id: u8| id < i && ElemId(id).fixes_grip(g) ==> #[trigger] r@.contains(ElemId(id)),
            forall|k: int| 0 <= k < r@.len() ==> (#[trigger] r@[k]).0 < i,
            forall|p: int, q: int| 0 <= p < q < r@.len() ==> (#[trigger] r@[p]).0 < (#[trigger] r@[q]).0,
        decreases all@.len() - i,
    {
        let e = all[i];
        assert(e == ElemId(i as u8));
        let ghost before = r@;
        if e.mul_grip(g) == g {
            r.push(e);
            proof {
                assert(r@[r@.len() - 1] == e);
                assert forall|id: u8| id < i + 1 && ElemId(id).fixes_grip(g) implies #[trigger] r@.contains(ElemId(id)) by {
                    if id < i {
                        assert(before.contains(ElemId(id)));
                        let k = choose|k: int| 0 <= k < before.len() && before[k] == ElemId(id);
                        assert(r@[k] == before[k]);
                    } else {
                        assert(r@[r@.len() - 1] == ElemId(id));
                    }
                }
            }
        }
        i += 1;
    }
    proof {
        assert forall|e: ElemId| e.wf() && e.fixes_grip(g) implies #[trigger] r@.contains(e) by {
            assert(e == ElemId(e.0));
        }
    }
    r
}

/// Every twist of grip `g`: one for each rotation fixing `g` other than the
/// identity, in ID order.
pub fn twists_for_grip(g: GripId) -> (r: Vec<Twist>)
    ensures
        forall|k: int|
            0 <= k < r@.len() ==> (#[trigger] r@[k]).grip == g && r@[k].turns_own_cell()
                && r@[k].transform != ElemId(0),
        forall|e: ElemId|
            e.wf() && e.fixes_grip(g) && e != ElemId(0) ==> #[trigger] r@.contains(
                Twist { grip: g, transform: e },
            ),
        forall|p: int, q: int|
            0 <= p < q < r@.len() ==> (#[trigger] r@[p]).transform.0 < (#[trigger] r@[q]).transform.0,
{
    let rotations = rotations_fixing(g);
    let mut r: Vec<Twist> = Vec::new();
    let mut k: usize = 0;
    while k < rotations.len()
        invariant
            0 <= k <= rotations@.len(),
            forall|j: int| 0 <= j < rotations@.len() ==> (#[trigger] rotations@[j]).wf() && rotations@[j].fixes_grip(g),
            forall|e: ElemId| e.wf() && e.fixes_grip(g) ==> #[trigger] rotations@.contains(e),
            forall|j: int|
                0 <= j < r@.len() ==> (#[trigger] r@[j]).grip == g && r@[j].turns_own_cell()
                    && r@[j].transform != ElemId(0),
            forall|j: int| 0 <= j < k && rotations@[j] != ElemId(0) ==> #[trigger] r@.contains(
                Twist { grip: g, transform: rotations@[j] },
            ),
            forall|p: int, q: int| 0 <= p < q < rotations@.len() ==> (#[trigger] rotations@[p]).0 < (#[trigger] rotations@[q]).0,
            forall|j: int| #![trigger r@[j]] 0 <= j < r@.len() ==> exists|m: int| 0 <= m < k && r@[j].transform == rotations@[m],
            forall|p: int, q: int|
                0 <= p < q < r@.len() ==> (#[trigger] r@[p]).transform.0 < (#[trigger] r@[q]).transform.0,
        decreases rotations@.len() - k,
    {
        let e = rotations[k];
        let ghost before = r@;
        if !e.equals(ElemId::ident()) {
            r.push(Twist { grip: g, transform: e });
            proof {
                assert(r@[r@.len() - 1] == Twist { grip: g, transform: e });
                assert forall|j: int| 0 <= j < k + 1 && rotations@[j] != ElemId(0) implies #[trigger] r@.contains(
                    Twist { grip: g, transform: rotations@[j] },
                ) by {
                    if j < k {
                        let t = Twist { grip: g, transform: rotations@[j] };
                        assert(before.contains(t));
                        let i = choose|i: int| 0 <= i < before.len() && before[i] == t;
                        assert(r@[i] == before[i]);
                    }
                }
            }
        }
        k += 1;
    }
    proof {
        assert forall|e: ElemId| e.wf() && e.fixes_grip(g) && e != ElemId(0) implies #[trigger] r@.contains(
            Twist { grip: g, transform: e },
        ) by {
            assert(rotations@.contains(e));
            let j = choose|j: int| 0 <= j < rotations@.len() && rotations@[j] == e;
            assert(rotations@[j] != ElemId(0));
        }
    }
    r
}

/// Each twist of `ts` as seen after rotating the whole puzzle by `e`.
pub(crate) fn transform_twists(ts: &[Twist], e: ElemId) -> (r: Vec<Twist>)
    requires
        e.wf(),
        all_wf(ts@),
    ensures
        r@ == crate::symmetry::transformed_twists(ts@, e),
        all_wf(r@),
{
    let mut r: Vec<Twist> = Vec::new();
    let mut k: usize = 0;
    while k < ts.len()
        invariant
            0 <= k <= ts@.len(),
            e.wf(),
            all_wf(ts@),
            r@ == crate::symmetry::transformed_twists(ts@, e).take(k as int),
            all_wf(r@),
        decreases ts@.len() - k,
    {
        let t = e.transform(ts[k]);
        proof {
            crate::algebra::lemma_mul_wf(e, ts@[k as int].transform);
            crate::algebra::lemma_mul_inv(e);
            crate::algebra::lemma_mul_wf(e.spec_times(ts@[k as int].transform), e.spec_inverse());
            assert(crate::symmetry::transformed_twists(ts@, e).take(k + 1) == crate::symmetry::transformed_twists(ts@, e).take(k as int).push(t));
        }
        r.push(t);
        k += 1;
    }
    proof {
        assert(crate::symmetry::transformed_twists(ts@, e).take(ts@.len() as int) == crate::symmetry::transformed_twists(ts@, e));
    }
    r
}

/// What [`close_under_rotations`] considers for `alg` and rotation `e`: the
/// algorithm made of its twists seen after rotating the puzzle by `e`.
pub open spec fn rotated_candidate(alg: Alg, e: ElemId) -> Seq<Twist> {
    crate::symmetry::transformed_twists(alg.twists@, e)
}

/// Seen after a rotation, twists stay well formed.
proof fn lemma_transformed_wf(ts: Seq<Twist>, e: ElemId)
    requires
        all_wf(ts),
        e.wf(),
    ensures
        all_wf(crate::symmetry::transformed_twists(ts, e)),
{
    crate::algebra::lemma_mul_inv(e);
    assert forall|k: int| 0 <= k < ts.len() implies (#[trigger] crate::symmetry::transformed_twists(ts, e)[k]).wf() by {
        assert(ts[k].wf());
        crate::algebra::lemma_mul_wf(e, ts[k].transform);
        crate::algebra::lemma_mul_wf(e.spec_times(ts[k].transform), e.spec_inverse());
    }
}

/// Conjugating by `e` gives the identity exactly when conjugating the
/// identity.
proof fn lemma_conjugate_identity(e: ElemId, c: ElemId)
    requires
        e.wf(),
        c.wf(),
    ensures
        (e.spec_times(c).spec_times(e.spec_inverse()) == ElemId(0)) == (c == ElemId(0)),
{
    let ei = e.spec_inverse();
    crate::algebra::lemma_mul_inv(e);
    crate::algebra::lemma_mul_wf(e, c);
    crate::algebra::lemma_mul_ident(e);
    crate::algebra::lemma_mul_ident(c);
    let m = e.spec_times(c);
    if m.spec_times(ei) == ElemId(0) {
        crate::algebra::lemma_inverse_unique(m, ei);
        crate::algebra::lemma_mul_inv(m);
        crate::algebra::lemma_mul_assoc(ei, e, c);
    }
}

/// Merging a twist onto a sequence commutes with seeing both after a
/// rotation.
proof fn lemma_step_rotated(r: Seq<Twist>, t: Twist, e: ElemId)
    requires
        all_wf(r),
        t.wf(),
        e.wf(),
    ensures
        simplify_step(crate::symmetry::transformed_twists(r, e), t.spec_transform_by(e))
            == crate::symmetry::transformed_twists(simplify_step(r, t), e),
{
    let tr = crate::symmetry::transformed_twists(r, e);
    let te = t.spec_transform_by(e);
    crate::algebra::lemma_mul_inv(e);
    crate::algebra::lemma_grip_inverse(e, t.grip);
    if r.len() > 0 {
        let l = r.last();
        assert(l == r[r.len() - 1]);
        assert(tr.last() == l.spec_transform_by(e));
        crate::algebra::lemma_grip_inverse(e, l.grip);
        assert((tr.last().grip == te.grip) == (l.grip == t.grip));
        if l.grip == t.grip {
            assert(l.wf());
            let c = t.transform.spec_times(l.transform);
            crate::symmetry::lemma_conjugate_product(e, t.transform, l.transform);
            crate::algebra::lemma_mul_wf(t.transform, l.transform);
            lemma_conjugate_identity(e, c);
            if c == ElemId(0) {
                assert(crate::symmetry::transformed_twists(r.drop_last(), e) =~= tr.drop_last());
            } else {
                assert(crate::symmetry::transformed_twists(
                    r.update(r.len() - 1, Twist { grip: t.grip, transform: c }),
                    e,
                ) =~= tr.update(
                    tr.len() - 1,
                    Twist { grip: te.grip, transform: te.transform.spec_times(tr.last().transform) },
                ));
            }
        } else {
            assert(crate::symmetry::transformed_twists(r.push(t), e) =~= tr.push(te));
        }
    } else {
        assert(crate::symmetry::transformed_twists(r.push(t), e) =~= tr.push(te));
    }
}

/// Simplifying a sequence seen after a rotation is seeing its
/// simplification after the rotation.
pub proof fn lemma_rotation_commutes_with_simplify(ts: Seq<Twist>, e: ElemId)
    requires
        all_wf(ts),
        e.wf(),
    ensures
        simplified(crate::symmetry::transformed_twists(ts, e)) == crate::symmetry::transformed_twists(
            simplified(ts),
            e,
        ),
    decreases ts.len(),
{
    if ts.len() > 0 {
        let rest = ts.drop_last();
        assert(all_wf(rest)) by {
            assert forall|k: int| 0 <= k < rest.len() implies (#[trigger] rest[k]).wf() by {
                assert(rest[k] == ts[k]);
            }
        }
        assert(crate::symmetry::transformed_twists(ts, e).drop_last() =~= crate::symmetry::transformed_twists(
            rest,
            e,
        ));
        assert(crate::symmetry::transformed_twists(ts, e).last() == ts.last().spec_transform_by(e));
        assert(ts.last() == ts[ts.len() - 1]);
        lemma_rotation_commutes_with_simplify(rest, e);
        crate::lastcell::lemma_simplified_no_repeated_grip(rest);
        lemma_step_rotated(simplified(rest), ts.last(), e);
    } else {
        assert(crate::symmetry::transformed_twists(ts, e) =~= Seq::<Twist>::empty());
        assert(crate::symmetry::transformed_twists(simplified(ts), e) =~= Seq::<Twist>::empty());
    }
}

/// Rotating by `f` and then by `e` is rotating by their product.
pub proof fn lemma_rotations_compose(ts: Seq<Twist>, e: ElemId, f: ElemId)
    requires
        all_wf(ts),
        e.wf(),
        f.wf(),
    ensures
        crate::symmetry::transformed_twists(crate::symmetry::transformed_twists(ts, f), e)
            == crate::symmetry::transformed_twists(ts, e.spec_times(f)),
{
    let ef = e.spec_times(f);
    crate::algebra::lemma_mul_inv(e);
    crate::algebra::lemma_mul_inv(f);
    crate::algebra::lemma_mul_wf(e, f);
    crate::algebra::lemma_inverse_of_product(e, f);
    assert forall|k: int| 0 <= k < ts.len() implies #[trigger] crate::symmetry::transformed_twists(
        crate::symmetry::transformed_twists(ts, f),
        e,
    )[k] == crate::symmetry::transformed_twists(ts, ef)[k] by {
        let t = ts[k];
        assert(t.wf());
        let ei = e.spec_inverse();
        let fi = f.spec_inverse();
        crate::algebra::lemma_grip_action_law(e, f, t.grip);
        crate::algebra::lemma_mul_wf(f, t.transform);
        let ft = f.spec_times(t.transform);
        crate::algebra::lemma_mul_wf(ft, fi);
        crate::algebra::lemma_mul_wf(e, ft);
        crate::algebra::lemma_mul_assoc(e, f, t.transform);
        crate::algebra::lemma_mul_assoc(e.spec_times(ft), fi, ei);
        crate::algebra::lemma_mul_assoc(e, ft, fi);
    }
    assert(crate::symmetry::transformed_twists(crate::symmetry::transformed_twists(ts, f), e)
        =~= crate::symmetry::transformed_twists(ts, ef));
}

/// `z` is built from one of `algs`, seen after a rotation that keeps the
/// last cell in place.
pub open spec fn from_rotations(z: Alg, algs: Seq<Alg>) -> bool {
    exists|i: int, e: ElemId|
        #![trigger z.built_from(rotated_candidate(algs[i], e))]
        0 <= i < algs.len() && e.wf() && e.fixes_grip(I) && z.built_from(rotated_candidate(algs[i], e))
}

/// Algorithms that came from rotations, or are built from rotating
/// `algs[a]` by `e`, all came from rotations.
proof fn lemma_from_rotations_kept(old: Seq<Alg>, new: Seq<Alg>, algs: Seq<Alg>, a: int, e: ElemId)
    requires
        forall|t: int| 0 <= t < old.len() ==> from_rotations(#[trigger] old[t], algs),
        0 <= a < algs.len(),
        e.wf(),
        e.fixes_grip(I),
        forall|t: int|
            0 <= t < new.len() ==> old.contains(#[trigger] new[t]) || new[t].built_from(
                rotated_candidate(algs[a], e),
            ),
    ensures
        forall|t: int| 0 <= t < new.len() ==> from_rotations(#[trigger] new[t], algs),
{
    assert forall|t: int| 0 <= t < new.len() implies from_rotations(#[trigger] new[t], algs) by {
        if old.contains(new[t]) {
            let q = choose|q: int| 0 <= q < old.len() && old[q] == new[t];
            assert(from_rotations(old[q], algs));
        } else {
            assert(new[t].built_from(rotated_candidate(algs[a], e)));
        }
    }
}

/// Rotating the whole puzzle about the last cell turns each algorithm into
/// up to 23 more. Returns, for every effect that some rotation of some
/// algorithm of `algs` has, one algorithm with that effect at the least cost
/// found.
pub fn close_under_rotations<O: PieceOps>(algs: &[Alg], ops: &O) -> (r: Vec<Alg>)
    requires
        forall|i: int| 0 <= i < algs@.len() ==> all_wf((#[trigger] algs@[i]).twists@),
    ensures
        distinct_effects(r@),
        all_valid(r@),
        forall|i: int, e: ElemId, x: Alg|
            #![trigger x.built_from(rotated_candidate(algs@[i], e))]
            0 <= i < algs@.len() && e.wf() && e.fixes_grip(I) && x.built_from(
                rotated_candidate(algs@[i], e),
            ) && is_alg(simplified(rotated_candidate(algs@[i], e))) ==> covers(r@, x),
        forall|t: int| 0 <= t < r@.len() ==> from_rotations(#[trigger] r@[t], algs@),
        forall|t: int, e: ElemId, x: Alg|
            #![trigger x.built_from(rotated_candidate(r@[t], e))]
            0 <= t < r@.len() && e.wf() && e.fixes_grip(I) && x.built_from(rotated_candidate(r@[t], e))
                && is_alg(simplified(rotated_candidate(r@[t], e))) ==> covers(r@, x),
{
    let rotations = rotations_fixing(I);
    let mut all = AlgSet::new();
    let mut a: usize = 0;
    while a < algs.len()
        invariant
            0 <= a <= algs@.len(),
            forall|i: int| 0 <= i < algs@.len() ==> all_wf((#[trigger] algs@[i]).twists@),
            forall|k: int| 0 <= k < rotations@.len() ==> (#[trigger] rotations@[k]).wf() && rotations@[k].fixes_grip(I),
            forall|e: ElemId| e.wf() && e.fixes_grip(I) ==> #[trigger] rotations@.contains(e),
            all.wf(),
            forall|t: int| 0 <= t < all@.len() ==> from_rotations(#[trigger] all@[t], algs@),
            distinct_effects(all@),
            all_valid(all@),
            forall|i: int, e: ElemId, x: Alg|
                #![trigger x.built_from(rotated_candidate(algs@[i], e))]
                0 <= i < a && e.wf() && e.fixes_grip(I) && x.built_from(
                    rotated_candidate(algs@[i], e),
                ) && is_alg(simplified(rotated_candidate(algs@[i], e))) ==> covers(all@, x),
        decreases algs@.len() - a,
    {
        let alg = algs[a];
        let mut k: usize = 0;
        while k < rotations.len()
            invariant
                0 <= k <= rotations@.len(),
                all_wf(alg.twists@),
                forall|j: int| 0 <= j < rotations@.len() ==> (#[trigger] rotations@[j]).wf() && rotations@[j].fixes_grip(I),
                all.wf(),
                forall|t: int| 0 <= t < all@.len() ==> from_rotations(#[trigger] all@[t], algs@),
                distinct_effects(all@),
                all_valid(all@),
                alg == algs@[a as int],
                a < algs@.len(),
                forall|i: int, e: ElemId, x: Alg|
                    #![trigger x.built_from(rotated_candidate(algs@[i], e))]
                    0 <= i < a && e.wf() && e.fixes_grip(I) && x.built_from(
                        rotated_candidate(algs@[i], e),
                    ) && is_alg(simplified(rotated_candidate(algs@[i], e))) ==> covers(all@, x),
                forall|j: int, x: Alg|
                    #![trigger x.built_from(rotated_candidate(alg, rotations@[j]))]
                    0 <= j < k && x.built_from(rotated_candidate(alg, rotations@[j])) && is_alg(
                        simplified(rotated_candidate(alg, rotations@[j])),
                    ) ==> covers(all@, x),
            decreases rotations@.len() - k,
        {
            let e = rotations[k];
            let candidate = transform_twists(alg.twists.as_slice(), e);
            assert(candidate@ == rotated_candidate(alg, e));
            match build_alg_by(&candidate, ops) {
                Some(rotated) => {
                    let ghost before = all@;
                    all.insert_cheapest(rotated);
                    proof {
                        assert forall|t: int| 0 <= t < all@.len() implies before.contains(#[trigger] all@[t])
                            || all@[t].built_from(rotated_candidate(algs@[a as int], e)) by {
                            if !before.contains(all@[t]) {
                                assert(all@[t] == rotated);
                            }
                        }
                        lemma_from_rotations_kept(before, all@, algs@, a as int, e);
                        assert forall|j: int, x: Alg|
                            #![trigger x.built_from(rotated_candidate(alg, rotations@[j]))]
                            0 <= j < k + 1 && x.built_from(
                                rotated_candidate(alg, rotations@[j]),
                            ) && is_alg(simplified(rotated_candidate(alg, rotations@[j])))
                                implies covers(all@, x) by {
                            if j == k {
                                lemma_covers_built(all@, rotated, x, candidate@);
                            } else {
                                assert(covers(before, x));
                            }
                        }
                        assert forall|i: int, e2: ElemId, x: Alg|
                            #![trigger x.built_from(rotated_candidate(algs@[i], e2))]
                            0 <= i < a && e2.wf() && e2.fixes_grip(I) && x.built_from(
                                rotated_candidate(algs@[i], e2),
                            ) && is_alg(simplified(rotated_candidate(algs@[i], e2))) implies covers(
                                all@,
                                x,
                            ) by {
                            assert(covers(before, x));
                        }
                    }
                },
                None => {
                    proof {
                        assert forall|j: int, x: Alg|
                            #![trigger x.built_from(rotated_candidate(alg, rotations@[j]))]
                            0 <= j < k + 1 && x.built_from(
                                rotated_candidate(alg, rotations@[j]),
                            ) && is_alg(simplified(rotated_candidate(alg, rotations@[j])))
                                implies covers(all@, x) by {
                            if j == k {
                                assert(!is_alg(simplified(candidate@)));
                            }
                        }
                    }
                },
            }
            k += 1;
        }
        proof {
            assert forall|i: int, e: ElemId, x: Alg|
                #![trigger x.built_from(rotated_candidate(algs@[i], e))]
                0 <= i < a + 1 && e.wf() && e.fixes_grip(I) && x.built_from(
                    rotated_candidate(algs@[i], e),
                ) && is_alg(simplified(rotated_candidate(algs@[i], e))) implies covers(all@, x) by {
                if i == a {
                    assert(rotations@.contains(e));
                    let j = choose|j: int| 0 <= j < rotations@.len() && rotations@[j] == e;
                    assert(x.built_from(rotated_candidate(alg, rotations@[j])) && is_alg(
                        simplified(rotated_candidate(alg, rotations@[j])),
                    ));
                }
            }
        }
        a += 1;
    }
    let r = all.into_algs();
    proof {
        assert forall|t: int, e: ElemId, x: Alg|
            #![trigger x.built_from(rotated_candidate(r@[t], e))]
            0 <= t < r@.len() && e.wf() && e.fixes_grip(I) && x.built_from(rotated_candidate(r@[t], e))
                && is_alg(simplified(rotated_candidate(r@[t], e))) implies covers(r@, x) by {
            lemma_rotations_stay_covered(algs@, r@, t, e, x);
        }
    }
    r
}

/// Every rotation of `z` about the last cell that is worth storing is
/// covered by `algs`.
pub open spec fn rotations_covered(algs: Seq<Alg>, z: Alg) -> bool {
    forall|e: ElemId, x: Alg|
        #![trigger x.built_from(rotated_candidate(z, e))]
        e.wf() && e.fixes_grip(I) && x.built_from(rotated_candidate(z, e)) && is_alg(
            simplified(rotated_candidate(z, e)),
        ) ==> covers(algs, x)
}

/// What is covered stays covered as the algorithms grow.
proof fn lemma_rotations_covered_grows(algs: Seq<Alg>, more: Seq<Alg>, z: Alg)
    requires
        rotations_covered(algs, z),
        forall|x: Alg| covers(algs, x) ==> #[trigger] covers(more, x),
    ensures
        rotations_covered(more, z),
{
    assert forall|e: ElemId, x: Alg|
        #![trigger x.built_from(rotated_candidate(z, e))]
        e.wf() && e.fixes_grip(I) && x.built_from(rotated_candidate(z, e)) && is_alg(
            simplified(rotated_candidate(z, e)),
        ) implies covers(more, x) by {
        assert(covers(algs, x));
    }
}

/// A rotation of an algorithm that is itself a rotation of one of `algs` is
/// a rotation of that one, so what covers every rotation of `algs` covers
/// it.
proof fn lemma_rotations_stay_covered(algs: Seq<Alg>, r: Seq<Alg>, t: int, e: ElemId, x: Alg)
    requires
        forall|i: int| 0 <= i < algs.len() ==> all_wf((#[trigger] algs[i]).twists@),
        forall|i: int, f: ElemId, y: Alg|
            #![trigger y.built_from(rotated_candidate(algs[i], f))]
            0 <= i < algs.len() && f.wf() && f.fixes_grip(I) && y.built_from(rotated_candidate(algs[i], f))
                && is_alg(simplified(rotated_candidate(algs[i], f))) ==> covers(r, y),
        0 <= t < r.len(),
        from_rotations(r[t], algs),
        e.wf(),
        e.fixes_grip(I),
        x.built_from(rotated_candidate(r[t], e)),
        is_alg(simplified(rotated_candidate(r[t], e))),
    ensures
        covers(r, x),
{
    let (i, f) = choose|i: int, f: ElemId|
        0 <= i < algs.len() && f.wf() && f.fixes_grip(I) && r[t].built_from(rotated_candidate(algs[i], f));
    let y = algs[i].twists@;
    let once = crate::symmetry::transformed_twists(y, f);
    let twice = crate::symmetry::transformed_twists(once, e);
    assert(all_wf(y));
    lemma_transformed_wf(y, f);
    lemma_transformed_wf(once, e);
    lemma_rotation_commutes_with_simplify(once, e);
    crate::lastcell::lemma_simplified_no_repeated_grip(twice);
    crate::lastcell::lemma_simplified_idempotent(simplified(twice));
    lemma_rotations_compose(y, e, f);
    crate::algebra::lemma_mul_wf(e, f);
    crate::algebra::lemma_grip_action_law(e, f, I);
    let ef = e.spec_times(f);
    assert(rotated_candidate(r[t], e) == crate::symmetry::transformed_twists(simplified(once), e));
    assert(simplified(rotated_candidate(r[t], e)) == simplified(rotated_candidate(algs[i], ef)));
    assert(x.built_from(rotated_candidate(algs[i], ef)));
}

/// Half of [`MAX_ALG_LEN`]: the deepest each side of the meet-in-the-middle can
/// go.
pub const MAX_HALF_DEPTH: usize = 6;

/// The candidate that pairs `first` with the reverse of `second`.
pub open spec fn paired(first: Seq<Twist>, second: Seq<Twist>) -> Seq<Twist> {
    first + inverted(second)
}

/// Sorts sequences shortest first.
fn sort_by_len(v: &mut Vec<StackVec<Twist, MAX_HALF_DEPTH>>)
    ensures
        final(v)@.to_multiset() == old(v)@.to_multiset(),
        final(v)@.len() == old(v)@.len(),
        forall|p: int, q: int|
            0 <= p < q < final(v)@.len() ==> (#[trigger] final(v)@[p])@.len() <= (
            #[trigger] final(v)@[q])@.len(),
{
    let n = v.len();
    let mut i: usize = 0;
    while i < n
        invariant
            n == v@.len(),
            i <= n,
            v@.to_multiset() == old(v)@.to_multiset(),
            forall|p: int, q: int|
                0 <= p < q < i ==> (#[trigger] v@[p])@.len() <= (#[trigger] v@[q])@.len(),
        decreases n - i,
    {
        let mut j: usize = i;
        while j > 0 && v[j].len() < v[j - 1].len()
            invariant
                n == v@.len(),
                j <= i < n,
                v@.to_multiset() == old(v)@.to_multiset(),
                forall|p: int, q: int|
                    0 <= p < q <= i && p != j && q != j ==> (#[trigger] v@[p])@.len() <= (
                    #[trigger] v@[q])@.len(),
                forall|q: int| j < q <= i ==> v@[j as int]@.len() < (#[trigger] v@[q])@.len(),
            decreases j,
        {
            let a = v[j];
            let b = v[j - 1];
            let ghost before = v@;
            v.set(j - 1, a);
            v.set(j, b);
            proof {
                vstd::seq_lib::to_multiset_update(before, j - 1, a);
                vstd::seq_lib::to_multiset_update(before.update(j - 1, a), j as int, b);
                assert(before.to_multiset().count(b) > 0);
                assert(v@.to_multiset() =~= before.to_multiset());
                assert forall|p: int, q: int|
                    0 <= p < q <= i && p != j - 1 && q != j - 1 implies (#[trigger] v@[p])@.len()
                    <= (#[trigger] v@[q])@.len() by {
                    if q == j {
                        assert(before[p]@.len() <= before[j - 1]@.len());
                    } else if p == j {
                        assert(before[j - 1]@.len() <= before[q]@.len());
                    } else {
                        assert(before[p]@.len() <= before[q]@.len());
                    }
                }
            }
            j = j - 1;
        }
        proof {
            assert forall|p: int, q: int| 0 <= p < q < i + 1 implies (#[trigger] v@[p])@.len()
                <= (#[trigger] v@[q])@.len() by {
                if q == j && p < j && p != j - 1 {
                    assert(v@[p]@.len() <= v@[j - 1]@.len());
                }
            }
        }
        i = i + 1;
    }
}

/// The twists of `first` followed by the reverse of `second`.
fn pair_twists(first: &StackVec<Twist, MAX_HALF_DEPTH>, second: &StackVec<Twist, MAX_HALF_DEPTH>) -> (r: Vec<Twist>)
    requires
        all_wf(first@),
        all_wf(second@),
    ensures
        r@ == paired(first@, second@),
        all_wf(r@),
{
    let mut r: Vec<Twist> = Vec::new();
    let a = first.as_slice();
    let mut k: usize = 0;
    while k < a.len()
        invariant
            0 <= k <= a@.len(),
            a@ == first@,
            r@ == first@.take(k as int),
        decreases a@.len() - k,
    {
        r.push(a[k]);
        proof {
            assert(first@.take(k + 1) == first@.take(k as int).push(a@[k as int]));
        }
        k += 1;
    }
    let back = invert_twists(second.as_slice());
    let mut k: usize = 0;
    while k < back.len()
        invariant
            0 <= k <= back@.len(),
            back@ == inverted(second@),
            r@ == first@ + back@.take(k as int),
        decreases back@.len() - k,
    {
        r.push(back[k]);
        proof {
            assert(back@.take(k + 1) == back@.take(k as int).push(back@[k as int]));
        }
        k += 1;
    }
    proof {
        assert(first@.take(first@.len() as int) == first@);
        assert(back@.take(back@.len() as int) == back@);
        crate::lastcell::lemma_inverted_involution(second@);
        assert forall|k: int| 0 <= k < r@.len() implies (#[trigger] r@[k]).wf() by {
            if k < first@.len() {
                assert(r@[k] == first@[k]);
            } else {
                assert(r@[k] == back@[k - first@.len()]);
            }
        }
    }
    r
}

/// Every algorithm built from pairing the `p`th kept sequence with the
/// reverse of the `q`th is covered by `algs`.
pub open spec fn pair_covered(
    algs: Seq<Alg>,
    kept: Seq<StackVec<Twist, MAX_HALF_DEPTH>>,
    p: int,
    q: int,
) -> bool {
    forall|x: Alg|
        #![trigger x.built_from(paired(kept[p]@, kept[q]@))]
        x.built_from(paired(kept[p]@, kept[q]@)) && is_alg(simplified(paired(kept[p]@, kept[q]@)))
            ==> covers(algs, x)
}

/// The sequences are in order of length, shortest first.
pub open spec fn shortest_first(s: Seq<StackVec<Twist, MAX_HALF_DEPTH>>) -> bool {
    forall|p: int, q: int| 0 <= p < q < s.len() ==> (#[trigger] s[p])@.len() <= (#[trigger] s[q])@.len()
}

/// `kept` is the first `max_bucket` sequences of some arrangement of
/// `bucket` shortest first: all of it when it holds no more than that.
pub open spec fn shortest_of(
    kept: Seq<StackVec<Twist, MAX_HALF_DEPTH>>,
    bucket: Seq<StackVec<Twist, MAX_HALF_DEPTH>>,
    max_bucket: usize,
) -> bool {
    exists|sorted: Seq<StackVec<Twist, MAX_HALF_DEPTH>>|
        #![trigger sorted.to_multiset(), shortest_first(sorted)]
        sorted.to_multiset() == bucket.to_multiset() && sorted.len() == bucket.len() && shortest_first(sorted)
            && kept == sorted.take(if bucket.len() <= max_bucket { bucket.len() as int } else { max_bucket as int })
}

/// Every algorithm built from pairing two distinct sequences among the
/// `max_bucket` shortest of the bucket is covered by `algs`.
pub open spec fn bucket_covered(
    algs: Seq<Alg>,
    bucket: Seq<StackVec<Twist, MAX_HALF_DEPTH>>,
    max_bucket: usize,
) -> bool {
    exists|kept: Seq<StackVec<Twist, MAX_HALF_DEPTH>>|
        #[trigger] shortest_of(kept, bucket, max_bucket) && forall|p: int, q: int|
            0 <= p < kept.len() && 0 <= q < kept.len() && p != q ==> #[trigger] pair_covered(algs, kept, p, q)
}

/// What `algs` covers stays covered in `more`.
proof fn lemma_pair_covered_grows(
    algs: Seq<Alg>,
    more: Seq<Alg>,
    kept: Seq<StackVec<Twist, MAX_HALF_DEPTH>>,
    p: int,
    q: int,
)
    requires
        pair_covered(algs, kept, p, q),
        forall|x: Alg| covers(algs, x) ==> #[trigger] covers(more, x),
    ensures
        pair_covered(more, kept, p, q),
{
    assert forall|x: Alg|
        #![trigger x.built_from(paired(kept[p]@, kept[q]@))]
        x.built_from(paired(kept[p]@, kept[q]@)) && is_alg(simplified(paired(kept[p]@, kept[q]@)))
            implies covers(more, x) by {
        assert(covers(algs, x));
    }
}

/// What `algs` covers stays covered in `more`.
proof fn lemma_bucket_covered_grows(
    algs: Seq<Alg>,
    more: Seq<Alg>,
    bucket: Seq<StackVec<Twist, MAX_HALF_DEPTH>>,
    max_bucket: usize,
)
    requires
        bucket_covered(algs, bucket, max_bucket),
        forall|x: Alg| covers(algs, x) ==> #[trigger] covers(more, x),
    ensures
        bucket_covered(more, bucket, max_bucket),
{
    let kept = choose|kept: Seq<StackVec<Twist, MAX_HALF_DEPTH>>|
        #[trigger] shortest_of(kept, bucket, max_bucket) && forall|p: int, q: int|
            0 <= p < kept.len() && 0 <= q < kept.len() && p != q ==> #[trigger] pair_covered(algs, kept, p, q);
    assert forall|p: int, q: int| 0 <= p < kept.len() && 0 <= q < kept.len() && p != q implies #[trigger] pair_covered(
        more,
        kept,
        p,
        q,
    ) by {
        lemma_pair_covered_grows(algs, more, kept, p, q);
    }
}

/// Builds the candidate pairing `first` with the reverse of `second` and
/// keeps it if it is an algorithm.
fn try_pair<O: PieceOps>(
    all: &mut AlgSet,
    first: &StackVec<Twist, MAX_HALF_DEPTH>,
    second: &StackVec<Twist, MAX_HALF_DEPTH>,
    ops: &O,
)
    requires
        all_wf(first@),
        all_wf(second@),
        old(all).wf(),
        all_valid(old(all)@),
    ensures
        final(all).wf(),
        distinct_effects(final(all)@),
        all_valid(final(all)@),
        forall|x: Alg| covers(old(all)@, x) ==> #[trigger] covers(final(all)@, x),
        forall|x: Alg|
            #![trigger x.built_from(paired(first@, second@))]
            x.built_from(paired(first@, second@)) && is_alg(simplified(paired(first@, second@)))
                ==> covers(final(all)@, x),
        forall|i: int|
            0 <= i < final(all)@.len() ==> old(all)@.contains(#[trigger] final(all)@[i])
                || final(all)@[i].built_from(paired(first@, second@)),
{
    let candidate = pair_twists(first, second);
    match build_alg_by(&candidate, ops) {
        Some(alg) => {
            all.insert_cheapest(alg);
            proof {
                assert forall|x: Alg|
                    #![trigger x.built_from(paired(first@, second@))]
                    x.built_from(paired(first@, second@)) && is_alg(
                        simplified(paired(first@, second@)),
                    ) implies covers(all@, x) by {
                    lemma_covers_built(all@, alg, x, candidate@);
                }
            }
        },
        None => {},
    }
}

/// Algorithms that were made from pairs, or are built from pairing `u`
/// and `w` of bucket `b`, are all made from pairs.
proof fn lemma_from_pairs_kept(
    old: Seq<Alg>,
    new: Seq<Alg>,
    buckets: Seq<Vec<StackVec<Twist, MAX_HALF_DEPTH>>>,
    b: int,
    u: StackVec<Twist, MAX_HALF_DEPTH>,
    w: StackVec<Twist, MAX_HALF_DEPTH>,
)
    requires
        forall|t: int| 0 <= t < old.len() ==> from_pairs(#[trigger] old[t], buckets),
        0 <= b < buckets.len(),
        buckets[b]@.contains(u),
        buckets[b]@.contains(w),
        forall|t: int| 0 <= t < new.len() ==> old.contains(#[trigger] new[t]) || new[t].built_from(paired(u@, w@)),
    ensures
        forall|t: int| 0 <= t < new.len() ==> from_pairs(#[trigger] new[t], buckets),
{
    assert forall|t: int| 0 <= t < new.len() implies from_pairs(#[trigger] new[t], buckets) by {
        if old.contains(new[t]) {
            let q = choose|q: int| 0 <= q < old.len() && old[q] == new[t];
            assert(from_pairs(old[q], buckets));
        } else {
            assert(buckets[b]@.contains(u) && buckets[b]@.contains(w) && new[t].built_from(paired(u@, w@)));
        }
    }
}

/// `x` is built from pairing a half of one of the buckets with the reverse
/// of a half of the same bucket.
pub open spec fn from_pairs(x: Alg, buckets: Seq<Vec<StackVec<Twist, MAX_HALF_DEPTH>>>) -> bool {
    exists|b: int, u: StackVec<Twist, MAX_HALF_DEPTH>, w: StackVec<Twist, MAX_HALF_DEPTH>|
        #![trigger buckets[b]@.contains(u), buckets[b]@.contains(w), x.built_from(paired(u@, w@))]
        0 <= b < buckets.len() && buckets[b]@.contains(u) && buckets[b]@.contains(w) && x.built_from(
            paired(u@, w@),
        )
}

/// Pairs up the sequences of each bucket, keeping the cheapest algorithm
/// found for each distinct effect on the last cell.
///
/// Within a bucket, the `max_bucket` shortest sequences are paired, each
/// with the reverse of each other one.
pub fn join_halves<O: PieceOps>(
    max_bucket: usize,
    buckets: &[Vec<StackVec<Twist, MAX_HALF_DEPTH>>],
    ops: &O,
) -> (r: Vec<Alg>)
    requires
        forall|b: int, i: int|
            0 <= b < buckets@.len() && 0 <= i < buckets@[b]@.len() ==> all_wf(
                (#[trigger] buckets@[b]@[i])@,
            ),
    ensures
        distinct_effects(r@),
        all_valid(r@),
        forall|b: int| 0 <= b < buckets@.len() ==> bucket_covered(r@, #[trigger] buckets@[b]@, max_bucket),
        forall|i: int| 0 <= i < r@.len() ==> from_pairs(#[trigger] r@[i], buckets@),
{
    let mut all = AlgSet::new();
    let mut b: usize = 0;
    while b < buckets.len()
        invariant
            0 <= b <= buckets@.len(),
            forall|c: int, i: int|
                0 <= c < buckets@.len() && 0 <= i < buckets@[c]@.len() ==> all_wf(
                    (#[trigger] buckets@[c]@[i])@,
                ),
            all.wf(),
            distinct_effects(all@),
            all_valid(all@),
            forall|c: int| 0 <= c < b ==> bucket_covered(all@, #[trigger] buckets@[c]@, max_bucket),
            forall|t: int| 0 <= t < all@.len() ==> from_pairs(#[trigger] all@[t], buckets@),
        decreases buckets@.len() - b,
    {
        let ghost before_bucket = all@;
        let mut seqs: Vec<StackVec<Twist, MAX_HALF_DEPTH>> = Vec::new();
        let mut k: usize = 0;
        while k < buckets[b].len()
            invariant
                0 <= k <= buckets@[b as int]@.len(),
                b < buckets@.len(),
                seqs@ == buckets@[b as int]@.take(k as int),
            decreases buckets@[b as int]@.len() - k,
        {
            seqs.push(buckets[b][k]);
            proof {
                assert(buckets@[b as int]@.take(k + 1) == buckets@[b as int]@.take(k as int).push(
                    buckets@[b as int]@[k as int],
                ));
            }
            k += 1;
        }
        proof {
            assert(buckets@[b as int]@.take(buckets@[b as int]@.len() as int) == buckets@[b as int]@);
        }
        let ghost unsorted = seqs@;
        sort_by_len(&mut seqs);
        let ghost sorted = seqs@;
        proof {
            assert forall|i: int| 0 <= i < sorted.len() implies all_wf((#[trigger] sorted[i])@) by {
                assert(sorted.to_multiset().count(sorted[i]) > 0);
                assert(unsorted.contains(sorted[i]));
                let p = choose|p: int| 0 <= p < unsorted.len() && unsorted[p] == sorted[i];
                assert(all_wf(buckets@[b as int]@[p]@));
            }
        }
        if seqs.len() > max_bucket {
            seqs.truncate(max_bucket);
        }
        let ghost kept = seqs@;
        proof {
            assert forall|i: int| 0 <= i < kept.len() implies all_wf((#[trigger] kept[i])@) by {
                assert(kept[i] == sorted[i]);
            }
            assert forall|i: int| 0 <= i < kept.len() implies buckets@[b as int]@.contains(#[trigger] kept[i]) by {
                assert(kept[i] == sorted[i]);
                assert(sorted.to_multiset().count(sorted[i]) > 0);
                assert(unsorted.contains(sorted[i]));
            }
        }
        let n = seqs.len();
        let mut i: usize = 0;
        while i < n
            invariant
                n == seqs@.len(),
                kept == seqs@,
                0 <= i <= n,
                forall|m: int| 0 <= m < n ==> all_wf((#[trigger] kept[m])@),
                b < buckets@.len(),
                forall|m: int| 0 <= m < n ==> buckets@[b as int]@.contains(#[trigger] kept[m]),
                forall|t: int| 0 <= t < all@.len() ==> from_pairs(#[trigger] all@[t], buckets@),
                all.wf(),
                distinct_effects(all@),
                all_valid(all@),
                forall|x: Alg| covers(before_bucket, x) ==> #[trigger] covers(all@, x),
                forall|p: int, q: int|
                    0 <= p < n && 0 <= q < n && p != q && (p < i || q < i) ==> #[trigger] pair_covered(
                        all@,
                        kept,
                        p,
                        q,
                    ),
            decreases n - i,
        {
            let mut j: usize = i + 1;
            while j < n
                invariant
                    n == seqs@.len(),
                    kept == seqs@,
                    0 <= i < n,
                    i < j <= n,
                    forall|m: int| 0 <= m < n ==> all_wf((#[trigger] kept[m])@),
                    b < buckets@.len(),
                    forall|m: int| 0 <= m < n ==> buckets@[b as int]@.contains(#[trigger] kept[m]),
                    forall|t: int| 0 <= t < all@.len() ==> from_pairs(#[trigger] all@[t], buckets@),
                    all.wf(),
                    distinct_effects(all@),
                    all_valid(all@),
                    forall|x: Alg| covers(before_bucket, x) ==> #[trigger] covers(all@, x),
                    forall|p: int, q: int|
                        0 <= p < n && 0 <= q < n && p != q && ((p < i || q < i) || (p == i && q
                            < j && q > i) || (q == i && p < j && p > i)) ==> #[trigger] pair_covered(
                            all@,
                            kept,
                            p,
                            q,
                        ),
                decreases n - j,
            {
                let ghost a0 = all@;
                try_pair(&mut all, &seqs[i], &seqs[j], ops);
                let ghost a1 = all@;
                try_pair(&mut all, &seqs[j], &seqs[i], ops);
                proof {
                    lemma_from_pairs_kept(a0, a1, buckets@, b as int, kept[i as int], kept[j as int]);
                    lemma_from_pairs_kept(a1, all@, buckets@, b as int, kept[j as int], kept[i as int]);
                    assert forall|p: int, q: int|
                        0 <= p < n && 0 <= q < n && p != q && ((p < i || q < i) || (p == i && q
                            < j + 1 && q > i) || (q == i && p < j + 1 && p > i)) implies #[trigger] pair_covered(
                            all@,
                            kept,
                            p,
                            q,
                        ) by {
                        if (p == i && q == j) {
                            lemma_pair_covered_grows(a1, all@, kept, p, q);
                        } else if (q == i && p == j) {
                        } else {
                            lemma_pair_covered_grows(a0, a1, kept, p, q);
                            lemma_pair_covered_grows(a1, all@, kept, p, q);
                        }
                    }
                }
                j += 1;
            }
            i += 1;
        }
        proof {
            let bucket = buckets@[b as int]@;
            assert(unsorted == bucket);
            assert(kept =~= sorted.take(if bucket.len() <= max_bucket { bucket.len() as int } else { max_bucket as int }));
            assert(shortest_first(sorted));
            assert(shortest_of(kept, bucket, max_bucket));
            assert forall|p: int, q: int| 0 <= p < kept.len() && 0 <= q < kept.len() && p != q implies #[trigger] pair_covered(
                all@,
                kept,
                p,
                q,
            ) by {}
            assert(bucket_covered(all@, bucket, max_bucket));
            assert forall|c: int| 0 <= c < b implies bucket_covered(all@, #[trigger] buckets@[c]@, max_bucket) by {
                lemma_bucket_covered_grows(before_bucket, all@, buckets@[c]@, max_bucket);
            }
        }
        b += 1;
    }
    all.into_algs()
}

/// One sweep of the meet-in-the-middle search.
#[derive(Debug, Clone, PartialEq, Eq, Hash)]
pub struct AlgPass {
    /// Grips that algorithms may use besides the last cell's own grip.
    pub grips: Vec<GripId>,
    /// How deep to search from each side. Algorithms are up to twice this long.
    pub half_depth: usize,
}

/// The sweeps that build an algorithm table, and how much of each bucket
/// gets paired up.
#[derive(Debug, Clone, PartialEq, Eq, Hash)]
pub struct AlgTableParams {
    pub passes: Vec<AlgPass>,
    /// Cap on how many sequences from one bucket get paired up, so that a
    /// single huge bucket cannot dominate the run.
    pub max_bucket: usize,
    pub verbosity: u8,
}

impl Default for AlgTableParams {
    /// A deep pass on `R` alone, then a shallower one on `R` and `U`.
    fn default() -> (p: Self)
        ensures
            p.passes@.len() == 2,
            p.passes@[0].grips@ == seq![GripId::R],
            p.passes@[0].half_depth == 4,
            p.passes@[1].grips@ == seq![GripId::R, GripId::U],
            p.passes@[1].half_depth == 3,
            p.max_bucket == 512,
            p.verbosity == 2,
    {
        let mut passes: Vec<AlgPass> = Vec::new();
        let mut first: Vec<GripId> = Vec::new();
        first.push(GripId::R);
        passes.push(AlgPass { grips: first, half_depth: 4 });
        let mut second: Vec<GripId> = Vec::new();
        second.push(GripId::R);
        second.push(GripId::U);
        passes.push(AlgPass { grips: second, half_depth: 3 });
        AlgTableParams { passes, max_bucket: 512, verbosity: 2 }
    }
}

/// The F2L key of attitudes `a` for the cell of `g`: 255 where the piece
/// belongs to that cell, and otherwise the least attitude that looks like
/// the piece's.
pub open spec fn f2l_key_of(a: Seq<ElemId>, g: GripId) -> Seq<u8> {
    Seq::new(
        72,
        |i: int|
            if belongs_to_cell(a, i, g) {
                255u8
            } else {
                canonical_of(i, a[i]).0
            },
    )
}

/// An F2L key is the one [`f2l_key_of`] describes.
proof fn lemma_f2l_key_of(a: Seq<ElemId>, g: GripId, key: Seq<u8>)
    requires
        is_f2l_key(a, g, key),
    ensures
        key == f2l_key_of(a, g),
{
    assert forall|i: int| 0 <= i < 72 implies #[trigger] key[i] == f2l_key_of(a, g)[i] by {
        if !belongs_to_cell(a, i, g) {
            assert(is_canonical_attitude(i, a[i], ElemId(key[i])));
            lemma_canonical_unique(i, a[i], ElemId(key[i]), canonical_of(i, a[i]));
        }
    }
    assert(key =~= f2l_key_of(a, g));
}

/// The bucket of a half: the hash of the F2L key of where it leaves the
/// puzzle.
pub open spec fn half_hash(s: Seq<Twist>) -> u64 {
    DefaultHasher::spec_finish(seq![f2l_key_of(reached(s), I)])
}

/// Undoing twists that turn their own cells takes twists that do too.
proof fn lemma_inverted_turns_own_cell(ts: Seq<Twist>)
    requires
        crate::replay::all_turn_own_cell(ts),
    ensures
        crate::replay::all_turn_own_cell(inverted(ts)),
{
    assert forall|k: int| 0 <= k < inverted(ts).len() implies (#[trigger] inverted(ts)[k]).turns_own_cell() by {
        let t = ts[ts.len() - 1 - k];
        assert(t.turns_own_cell());
        crate::algebra::lemma_mul_inv(t.transform);
        crate::algebra::lemma_grip_inverse(t.transform, t.grip);
    }
}

/// Meeting in the middle, for any last cell: two sequences that reach
/// states with the same F2L key for `last` have moved that F2L to exactly
/// the same place, so the first followed by the reverse of the second puts
/// it back.
pub proof fn lemma_meet_in_the_middle_for(s1: Seq<Twist>, s2: Seq<Twist>, last: GripId, key: Seq<u8>)
    requires
        crate::replay::all_turn_own_cell(s1),
        crate::replay::all_turn_own_cell(s2),
        is_f2l_key(reached(s1), last, key),
        is_f2l_key(reached(s2), last, key),
    ensures
        f2l_solved(reached(paired(s1, s2)), last),
{
    let solved = solved_attitudes();
    let sa = reached(s1);
    let sb = reached(s2);
    let back = inverted(s2);
    assert(attitudes_wf(solved));
    crate::symmetry::lemma_applied_wf(solved, s1);
    crate::symmetry::lemma_applied_wf(solved, s2);
    lemma_inverted_turns_own_cell(s2);
    crate::symmetry::lemma_applied_concat(solved, s1, back);
    crate::symmetry::lemma_inverted_undoes(solved, s2);
    let r = twists_applied(sa, back);
    assert(reached(paired(s1, s2)) == r);
    assert forall|k: int| 0 <= k < 72 implies in_cell(last, k) || #[trigger] piece_solved(r, k) by {
        crate::replay::lemma_applied_as_path(sa, back, k);
        crate::replay::lemma_applied_as_path(sb, back, k);
        let j = crate::replay::path_source(back, k);
        let g = crate::replay::path_gain(back, k);
        let xa = sa[j];
        let xb = sb[j];
        assert(twists_applied(sb, back)[k] == ElemId(0));
        crate::algebra::lemma_inverse_unique(g, xb);
        crate::algebra::lemma_mul_inv(g);
        crate::algebra::lemma_mul_inv(xb);
        crate::algebra::lemma_mul_inv(xa);
        assert(g == xb.spec_inverse());
        if belongs_to_cell(sb, j, last) {
            crate::symmetry::lemma_touches_rotated(g, j, xb.spec_times_grip(last));
            crate::algebra::lemma_grip_action_law(g, xb, last);
            crate::locations::lemma_in_cell_touches(last, k);
        } else {
            assert(key[j] != 255);
            assert(!belongs_to_cell(sa, j, last));
            let c = ElemId(key[j]);
            assert(is_canonical_attitude(j, xa, c) && is_canonical_attitude(j, xb, c));
            reveal(crate::puzzle_state::looks_same);
            assert forall|h: GripId| #![trigger piece_touches(k, h)] piece_touches(k, h) implies g.spec_times(
                xa,
            ).spec_times_grip(h) == h by {
                let gg = xb.spec_times_grip(h);
                crate::symmetry::lemma_touches_rotated(g, j, gg);
                crate::algebra::lemma_grip_inverse(xb, h);
                assert(piece_touches(j, gg));
                assert(xa.spec_inverse().spec_times_grip(gg) == c.spec_inverse().spec_times_grip(gg));
                assert(xa.spec_inverse().spec_times_grip(gg) == h);
                crate::algebra::lemma_grip_inverse(xa, gg);
                crate::algebra::lemma_grip_action_law(g, xa, h);
            }
        }
    }
}

/// Meeting in the middle: two sequences that reach states with the same
/// F2L key have moved F2L to exactly the same place, so the first followed
/// by the reverse of the second puts F2L back.
pub proof fn lemma_meet_in_the_middle(s1: Seq<Twist>, s2: Seq<Twist>, key: Seq<u8>)
    requires
        crate::replay::all_turn_own_cell(s1),
        crate::replay::all_turn_own_cell(s2),
        is_f2l_key(reached(s1), I, key),
        is_f2l_key(reached(s2), I, key),
    ensures
        f2l_solved(reached(paired(s1, s2)), I),
{
    lemma_meet_in_the_middle_for(s1, s2, I, key);
}

/// The hash of an F2L key.
fn key_hash(key: &[u8; 72]) -> (h: u64)
    ensures
        h == DefaultHasher::spec_finish(seq![key@]),
{
    let mut hasher = DefaultHasher::new();
    hasher.write(key.as_slice());
    proof {
        assert(hasher@ =~= seq![key@]);
    }
    hasher.finish()
}

/// Every sequence in every bucket is made of twists that turn their own
/// cells, and is a half of at most `depth` twists of `allowed`.
pub open spec fn buckets_ok(
    buckets: Seq<Vec<StackVec<Twist, MAX_HALF_DEPTH>>>,
    allowed: Seq<GripId>,
    depth: usize,
) -> bool {
    forall|b: int, i: int|
        0 <= b < buckets.len() && 0 <= i < buckets[b]@.len() ==> {
            let s = (#[trigger] buckets[b]@[i])@;
            &&& crate::replay::all_turn_own_cell(s)
            &&& all_wf(s)
            &&& is_half(s, allowed, depth as int)
        }
}

/// `s` is one of the sequences in the buckets.
pub open spec fn in_buckets(buckets: Seq<Vec<StackVec<Twist, MAX_HALF_DEPTH>>>, s: Seq<Twist>) -> bool {
    exists|b: int, i: int|
        0 <= b < buckets.len() && 0 <= i < buckets[b]@.len() && (#[trigger] buckets[b]@[i])@ == s
}

/// `new` holds everything that `old` held, in the same places.
pub open spec fn buckets_grow(
    old: Seq<Vec<StackVec<Twist, MAX_HALF_DEPTH>>>,
    new: Seq<Vec<StackVec<Twist, MAX_HALF_DEPTH>>>,
) -> bool {
    &&& old.len() <= new.len()
    &&& forall|b: int| 0 <= b < old.len() ==> old[b]@.len() <= (#[trigger] new[b])@.len()
    &&& forall|b: int, i: int|
        0 <= b < old.len() && 0 <= i < old[b]@.len() ==> #[trigger] new[b]@[i] == old[b]@[i]
}

/// Each sequence sits in the bucket that `index` gives for its hash, and
/// `index` gives only buckets that exist, a different one for each hash.
pub open spec fn indexed(index: Map<u64, usize>, buckets: Seq<Vec<StackVec<Twist, MAX_HALF_DEPTH>>>) -> bool {
    &&& forall|h: u64| #[trigger] index.contains_key(h) ==> index[h] < buckets.len()
    &&& forall|h1: u64, h2: u64|
        #[trigger] index.contains_key(h1) && #[trigger] index.contains_key(h2) && index[h1] == index[h2] ==> h1 == h2
    &&& forall|b: int, i: int|
        0 <= b < buckets.len() && 0 <= i < buckets[b]@.len() ==> index.contains_key(
            half_hash((#[trigger] buckets[b]@[i])@),
        ) && index[half_hash(buckets[b]@[i]@)] == b
}

/// What was in the buckets stays in them as they grow.
proof fn lemma_in_buckets_grows(
    old: Seq<Vec<StackVec<Twist, MAX_HALF_DEPTH>>>,
    new: Seq<Vec<StackVec<Twist, MAX_HALF_DEPTH>>>,
    s: Seq<Twist>,
)
    requires
        buckets_grow(old, new),
        in_buckets(old, s),
    ensures
        in_buckets(new, s),
{
    let (b, i) = choose|b: int, i: int|
        0 <= b < old.len() && 0 <= i < old[b]@.len() && (#[trigger] old[b]@[i])@ == s;
    assert(new[b]@[i] == old[b]@[i]);
}

/// Growing twice is growing.
proof fn lemma_buckets_grow_trans(
    a: Seq<Vec<StackVec<Twist, MAX_HALF_DEPTH>>>,
    b: Seq<Vec<StackVec<Twist, MAX_HALF_DEPTH>>>,
    c: Seq<Vec<StackVec<Twist, MAX_HALF_DEPTH>>>,
)
    requires
        buckets_grow(a, b),
        buckets_grow(b, c),
    ensures
        buckets_grow(a, c),
{
    assert forall|x: int| 0 <= x < a.len() implies a[x]@.len() <= (#[trigger] c[x])@.len() by {
        assert(a[x]@.len() <= b[x]@.len());
    }
    assert forall|x: int, i: int| 0 <= x < a.len() && 0 <= i < a[x]@.len() implies #[trigger] c[x]@[i]
        == a[x]@[i] by {
        assert(b[x]@[i] == a[x]@[i]);
        assert(a[x]@.len() <= b[x]@.len());
    }
}

/// No sequence is in the buckets twice.
pub open spec fn no_repeats(buckets: Seq<Vec<StackVec<Twist, MAX_HALF_DEPTH>>>) -> bool {
    forall|b1: int, i1: int, b2: int, i2: int|
        0 <= b1 < buckets.len() && 0 <= i1 < buckets[b1]@.len() && 0 <= b2 < buckets.len() && 0 <= i2
            < buckets[b2]@.len() && (b1 != b2 || i1 != i2) ==> (#[trigger] buckets[b1]@[i1])@ != (
        #[trigger] buckets[b2]@[i2])@
}

/// `s` begins with `p`.
pub open spec fn starts_with(s: Seq<Twist>, p: Seq<Twist>) -> bool {
    p.len() <= s.len() && s.take(p.len() as int) == p
}

/// Position `i` of bucket `b` was not filled in `old`.
pub open spec fn is_new(old: Seq<Vec<StackVec<Twist, MAX_HALF_DEPTH>>>, b: int, i: int) -> bool {
    b >= old.len() || i >= old[b]@.len()
}

/// No sequence in the buckets begins with `p`.
pub open spec fn none_start_with(buckets: Seq<Vec<StackVec<Twist, MAX_HALF_DEPTH>>>, p: Seq<Twist>) -> bool {
    forall|b: int, i: int|
        0 <= b < buckets.len() && 0 <= i < buckets[b]@.len() ==> !starts_with((#[trigger] buckets[b]@[i])@, p)
}

/// No twist is listed twice, in one list or two.
pub open spec fn twists_distinct(lists: Seq<Vec<Twist>>) -> bool {
    forall|g1: int, k1: int, g2: int, k2: int|
        0 <= g1 < lists.len() && 0 <= k1 < lists[g1]@.len() && 0 <= g2 < lists.len() && 0 <= k2 < lists[g2]@.len()
            && (g1 != g2 || k1 != k2) ==> #[trigger] lists[g1]@[k1] != #[trigger] lists[g2]@[k2]
}

/// Puts `sequence` into the bucket of `hash`, opening one if there is none.
fn add_to_bucket(
    index: &mut HashMap<u64, usize>,
    buckets: &mut Vec<Vec<StackVec<Twist, MAX_HALF_DEPTH>>>,
    hash: u64,
    sequence: StackVec<Twist, MAX_HALF_DEPTH>,
    allowed: Ghost<Seq<GripId>>,
    depth: usize,
)
    requires
        buckets_ok(old(buckets)@, allowed@, depth),
        indexed(old(index)@, old(buckets)@),
        hash == half_hash(sequence@),
        crate::replay::all_turn_own_cell(sequence@),
        all_wf(sequence@),
        is_half(sequence@, allowed@, depth as int),
    ensures
        buckets_ok(final(buckets)@, allowed@, depth),
        indexed(final(index)@, final(buckets)@),
        buckets_grow(old(buckets)@, final(buckets)@),
        in_buckets(final(buckets)@, sequence@),
        forall|b: int, i: int|
            0 <= b < final(buckets)@.len() && 0 <= i < final(buckets)@[b]@.len() && is_new(old(buckets)@, b, i)
                ==> (#[trigger] final(buckets)@[b]@[i])@ == sequence@,
        no_repeats(old(buckets)@) && (forall|b: int, i: int|
            0 <= b < old(buckets)@.len() && 0 <= i < old(buckets)@[b]@.len() ==> (#[trigger] old(buckets)@[b]@[i])@
                != sequence@) ==> no_repeats(final(buckets)@),
{
    broadcast use vstd::std_specs::hash::group_hash_axioms;

    let ghost old_index = index@;
    let found = match index.get(&hash) {
        Some(b) => {
            assert(index@.contains_key(hash) && index@[hash] == *b);
            *b
        },
        None => {
            assert(!index@.contains_key(hash));
            buckets.len()
        },
    };
    if found < buckets.len() {
        let ghost before = buckets@;
        assert(old_index.contains_key(hash) && old_index[hash] == found);
        let mut bucket = buckets[found].clone();
        proof {
            assert(bucket@ == before[found as int]@) by {
                assert forall|i: int| 0 <= i < bucket@.len() implies bucket@[i] == before[found as int]@[i] by {
                    assert(vstd::pervasive::cloned(before[found as int]@[i], bucket@[i]));
                }
                assert(bucket@ =~= before[found as int]@);
            }
        }
        let ghost at = bucket@.len() as int;
        bucket.push(sequence);
        buckets.set(found, bucket);
        proof {
            assert forall|b: int, i: int|
                0 <= b < buckets@.len() && 0 <= i < buckets@[b]@.len() implies {
                    let s = (#[trigger] buckets@[b]@[i])@;
                    &&& crate::replay::all_turn_own_cell(s)
                    &&& all_wf(s)
                    &&& is_half(s, allowed@, depth as int)
                } by {
                if b != found {
                    assert(buckets@[b] == before[b]);
                } else if i < before[b]@.len() {
                    assert(buckets@[b]@[i] == before[b]@[i]);
                }
            }
            assert forall|b: int, i: int|
                0 <= b < buckets@.len() && 0 <= i < buckets@[b]@.len() implies index@.contains_key(
                    half_hash((#[trigger] buckets@[b]@[i])@),
                ) && index@[half_hash(buckets@[b]@[i]@)] == b by {
                if b != found {
                    assert(buckets@[b] == before[b]);
                } else if i < before[b]@.len() {
                    assert(buckets@[b]@[i] == before[b]@[i]);
                } else {
                    assert(buckets@[b]@[i] == sequence);
                }
            }
            assert forall|b: int| 0 <= b < before.len() implies before[b]@.len() <= (
            #[trigger] buckets@[b])@.len() by {
                if b != found {
                    assert(buckets@[b] == before[b]);
                }
            }
            assert forall|b: int, i: int| 0 <= b < before.len() && 0 <= i < before[b]@.len() implies #[trigger] buckets@[b]@[i]
                == before[b]@[i] by {
                if b != found {
                    assert(buckets@[b] == before[b]);
                }
            }
            assert(buckets@[found as int]@[at] == sequence);
            assert forall|b: int, i: int|
                0 <= b < buckets@.len() && 0 <= i < buckets@[b]@.len() && is_new(before, b, i)
                    implies (#[trigger] buckets@[b]@[i])@ == sequence@ by {
                if b != found {
                    assert(buckets@[b] == before[b]);
                }
            }
            if no_repeats(before) && (forall|b: int, i: int|
                0 <= b < before.len() && 0 <= i < before[b]@.len() ==> (#[trigger] before[b]@[i])@ != sequence@) {
                assert forall|b1: int, i1: int, b2: int, i2: int|
                    0 <= b1 < buckets@.len() && 0 <= i1 < buckets@[b1]@.len() && 0 <= b2 < buckets@.len() && 0
                        <= i2 < buckets@[b2]@.len() && (b1 != b2 || i1 != i2) implies (#[trigger] buckets@[b1]@[i1])@
                        != (#[trigger] buckets@[b2]@[i2])@ by {
                    let new1 = b1 == found && i1 == at;
                    let new2 = b2 == found && i2 == at;
                    if !new1 {
                        if b1 != found {
                            assert(buckets@[b1] == before[b1]);
                        }
                        assert(buckets@[b1]@[i1] == before[b1]@[i1]);
                    }
                    if !new2 {
                        if b2 != found {
                            assert(buckets@[b2] == before[b2]);
                        }
                        assert(buckets@[b2]@[i2] == before[b2]@[i2]);
                    }
                }
            }
        }
    } else {
        let ghost before = buckets@;
        proof {
            assert forall|b: int, i: int| 0 <= b < before.len() && 0 <= i < before[b]@.len() implies half_hash(
                (#[trigger] before[b]@[i])@,
            ) != hash by {
                if half_hash(before[b]@[i]@) == hash {
                    assert(old_index.contains_key(hash));
                    assert(old_index[hash] < before.len());
                }
            }
        }
        index.insert(hash, buckets.len());
        let mut bucket: Vec<StackVec<Twist, MAX_HALF_DEPTH>> = Vec::new();
        bucket.push(sequence);
        buckets.push(bucket);
        proof {
            assert forall|b: int, i: int|
                0 <= b < buckets@.len() && 0 <= i < buckets@[b]@.len() implies {
                    let s = (#[trigger] buckets@[b]@[i])@;
                    &&& crate::replay::all_turn_own_cell(s)
                    &&& all_wf(s)
                    &&& is_half(s, allowed@, depth as int)
                } by {
                if b < before.len() {
                    assert(buckets@[b] == before[b]);
                }
            }
            assert forall|h: u64| #[trigger] index@.contains_key(h) implies index@[h] < buckets@.len() by {
                if h != hash {
                    assert(old_index.contains_key(h));
                }
            }
            assert forall|b: int, i: int|
                0 <= b < buckets@.len() && 0 <= i < buckets@[b]@.len() implies index@.contains_key(
                    half_hash((#[trigger] buckets@[b]@[i])@),
                ) && index@[half_hash(buckets@[b]@[i]@)] == b by {
                if b < before.len() {
                    assert(buckets@[b] == before[b]);
                    assert(half_hash(before[b]@[i]@) != hash);
                } else {
                    assert(buckets@[b]@[i] == sequence);
                }
            }
            assert forall|b: int| 0 <= b < before.len() implies before[b]@.len() <= (
            #[trigger] buckets@[b])@.len() by {
                assert(buckets@[b] == before[b]);
            }
            assert forall|b: int, i: int| 0 <= b < before.len() && 0 <= i < before[b]@.len() implies #[trigger] buckets@[b]@[i]
                == before[b]@[i] by {
                assert(buckets@[b] == before[b]);
            }
            assert(buckets@[before.len() as int]@[0] == sequence);
            assert forall|b: int, i: int|
                0 <= b < buckets@.len() && 0 <= i < buckets@[b]@.len() && is_new(before, b, i)
                    implies (#[trigger] buckets@[b]@[i])@ == sequence@ by {
                if b < before.len() {
                    assert(buckets@[b] == before[b]);
                }
            }
            if no_repeats(before) && (forall|b: int, i: int|
                0 <= b < before.len() && 0 <= i < before[b]@.len() ==> (#[trigger] before[b]@[i])@ != sequence@) {
                assert forall|b1: int, i1: int, b2: int, i2: int|
                    0 <= b1 < buckets@.len() && 0 <= i1 < buckets@[b1]@.len() && 0 <= b2 < buckets@.len() && 0
                        <= i2 < buckets@[b2]@.len() && (b1 != b2 || i1 != i2) implies (#[trigger] buckets@[b1]@[i1])@
                        != (#[trigger] buckets@[b2]@[i2])@ by {
                    if b1 < before.len() {
                        assert(buckets@[b1] == before[b1]);
                    }
                    if b2 < before.len() {
                        assert(buckets@[b2] == before[b2]);
                    }
                }
            }
        }
    }
}

/// `v` holds every twist of grip `g` but the trivial one, and nothing else.
pub open spec fn lists_twists(v: Seq<Twist>, g: GripId) -> bool {
    &&& forall|k: int|
        0 <= k < v.len() ==> (#[trigger] v[k]).grip == g && v[k].turns_own_cell() && v[k].transform
            != ElemId(0)
    &&& forall|e: ElemId|
        e.wf() && e.fixes_grip(g) && e != ElemId(0) ==> #[trigger] v.contains(
            Twist { grip: g, transform: e },
        )
}

/// A twist that a pass may use: a nontrivial twist of one of `grips`.
pub open spec fn pass_twist(t: Twist, grips: Seq<GripId>) -> bool {
    &&& t.turns_own_cell()
    &&& t.transform != ElemId(0)
    &&& grips.contains(t.grip)
}

/// A half that a pass explores: at most `depth` twists of `grips`, no two
/// in a row of the same grip.
pub open spec fn is_half(s: Seq<Twist>, grips: Seq<GripId>, depth: int) -> bool {
    &&& s.len() <= depth
    &&& forall|k: int| 0 <= k < s.len() ==> pass_twist(#[trigger] s[k], grips)
    &&& no_repeated_grip(s)
}

/// A half extended by a twist of the pass, of another grip than its last
/// one, is a half one twist longer.
proof fn lemma_half_extends(s: Seq<Twist>, t: Twist, allowed: Seq<GripId>, depth: int)
    requires
        is_half(s, allowed, depth),
        s.len() < depth,
        pass_twist(t, allowed),
        s.len() > 0 ==> s.last().grip != t.grip,
    ensures
        is_half(s.push(t), allowed, depth),
{
    let l = s.push(t);
    assert forall|j: int| 0 <= j < l.len() implies pass_twist(#[trigger] l[j], allowed) by {
        if j < s.len() {
            assert(l[j] == s[j]);
        }
    }
    assert forall|j: int| 0 < j < l.len() implies #[trigger] l[j - 1].grip != l[j].grip by {
        assert(l[j - 1] == s[j - 1]);
        if j < s.len() {
            assert(l[j] == s[j]);
        }
    }
}

/// `e` is `s`, or goes on from `s` with a twist in `done`.
pub open spec fn grown_from(e: Seq<Twist>, s: Seq<Twist>, done: Set<Twist>) -> bool {
    e == s || (starts_with(e, s) && e.len() > s.len() && done.contains(e[s.len() as int]))
}

/// Every twist in `done` is listed before position `k` of list `g`.
pub open spec fn done_before(done: Set<Twist>, lists: Seq<Vec<Twist>>, g: int, k: int) -> bool {
    forall|t: Twist|
        done.contains(t) ==> exists|gg: int, kk: int|
            #![trigger lists[gg]@[kk]]
            0 <= gg < lists.len() && 0 <= kk < lists[gg]@.len() && lists[gg]@[kk] == t && (gg < g || (gg == g
                && kk < k))
}

/// The twist at position `k` of list `g` is not yet done.
proof fn lemma_not_done(done: Set<Twist>, lists: Seq<Vec<Twist>>, g: int, k: int)
    requires
        twists_distinct(lists),
        done_before(done, lists, g, k),
        0 <= g < lists.len(),
        0 <= k < lists[g]@.len(),
    ensures
        !done.contains(lists[g]@[k]),
{
    if done.contains(lists[g]@[k]) {
        let (gg, kk) = choose|gg: int, kk: int|
            #![trigger lists[gg]@[kk]]
            0 <= gg < lists.len() && 0 <= kk < lists[gg]@.len() && lists[gg]@[kk] == lists[g]@[k] && (gg < g || (
            gg == g && kk < k));
        assert(lists[gg]@[kk] != lists[g]@[k]);
    }
}

/// No sequence of the buckets begins with `s` followed by a twist not yet
/// done.
proof fn lemma_fresh_prefix(
    old: Seq<Vec<StackVec<Twist, MAX_HALF_DEPTH>>>,
    cur: Seq<Vec<StackVec<Twist, MAX_HALF_DEPTH>>>,
    s: Seq<Twist>,
    t: Twist,
    done: Set<Twist>,
)
    requires
        buckets_grow(old, cur),
        none_start_with(old, s),
        !done.contains(t),
        forall|b: int, i: int|
            0 <= b < cur.len() && 0 <= i < cur[b]@.len() && is_new(old, b, i) ==> grown_from(
                (#[trigger] cur[b]@[i])@,
                s,
                done,
            ),
    ensures
        none_start_with(cur, s.push(t)),
{
    let l = s.push(t);
    assert forall|b: int, i: int| 0 <= b < cur.len() && 0 <= i < cur[b]@.len() implies !starts_with(
        (#[trigger] cur[b]@[i])@,
        l,
    ) by {
        let e = cur[b]@[i]@;
        if starts_with(e, l) {
            assert(e.take(s.len() as int) =~= e.take(l.len() as int).take(s.len() as int));
            assert(l.take(s.len() as int) =~= s);
            assert(e[s.len() as int] == e.take(l.len() as int)[s.len() as int]);
            if is_new(old, b, i) {
                assert(grown_from(e, s, done));
            } else {
                assert(cur[b]@[i] == old[b]@[i]);
                assert(!starts_with(old[b]@[i]@, s));
            }
        }
    }
}

/// What grew from `s` before a call stays so, and what the call added
/// begins with `s` and `t`.
proof fn lemma_grown_after(
    old0: Seq<Vec<StackVec<Twist, MAX_HALF_DEPTH>>>,
    before: Seq<Vec<StackVec<Twist, MAX_HALF_DEPTH>>>,
    after: Seq<Vec<StackVec<Twist, MAX_HALF_DEPTH>>>,
    s: Seq<Twist>,
    t: Twist,
    done: Set<Twist>,
)
    requires
        buckets_grow(old0, before),
        buckets_grow(before, after),
        forall|b: int, i: int|
            0 <= b < before.len() && 0 <= i < before[b]@.len() && is_new(old0, b, i) ==> grown_from(
                (#[trigger] before[b]@[i])@,
                s,
                done,
            ),
        forall|b: int, i: int|
            0 <= b < after.len() && 0 <= i < after[b]@.len() && is_new(before, b, i) ==> starts_with(
                (#[trigger] after[b]@[i])@,
                s.push(t),
            ),
    ensures
        forall|b: int, i: int|
            0 <= b < after.len() && 0 <= i < after[b]@.len() && is_new(old0, b, i) ==> grown_from(
                (#[trigger] after[b]@[i])@,
                s,
                done.insert(t),
            ),
{
    assert forall|b: int, i: int|
        0 <= b < after.len() && 0 <= i < after[b]@.len() && is_new(old0, b, i) implies grown_from(
            (#[trigger] after[b]@[i])@,
            s,
            done.insert(t),
        ) by {
        let e = after[b]@[i]@;
        let l = s.push(t);
        if is_new(before, b, i) {
            assert(starts_with(e, l));
            assert(e.take(s.len() as int) =~= e.take(l.len() as int).take(s.len() as int));
            assert(l.take(s.len() as int) =~= s);
            assert(e[s.len() as int] == e.take(l.len() as int)[s.len() as int]);
            assert(e[s.len() as int] == t);
        } else {
            assert(after[b]@[i] == before[b]@[i]);
            assert(grown_from(before[b]@[i]@, s, done));
        }
    }
}

/// Files `sequence`, which reaches `state`, under the hash of its F2L key,
/// and then every extension of it by twists of `allowed` up to `depth`
/// twists. Two twists of one grip in a row are just a single twist that is
/// also visited, so they are skipped.
fn enumerate_from<O: PieceOps>(
    ops: &O,
    depth: usize,
    allowed: Ghost<Seq<GripId>>,
    twists_for_grips: &Vec<Vec<Twist>>,
    index: &mut HashMap<u64, usize>,
    buckets: &mut Vec<Vec<StackVec<Twist, MAX_HALF_DEPTH>>>,
    state: PuzzleState,
    sequence: StackVec<Twist, MAX_HALF_DEPTH>,
)
    requires
        depth <= MAX_HALF_DEPTH,
        sequence@.len() <= depth,
        state@ == reached(sequence@),
        crate::replay::all_turn_own_cell(sequence@),
        all_wf(sequence@),
        is_half(sequence@, allowed@, depth as int),
        twists_for_grips@.len() == allowed@.len(),
        forall|g: int| 0 <= g < allowed@.len() ==> lists_twists(#[trigger] twists_for_grips@[g]@, allowed@[g]),
        buckets_ok(old(buckets)@, allowed@, depth),
        indexed(old(index)@, old(buckets)@),
        twists_distinct(twists_for_grips@) ==> no_repeats(old(buckets)@) && none_start_with(
            old(buckets)@,
            sequence@,
        ),
    ensures
        buckets_ok(final(buckets)@, allowed@, depth),
        indexed(final(index)@, final(buckets)@),
        buckets_grow(old(buckets)@, final(buckets)@),
        twists_distinct(twists_for_grips@) ==> no_repeats(final(buckets)@),
        forall|b: int, i: int|
            0 <= b < final(buckets)@.len() && 0 <= i < final(buckets)@[b]@.len() && is_new(old(buckets)@, b, i)
                ==> starts_with((#[trigger] final(buckets)@[b]@[i])@, sequence@),
        forall|ext: Seq<Twist>|
            #[trigger] is_half(sequence@ + ext, allowed@, depth as int) ==> in_buckets(
                final(buckets)@,
                sequence@ + ext,
            ),
    decreases depth - sequence@.len(),
{
    let key = state.f2l_key_by(I, ops);
    let hash = key_hash(&key);
    proof {
        lemma_f2l_key_of(state@, I, key@);
    }
    proof {
        if twists_distinct(twists_for_grips@) {
            assert forall|b: int, i: int|
                0 <= b < buckets@.len() && 0 <= i < buckets@[b]@.len() implies (#[trigger] buckets@[b]@[i])@
                    != sequence@ by {
                assert(sequence@.take(sequence@.len() as int) =~= sequence@);
                assert(!starts_with(buckets@[b]@[i]@, sequence@));
            }
        }
    }
    add_to_bucket(index, buckets, hash, sequence, allowed, depth);
    let ghost mut done: Set<Twist> = Set::empty();
    proof {
        assert(sequence@.take(sequence@.len() as int) =~= sequence@);
    }
    if sequence.len() >= depth {
        proof {
            assert forall|ext: Seq<Twist>| #[trigger] is_half(sequence@ + ext, allowed@, depth as int) implies in_buckets(
                buckets@,
                sequence@ + ext,
            ) by {
                assert(ext.len() == 0);
                assert(sequence@ + ext =~= sequence@);
            }
        }
        return;
    }
    let n = sequence.len();
    let ghost start = buckets@;
    let mut g: usize = 0;
    while g < twists_for_grips.len()
        invariant
            depth <= MAX_HALF_DEPTH,
            n == sequence@.len(),
            n < depth,
            state@ == reached(sequence@),
            crate::replay::all_turn_own_cell(sequence@),
            all_wf(sequence@),
            is_half(sequence@, allowed@, depth as int),
            twists_for_grips@.len() == allowed@.len(),
            forall|gg: int| 0 <= gg < allowed@.len() ==> lists_twists(#[trigger] twists_for_grips@[gg]@, allowed@[gg]),
            buckets_ok(buckets@, allowed@, depth),
            indexed(index@, buckets@),
            buckets_grow(old(buckets)@, buckets@),
            in_buckets(buckets@, sequence@),
            forall|ext: Seq<Twist>|
                #[trigger] is_half(sequence@ + ext, allowed@, depth as int) && ext.len() > 0 && (exists|gg: int|
                    0 <= gg < g && allowed@[gg] == ext[0].grip) ==> in_buckets(buckets@, sequence@ + ext),
            twists_distinct(twists_for_grips@) ==> no_repeats(buckets@) && none_start_with(old(buckets)@, sequence@),
            done_before(done, twists_for_grips@, g as int, 0),
            forall|b: int, i: int|
                0 <= b < buckets@.len() && 0 <= i < buckets@[b]@.len() && is_new(old(buckets)@, b, i) ==> grown_from(
                    (#[trigger] buckets@[b]@[i])@,
                    sequence@,
                    done,
                ),
        decreases twists_for_grips@.len() - g,
    {
        let twists = &twists_for_grips[g];
        let repeats = twists.len() > 0 && n > 0 && twists[0].grip == sequence.get(n - 1).grip;
        if !repeats {
            let mut k: usize = 0;
            while k < twists.len()
                invariant
                    depth <= MAX_HALF_DEPTH,
                    n == sequence@.len(),
                    n < depth,
                    g < twists_for_grips@.len(),
                    *twists == twists_for_grips@[g as int],
                    state@ == reached(sequence@),
                    crate::replay::all_turn_own_cell(sequence@),
                    all_wf(sequence@),
                    is_half(sequence@, allowed@, depth as int),
                    twists_for_grips@.len() == allowed@.len(),
                    twists@.len() > 0 && n > 0 ==> twists@[0].grip != sequence@[n - 1].grip,
                    forall|gg: int| 0 <= gg < allowed@.len() ==> lists_twists(#[trigger] twists_for_grips@[gg]@, allowed@[gg]),
                    buckets_ok(buckets@, allowed@, depth),
                    indexed(index@, buckets@),
                    buckets_grow(old(buckets)@, buckets@),
                    in_buckets(buckets@, sequence@),
                    forall|ext: Seq<Twist>|
                        #[trigger] is_half(sequence@ + ext, allowed@, depth as int) && ext.len() > 0 && ((exists|gg: int|
                            0 <= gg < g && allowed@[gg] == ext[0].grip) || (exists|kk: int|
                            0 <= kk < k && twists@[kk] == ext[0])) ==> in_buckets(buckets@, sequence@ + ext),
                    twists_distinct(twists_for_grips@) ==> no_repeats(buckets@) && none_start_with(
                        old(buckets)@,
                        sequence@,
                    ),
                    done_before(done, twists_for_grips@, g as int, k as int),
                    forall|b: int, i: int|
                        0 <= b < buckets@.len() && 0 <= i < buckets@[b]@.len() && is_new(old(buckets)@, b, i)
                            ==> grown_from((#[trigger] buckets@[b]@[i])@, sequence@, done),
                decreases twists@.len() - k,
            {
                let twist = twists[k];
                assert(lists_twists(twists_for_grips@[g as int]@, allowed@[g as int]));
                assert(twist.turns_own_cell());
                let mut next = state;
                next.do_twist_by(twist, ops);
                let longer = sequence.push(twist).unwrap();
                let ghost before = buckets@;
                proof {
                    assert forall|j: int| 0 <= j < longer@.len() implies (#[trigger] longer@[j]).turns_own_cell() by {
                        if j < n {
                            assert(longer@[j] == sequence@[j]);
                        }
                    }
                    assert(longer@.drop_last() =~= sequence@);
                    assert(twists@[0].grip == allowed@[g as int]);
                    assert(allowed@[g as int] == twist.grip);
                    assert(pass_twist(twist, allowed@));
                    if n > 0 {
                        assert(sequence@.last() == sequence@[n - 1]);
                    }
                    lemma_half_extends(sequence@, twist, allowed@, depth as int);
                    assert(longer@ == sequence@.push(twist));
                    assert(is_half(longer@, allowed@, depth as int));
                }
                proof {
                    if twists_distinct(twists_for_grips@) {
                        lemma_not_done(done, twists_for_grips@, g as int, k as int);
                        lemma_fresh_prefix(old(buckets)@, buckets@, sequence@, twist, done);
                    }
                }
                enumerate_from(ops, depth, allowed, twists_for_grips, index, buckets, next, longer);
                proof {
                    lemma_grown_after(old(buckets)@, before, buckets@, sequence@, twist, done);
                    done = done.insert(twist);
                    assert forall|t: Twist| done.contains(t) implies exists|gg: int, kk: int|
                        #![trigger twists_for_grips@[gg]@[kk]]
                        0 <= gg < twists_for_grips@.len() && 0 <= kk < twists_for_grips@[gg]@.len()
                            && twists_for_grips@[gg]@[kk] == t && (gg < g || (gg == g && kk < k + 1)) by {
                        if t == twist {
                            assert(twists_for_grips@[g as int]@[k as int] == t);
                        }
                    }
                }
                proof {
                    lemma_buckets_grow_trans(old(buckets)@, before, buckets@);
                    lemma_in_buckets_grows(before, buckets@, sequence@);
                    assert forall|ext: Seq<Twist>|
                        #[trigger] is_half(sequence@ + ext, allowed@, depth as int) && ext.len() > 0 && ((exists|gg: int|
                            0 <= gg < g && allowed@[gg] == ext[0].grip) || (exists|kk: int|
                            0 <= kk < k + 1 && twists@[kk] == ext[0])) implies in_buckets(buckets@, sequence@ + ext) by {
                        if ext[0] == twist {
                            let rest = ext.subrange(1, ext.len() as int);
                            assert(longer@ + rest =~= sequence@ + ext);
                            assert(is_half(longer@ + rest, allowed@, depth as int));
                        } else {
                            if exists|kk: int| 0 <= kk < k + 1 && twists@[kk] == ext[0] {
                                let kk = choose|kk: int| 0 <= kk < k + 1 && twists@[kk] == ext[0];
                                assert(kk < k);
                            }
                            lemma_in_buckets_grows(before, buckets@, sequence@ + ext);
                        }
                    }
                }
                k += 1;
            }
            proof {
                assert forall|ext: Seq<Twist>|
                    #[trigger] is_half(sequence@ + ext, allowed@, depth as int) && ext.len() > 0 && (exists|gg: int|
                        0 <= gg < g + 1 && allowed@[gg] == ext[0].grip) implies in_buckets(buckets@, sequence@ + ext) by {
                    if allowed@[g as int] == ext[0].grip {
                        let t = ext[0];
                        assert((sequence@ + ext)[n as int] == t);
                        assert(pass_twist(t, allowed@));
                        assert(t == Twist { grip: allowed@[g as int], transform: t.transform });
                        assert(twists@.contains(t));
                    }
                }
            }
        } else {
            proof {
                assert forall|ext: Seq<Twist>|
                    #[trigger] is_half(sequence@ + ext, allowed@, depth as int) && ext.len() > 0 && (exists|gg: int|
                        0 <= gg < g + 1 && allowed@[gg] == ext[0].grip) implies in_buckets(buckets@, sequence@ + ext) by {
                    if allowed@[g as int] == ext[0].grip {
                        assert(twists@[0].grip == allowed@[g as int]);
                        assert((sequence@ + ext)[n - 1] == sequence@[n - 1]);
                        assert((sequence@ + ext)[n as int] == ext[0]);
                        assert((sequence@ + ext)[n - 1].grip != (sequence@ + ext)[n as int].grip);
                    }
                }
            }
        }
        g += 1;
    }
    proof {
        assert forall|ext: Seq<Twist>| #[trigger] is_half(sequence@ + ext, allowed@, depth as int) implies in_buckets(
            buckets@,
            sequence@ + ext,
        ) by {
            if ext.len() == 0 {
                assert(sequence@ + ext =~= sequence@);
            } else {
                let t = ext[0];
                assert((sequence@ + ext)[n as int] == t);
                assert(pass_twist(t, allowed@));
                let gg = choose|gg: int| 0 <= gg < allowed@.len() && allowed@[gg] == t.grip;
                assert(0 <= gg < g && allowed@[gg] == ext[0].grip);
            }
        }
    }
}

/// The buckets hold every half of the pass and nothing else, halves share
/// a bucket exactly when their F2L keys hash alike, and no half is there
/// twice when no grip is listed twice.
pub open spec fn pass_halves(buckets: Seq<Vec<StackVec<Twist, MAX_HALF_DEPTH>>>, pass: AlgPass) -> bool {
    &&& buckets_ok(buckets, seq![I] + pass.grips@, pass.half_depth)
    &&& forall|s: Seq<Twist>|
        #[trigger] is_half(s, seq![I] + pass.grips@, pass.half_depth as int) ==> in_buckets(buckets, s)
    &&& forall|b1: int, i1: int, b2: int, i2: int|
        0 <= b1 < buckets.len() && 0 <= i1 < buckets[b1]@.len() && 0 <= b2 < buckets.len() && 0 <= i2
            < buckets[b2]@.len() && half_hash((#[trigger] buckets[b1]@[i1])@) == half_hash(
            (#[trigger] buckets[b2]@[i2])@,
        ) ==> b1 == b2
    &&& forall|b: int, i: int, j: int|
        0 <= b < buckets.len() && 0 <= i < buckets[b]@.len() && 0 <= j < buckets[b]@.len() ==> half_hash(
            (#[trigger] buckets[b]@[i])@,
        ) == half_hash((#[trigger] buckets[b]@[j])@)
    &&& (seq![I] + pass.grips@).no_duplicates() ==> no_repeats(buckets)
}

/// `z` is built from a pairing of two halves of one of the buckets, seen
/// after a rotation that keeps the last cell in place.
pub open spec fn from_rotated_pairs(z: Alg, buckets: Seq<Vec<StackVec<Twist, MAX_HALF_DEPTH>>>) -> bool {
    exists|b: int, u: StackVec<Twist, MAX_HALF_DEPTH>, w: StackVec<Twist, MAX_HALF_DEPTH>, e: ElemId|
        #![trigger buckets[b]@.contains(u), buckets[b]@.contains(w), z.built_from(crate::symmetry::transformed_twists(simplified(paired(u@, w@)), e))]
        0 <= b < buckets.len() && buckets[b]@.contains(u) && buckets[b]@.contains(w) && e.wf()
            && e.fixes_grip(I) && z.built_from(
            crate::symmetry::transformed_twists(simplified(paired(u@, w@)), e),
        )
}

/// The algorithms are what the passes of `params` make of the halves
/// `halves`, grouped per pass as [`pass_halves`] says: they cover every
/// pairing within each bucket small enough to be paired whole, and each is
/// a rotation of such a pairing.
pub open spec fn made_from(
    algs: Seq<Alg>,
    params: AlgTableParams,
    halves: Seq<Seq<Vec<StackVec<Twist, MAX_HALF_DEPTH>>>>,
) -> bool {
    &&& halves.len() == params.passes@.len()
    &&& forall|k: int| 0 <= k < halves.len() ==> pass_halves(#[trigger] halves[k], params.passes@[k])
    &&& forall|k: int, b: int|
        0 <= k < halves.len() && 0 <= b < halves[k].len() ==> bucket_covered(
            algs,
            #[trigger] halves[k][b]@,
            params.max_bucket,
        )
    &&& forall|t: int| 0 <= t < algs.len() ==> from_some_pass(#[trigger] algs[t], halves, halves.len() as int)
}

/// `z` is a rotation of a pairing of the halves of one of the first `n`
/// passes.
pub open spec fn from_some_pass(z: Alg, halves: Seq<Seq<Vec<StackVec<Twist, MAX_HALF_DEPTH>>>>, n: int) -> bool {
    exists|k: int| 0 <= k < n && #[trigger] from_rotated_pairs(z, halves[k])
}

/// Groups every sequence of twists of the last cell and of the pass's grips,
/// up to the pass's depth, by the hash of where it leaves F2L.
pub fn enumerate_halves<O: PieceOps>(pass: &AlgPass, ops: &O) -> (r: Vec<Vec<StackVec<Twist, MAX_HALF_DEPTH>>>)
    requires
        pass.half_depth <= MAX_HALF_DEPTH,
    ensures
        pass_halves(r@, *pass),
{
    let ghost allowed = seq![I] + pass.grips@;
    let mut twists_for_grips: Vec<Vec<Twist>> = Vec::new();
    twists_for_grips.push(twists_for_grip(I));
    let mut g: usize = 0;
    while g < pass.grips.len()
        invariant
            0 <= g <= pass.grips@.len(),
            allowed == seq![I] + pass.grips@,
            twists_for_grips@.len() == g + 1,
            forall|gg: int| 0 <= gg < g + 1 ==> lists_twists(#[trigger] twists_for_grips@[gg]@, allowed[gg]),
            forall|gg: int, p: int, q: int|
                0 <= gg < g + 1 && 0 <= p < q < twists_for_grips@[gg]@.len() ==> (
                #[trigger] twists_for_grips@[gg]@[p]).transform.0 < (#[trigger] twists_for_grips@[gg]@[q]).transform.0,
        decreases pass.grips@.len() - g,
    {
        let ghost before = twists_for_grips@;
        twists_for_grips.push(twists_for_grip(pass.grips[g]));
        proof {
            assert(allowed[g + 1] == pass.grips@[g as int]);
            assert forall|gg: int, p: int, q: int|
                0 <= gg < g + 2 && 0 <= p < q < twists_for_grips@[gg]@.len() implies (
                #[trigger] twists_for_grips@[gg]@[p]).transform.0 < (#[trigger] twists_for_grips@[gg]@[q]).transform.0 by {
                if gg < g + 1 {
                    assert(twists_for_grips@[gg] == before[gg]);
                }
            }
        }
        g += 1;
    }
    let mut index: HashMap<u64, usize> = HashMap::new();
    let mut buckets: Vec<Vec<StackVec<Twist, MAX_HALF_DEPTH>>> = Vec::new();
    let empty = StackVec::<Twist, MAX_HALF_DEPTH>::new();
    let start = PuzzleState::default();
    proof {
        assert(start@ =~= solved_attitudes());
        assert(reached(empty@) == solved_attitudes());
        assert(indexed(index@, buckets@));
    }
    proof {
        if allowed.no_duplicates() {
            assert forall|g1: int, k1: int, g2: int, k2: int|
                0 <= g1 < twists_for_grips@.len() && 0 <= k1 < twists_for_grips@[g1]@.len() && 0 <= g2
                    < twists_for_grips@.len() && 0 <= k2 < twists_for_grips@[g2]@.len() && (g1 != g2 || k1 != k2)
                    implies #[trigger] twists_for_grips@[g1]@[k1] != #[trigger] twists_for_grips@[g2]@[k2] by {
                assert(lists_twists(twists_for_grips@[g1]@, allowed[g1]));
                assert(lists_twists(twists_for_grips@[g2]@, allowed[g2]));
                if g1 != g2 {
                    assert(allowed[g1] != allowed[g2]);
                } else if k1 < k2 {
                    assert(twists_for_grips@[g1]@[k1].transform.0 < twists_for_grips@[g1]@[k2].transform.0);
                } else {
                    assert(twists_for_grips@[g1]@[k2].transform.0 < twists_for_grips@[g1]@[k1].transform.0);
                }
            }
        }
    }
    enumerate_from(ops, pass.half_depth, Ghost(allowed), &twists_for_grips, &mut index, &mut buckets, start, empty);
    proof {
        assert forall|s: Seq<Twist>| #[trigger] is_half(s, allowed, pass.half_depth as int) implies in_buckets(buckets@, s) by {
            assert(empty@ + s =~= s);
        }
        assert forall|b: int, i: int, j: int|
            0 <= b < buckets@.len() && 0 <= i < buckets@[b]@.len() && 0 <= j < buckets@[b]@.len() implies half_hash(
                (#[trigger] buckets@[b]@[i])@,
            ) == half_hash((#[trigger] buckets@[b]@[j])@) by {
            assert(index@.contains_key(half_hash(buckets@[b]@[i]@)));
            assert(index@.contains_key(half_hash(buckets@[b]@[j]@)));
        }
    }
    buckets
}

/// A collection of algorithms, at most one per distinct effect on the last
/// cell, cheapest first.
#[derive(Debug)]
pub struct AlgTable {
    algs: Vec<Alg>,
}

/// The algorithms are in order of cost, cheapest first.
pub open spec fn cheapest_first(algs: Seq<Alg>) -> bool {
    forall|p: int, q: int| 0 <= p < q < algs.len() ==> (#[trigger] algs[p]).cost <= (#[trigger] algs[q]).cost
}

/// Whether an algorithm costs `c`.
pub open spec fn cost_is(c: int) -> spec_fn(Alg) -> bool {
    |a: Alg| a.cost == c
}

/// The algorithms of `algs` that cost less than `c`, grouped by cost,
/// cheapest first, each group in the order of `algs`.
pub open spec fn by_cost(algs: Seq<Alg>, c: int) -> Seq<Alg>
    decreases c,
{
    if c <= 0 {
        Seq::empty()
    } else {
        by_cost(algs, c - 1) + algs.filter(cost_is(c - 1))
    }
}

/// A stored algorithm costs no more than it has twists.
pub proof fn lemma_cost_bounded(alg: Alg)
    requires
        alg.valid(),
    ensures
        alg.cost <= MAX_ALG_LEN,
{
    broadcast use vstd::seq_lib::group_filter_ensures;

}

/// Sorts algorithms cheapest first, keeping the order among those of one
/// cost.
fn sort_by_cost(v: &Vec<Alg>) -> (r: Vec<Alg>)
    requires
        distinct_effects(v@),
        all_valid(v@),
    ensures
        r@ == by_cost(v@, MAX_ALG_LEN + 1),
        forall|i: int| 0 <= i < v@.len() ==> r@.contains(#[trigger] v@[i]),
        forall|k: int| 0 <= k < r@.len() ==> v@.contains(#[trigger] r@[k]),
        distinct_effects(r@),
        all_valid(r@),
        cheapest_first(r@),
{
    let mut r: Vec<Alg> = Vec::new();
    let ghost mut idx: Seq<int> = Seq::empty();
    let mut c: usize = 0;
    while c <= MAX_ALG_LEN
        invariant
            c <= MAX_ALG_LEN + 1,
            all_valid(v@),
            r@ == by_cost(v@, c as int),
            idx.len() == r@.len(),
            forall|k: int|
                0 <= k < r@.len() ==> 0 <= #[trigger] idx[k] < v@.len() && r@[k] == v@[idx[k]]
                    && r@[k].cost < c,
            forall|p: int, q: int| 0 <= p < q < r@.len() ==> #[trigger] idx[p] != #[trigger] idx[q],
            forall|j: int|
                0 <= j < v@.len() && (#[trigger] v@[j]).cost < c ==> exists|k: int|
                    0 <= k < r@.len() && idx[k] == j,
            cheapest_first(r@),
        decreases MAX_ALG_LEN + 1 - c,
    {
        let ghost start = r@.len();
        proof {
            assert forall|k: int| 0 <= k < start implies (#[trigger] r@[k]).cost < c by {
                assert(0 <= idx[k] < v@.len());
            }
        }
        let mut i: usize = 0;
        while i < v.len()
            invariant
                c <= MAX_ALG_LEN,
                0 <= i <= v@.len(),
                all_valid(v@),
                start <= r@.len(),
                r@ == by_cost(v@, c as int) + v@.take(i as int).filter(cost_is(c as int)),
                start == by_cost(v@, c as int).len(),
                idx.len() == r@.len(),
                forall|k: int|
                    0 <= k < r@.len() ==> 0 <= #[trigger] idx[k] < v@.len() && r@[k] == v@[idx[k]],
                forall|k: int| 0 <= k < start ==> (#[trigger] r@[k]).cost < c,
                forall|k: int| start <= k < r@.len() ==> (#[trigger] r@[k]).cost == c && idx[k] < i,
                forall|p: int, q: int|
                    0 <= p < q < r@.len() ==> #[trigger] idx[p] != #[trigger] idx[q],
                forall|j: int|
                    0 <= j < v@.len() && (#[trigger] v@[j]).cost < c ==> exists|k: int|
                        0 <= k < r@.len() && idx[k] == j,
                forall|j: int|
                    0 <= j < i && (#[trigger] v@[j]).cost == c ==> exists|k: int|
                        0 <= k < r@.len() && idx[k] == j,
                cheapest_first(r@),
            decreases v@.len() - i,
        {
            proof {
                reveal_with_fuel(Seq::filter, 1);
                assert(v@.take(i + 1).drop_last() == v@.take(i as int));
            }
            if v[i].cost == c {
                let ghost before = r@;
                let ghost before_idx = idx;
                r.push(v[i]);
                proof {
                    idx = idx.push(i as int);
                    assert(r@ =~= by_cost(v@, c as int) + v@.take(i + 1).filter(cost_is(c as int)));
                    assert forall|k: int| 0 <= k < r@.len() implies 0 <= #[trigger] idx[k] < v@.len()
                        && r@[k] == v@[idx[k]] by {
                        if k < before.len() {
                            assert(idx[k] == before_idx[k]);
                        }
                    }
                    assert forall|p: int, q: int| 0 <= p < q < r@.len() implies #[trigger] idx[p]
                        != #[trigger] idx[q] by {
                        if q == before.len() {
                            assert(idx[p] == before_idx[p]);
                            if p >= start {
                                assert(before_idx[p] < i);
                            } else {
                                assert(r@[p].cost < c);
                            }
                        } else {
                            assert(idx[p] == before_idx[p] && idx[q] == before_idx[q]);
                        }
                    }
                    assert forall|j: int|
                        0 <= j < v@.len() && (#[trigger] v@[j]).cost < c implies exists|k: int|
                            0 <= k < r@.len() && idx[k] == j by {
                        let k = choose|k: int| 0 <= k < before.len() && before_idx[k] == j;
                        assert(idx[k] == j);
                    }
                    assert forall|j: int|
                        0 <= j < i + 1 && (#[trigger] v@[j]).cost == c implies exists|k: int|
                            0 <= k < r@.len() && idx[k] == j by {
                        if j == i {
                            assert(idx[before.len() as int] == j);
                        } else {
                            let k = choose|k: int| 0 <= k < before.len() && before_idx[k] == j;
                            assert(idx[k] == j);
                        }
                    }
                    assert forall|k: int| start <= k < r@.len() implies (#[trigger] r@[k]).cost
                        == c && idx[k] < i + 1 by {
                        if k < before.len() {
                            assert(idx[k] == before_idx[k]);
                        }
                    }
                    assert forall|p: int, q: int| 0 <= p < q < r@.len() implies (
                    #[trigger] r@[p]).cost <= (#[trigger] r@[q]).cost by {
                        if q == before.len() && p < start {
                            assert(r@[p].cost < c);
                        }
                    }
                }
            } else {
                proof {
                    assert(r@ =~= by_cost(v@, c as int) + v@.take(i + 1).filter(cost_is(c as int)));
                }
            }
            i += 1;
        }
        proof {
            assert(v@.take(v@.len() as int) == v@);
            assert(r@ == by_cost(v@, c + 1));
            assert forall|j: int|
                0 <= j < v@.len() && (#[trigger] v@[j]).cost < c + 1 implies exists|k: int|
                    0 <= k < r@.len() && idx[k] == j by {
                if v@[j].cost < c {
                } else {
                    assert(v@[j].cost == c);
                }
            }
        }
        c += 1;
    }
    proof {
        assert forall|i: int| 0 <= i < v@.len() implies r@.contains(#[trigger] v@[i]) by {
            lemma_cost_bounded(v@[i]);
            let k = choose|k: int| 0 <= k < r@.len() && idx[k] == i;
            assert(r@[k] == v@[i]);
        }
        assert forall|k: int| 0 <= k < r@.len() implies v@.contains(#[trigger] r@[k]) by {
            assert(r@[k] == v@[idx[k]]);
        }
        assert forall|p: int, q: int| 0 <= p < q < r@.len() implies !(
        #[trigger] r@[p].effect).same_as(#[trigger] r@[q].effect) by {
            assert(r@[p] == v@[idx[p]] && r@[q] == v@[idx[q]]);
            assert(idx[p] != idx[q]);
            if idx[p] < idx[q] {
                assert(!v@[idx[p]].effect.same_as(v@[idx[q]].effect));
            } else {
                assert(!v@[idx[q]].effect.same_as(v@[idx[p]].effect));
            }
        }
        assert forall|k: int| 0 <= k < r@.len() implies (#[trigger] r@[k]).valid() by {
            assert(r@[k] == v@[idx[k]]);
        }
    }
    r
}

impl View for AlgTable {
    type V = Seq<Alg>;

    closed spec fn view(&self) -> Seq<Alg> {
        self.algs@
    }
}

/// The effect keeps every piece type asked for oriented.
pub open spec fn keeps_required(effect: CellEffect, required: [bool; 3]) -> bool {
    forall|kind: int| 0 <= kind < 3 && #[trigger] required[kind] ==> kind_slots_keep_oriented(effect, kind)
}

impl AlgTable {
    #[verifier::type_invariant]
    spec fn table_ok(self) -> bool {
        &&& all_valid(self.algs@)
        &&& distinct_effects(self.algs@)
        &&& cheapest_first(self.algs@)
    }

    /// Finds algorithms by meeting in the middle, pass by pass, closes them
    /// under the rotations that fix the last cell, and keeps the cheapest
    /// for each effect.
    pub fn generate(params: &AlgTableParams) -> (t: Self)
        requires
            forall|k: int|
                0 <= k < params.passes@.len() ==> (#[trigger] params.passes@[k]).half_depth
                    <= MAX_HALF_DEPTH && !params.passes@[k].grips@.contains(I),
        ensures
            all_valid(t@),
            distinct_effects(t@),
            cheapest_first(t@),
            exists|halves: Seq<Seq<Vec<StackVec<Twist, MAX_HALF_DEPTH>>>>| #[trigger] made_from(t@, *params, halves),
            forall|q: int| 0 <= q < t@.len() ==> rotations_covered(t@, #[trigger] t@[q]),
    {
        let tables = Tables::new();
        let mut all = AlgSet::new();
        let ghost mut halves: Seq<Seq<Vec<StackVec<Twist, MAX_HALF_DEPTH>>>> = Seq::empty();
        let mut k: usize = 0;
        while k < params.passes.len()
            invariant
                0 <= k <= params.passes@.len(),
                forall|j: int|
                    0 <= j < params.passes@.len() ==> (#[trigger] params.passes@[j]).half_depth
                        <= MAX_HALF_DEPTH,
                all.wf(),
                distinct_effects(all@),
                all_valid(all@),
                halves.len() == k,
                forall|j: int| 0 <= j < k ==> pass_halves(#[trigger] halves[j], params.passes@[j]),
                forall|j: int, b: int|
                    0 <= j < k && 0 <= b < halves[j].len() ==> bucket_covered(
                        all@,
                        #[trigger] halves[j][b]@,
                        params.max_bucket,
                    ),
                forall|t: int| 0 <= t < all@.len() ==> from_some_pass(#[trigger] all@[t], halves, k as int),
                forall|q: int| 0 <= q < all@.len() ==> rotations_covered(all@, #[trigger] all@[q]),
            decreases params.passes@.len() - k,
        {
            let pass = &params.passes[k];
            let buckets = enumerate_halves(pass, &tables);
            let joined = join_halves(params.max_bucket, buckets.as_slice(), &tables);
            let closed = close_under_rotations(joined.as_slice(), &tables);
            proof {
                assert forall|x: Alg| covers(joined@, x) implies #[trigger] covers(closed@, x) by {
                    let j = choose|j: int|
                        0 <= j < joined@.len() && joined@[j].effect.same_as(x.effect) && joined@[j].cost
                            <= x.cost;
                    let y = joined@[j];
                    assert(y.valid());
                    lemma_transformed_by_identity(y.twists@);
                    crate::algebra::lemma_grip_action_law(ElemId(0), ElemId(0), I);
                    assert(rotated_candidate(joined@[j], ElemId(0)) == y.twists@);
                    assert(y.built_from(rotated_candidate(joined@[j], ElemId(0))));
                    assert(is_alg(simplified(rotated_candidate(joined@[j], ElemId(0)))));
                    assert(covers(closed@, y));
                    lemma_covers_trans(closed@, y, x);
                }
                assert forall|m: int| 0 <= m < closed@.len() implies from_rotated_pairs(
                    #[trigger] closed@[m],
                    buckets@,
                ) by {
                    assert(from_rotations(closed@[m], joined@));
                    let (ji, e) = choose|ji: int, e: ElemId|
                        0 <= ji < joined@.len() && e.wf() && e.fixes_grip(I) && closed@[m].built_from(
                            rotated_candidate(joined@[ji], e),
                        );
                    assert(from_pairs(joined@[ji], buckets@));
                    let (b, u, w) = choose|
                        b: int,
                        u: StackVec<Twist, MAX_HALF_DEPTH>,
                        w: StackVec<Twist, MAX_HALF_DEPTH>,
                    |
                        0 <= b < buckets@.len() && buckets@[b]@.contains(u) && buckets@[b]@.contains(w)
                            && joined@[ji].built_from(paired(u@, w@));
                    assert(rotated_candidate(joined@[ji], e) == crate::symmetry::transformed_twists(
                        simplified(paired(u@, w@)),
                        e,
                    ));
                    assert(buckets@[b]@.contains(u) && buckets@[b]@.contains(w) && closed@[m].built_from(
                        crate::symmetry::transformed_twists(simplified(paired(u@, w@)), e),
                    ));
                }
            }
            let ghost before_insert = all@;
            let mut i: usize = 0;
            while i < closed.len()
                invariant
                    0 <= i <= closed@.len(),
                    all_valid(closed@),
                    all.wf(),
                    distinct_effects(all@),
                    all_valid(all@),
                    forall|x: Alg| covers(before_insert, x) ==> #[trigger] covers(all@, x),
                    forall|m: int| 0 <= m < i ==> covers(all@, #[trigger] closed@[m]),
                    forall|m: int| 0 <= m < closed@.len() ==> from_rotated_pairs(#[trigger] closed@[m], buckets@),
                    forall|t: int|
                        0 <= t < all@.len() ==> from_some_pass(#[trigger] all@[t], halves, k as int)
                            || from_rotated_pairs(all@[t], buckets@),
                    forall|q: int|
                        0 <= q < all@.len() ==> rotations_covered(all@, #[trigger] all@[q]) || closed@.contains(
                            all@[q],
                        ),
                decreases closed@.len() - i,
            {
                let ghost prev = all@;
                all.insert_cheapest(closed[i]);
                proof {
                    assert forall|x: Alg| covers(before_insert, x) implies #[trigger] covers(all@, x) by {
                        assert(covers(prev, x));
                    }
                    assert forall|m: int| 0 <= m < i + 1 implies covers(all@, #[trigger] closed@[m]) by {
                        if m < i {
                            assert(covers(prev, closed@[m]));
                        }
                    }
                    assert forall|q: int| 0 <= q < all@.len() implies rotations_covered(all@, #[trigger] all@[q])
                        || closed@.contains(all@[q]) by {
                        if all@[q] != closed@[i as int] {
                            assert(prev.contains(all@[q]));
                            let p = choose|p: int| 0 <= p < prev.len() && prev[p] == all@[q];
                            if !closed@.contains(prev[p]) {
                                assert(rotations_covered(prev, prev[p]));
                                lemma_rotations_covered_grows(prev, all@, prev[p]);
                            }
                        }
                    }
                    assert forall|t: int| 0 <= t < all@.len() implies from_some_pass(#[trigger] all@[t], halves, k as int)
                        || from_rotated_pairs(all@[t], buckets@) by {
                        if all@[t] == closed@[i as int] {
                            assert(from_rotated_pairs(closed@[i as int], buckets@));
                        } else {
                            assert(prev.contains(all@[t]));
                            let q = choose|q: int| 0 <= q < prev.len() && prev[q] == all@[t];
                            assert(from_some_pass(prev[q], halves, k as int) || from_rotated_pairs(prev[q], buckets@));
                        }
                    }
                }
                i += 1;
            }
            proof {
                assert forall|x: Alg| covers(closed@, x) implies #[trigger] covers(all@, x) by {
                    let m = choose|m: int|
                        0 <= m < closed@.len() && closed@[m].effect.same_as(x.effect) && closed@[m].cost
                            <= x.cost;
                    assert(covers(all@, closed@[m]));
                    lemma_covers_trans(all@, closed@[m], x);
                }
                assert forall|b: int| 0 <= b < buckets@.len() implies bucket_covered(
                    all@,
                    #[trigger] buckets@[b]@,
                    params.max_bucket,
                ) by {
                    lemma_bucket_covered_grows(joined@, closed@, buckets@[b]@, params.max_bucket);
                    lemma_bucket_covered_grows(closed@, all@, buckets@[b]@, params.max_bucket);
                }
                assert forall|j: int, b: int| 0 <= j < k && 0 <= b < halves[j].len() implies bucket_covered(
                    all@,
                    #[trigger] halves[j][b]@,
                    params.max_bucket,
                ) by {
                    lemma_bucket_covered_grows(before_insert, all@, halves[j][b]@, params.max_bucket);
                }
                assert forall|q: int| 0 <= q < all@.len() implies rotations_covered(all@, #[trigger] all@[q]) by {
                    if closed@.contains(all@[q]) {
                        let m = choose|m: int| 0 <= m < closed@.len() && closed@[m] == all@[q];
                        assert forall|e: ElemId, x: Alg|
                            #![trigger x.built_from(rotated_candidate(closed@[m], e))]
                            e.wf() && e.fixes_grip(I) && x.built_from(rotated_candidate(closed@[m], e)) && is_alg(
                                simplified(rotated_candidate(closed@[m], e)),
                            ) implies covers(closed@, x) by {}
                        lemma_rotations_covered_grows(closed@, all@, closed@[m]);
                    }
                }
                let ghost old_halves = halves;
                halves = halves.push(buckets@);
                assert(halves[k as int] == buckets@);
                assert forall|t: int| 0 <= t < all@.len() implies from_some_pass(#[trigger] all@[t], halves, k + 1) by {
                    if from_rotated_pairs(all@[t], buckets@) {
                        assert(from_rotated_pairs(all@[t], halves[k as int]));
                    } else {
                        assert(from_some_pass(all@[t], old_halves, k as int));
                        let j = choose|j: int| 0 <= j < k && #[trigger] from_rotated_pairs(all@[t], old_halves[j]);
                        assert(halves[j] == old_halves[j]);
                        assert(from_rotated_pairs(all@[t], halves[j]));
                    }
                }
            }
            k += 1;
        }
        let found = all.into_algs();
        let algs = sort_by_cost(&found);
        let t = AlgTable { algs };
        assert(t@ == algs@);
        proof {
            assert forall|x: Alg| covers(found@, x) implies #[trigger] covers(algs@, x) by {
                let m = choose|m: int|
                    0 <= m < found@.len() && found@[m].effect.same_as(x.effect) && found@[m].cost <= x.cost;
                assert(algs@.contains(found@[m]));
                let q = choose|q: int| 0 <= q < algs@.len() && algs@[q] == found@[m];
                assert(algs@[q].effect.same_as(x.effect));
            }
            assert forall|j: int, b: int| 0 <= j < halves.len() && 0 <= b < halves[j].len() implies bucket_covered(
                t@,
                #[trigger] halves[j][b]@,
                params.max_bucket,
            ) by {
                lemma_bucket_covered_grows(found@, algs@, halves[j][b]@, params.max_bucket);
            }
            assert forall|q: int| 0 <= q < t@.len() implies from_some_pass(#[trigger] t@[q], halves, halves.len() as int) by {
                assert(found@.contains(algs@[q]));
                let m = choose|m: int| 0 <= m < found@.len() && found@[m] == algs@[q];
                assert(from_some_pass(found@[m], halves, halves.len() as int));
            }
            assert(made_from(t@, *params, halves));
            assert forall|q: int| 0 <= q < t@.len() implies rotations_covered(t@, #[trigger] t@[q]) by {
                assert(found@.contains(algs@[q]));
                let m = choose|m: int| 0 <= m < found@.len() && found@[m] == algs@[q];
                assert(rotations_covered(found@, found@[m]));
                lemma_rotations_covered_grows(found@, algs@, found@[m]);
            }
        }
        t
    }

    /// The empty table.
    pub fn new() -> (t: Self)
        ensures
            t@ == Seq::<Alg>::empty(),
    {
        AlgTable { algs: Vec::new() }
    }

    /// The algorithms, cheapest first.
    pub fn algs(&self) -> (a: &[Alg])
        ensures
            a@ == self@,
            all_valid(a@),
            distinct_effects(a@),
            cheapest_first(a@),
    {
        proof {
            use_type_invariant(self);
        }
        self.algs.as_slice()
    }

    /// Number of algorithms.
    pub fn len(&self) -> (n: usize)
        ensures
            n == self@.len(),
    {
        self.algs.len()
    }

    /// Whether there are no algorithms.
    pub fn is_empty(&self) -> (b: bool)
        ensures
            b == (self@.len() == 0),
    {
        self.algs.len() == 0
    }

    /// Returns the algorithms that keep each required piece type oriented,
    /// in table order.
    pub fn filter_preserving(&self, required: [bool; 3]) -> (r: Vec<Alg>)
        ensures
            r@ == self@.filter(|a: Alg| keeps_required(a.effect, required)),
    {
        let mut r: Vec<Alg> = Vec::new();
        let mut k: usize = 0;
        while k < self.algs.len()
            invariant
                0 <= k <= self@.len(),
                r@ == self@.take(k as int).filter(|a: Alg| keeps_required(a.effect, required)),
            decreases self@.len() - k,
        {
            proof {
                reveal_with_fuel(Seq::filter, 1);
                assert(self@.take(k + 1).drop_last() == self@.take(k as int));
            }
            let alg = self.algs[k];
            let kept = alg.effect.preserves_orientation();
            let keep = (kept[0] || !required[0]) && (kept[1] || !required[1]) && (kept[2]
                || !required[2]);
            proof {
                assert(keep == keeps_required(alg.effect, required)) by {
                    if keep {
                        assert forall|kind: int| 0 <= kind < 3 && #[trigger] required[kind] implies kind_slots_keep_oriented(alg.effect, kind) by {
                            assert(kept[kind]);
                        }
                    } else {
                        if !(kept[0] || !required[0]) {
                            assert(!kind_slots_keep_oriented(alg.effect, 0));
                        } else if !(kept[1] || !required[1]) {
                            assert(!kind_slots_keep_oriented(alg.effect, 1));
                        } else {
                            assert(!kind_slots_keep_oriented(alg.effect, 2));
                        }
                    }
                }
            }
            if keep {
                r.push(alg);
            }
            k += 1;
        }
        proof {
            assert(self@.take(self@.len() as int) == self@);
        }
        r
    }
}

impl Clone for AlgTable {
    fn clone(&self) -> (t: Self)
        ensures
            t@ == self@,
    {
        proof {
            use_type_invariant(self);
        }
        let algs = self.algs.clone();
        proof {
            assert forall|i: int| 0 <= i < algs@.len() implies algs@[i] == self.algs@[i] by {
                assert(vstd::pervasive::cloned(self.algs@[i], algs@[i]));
            }
            assert(algs@ =~= self.algs@);
        }
        AlgTable { algs }
    }
}

impl Default for AlgTable {
    fn default() -> (t: Self)
        ensures
            t@ == Seq::<Alg>::empty(),
    {
        AlgTable::new()
    }
}

} // verus!
