//! Stringing algorithms together to solve the last cell.
//!
//! Each stage is a beam search whose moves are whole algorithms drawn from
//! an [`AlgTable`], restricted to those that keep earlier stages' work. A
//! table of finishes, built backward from the algorithms, tells the search
//! when one or two more algorithms orient the cell outright.
use std::collections::hash_map::DefaultHasher;
use std::collections::HashMap;
use std::hash::Hasher;

use vstd::prelude::*;
use vstd::std_specs::hash::DefaultHasherAdditionalSpecFns;

use crate::algs::{all_valid, build_alg, is_alg, cheapest_first, keeps_required, lemma_cost_bounded, Alg, AlgTable};
use crate::elements::{spec_ident, ElemId};
use crate::grips::{grip_of, GripId, I};
use crate::lastcell::{
    all_wf, find_canonical_frame, first_f2l_grip, invert_twists, inverted, move_starts, oriented, simplified, simplify_twists, slot_solved,
    twist_count, CellEffect, CellState, cell_piece,
};
use crate::puzzle_state::{f2l_solved, reoriented, PuzzleState};
use crate::twist::Twist;
use crate::puzzle_state::kind_slots;
use crate::tables::Tables;

verus! {

/// Tuning of the last-cell search.
#[derive(Debug, Clone, Copy, PartialEq, Eq, Hash)]
pub struct LastCellSearchParams {
    /// How many partial solutions to carry between rounds.
    pub beam_width: usize,
    /// Cap on how many algorithms a single stage may choose between, after
    /// collapsing ones that act identically on the pieces that stage cares
    /// about. Cheapest algorithms are kept.
    pub max_algs_per_stage: usize,
    /// Give up on a stage after this many algorithms in a row.
    pub max_rounds: usize,
    /// How many algorithms iterative deepening may branch over.
    pub ids_algs: usize,
    /// Largest twist budget iterative deepening will try before handing
    /// over to the beam.
    pub max_ids_cost: usize,
    /// How many algorithms the backward half of the meet-in-the-middle pairs
    /// up.
    pub backward_algs: usize,
    /// Most algorithms an iterative-deepening answer may use, counting the
    /// finish.
    pub max_ids_algs: usize,
    pub verbosity: u8,
}

impl Default for LastCellSearchParams {
    fn default() -> (p: Self)
        ensures
            p.beam_width == 100,
            p.max_algs_per_stage == 6000,
            p.max_rounds == 10,
            p.ids_algs == 600,
            p.max_ids_cost == 20,
            p.max_ids_algs == 3,
            p.backward_algs == 1500,
            p.verbosity == 2,
    {
        LastCellSearchParams {
            beam_width: 100,
            max_algs_per_stage: 6000,
            max_rounds: 10,
            ids_algs: 600,
            max_ids_cost: 20,
            max_ids_algs: 3,
            backward_algs: 1500,
            verbosity: 2,
        }
    }
}

/// Attitudes of the 26 slots of a cell, each an element of the group.
pub open spec fn cell_wf(a: Seq<ElemId>) -> bool {
    &&& a.len() == 26
    &&& forall|j: int| 0 <= j < 26 ==> (#[trigger] a[j]).wf()
}

/// The solved cell.
pub open spec fn solved_cell() -> Seq<ElemId> {
    Seq::new(26, |j: int| spec_ident())
}

/// The effect reads only slots of the cell and gives elements of the group.
pub open spec fn effect_ok(e: CellEffect) -> bool {
    &&& e.sources_in_cell()
    &&& e.sources().len() == 26
    &&& e.gains().len() == 26
    &&& forall|j: int| 0 <= j < 26 ==> (#[trigger] e.gains()[j]).wf()
}

/// The cell after `e`: slot `j` gets the piece from `sources[j]`, which
/// gains `gains[j]`.
pub open spec fn effect_on(e: CellEffect, a: Seq<ElemId>) -> Seq<ElemId> {
    Seq::new(26, |j: int| e.gains()[j].spec_times(a[e.sources()[j] as int]))
}

/// The cell after applying `algs` in order.
pub open spec fn apply_all(a: Seq<ElemId>, algs: Seq<Alg>) -> Seq<ElemId>
    decreases algs.len(),
{
    if algs.len() == 0 {
        a
    } else {
        effect_on(algs.last().effect, apply_all(a, algs.drop_last()))
    }
}

/// Every effect in `algs` is [`effect_ok`].
pub open spec fn effects_ok(algs: Seq<Alg>) -> bool {
    forall|i: int| 0 <= i < algs.len() ==> effect_ok(#[trigger] algs[i].effect)
}

/// Every piece of the cell is oriented.
pub open spec fn all_oriented(a: Seq<ElemId>) -> bool {
    forall|j: int| 0 <= j < 26 ==> oriented(#[trigger] a[j])
}

/// How many pieces of type `kind` are misoriented.
pub open spec fn unoriented_count(a: Seq<ElemId>, kind: int) -> int {
    kind_slots(kind).filter(|j: usize| !oriented(a[j as int])).len() as int
}

/// How many pieces of type `kind` are unsolved.
pub open spec fn unsolved_count(a: Seq<ElemId>, kind: int) -> int {
    kind_slots(kind).filter(|j: usize| !slot_solved(a[j as int], j as int)).len() as int
}

/// How many pieces of the cell are misoriented.
pub open spec fn misoriented(a: Seq<ElemId>) -> int {
    unoriented_count(a, 0) + unoriented_count(a, 1) + unoriented_count(a, 2)
}

/// `p` counts the misoriented `[ridges, edges, corners]` of `a`.
pub open spec fn is_profile(p: [usize; 3], a: Seq<ElemId>) -> bool {
    forall|kind: int| 0 <= kind < 3 ==> #[trigger] p[kind] == unoriented_count(a, kind)
}

/// Which grip the piece with attitude `a` shows its last-cell sticker on,
/// as a digit.
pub open spec fn orientation_digit(a: ElemId) -> int {
    a.spec_times_grip(I).spec_id() as int
}

/// The orientation digits of slots `j` onward, base eight, least
/// significant first.
pub open spec fn key_from(a: Seq<ElemId>, j: int) -> int
    decreases 26 - j,
{
    if 0 <= j < 26 {
        orientation_digit(a[j]) + 8 * key_from(a, j + 1)
    } else {
        0
    }
}

/// Which grip each piece of the cell shows its last-cell sticker on, packed
/// three bits a slot. Cells with one key agree on which pieces are
/// oriented, and any effect keeps them agreeing.
pub open spec fn orientation_key_of(a: Seq<ElemId>) -> int {
    key_from(a, 0)
}

/// Every piece shows its last-cell sticker on the same grip in `a` as in
/// `b`.
pub open spec fn same_orientation(a: Seq<ElemId>, b: Seq<ElemId>) -> bool {
    forall|j: int| 0 <= j < 26 ==> (#[trigger] a[j]).spec_times_grip(I) == b[j].spec_times_grip(I)
}

spec fn pow8(n: nat) -> nat
    decreases n,
{
    if n == 0 {
        1
    } else {
        8 * pow8((n - 1) as nat)
    }
}

proof fn lemma_pow8_mono(m: nat, n: nat)
    requires
        m <= n,
    ensures
        1 <= pow8(m) <= pow8(n),
    decreases n,
{
    if n > 0 {
        if m < n {
            lemma_pow8_mono(m, (n - 1) as nat);
        } else {
            lemma_pow8_mono(0, (n - 1) as nat);
        }
    }
}

proof fn lemma_pow8_25()
    ensures
        pow8(25) == 37778931862957161709568,
{
    reveal_with_fuel(pow8, 26);
}

proof fn lemma_digit(a: ElemId)
    ensures
        0 <= orientation_digit(a) < 8,
        grip_of(orientation_digit(a)) == a.spec_times_grip(I),
{
    a.spec_times_grip(I).lemma_id_roundtrip();
}

proof fn lemma_key_bound(a: Seq<ElemId>, j: int)
    requires
        0 <= j <= 26,
    ensures
        0 <= key_from(a, j) < pow8((26 - j) as nat),
    decreases 26 - j,
{
    if j < 26 {
        lemma_key_bound(a, j + 1);
        lemma_digit(a[j]);
    }
}

/// Equal keys from slot `j` on mean equal orientations there.
proof fn lemma_key_digits(a: Seq<ElemId>, b: Seq<ElemId>, j: int)
    requires
        0 <= j <= 26,
        key_from(a, j) == key_from(b, j),
    ensures
        forall|k: int| j <= k < 26 ==> (#[trigger] a[k]).spec_times_grip(I) == b[k].spec_times_grip(I),
    decreases 26 - j,
{
    if j < 26 {
        lemma_key_bound(a, j + 1);
        lemma_key_bound(b, j + 1);
        lemma_digit(a[j]);
        lemma_digit(b[j]);
        lemma_key_digits(a, b, j + 1);
    }
}

/// Cells with one orientation key agree on every piece's orientation.
pub proof fn lemma_key_means_orientation(a: Seq<ElemId>, b: Seq<ElemId>)
    requires
        orientation_key_of(a) == orientation_key_of(b),
    ensures
        same_orientation(a, b),
{
    lemma_key_digits(a, b, 0);
}

/// An effect keeps two cells that agree on orientation agreeing.
proof fn lemma_effect_keeps_orientation(e: CellEffect, a: Seq<ElemId>, b: Seq<ElemId>)
    requires
        effect_ok(e),
        cell_wf(a),
        cell_wf(b),
        same_orientation(a, b),
    ensures
        same_orientation(effect_on(e, a), effect_on(e, b)),
        cell_wf(effect_on(e, a)),
        cell_wf(effect_on(e, b)),
{
    assert forall|j: int|
        #![trigger effect_on(e, a)[j]]
        #![trigger effect_on(e, b)[j]]
        0 <= j < 26 implies effect_on(e, a)[j].spec_times_grip(I) == effect_on(
        e,
        b,
    )[j].spec_times_grip(I) && effect_on(e, a)[j].wf() && effect_on(e, b)[j].wf() by {
        let s = e.sources()[j] as int;
        crate::algebra::lemma_grip_action_law(e.gains()[j], a[s], I);
        crate::algebra::lemma_grip_action_law(e.gains()[j], b[s], I);
        crate::algebra::lemma_mul_wf(e.gains()[j], a[s]);
        crate::algebra::lemma_mul_wf(e.gains()[j], b[s]);
    }
}

/// Applying the same algorithms to two cells that agree on orientation
/// leaves them agreeing.
pub proof fn lemma_apply_all_keeps_orientation(a: Seq<ElemId>, b: Seq<ElemId>, algs: Seq<Alg>)
    requires
        effects_ok(algs),
        cell_wf(a),
        cell_wf(b),
        same_orientation(a, b),
    ensures
        same_orientation(apply_all(a, algs), apply_all(b, algs)),
        cell_wf(apply_all(a, algs)),
        cell_wf(apply_all(b, algs)),
    decreases algs.len(),
{
    if algs.len() > 0 {
        let rest = algs.drop_last();
        assert(effects_ok(rest)) by {
            assert forall|i: int| 0 <= i < rest.len() implies effect_ok(#[trigger] rest[i].effect) by {
                assert(rest[i] == algs[i]);
            }
        }
        lemma_apply_all_keeps_orientation(a, b, rest);
        assert(effect_ok(algs[algs.len() - 1].effect));
        lemma_effect_keeps_orientation(algs.last().effect, apply_all(a, rest), apply_all(b, rest));
    }
}

/// Returns which grip each piece of the cell shows its last-cell sticker
/// on, packed three bits a slot.
pub fn orientation_key(state: CellState) -> (k: u128)
    requires
        state.wf(),
    ensures
        k == orientation_key_of(state.0@),
{
    let mut key: u128 = 0;
    let mut j: usize = 26;
    proof {
        lemma_pow8_25();
    }
    while j > 0
        invariant
            0 <= j <= 26,
            state.wf(),
            key == key_from(state.0@, j as int),
            pow8(25) == 37778931862957161709568,
        decreases j,
    {
        j -= 1;
        proof {
            lemma_key_bound(state.0@, j + 1);
            lemma_pow8_mono((25 - j) as nat, 25);
            lemma_digit(state.0[j as int]);
        }
        let d = state.0[j].mul_grip(I).id() as u128;
        key = key * 8 + d;
    }
    key
}

/// Applies an algorithm's effect to a cell.
fn apply_alg(alg: &Alg, state: CellState) -> (r: CellState)
    requires
        state.wf(),
        effect_ok(alg.effect),
    ensures
        r.0@ == effect_on(alg.effect, state.0@),
        r.wf(),
{
    let r = alg.effect.apply(state);
    proof {
        assert(r.0@ =~= effect_on(alg.effect, state.0@));
    }
    r
}

/// [`apply_alg`], computing with lookup tables.
fn apply_alg_by(alg: &Alg, state: CellState, tables: &Tables) -> (r: CellState)
    requires
        state.wf(),
        effect_ok(alg.effect),
    ensures
        r.0@ == effect_on(alg.effect, state.0@),
        r.wf(),
{
    let r = alg.effect.apply_by(state, tables);
    proof {
        assert(r.0@ =~= effect_on(alg.effect, state.0@));
    }
    r
}

/// Returns the solved cell.
fn solved_state() -> (s: CellState)
    ensures
        s.0@ == solved_cell(),
        s.wf(),
{
    let s = CellState::solved();
    proof {
        assert(s.0@ =~= solved_cell());
    }
    s
}

/// Returns whether every piece of the cell is oriented.
fn is_oriented(state: CellState) -> (b: bool)
    requires
        state.wf(),
    ensures
        b == all_oriented(state.0@),
{
    let mut j: usize = 0;
    while j < 26
        invariant
            0 <= j <= 26,
            state.wf(),
            forall|k: int| 0 <= k < j ==> oriented(#[trigger] state.0@[k]),
        decreases 26 - j,
    {
        if state.0[j].mul_grip(I) != I {
            return false;
        }
        j += 1;
    }
    true
}

/// Returns whether the algorithm's effect reads only slots of the cell, which
/// every effect read out of a puzzle does.
fn check_effect(alg: &Alg) -> (b: bool)
    ensures
        b == effect_ok(alg.effect),
{
    alg.effect.sources_ok()
}

/// Returns whether `effect` keeps every piece type in `required` oriented.
fn keeps(effect: &CellEffect, required: [bool; 3]) -> (b: bool)
    ensures
        b == keeps_required(*effect, required),
{
    let kept = effect.preserves_orientation();
    let keep = (kept[0] || !required[0]) && (kept[1] || !required[1]) && (kept[2] || !required[2]);
    proof {
        if keep {
            assert forall|kind: int| 0 <= kind < 3 && #[trigger] required[kind] implies crate::lastcell::kind_slots_keep_oriented(
                *effect,
                kind,
            ) by {
                assert(kept[kind]);
            }
        } else {
            if !(kept[0] || !required[0]) {
                assert(!crate::lastcell::kind_slots_keep_oriented(*effect, 0));
            } else if !(kept[1] || !required[1]) {
                assert(!crate::lastcell::kind_slots_keep_oriented(*effect, 1));
            } else {
                assert(!crate::lastcell::kind_slots_keep_oriented(*effect, 2));
            }
        }
    }
    keep
}

/// A finish that orients one cell orients every cell with its orientation
/// key.
proof fn lemma_finish_works(s: Seq<ElemId>, fin: Seq<Alg>)
    requires
        cell_wf(s),
        effects_ok(fin),
        all_oriented(apply_all(s, fin)),
    ensures
        finish_orients(fin, orientation_key_of(s)),
{
    reveal(finish_orients);
    assert forall|a: Seq<ElemId>|
        cell_wf(a) && orientation_key_of(a) == orientation_key_of(s) implies #[trigger] all_oriented(
            apply_all(a, fin),
        ) by {
        lemma_key_means_orientation(a, s);
        lemma_apply_all_keeps_orientation(a, s, fin);
        assert forall|j: int| 0 <= j < 26 implies oriented(#[trigger] apply_all(a, fin)[j]) by {
            assert(oriented(apply_all(s, fin)[j]));
        }
    }
}

/// Applying `fin` orients every cell whose orientation key is `k`.
#[verifier::opaque]
pub open spec fn finish_orients(fin: Seq<Alg>, k: int) -> bool {
    forall|a: Seq<ElemId>| cell_wf(a) && orientation_key_of(a) == k ==> #[trigger] all_oriented(apply_all(a, fin))
}

/// Taking one more algorithm into account adds the profile it produces, if
/// it is usable and the profile is not all zeroes.
proof fn lemma_profiles_step(
    algs: Seq<Alg>,
    preserve: [bool; 3],
    k: int,
    before: Set<[usize; 3]>,
    after: Set<[usize; 3]>,
)
    requires
        0 <= k < algs.len(),
        forall|p: [usize; 3]| #[trigger] before.contains(p) <==> nonzero_profile(p) && produced_profile(algs, preserve, k, p),
        keeps_required(algs[k].effect, preserve) && effect_ok(algs[k].effect) ==> forall|p: [usize; 3]|
            #[trigger] after.contains(p) <==> before.contains(p) || (nonzero_profile(p) && is_profile(
                p,
                effect_on(algs[k].effect, solved_cell()),
            )),
        !(keeps_required(algs[k].effect, preserve) && effect_ok(algs[k].effect)) ==> after == before,
    ensures
        forall|p: [usize; 3]| #[trigger] after.contains(p) <==> nonzero_profile(p) && produced_profile(algs, preserve, k + 1, p),
{
    assert forall|p: [usize; 3]| #[trigger] after.contains(p) <==> nonzero_profile(p) && produced_profile(
        algs,
        preserve,
        k + 1,
        p,
    ) by {
        if produced_profile(algs, preserve, k + 1, p) && !produced_profile(algs, preserve, k, p) {
            let i = choose|i: int|
                0 <= i < k + 1 && keeps_required(algs[i].effect, preserve) && effect_ok(algs[i].effect) && is_profile(
                    p,
                    #[trigger] effect_on(algs[i].effect, solved_cell()),
                );
            assert(i == k);
        }
        if before.contains(p) {
            let i = choose|i: int|
                0 <= i < k && keeps_required(algs[i].effect, preserve) && effect_ok(algs[i].effect) && is_profile(
                    p,
                    #[trigger] effect_on(algs[i].effect, solved_cell()),
                );
            assert(produced_profile(algs, preserve, k + 1, p));
        }
        if keeps_required(algs[k].effect, preserve) && effect_ok(algs[k].effect) && is_profile(
            p,
            effect_on(algs[k].effect, solved_cell()),
        ) {
            assert(produced_profile(algs, preserve, k + 1, p));
        }
    }
}

/// A stored way to finish, as indices into the finishing algorithms.
#[derive(Debug, Copy, Clone, PartialEq, Eq)]
pub struct Finish {
    pub first: usize,
    /// [`NO_ALG`] when one algorithm is enough.
    pub second: usize,
    pub cost: u32,
}

/// Marks a finish that needs only its first algorithm.
pub const NO_ALG: usize = usize::MAX;

/// The map only gains keys, and a key's cost never rises.
pub open spec fn map_grows(old: Map<u128, Finish>, new: Map<u128, Finish>) -> bool {
    forall|k: u128| #[trigger] old.contains_key(k) ==> new.contains_key(k) && new[k].cost <= old[k].cost
}

/// The inverse of `alg` is an algorithm, and the algorithm built from it
/// orients what `alg` makes of the solved cell.
pub open spec fn inverse_finishes(alg: Alg) -> bool {
    &&& is_alg(simplified(inverted(alg.twists@)))
    &&& forall|x: Alg|
        #[trigger] x.built_from(inverted(alg.twists@)) ==> effect_ok(x.effect) && all_oriented(
            effect_on(x.effect, effect_on(alg.effect, solved_cell())),
        )
}

/// Every one of the first `n` algorithms of `table` that keeps the
/// `preserve` types oriented, misorients something from solved, and whose
/// inverse orients that back, has a finish stored under the orientation it
/// makes, costing no more than it.
pub open spec fn finishes_known(table: Seq<Alg>, preserve: [bool; 3], n: int, map: Map<u128, Finish>) -> bool {
    forall|t: int|
        0 <= t < n && keeps_required(table[t].effect, preserve) && effect_ok(table[t].effect) && misoriented(
            effect_on(#[trigger] table[t].effect, solved_cell()),
        ) != 0 && inverse_finishes(table[t]) ==> {
            let k = orientation_key_of(effect_on(table[t].effect, solved_cell())) as u128;
            map.contains_key(k) && map[k].cost <= table[t].cost
        }
}

proof fn lemma_finishes_known_grows(
    table: Seq<Alg>,
    preserve: [bool; 3],
    n: int,
    m1: Map<u128, Finish>,
    m2: Map<u128, Finish>,
)
    requires
        finishes_known(table, preserve, n, m1),
        map_grows(m1, m2),
    ensures
        finishes_known(table, preserve, n, m2),
{
    assert forall|t: int|
        0 <= t < n && keeps_required(table[t].effect, preserve) && effect_ok(table[t].effect) && misoriented(
            effect_on(#[trigger] table[t].effect, solved_cell()),
        ) != 0 && inverse_finishes(table[t]) implies {
            let k = orientation_key_of(effect_on(table[t].effect, solved_cell())) as u128;
            m2.contains_key(k) && m2[k].cost <= table[t].cost
        } by {
        let k = orientation_key_of(effect_on(table[t].effect, solved_cell())) as u128;
        assert(m1.contains_key(k));
    }
}

/// An effect that keeps every piece type oriented misorients nothing of the
/// solved cell.
proof fn lemma_keeps_all_from_solved(e: CellEffect)
    requires
        effect_ok(e),
        keeps_required(e, [true, true, true]),
    ensures
        misoriented(effect_on(e, solved_cell())) == 0,
{
    broadcast use vstd::seq_lib::group_filter_ensures;

    let a = effect_on(e, solved_cell());
    assert forall|kind: int| 0 <= kind < 3 implies unoriented_count(a, kind) == 0 by {
        assert([true, true, true][kind]);
        assert(crate::lastcell::kind_slots_keep_oriented(e, kind));
        let f = kind_slots(kind).filter(|j: usize| !oriented(a[j as int]));
        if f.len() > 0 {
            assert(f.contains(f[0]));
            kind_slots(kind).lemma_filter_contains_rev(|j: usize| !oriented(a[j as int]), f[0]);
            let m = choose|m: int| 0 <= m < kind_slots(kind).len() && kind_slots(kind)[m] == f[0];
            assert(oriented(e.gains()[kind_slots(kind)[m] as int]));
            let j = f[0] as int;
            assert(j < 26);
            crate::algebra::lemma_mul_ident(e.gains()[j]);
            assert(a[j] == e.gains()[j].spec_times(spec_ident()));
        }
    }
}

/// What a stage's algorithms can finish from, in two resolutions: exact
/// orientations that one or two algorithms orient outright, and the
/// misorientation profiles some algorithm produces from solved.
#[derive(Debug)]
pub struct OrientationCases {
    /// Algorithms that appear in a finish, already inverted so they can be
    /// applied as they are.
    finish_algs: Vec<Alg>,
    /// Orientations that one or two algorithms orient outright, by
    /// [`orientation_key`].
    finishers: HashMap<u128, Finish>,
    /// Misorientation profiles some algorithm produces from solved, each
    /// once.
    clearable: Vec<[usize; 3]>,
}

/// The profile `p` is that of a cell that one of the first `n` algorithms
/// of `algs` keeping the `preserve` types oriented makes from solved.
pub open spec fn produced_profile(algs: Seq<Alg>, preserve: [bool; 3], n: int, p: [usize; 3]) -> bool {
    exists|i: int|
        0 <= i < n && keeps_required(algs[i].effect, preserve) && effect_ok(algs[i].effect) && is_profile(
            p,
            #[trigger] effect_on(algs[i].effect, solved_cell()),
        )
}

/// The profile is not all zeroes.
pub open spec fn nonzero_profile(p: [usize; 3]) -> bool {
    p[0] != 0 || p[1] != 0 || p[2] != 0
}

impl OrientationCases {
    /// The algorithms that finishes refer to.
    pub closed spec fn finish_algs_view(&self) -> Seq<Alg> {
        self.finish_algs@
    }

    /// The known finishes, by orientation key.
    pub closed spec fn finisher_map(&self) -> Map<u128, Finish> {
        self.finishers@
    }

    /// The profiles some algorithm produces from solved.
    pub closed spec fn clearable_set(&self) -> Set<[usize; 3]> {
        Set::new(|p: [usize; 3]| self.clearable@.contains(p))
    }

    /// The algorithms of finish `f`, in the order they are applied.
    pub open spec fn finish_seq(&self, f: Finish) -> Seq<Alg> {
        if f.second == NO_ALG {
            seq![self.finish_algs_view()[f.first as int]]
        } else {
            seq![self.finish_algs_view()[f.first as int], self.finish_algs_view()[f.second as int]]
        }
    }

    /// Every finish refers to stored algorithms, and orients every cell
    /// whose orientation key it is stored under.
    pub open spec fn wf(&self) -> bool {
        &&& effects_ok(self.finish_algs_view())
        &&& all_valid(self.finish_algs_view())
        &&& forall|k: u128| #[trigger]
            self.finisher_map().contains_key(k) ==> {
                let f = self.finisher_map()[k];
                &&& f.first < self.finish_algs_view().len()
                &&& (f.second == NO_ALG || f.second < self.finish_algs_view().len())
                &&& finish_orients(self.finish_seq(f), k as int)
            }
    }

    /// The misoriented profile of `a` is one some algorithm produces.
    pub open spec fn profile_clearable(&self, a: Seq<ElemId>) -> bool {
        exists|p: [usize; 3]| #[trigger] self.clearable_set().contains(p) && is_profile(p, a)
    }

    /// How close `a` is to being oriented: zero when it is, one when a
    /// stored finish orients it, then states whose profile some algorithm
    /// produces, then the rest.
    pub open spec fn spec_distance(&self, a: Seq<ElemId>) -> int {
        let m = misoriented(a);
        if m == 0 {
            0
        } else if self.finisher_map().contains_key(orientation_key_of(a) as u128) {
            1
        } else if self.profile_clearable(a) {
            2 + m
        } else {
            30 + m
        }
    }

    /// Returns what it would cost to finish from `state`, if a finish is
    /// known.
    pub fn finish_cost(&self, state: CellState) -> (r: Option<usize>)
        requires
            state.wf(),
        ensures
            r is Some <==> self.finisher_map().contains_key(orientation_key_of(state.0@) as u128),
            r matches Some(c) ==> c == self.finisher_map()[orientation_key_of(state.0@) as u128].cost,
    {
        broadcast use vstd::std_specs::hash::group_hash_axioms;

        let key = orientation_key(state);
        match self.finishers.get(&key) {
            Some(f) => Some(f.cost as usize),
            None => None,
        }
    }

    /// Returns the algorithms that orient `state` outright, if any are
    /// known.
    pub fn finisher(&self, state: CellState) -> (r: Option<Vec<Alg>>)
        requires
            self.wf(),
            state.wf(),
        ensures
            r is Some <==> self.finisher_map().contains_key(orientation_key_of(state.0@) as u128),
            r matches Some(v) ==> v@ == self.finish_seq(self.finisher_map()[orientation_key_of(state.0@) as u128])
                && all_oriented(apply_all(state.0@, v@)) && effects_ok(v@) && all_valid(v@),
    {
        broadcast use vstd::std_specs::hash::group_hash_axioms;

        let key = orientation_key(state);
        match self.finishers.get(&key) {
            Some(f) => {
                proof {
                    assert(self.finisher_map().contains_key(key));
                    assert(self.finisher_map()[key] == *f);
                    assert(cell_wf(state.0@));
                    assert(finish_orients(self.finish_seq(*f), key as int));
                    reveal(finish_orients);
                    assert(all_oriented(apply_all(state.0@, self.finish_seq(*f))));
                }
                let mut algs: Vec<Alg> = Vec::new();
                algs.push(self.finish_algs[f.first as usize]);
                if f.second != NO_ALG {
                    algs.push(self.finish_algs[f.second as usize]);
                }
                proof {
                    assert(algs@ =~= self.finish_seq(*f));
                }
                Some(algs)
            },
            None => None,
        }
    }

    /// Returns whether no finish is known.
    pub fn has_no_finishers(&self) -> (b: bool)
        ensures
            b == self.finisher_map().is_empty(),
    {
        self.finishers.is_empty()
    }

    /// Returns whether profile `p` is one some algorithm produces.
    fn is_clearable(&self, p: [usize; 3]) -> (b: bool)
        ensures
            b == self.clearable_set().contains(p),
    {
        let mut i: usize = 0;
        while i < self.clearable.len()
            invariant
                0 <= i <= self.clearable@.len(),
                forall|k: int| 0 <= k < i ==> self.clearable@[k] != p,
            decreases self.clearable@.len() - i,
        {
            let c = self.clearable[i];
            if c[0] == p[0] && c[1] == p[1] && c[2] == p[2] {
                proof {
                    assert(c =~= p);
                    assert(self.clearable@.contains(p));
                }
                return true;
            }
            i += 1;
        }
        false
    }

    /// Ranks `state` by how close it is to being oriented.
    pub fn distance(&self, state: CellState) -> (d: usize)
        requires
            state.wf(),
        ensures
            d == self.spec_distance(state.0@),
    {
        broadcast use vstd::std_specs::hash::group_hash_axioms;

        let profile = state.unoriented();
        let misoriented_now = profile[0] + profile[1] + profile[2];
        proof {
            assert(is_profile(profile, state.0@));
            assert(misoriented_now == misoriented(state.0@));
        }
        if misoriented_now == 0 {
            0
        } else if self.finishers.contains_key(&orientation_key(state)) {
            1
        } else if self.is_clearable(profile) {
            2 + misoriented_now
        } else {
            proof {
                if self.profile_clearable(state.0@) {
                    let p = choose|p: [usize; 3]| #[trigger] self.clearable_set().contains(p) && is_profile(p, state.0@);
                    assert(p =~= profile);
                }
            }
            30 + misoriented_now
        }
    }

    /// Adds an algorithm that finishes refer to, returning its index.
    fn push_alg(&mut self, alg: Alg) -> (index: usize)
        requires
            old(self).wf(),
            alg.valid(),
            effect_ok(alg.effect),
        ensures
            final(self).finish_algs_view() == old(self).finish_algs_view().push(alg),
            index == old(self).finish_algs_view().len(),
            index != NO_ALG,
            final(self).finisher_map() == old(self).finisher_map(),
            final(self).clearable_set() == old(self).clearable_set(),
            final(self).wf(),
    {
        let ghost before = *self;
        self.finish_algs.push(alg);
        proof {
            assert(self.clearable_set() =~= before.clearable_set());
            assert forall|k: u128| #[trigger] self.finisher_map().contains_key(k) implies {
                let f = self.finisher_map()[k];
                &&& f.first < self.finish_algs_view().len()
                &&& (f.second == NO_ALG || f.second < self.finish_algs_view().len())
                &&& finish_orients(self.finish_seq(f), k as int)
            } by {
                let f = self.finisher_map()[k];
                assert(before.finisher_map().contains_key(k));
                assert(self.finish_seq(f) =~= before.finish_seq(f));
            }
            assert forall|i: int| 0 <= i < self.finish_algs_view().len() implies effect_ok(
                #[trigger] self.finish_algs_view()[i].effect,
            ) && self.finish_algs_view()[i].valid() by {
                if i < before.finish_algs_view().len() {
                    assert(self.finish_algs_view()[i] == before.finish_algs_view()[i]);
                }
            }
        }
        self.finish_algs.len() - 1
    }

    /// Stores finish `f` under `key`, the orientation key of `s`, which it
    /// orients.
    fn record_finish(&mut self, key: u128, f: Finish, Ghost(s): Ghost<Seq<ElemId>>)
        requires
            old(self).wf(),
            cell_wf(s),
            orientation_key_of(s) == key,
            f.first < old(self).finish_algs_view().len(),
            f.second == NO_ALG || f.second < old(self).finish_algs_view().len(),
            all_oriented(apply_all(s, old(self).finish_seq(f))),
        ensures
            final(self).wf(),
            final(self).finisher_map() == old(self).finisher_map().insert(key, f),
            final(self).finish_algs_view() == old(self).finish_algs_view(),
            final(self).clearable_set() == old(self).clearable_set(),
    {
        broadcast use vstd::std_specs::hash::group_hash_axioms;

        let ghost before = *self;
        proof {
            let fin = before.finish_seq(f);
            assert(effects_ok(fin)) by {
                assert(effect_ok(before.finish_algs_view()[f.first as int].effect));
                if f.second != NO_ALG {
                    assert(effect_ok(before.finish_algs_view()[f.second as int].effect));
                }
            }
            lemma_finish_works(s, fin);
        }
        self.finishers.insert(key, f);
        proof {
            assert(self.clearable_set() =~= before.clearable_set());
            assert forall|k: u128| #[trigger] self.finisher_map().contains_key(k) implies {
                let g = self.finisher_map()[k];
                &&& g.first < self.finish_algs_view().len()
                &&& (g.second == NO_ALG || g.second < self.finish_algs_view().len())
                &&& finish_orients(self.finish_seq(g), k as int)
            } by {
                if k != key {
                    assert(before.finisher_map().contains_key(k));
                }
            }
        }
    }

    /// Adds profile `p` to those some algorithm produces.
    fn note_profile(&mut self, p: [usize; 3])
        requires
            old(self).wf(),
        ensures
            final(self).wf(),
            final(self).clearable_set() == old(self).clearable_set().insert(p),
            final(self).finisher_map() == old(self).finisher_map(),
            final(self).finish_algs_view() == old(self).finish_algs_view(),
    {
        let ghost before = self.clearable@;
        let ghost old_self = *self;
        if !self.is_clearable(p) {
            self.clearable.push(p);
            proof {
                assert forall|q: [usize; 3]| #[trigger] self.clearable@.contains(q) <==> before.contains(q) || q == p by {
                    if self.clearable@.contains(q) {
                        let i = choose|i: int| 0 <= i < self.clearable@.len() && self.clearable@[i] == q;
                        if i < before.len() {
                            assert(before[i] == q);
                        }
                    }
                    if before.contains(q) {
                        let i = choose|i: int| 0 <= i < before.len() && before[i] == q;
                        assert(self.clearable@[i] == q);
                    }
                    if q == p {
                        assert(self.clearable@[before.len() as int] == p);
                    }
                }
            }
        }
        proof {
            assert(self.clearable_set() =~= Set::new(|q: [usize; 3]| before.contains(q)).insert(p));
            assert(self.finish_algs_view() == old_self.finish_algs_view());
            assert(self.finisher_map() == old_self.finisher_map());
            assert forall|k: u128| #[trigger] self.finisher_map().contains_key(k) implies {
                let f = self.finisher_map()[k];
                &&& f.first < self.finish_algs_view().len()
                &&& (f.second == NO_ALG || f.second < self.finish_algs_view().len())
                &&& finish_orients(self.finish_seq(f), k as int)
            } by {
                assert(old_self.finisher_map().contains_key(k));
                assert(self.finish_seq(self.finisher_map()[k]) == old_self.finish_seq(old_self.finisher_map()[k]));
            }
        }
    }

    /// Records what one usable algorithm contributes: the profile it makes
    /// from solved, its place among the algorithms to pair up, and the
    /// finish its inverse gives.
    fn add_single(&mut self, alg: &Alg, solved: CellState, backward: &mut Vec<Alg>, backward_algs: usize)
        requires
            old(self).wf(),
            alg.valid(),
            effect_ok(alg.effect),
            solved.0@ == solved_cell(),
            solved.wf(),
            effects_ok(old(backward)@),
            all_valid(old(backward)@),
        ensures
            final(self).wf(),
            effects_ok(final(backward)@),
            all_valid(final(backward)@),
            forall|p: [usize; 3]|
                #[trigger] final(self).clearable_set().contains(p) <==> old(self).clearable_set().contains(p) || (
                nonzero_profile(p) && is_profile(p, effect_on(alg.effect, solved_cell()))),
            map_grows(old(self).finisher_map(), final(self).finisher_map()),
            forall|k: u128|
                #[trigger] final(self).finisher_map().contains_key(k) && !old(self).finisher_map().contains_key(k)
                    ==> final(self).finisher_map()[k].cost == alg.cost,
            misoriented(effect_on(alg.effect, solved_cell())) != 0 && inverse_finishes(*alg)
                ==> final(self).finisher_map().contains_key(
                orientation_key_of(effect_on(alg.effect, solved_cell())) as u128,
            ),
            misoriented(effect_on(alg.effect, solved_cell())) == 0 ==> final(self).finisher_map()
                == old(self).finisher_map() && final(backward)@ == old(backward)@,
    {
        broadcast use vstd::std_specs::hash::group_hash_axioms;

        let ghost before = self.clearable_set();
        let scrambled = apply_alg(alg, solved);
        let profile = scrambled.unoriented();
        proof {
            assert(is_profile(profile, scrambled.0@));
            assert forall|p: [usize; 3]| is_profile(p, scrambled.0@) implies p == profile by {
                assert(p =~= profile);
            }
        }
        proof {
            assert(profile[0] + profile[1] + profile[2] == misoriented(scrambled.0@));
        }
        if profile[0] == 0 && profile[1] == 0 && profile[2] == 0 {
            return;
        }
        self.note_profile(profile);
        if backward.len() < backward_algs {
            backward.push(*alg);
            proof {
                assert forall|i: int| 0 <= i < backward@.len() implies effect_ok(#[trigger] backward@[i].effect)
                    && backward@[i].valid() by {
                    if i < backward@.len() - 1 {
                    }
                }
            }
        }
        self.add_inverse(alg, scrambled);
    }

    /// Stores the inverse of `alg` as the finish for the orientation of
    /// `scrambled`, what `alg` makes of solved, unless one is stored.
    fn add_inverse(&mut self, alg: &Alg, scrambled: CellState)
        requires
            old(self).wf(),
            alg.valid(),
            scrambled.wf(),
        ensures
            final(self).wf(),
            final(self).clearable_set() == old(self).clearable_set(),
            map_grows(old(self).finisher_map(), final(self).finisher_map()),
            forall|k: u128|
                #[trigger] final(self).finisher_map().contains_key(k) && !old(self).finisher_map().contains_key(k)
                    ==> final(self).finisher_map()[k].cost == alg.cost,
            scrambled.0@ == effect_on(alg.effect, solved_cell()) && inverse_finishes(*alg)
                ==> final(self).finisher_map().contains_key(orientation_key_of(scrambled.0@) as u128),
    {
        broadcast use vstd::std_specs::hash::group_hash_axioms;

        let key = orientation_key(scrambled);
        if self.finishers.contains_key(&key) {
            return;
        }
        let inverse = invert_twists(alg.twists.as_slice());
        match build_alg(&inverse) {
            Some(inv) => {
                if check_effect(&inv) {
                    let after = apply_alg(&inv, scrambled);
                    if is_oriented(after) {
                        let index = self.push_alg(inv);
                        proof {
                            lemma_cost_bounded(*alg);
                            let f = Finish { first: index, second: NO_ALG, cost: alg.cost as u32 };
                            assert(self.finish_seq(f) =~= seq![inv]);
                            assert(seq![inv].drop_last() =~= Seq::<Alg>::empty());
                            assert(apply_all(scrambled.0@, seq![inv]) == effect_on(
                                inv.effect,
                                apply_all(scrambled.0@, Seq::<Alg>::empty()),
                            ));
                        }
                        self.record_finish(
                            key,
                            Finish { first: index, second: NO_ALG, cost: alg.cost as u32 },
                            Ghost(scrambled.0@),
                        );
                    }
                }
            },
            None => {},
        }
    }

    /// Stores, as the finish for the orientation that `a` then `b` make of
    /// solved, the inverse of `b` then that of `a` (stored at `ib` and
    /// `ia`), unless a finish as cheap is stored.
    fn add_pair(&mut self, a: &Alg, ia: usize, after_a: CellState, b: &Alg, ib: usize, tables: &Tables)
        requires
            old(self).wf(),
            ia < old(self).finish_algs_view().len(),
            ib < old(self).finish_algs_view().len(),
            ia != NO_ALG,
            a.valid(),
            b.valid(),
            effect_ok(b.effect),
            after_a.wf(),
        ensures
            final(self).wf(),
            final(self).clearable_set() == old(self).clearable_set(),
            final(self).finish_algs_view() == old(self).finish_algs_view(),
            map_grows(old(self).finisher_map(), final(self).finisher_map()),
    {
        broadcast use vstd::std_specs::hash::group_hash_axioms;

        let s = apply_alg_by(b, after_a, tables);
        let key = orientation_key(s);
        proof {
            lemma_cost_bounded(*a);
            lemma_cost_bounded(*b);
        }
        let cost = (a.cost + b.cost) as u32;
        let better = match self.finishers.get(&key) {
            Some(e) => cost < e.cost,
            None => true,
        };
        if better {
            let inv_b = self.finish_algs[ib as usize];
            let inv_a = self.finish_algs[ia as usize];
            proof {
                assert(effect_ok(self.finish_algs_view()[ib as int].effect));
                assert(effect_ok(self.finish_algs_view()[ia as int].effect));
            }
            let r = apply_alg_by(&inv_a, apply_alg_by(&inv_b, s, tables), tables);
            if is_oriented(r) {
                proof {
                    let f = Finish { first: ib, second: ia, cost };
                    let fin = seq![inv_b, inv_a];
                    assert(self.finish_seq(f) =~= fin);
                    assert(fin.drop_last() =~= seq![inv_b]);
                    assert(seq![inv_b].drop_last() =~= Seq::<Alg>::empty());
                    assert(apply_all(s.0@, seq![inv_b]) == effect_on(
                        inv_b.effect,
                        apply_all(s.0@, Seq::<Alg>::empty()),
                    ));
                    assert(apply_all(s.0@, fin) == effect_on(inv_a.effect, apply_all(s.0@, seq![inv_b])));
                }
                self.record_finish(key, Finish { first: ib, second: ia, cost }, Ghost(s.0@));
            }
        }
    }

    /// Builds what the algorithms of `table` that keep the `preserve` types
    /// oriented can finish from: every orientation that one of them, or the
    /// inverses of two of the first `backward_algs` of them, orients
    /// outright, and every profile one of them produces from solved.
    pub fn of(table: &AlgTable, preserve: [bool; 3], params: &LastCellSearchParams) -> (c: Self)
        ensures
            c.wf(),
            forall|p: [usize; 3]|
                #[trigger] c.clearable_set().contains(p) <==> nonzero_profile(p) && produced_profile(
                    table@,
                    preserve,
                    table@.len() as int,
                    p,
                ),
            finishes_known(table@, preserve, table@.len() as int, c.finisher_map()),
            preserve[0] && preserve[1] && preserve[2] ==> c.finisher_map().is_empty(),
    {
        broadcast use vstd::std_specs::hash::group_hash_axioms;

        let algs = table.algs();
        let solved = solved_state();
        let mut cases = OrientationCases::new();
        let mut backward: Vec<Alg> = Vec::new();
        let mut k: usize = 0;
        while k < algs.len()
            invariant
                0 <= k <= algs@.len(),
                algs@ == table@,
                all_valid(algs@),
                solved.0@ == solved_cell(),
                solved.wf(),
                cases.wf(),
                forall|p: [usize; 3]|
                    #[trigger] cases.clearable_set().contains(p) <==> nonzero_profile(p) && produced_profile(
                        algs@,
                        preserve,
                        k as int,
                        p,
                    ),
                effects_ok(backward@),
                all_valid(backward@),
                cheapest_first(algs@),
                finishes_known(algs@, preserve, k as int, cases.finisher_map()),
                forall|key: u128|
                    #[trigger] cases.finisher_map().contains_key(key) ==> forall|t: int|
                        k <= t < algs@.len() ==> cases.finisher_map()[key].cost <= (#[trigger] algs@[t]).cost,
                preserve[0] && preserve[1] && preserve[2] ==> cases.finisher_map().is_empty() && backward@.len()
                    == 0,
            decreases algs@.len() - k,
        {
            let alg = algs[k];
            let ghost before = cases.clearable_set();
            let ghost old_map = cases.finisher_map();
            let usable = keeps(&alg.effect, preserve) && check_effect(&alg);
            if usable {
                proof {
                    if preserve[0] && preserve[1] && preserve[2] {
                        assert(preserve =~= [true, true, true]);
                        lemma_keeps_all_from_solved(alg.effect);
                    }
                }
                cases.add_single(&alg, solved, &mut backward, params.backward_algs);
            }
            proof {
                lemma_profiles_step(algs@, preserve, k as int, before, cases.clearable_set());
                lemma_finishes_known_grows(algs@, preserve, k as int, old_map, cases.finisher_map());
                let key_k = orientation_key_of(effect_on(algs@[k as int].effect, solved_cell())) as u128;
                if usable && misoriented(effect_on(alg.effect, solved_cell())) != 0 && inverse_finishes(alg) {
                    assert(cases.finisher_map().contains_key(key_k));
                    if old_map.contains_key(key_k) {
                        assert(old_map[key_k].cost <= algs@[k as int].cost);
                    }
                }
                assert(finishes_known(algs@, preserve, k + 1, cases.finisher_map()));
                assert forall|key: u128|
                    #[trigger] cases.finisher_map().contains_key(key) implies forall|t: int|
                        k + 1 <= t < algs@.len() ==> cases.finisher_map()[key].cost <= (#[trigger] algs@[t]).cost by {
                    assert forall|t: int| k + 1 <= t < algs@.len() implies cases.finisher_map()[key].cost <= (
                    #[trigger] algs@[t]).cost by {
                        assert(algs@[k as int].cost <= algs@[t].cost);
                        if old_map.contains_key(key) {
                            assert(old_map[key].cost <= algs@[t].cost);
                        }
                    }
                }
            }
            k += 1;
        }
        let ghost profiles = cases.clearable_set();
        let tables = Tables::new();
        let mut pairs: Vec<(Alg, usize)> = Vec::new();
        let mut b: usize = 0;
        while b < backward.len()
            invariant
                0 <= b <= backward@.len(),
                effects_ok(backward@),
                all_valid(backward@),
                cases.wf(),
                cases.clearable_set() == profiles,
                forall|q: int|
                    0 <= q < pairs@.len() ==> (#[trigger] pairs@[q]).0.valid() && effect_ok(pairs@[q].0.effect)
                        && pairs@[q].1 < cases.finish_algs_view().len() && pairs@[q].1 != NO_ALG,
                finishes_known(table@, preserve, table@.len() as int, cases.finisher_map()),
                preserve[0] && preserve[1] && preserve[2] ==> cases.finisher_map().is_empty() && backward@.len()
                    == 0 && pairs@.len() == 0,
            decreases backward@.len() - b,
        {
            let a = backward[b];
            let inverse = invert_twists(a.twists.as_slice());
            match build_alg(&inverse) {
                Some(inv) => {
                    if check_effect(&inv) {
                        let index = cases.push_alg(inv);
                        pairs.push((a, index));
                    }
                },
                None => {},
            }
            b += 1;
        }
        let mut i: usize = 0;
        while i < pairs.len()
            invariant
                0 <= i <= pairs@.len(),
                solved.0@ == solved_cell(),
                solved.wf(),
                cases.wf(),
                cases.clearable_set() == profiles,
                forall|q: int|
                    0 <= q < pairs@.len() ==> (#[trigger] pairs@[q]).0.valid() && effect_ok(pairs@[q].0.effect)
                        && pairs@[q].1 < cases.finish_algs_view().len() && pairs@[q].1 != NO_ALG,
                finishes_known(table@, preserve, table@.len() as int, cases.finisher_map()),
                preserve[0] && preserve[1] && preserve[2] ==> cases.finisher_map().is_empty() && pairs@.len() == 0,
            decreases pairs@.len() - i,
        {
            let (a, ia) = pairs[i];
            let after_a = apply_alg(&a, solved);
            let mut j: usize = 0;
            while j < pairs.len()
                invariant
                    0 <= j <= pairs@.len(),
                    i < pairs@.len(),
                    pairs@[i as int] == (a, ia),
                    after_a.wf(),
                    cases.wf(),
                    cases.clearable_set() == profiles,
                    forall|q: int|
                        0 <= q < pairs@.len() ==> (#[trigger] pairs@[q]).0.valid() && effect_ok(pairs@[q].0.effect)
                            && pairs@[q].1 < cases.finish_algs_view().len() && pairs@[q].1 != NO_ALG,
                    finishes_known(table@, preserve, table@.len() as int, cases.finisher_map()),
                decreases pairs@.len() - j,
            {
                let (bb, ib) = pairs[j];
                let ghost old_map = cases.finisher_map();
                cases.add_pair(&a, ia, after_a, &bb, ib, &tables);
                proof {
                    lemma_finishes_known_grows(table@, preserve, table@.len() as int, old_map, cases.finisher_map());
                }
                j += 1;
            }
            i += 1;
        }
        cases
    }

    /// No finishes and no profiles.
    pub fn new() -> (c: Self)
        ensures
            c.wf(),
            c.finisher_map().is_empty(),
            c.finish_algs_view().len() == 0,
            c.clearable_set().is_empty(),
    {
        let c = OrientationCases { finish_algs: Vec::new(), finishers: HashMap::new(), clearable: Vec::new() };
        proof {
            assert(c.finisher_map() =~= Map::empty());
            assert(c.clearable_set() =~= Set::empty());
        }
        c
    }
}

/// One step of the last-cell method.
///
/// Humans split OLC into three steps, one per piece type, because each has
/// a pure algorithm touching only that type. Genuinely 4D algorithms are
/// much shorter but never pure, so OLC is one step here against a joint
/// objective, followed by permuting the 2c pieces.
#[derive(Debug, Copy, Clone, PartialEq, Eq)]
pub enum Stage {
    /// Orient every piece of the last cell.
    Olc,
    /// Permute the 2c pieces, keeping every orientation.
    Plc2c,
}

/// The stages, in the order they run.
pub const STAGES: [Stage; 2] = [Stage::Olc, Stage::Plc2c];

/// The stages, in the order they run.
pub open spec fn spec_stages() -> Seq<Stage> {
    seq![Stage::Olc, Stage::Plc2c]
}

/// Every twist of the algorithm turns the last cell: it only sets up.
pub open spec fn is_setup_spec(alg: Alg) -> bool {
    forall|k: int| 0 <= k < alg.twists@.len() ==> (#[trigger] alg.twists@[k]).grip == I
}

impl Stage {
    /// Piece types whose orientation is already done and must survive.
    pub open spec fn spec_preserve(self) -> [bool; 3] {
        match self {
            Stage::Olc => [false, false, false],
            Stage::Plc2c => [true, true, true],
        }
    }

    /// Piece types this stage acts on.
    pub open spec fn spec_relevant(self) -> [bool; 3] {
        match self {
            Stage::Olc => [true, true, true],
            Stage::Plc2c => [true, false, false],
        }
    }

    /// What this stage still has to fix in `a`; zero means done.
    pub open spec fn spec_remaining(self, a: Seq<ElemId>) -> int {
        match self {
            Stage::Olc => misoriented(a),
            Stage::Plc2c => unsolved_count(a, 0),
        }
    }

    /// How far `a` is from this stage's goal, for ranking.
    pub open spec fn spec_stage_distance(self, a: Seq<ElemId>, cases: OrientationCases) -> int {
        match self {
            Stage::Olc => cases.spec_distance(a),
            Stage::Plc2c => unsolved_count(a, 0),
        }
    }

    /// `alg` can move this stage towards its goal: applied to a solved
    /// cell it moves away from the goal, or it only sets up.
    pub open spec fn productive(self, alg: Alg) -> bool {
        is_setup_spec(alg) || self.spec_remaining(effect_on(alg.effect, solved_cell())) != 0
    }

    /// The stage's name.
    pub open spec fn spec_name(self) -> Seq<char> {
        match self {
            Stage::Olc => "OLC"@,
            Stage::Plc2c => "PLC 2c"@,
        }
    }

    /// The stage's name.
    pub fn name(&self) -> (s: &'static str)
        ensures
            s@ == self.spec_name(),
    {
        match self {
            Stage::Olc => "OLC",
            Stage::Plc2c => "PLC 2c",
        }
    }

    /// Piece types whose orientation is already done and must survive.
    pub fn preserve(&self) -> (r: [bool; 3])
        ensures
            r == self.spec_preserve(),
    {
        match self {
            Stage::Olc => [false, false, false],
            Stage::Plc2c => [true, true, true],
        }
    }

    /// Piece types this stage acts on.
    pub fn relevant(&self) -> (r: [bool; 3])
        ensures
            r == self.spec_relevant(),
    {
        match self {
            Stage::Olc => [true, true, true],
            Stage::Plc2c => [true, false, false],
        }
    }

    /// Returns what this stage still has to fix; zero means done.
    pub fn remaining(&self, state: CellState) -> (n: usize)
        requires
            state.wf(),
        ensures
            n == self.spec_remaining(state.0@),
    {
        match self {
            Stage::Olc => {
                let p = state.unoriented();
                proof {
                    assert(is_profile(p, state.0@));
                }
                p[0] + p[1] + p[2]
            },
            Stage::Plc2c => {
                let p = state.unsolved();
                p[0]
            },
        }
    }

    /// Returns how far `state` is from this stage's goal, for ranking.
    pub fn distance(&self, state: CellState, cases: &OrientationCases) -> (d: usize)
        requires
            state.wf(),
        ensures
            d == self.spec_stage_distance(state.0@, *cases),
    {
        match self {
            Stage::Olc => cases.distance(state),
            Stage::Plc2c => {
                let p = state.unsolved();
                p[0]
            },
        }
    }
}

/// Returns whether every twist of `alg` turns the last cell.
fn is_setup(alg: &Alg) -> (b: bool)
    ensures
        b == is_setup_spec(*alg),
{
    let n = alg.twists.len();
    let mut k: usize = 0;
    while k < n
        invariant
            0 <= k <= n,
            n == alg.twists@.len(),
            forall|j: int| 0 <= j < k ==> (#[trigger] alg.twists@[j]).grip == I,
        decreases n - k,
    {
        if alg.twists.get(k).grip != I {
            return false;
        }
        k += 1;
    }
    true
}

/// Returns whether two signatures are equal.
fn same_signature(a: &Vec<u16>, b: &Vec<u16>) -> (r: bool)
    ensures
        r == (a@ == b@),
{
    if a.len() != b.len() {
        return false;
    }
    let mut i: usize = 0;
    while i < a.len()
        invariant
            0 <= i <= a@.len(),
            a@.len() == b@.len(),
            forall|j: int| 0 <= j < i ==> a@[j] == b@[j],
        decreases a@.len() - i,
    {
        if a[i] != b[i] {
            return false;
        }
        i += 1;
    }
    proof {
        assert(a@ =~= b@);
    }
    true
}

/// Some kept algorithm acts on the `relevant` types as `x` does and costs
/// no more.
pub open spec fn represented(kept: Seq<Alg>, x: Alg, relevant: [bool; 3]) -> bool {
    exists|i: int|
        0 <= i < kept.len() && (#[trigger] kept[i]).effect.spec_signature(relevant) == x.effect.spec_signature(
            relevant,
        ) && kept[i].cost <= x.cost
}

/// The algorithm may serve `stage`: it keeps the stage's preserved types
/// oriented, its effect is fine to apply, and it is productive there.
pub open spec fn usable_for(stage: Stage, alg: Alg) -> bool {
    &&& keeps_required(alg.effect, stage.spec_preserve())
    &&& effect_ok(alg.effect)
    &&& stage.productive(alg)
}

/// Picks the algorithms `stage` may use: of those that keep its preserved
/// types oriented and can move it towards its goal, the cheapest for each
/// behaviour on the types it acts on, cheapest first, at most
/// `max_algs_per_stage` of them.
pub fn stage_algs(stage: Stage, table: &AlgTable, params: &LastCellSearchParams) -> (r: Vec<Alg>)
    ensures
        r@.len() <= params.max_algs_per_stage,
        cheapest_first(r@),
        all_valid(r@),
        effects_ok(r@),
        forall|i: int| 0 <= i < r@.len() ==> table@.contains(#[trigger] r@[i]) && usable_for(stage, r@[i]),
        forall|i: int, j: int|
            0 <= i < j < r@.len() ==> (#[trigger] r@[i]).effect.spec_signature(stage.spec_relevant())
                != (#[trigger] r@[j]).effect.spec_signature(stage.spec_relevant()),
        forall|t: int|
            0 <= t < table@.len() && usable_for(stage, #[trigger] table@[t]) ==> represented(
                r@,
                table@[t],
                stage.spec_relevant(),
            ) || (r@.len() == params.max_algs_per_stage && forall|i: int|
                0 <= i < r@.len() ==> (#[trigger] r@[i]).cost <= table@[t].cost),
{
    let algs = table.algs();
    let solved = solved_state();
    let preserve = stage.preserve();
    let relevant = stage.relevant();
    let mut r: Vec<Alg> = Vec::new();
    let mut sigs: Vec<Vec<u16>> = Vec::new();
    let ghost mut idx: Seq<int> = Seq::empty();
    let mut k: usize = 0;
    while k < algs.len() && r.len() < params.max_algs_per_stage
        invariant
            0 <= k <= algs@.len(),
            algs@ == table@,
            all_valid(algs@),
            cheapest_first(algs@),
            solved.0@ == solved_cell(),
            solved.wf(),
            preserve == stage.spec_preserve(),
            relevant == stage.spec_relevant(),
            r@.len() <= params.max_algs_per_stage,
            sigs@.len() == r@.len(),
            idx.len() == r@.len(),
            forall|i: int| 0 <= i < r@.len() ==> (#[trigger] sigs@[i])@ == r@[i].effect.spec_signature(relevant),
            forall|i: int| 0 <= i < r@.len() ==> 0 <= #[trigger] idx[i] < k && r@[i] == algs@[idx[i]],
            forall|i: int, j: int| 0 <= i < j < r@.len() ==> idx[i] < idx[j],
            forall|i: int| 0 <= i < r@.len() ==> usable_for(stage, #[trigger] r@[i]),
            forall|i: int, j: int|
                0 <= i < j < r@.len() ==> (#[trigger] r@[i]).effect.spec_signature(relevant)
                    != (#[trigger] r@[j]).effect.spec_signature(relevant),
            forall|t: int| 0 <= t < k && usable_for(stage, #[trigger] algs@[t]) ==> represented(r@, algs@[t], relevant),
        decreases algs@.len() - k,
    {
        let alg = algs[k];
        if keeps(&alg.effect, preserve) && check_effect(&alg) {
            let setup = is_setup(&alg);
            if setup || stage.remaining(apply_alg(&alg, solved)) != 0 {
                let sig = alg.effect.signature(relevant);
                let mut found = false;
                let mut i: usize = 0;
                while i < sigs.len()
                    invariant
                        0 <= i <= sigs@.len(),
                        !found ==> forall|j: int| 0 <= j < i ==> (#[trigger] sigs@[j])@ != sig@,
                        found ==> exists|j: int| 0 <= j < sigs@.len() && (#[trigger] sigs@[j])@ == sig@,
                    decreases sigs@.len() - i,
                {
                    if same_signature(&sigs[i], &sig) {
                        found = true;
                        proof {
                            assert(sigs@[i as int]@ == sig@);
                        }
                    }
                    i += 1;
                }
                if found {
                    proof {
                        let j = choose|j: int| 0 <= j < sigs@.len() && (#[trigger] sigs@[j])@ == sig@;
                        assert(algs@[idx[j]].cost <= alg.cost);
                        assert(represented(r@, algs@[k as int], relevant));
                    }
                } else {
                    let ghost old_r = r@;
                    let ghost old_sigs = sigs@;
                    r.push(alg);
                    sigs.push(sig);
                    proof {
                        idx = idx.push(k as int);
                        assert(represented(r@, algs@[k as int], relevant)) by {
                            assert(r@[r@.len() - 1] == alg);
                        }
                        assert forall|t: int| 0 <= t < k && usable_for(stage, #[trigger] algs@[t]) implies represented(
                            r@,
                            algs@[t],
                            relevant,
                        ) by {
                            assert(represented(old_r, algs@[t], relevant));
                            let i = choose|i: int|
                                0 <= i < old_r.len() && (#[trigger] old_r[i]).effect.spec_signature(relevant)
                                    == algs@[t].effect.spec_signature(relevant) && old_r[i].cost <= algs@[t].cost;
                            assert(r@[i] == old_r[i]);
                        }
                        assert forall|i: int, j: int|
                            0 <= i < j < r@.len() implies (#[trigger] r@[i]).effect.spec_signature(relevant)
                                != (#[trigger] r@[j]).effect.spec_signature(relevant) by {
                            if j == r@.len() - 1 {
                                assert(old_sigs[i]@ != sig@);
                                assert(sigs@[i] == old_sigs[i]);
                            }
                        }
                    }
                }
            }
        }
        k += 1;
    }
    proof {
        assert forall|p: int, q: int| 0 <= p < q < r@.len() implies (#[trigger] r@[p]).cost <= (#[trigger] r@[q]).cost by {
            assert(idx[p] < idx[q]);
        }
        assert forall|i: int| 0 <= i < r@.len() implies table@.contains(#[trigger] r@[i]) by {
            assert(algs@[idx[i]] == r@[i]);
        }
        assert forall|t: int|
            0 <= t < table@.len() && usable_for(stage, #[trigger] table@[t]) implies represented(
                r@,
                table@[t],
                stage.spec_relevant(),
            ) || (r@.len() == params.max_algs_per_stage && forall|i: int|
                0 <= i < r@.len() ==> (#[trigger] r@[i]).cost <= table@[t].cost) by {
            if t >= k {
                assert forall|i: int| 0 <= i < r@.len() implies (#[trigger] r@[i]).cost <= table@[t].cost by {
                    assert(idx[i] < t);
                }
            }
        }
    }
    r
}

/// The attitude IDs of a cell, as bytes.
spec fn state_bytes(s: CellState) -> Seq<u8> {
    Seq::new(26, |j: int| s.0[j].0)
}

/// The hash of a cell's bytes.
spec fn state_hash(s: CellState) -> u64 {
    DefaultHasher::spec_finish(seq![state_bytes(s)])
}

/// Returns the hash of a cell's bytes.
fn hash_state(s: &CellState) -> (h: u64)
    ensures
        h == state_hash(*s),
{
    let mut bytes = [0u8; 26];
    let mut j: usize = 0;
    while j < 26
        invariant
            0 <= j <= 26,
            forall|k: int| 0 <= k < j ==> bytes[k] == s.0[k].0,
        decreases 26 - j,
    {
        bytes[j] = s.0[j].0;
        j += 1;
    }
    let mut hasher = DefaultHasher::new();
    hasher.write(bytes.as_slice());
    proof {
        assert(bytes@ =~= state_bytes(*s));
        assert(hasher@ =~= seq![state_bytes(*s)]);
    }
    hasher.finish()
}

/// Returns whether two cells are the same.
fn same_state(a: &CellState, b: &CellState) -> (r: bool)
    ensures
        r == (*a == *b),
{
    let mut j: usize = 0;
    while j < 26
        invariant
            0 <= j <= 26,
            forall|k: int| 0 <= k < j ==> a.0[k] == b.0[k],
        decreases 26 - j,
    {
        if a.0[j].0 != b.0[j].0 {
            return false;
        }
        j += 1;
    }
    proof {
        assert(a.0 =~= b.0);
    }
    true
}

/// A set of cells, found by hash.
struct StateSet {
    states: Vec<CellState>,
    index: HashMap<u64, Vec<usize>>,
}

impl StateSet {
    spec fn contents(&self) -> Set<CellState> {
        Set::new(|c: CellState| self.states@.contains(c))
    }

    /// The index finds each cell, and holds only positions of cells with
    /// its hash.
    spec fn wf(&self) -> bool {
        &&& forall|i: int|
            #![trigger self.states@[i]]
            0 <= i < self.states@.len() ==> self.index@.contains_key(state_hash(self.states@[i]))
                && self.index@[state_hash(self.states@[i])]@.contains(i as usize)
        &&& forall|h: u64, k: int|
            #![trigger self.index@[h]@[k]]
            self.index@.contains_key(h) && 0 <= k < self.index@[h]@.len() ==> self.index@[h]@[k]
                < self.states@.len()
    }

    fn new() -> (s: Self)
        ensures
            s.wf(),
            s.contents() == Set::<CellState>::empty(),
    {
        let s = StateSet { states: Vec::new(), index: HashMap::new() };
        proof {
            assert(s.contents() =~= Set::<CellState>::empty());
        }
        s
    }

    /// Adds `c`, returning whether it was new.
    fn insert(&mut self, c: CellState) -> (added: bool)
        requires
            old(self).wf(),
        ensures
            final(self).wf(),
            added == !old(self).contents().contains(c),
            final(self).contents() == old(self).contents().insert(c),
    {
        broadcast use vstd::std_specs::hash::group_hash_axioms;

        let h = hash_state(&c);
        let mut bucket: Vec<usize> = match self.index.get(&h) {
            Some(b) => b.clone(),
            None => Vec::new(),
        };
        proof {
            if self.index@.contains_key(h) {
                assert(bucket@ =~= self.index@[h]@) by {
                    assert forall|k: int| 0 <= k < bucket@.len() implies bucket@[k] == self.index@[h]@[k] by {
                        assert(vstd::pervasive::cloned(self.index@[h]@[k], bucket@[k]));
                    }
                }
            }
        }
        let mut k: usize = 0;
        while k < bucket.len()
            invariant
                0 <= k <= bucket@.len(),
                self.wf(),
                self.index@.contains_key(h) ==> bucket@ == self.index@[h]@,
                !self.index@.contains_key(h) ==> bucket@.len() == 0,
                forall|m: int| 0 <= m < k ==> self.states@[bucket@[m] as int] != c,
            decreases bucket@.len() - k,
        {
            let at = bucket[k];
            proof {
                assert(self.index@[h]@[k as int] < self.states@.len());
            }
            if same_state(&self.states[at], &c) {
                proof {
                    assert(self.states@.contains(c));
                    assert(self.contents().insert(c) =~= self.contents());
                }
                return false;
            }
            k += 1;
        }
        proof {
            if self.states@.contains(c) {
                let i = choose|i: int| 0 <= i < self.states@.len() && self.states@[i] == c;
                assert(self.index@[state_hash(self.states@[i])]@.contains(i as usize));
                let m = choose|m: int| 0 <= m < bucket@.len() && bucket@[m] == i as usize;
                assert(self.states@[bucket@[m] as int] != c);
            }
        }
        let ghost before = *self;
        let at = self.states.len();
        self.states.push(c);
        bucket.push(at);
        self.index.insert(h, bucket);
        proof {
            assert(self.contents() =~= before.contents().insert(c)) by {
                assert forall|x: CellState| self.states@.contains(x) <==> before.states@.contains(x) || x == c by {
                    if self.states@.contains(x) {
                        let i = choose|i: int| 0 <= i < self.states@.len() && self.states@[i] == x;
                        if i < before.states@.len() {
                            assert(before.states@[i] == x);
                        }
                    }
                    if before.states@.contains(x) {
                        let i = choose|i: int| 0 <= i < before.states@.len() && before.states@[i] == x;
                        assert(self.states@[i] == x);
                    }
                    if x == c {
                        assert(self.states@[at as int] == c);
                    }
                }
            }
            assert forall|i: int|
                #![trigger self.states@[i]]
                0 <= i < self.states@.len() implies self.index@.contains_key(state_hash(self.states@[i]))
                    && self.index@[state_hash(self.states@[i])]@.contains(i as usize) by {
                if i < at {
                    assert(self.states@[i] == before.states@[i]);
                    let hi = state_hash(before.states@[i]);
                    assert(before.index@[hi]@.contains(i as usize));
                    if hi == h {
                        let m = choose|m: int| 0 <= m < before.index@[hi]@.len() && before.index@[hi]@[m] == i as usize;
                        assert(self.index@[h]@[m] == i as usize);
                    }
                } else {
                    assert(self.index@[h]@[bucket@.len() - 1] == at);
                }
            }
            assert forall|hh: u64, m: int|
                #![trigger self.index@[hh]@[m]]
                self.index@.contains_key(hh) && 0 <= m < self.index@[hh]@.len() implies self.index@[hh]@[m]
                    < self.states@.len() by {
                if hh != h {
                    assert(before.index@[hh]@[m] < before.states@.len());
                } else if m < bucket@.len() - 1 {
                    assert(before.index@[h]@[m] < before.states@.len());
                }
            }
        }
        true
    }
}

/// Every algorithm of `path` is one of `algs` or one of `finish`.
pub open spec fn drawn_from(path: Seq<Alg>, algs: Seq<Alg>, finish: Seq<Alg>) -> bool {
    forall|i: int| 0 <= i < path.len() ==> algs.contains(#[trigger] path[i]) || finish.contains(path[i])
}

/// Applying `p` then `q` is applying `p + q`.
pub proof fn lemma_apply_all_concat(a: Seq<ElemId>, p: Seq<Alg>, q: Seq<Alg>)
    ensures
        apply_all(a, p + q) == apply_all(apply_all(a, p), q),
    decreases q.len(),
{
    if q.len() == 0 {
        assert(p + q =~= p);
    } else {
        assert((p + q).drop_last() =~= p + q.drop_last());
        assert((p + q).last() == q.last());
        lemma_apply_all_concat(a, p, q.drop_last());
    }
}

/// A cell whose pieces are all oriented has none misoriented.
pub proof fn lemma_oriented_none_misoriented(a: Seq<ElemId>)
    requires
        all_oriented(a),
    ensures
        misoriented(a) == 0,
{
    broadcast use vstd::seq_lib::group_filter_ensures;

    assert forall|kind: int| 0 <= kind < 3 implies unoriented_count(a, kind) == 0 by {
        let f = kind_slots(kind).filter(|j: usize| !oriented(a[j as int]));
        if f.len() > 0 {
            assert(f.contains(f[0]));
            kind_slots(kind).lemma_filter_contains_rev(|j: usize| !oriented(a[j as int]), f[0]);
            assert(kind_slots(kind).contains(f[0]));
            assert(f[0] < 26);
            assert(oriented(a[f[0] as int]));
        }
    }
}

/// A partial solution: a cell, what it cost, how it ranks, and a link back
/// to the node it was reached from.
#[derive(Copy, Clone)]
struct Node {
    state: CellState,
    cost: usize,
    /// `cost` plus what it would take to finish from here, when that is
    /// known.
    projected_cost: usize,
    /// How far the node is from the stage's goal.
    distance: usize,
    /// How many of the cell's rows are built into bars; more is better.
    bars: usize,
    /// Index into the history, or `usize::MAX` for the start.
    parent: usize,
    /// Index into the stage's algorithms, or `usize::MAX` for the start.
    alg: usize,
    /// The algorithms that lead here.
    path: Ghost<Seq<Alg>>,
}

/// `a` ranks before `b`: closer to the goal, then cheaper all in, then more
/// bars.
spec fn rank_lt(a: Node, b: Node) -> bool {
    a.distance < b.distance || (a.distance == b.distance && (a.projected_cost < b.projected_cost || (
    a.projected_cost == b.projected_cost && a.bars > b.bars)))
}

fn rank_less(a: &Node, b: &Node) -> (r: bool)
    ensures
        r == rank_lt(*a, *b),
{
    a.distance < b.distance || (a.distance == b.distance && (a.projected_cost < b.projected_cost || (
    a.projected_cost == b.projected_cost && a.bars > b.bars)))
}

/// The node's cell is the start after its path, which is made of `algs`.
spec fn node_ok(n: Node, start: Seq<ElemId>, algs: Seq<Alg>) -> bool {
    &&& n.state.wf()
    &&& n.state.0@ == apply_all(start, n.path@)
    &&& effects_ok(n.path@)
    &&& forall|i: int| 0 <= i < n.path@.len() ==> algs.contains(#[trigger] n.path@[i])
}

/// The node's links lead back to its path through `history`, by parents
/// below `lim`.
spec fn links_ok(n: Node, history: Seq<Node>, lim: int, algs: Seq<Alg>) -> bool {
    if n.alg == usize::MAX {
        n.path@ == Seq::<Alg>::empty()
    } else {
        &&& n.alg < algs.len()
        &&& if n.parent == usize::MAX {
            n.path@ == seq![algs[n.alg as int]]
        } else {
            &&& n.parent < lim
            &&& lim <= history.len()
            &&& n.path@ == history[n.parent as int].path@.push(algs[n.alg as int])
        }
    }
}

/// Every node of the history links back through earlier ones.
spec fn history_ok(history: Seq<Node>, algs: Seq<Alg>) -> bool {
    forall|i: int| 0 <= i < history.len() ==> links_ok(#[trigger] history[i], history, i, algs)
}

/// Links into `old` still hold in `new`, which extends it.
proof fn lemma_links_extend(n: Node, old: Seq<Node>, new: Seq<Node>, lim: int, algs: Seq<Alg>)
    requires
        links_ok(n, old, lim, algs),
        old.len() <= new.len(),
        forall|i: int| 0 <= i < old.len() ==> new[i] == old[i],
    ensures
        links_ok(n, new, lim, algs),
{
    if n.alg != usize::MAX && n.parent != usize::MAX {
        assert(new[n.parent as int] == old[n.parent as int]);
    }
}

/// Returns the path of the node at `i` of the history.
fn path_at(history: &Vec<Node>, algs: &[Alg], i: usize) -> (r: Vec<Alg>)
    requires
        i < history@.len(),
        history_ok(history@, algs@),
    ensures
        r@ == history@[i as int].path@,
    decreases i,
{
    let n = history[i];
    assert(links_ok(history@[i as int], history@, i as int, algs@));
    if n.alg == usize::MAX {
        return Vec::new();
    }
    let mut r = if n.parent == usize::MAX {
        Vec::new()
    } else {
        path_at(history, algs, n.parent)
    };
    r.push(algs[n.alg]);
    proof {
        if n.parent == usize::MAX {
            assert(r@ =~= seq![algs@[n.alg as int]]);
        }
    }
    r
}

/// Returns the path of `n`, whose parent is in the history.
fn path_to(history: &Vec<Node>, algs: &[Alg], n: Node) -> (r: Vec<Alg>)
    requires
        history_ok(history@, algs@),
        links_ok(n, history@, history@.len() as int, algs@),
    ensures
        r@ == n.path@,
{
    if n.alg == usize::MAX {
        return Vec::new();
    }
    let mut r = if n.parent == usize::MAX {
        Vec::new()
    } else {
        path_at(history, algs, n.parent)
    };
    r.push(algs[n.alg]);
    proof {
        if n.parent == usize::MAX {
            assert(r@ =~= seq![algs@[n.alg as int]]);
        }
    }
    r
}

/// Ranks are in order: no node ranks before an earlier one.
spec fn rank_sorted(v: Seq<Node>) -> bool {
    forall|p: int, q: int| 0 <= p < q < v.len() ==> !rank_lt(#[trigger] v[q], #[trigger] v[p])
}

/// Sorts nodes by rank, keeping the order of nodes that rank alike.
fn sort_nodes(v: Vec<Node>) -> (r: Vec<Node>)
    ensures
        r@.len() == v@.len(),
        forall|i: int| 0 <= i < r@.len() ==> v@.contains(#[trigger] r@[i]),
        rank_sorted(r@),
    decreases v@.len(),
{
    let n = v.len();
    if n <= 1 {
        return v;
    }
    let mid = n / 2;
    let mut left: Vec<Node> = Vec::new();
    let mut right: Vec<Node> = Vec::new();
    let mut i: usize = 0;
    while i < n
        invariant
            0 <= i <= n,
            n == v@.len(),
            left@ == v@.subrange(0, if i < mid { i as int } else { mid as int }),
            right@ == v@.subrange(mid as int, if i < mid { mid as int } else { i as int }),
        decreases n - i,
    {
        if i < mid {
            left.push(v[i]);
        } else {
            right.push(v[i]);
        }
        i += 1;
    }
    let left = sort_nodes(left);
    let right = sort_nodes(right);
    let ghost lv = left@;
    let ghost rv = right@;
    let mut out: Vec<Node> = Vec::new();
    let mut a: usize = 0;
    let mut b: usize = 0;
    while a < left.len() || b < right.len()
        invariant
            left@ == lv,
            right@ == rv,
            0 <= a <= lv.len(),
            0 <= b <= rv.len(),
            out@.len() == a + b,
            rank_sorted(lv),
            rank_sorted(rv),
            rank_sorted(out@),
            forall|k: int| 0 <= k < out@.len() ==> lv.contains(#[trigger] out@[k]) || rv.contains(out@[k]),
            out@.len() > 0 && a < lv.len() ==> !rank_lt(lv[a as int], out@.last()),
            out@.len() > 0 && b < rv.len() ==> !rank_lt(rv[b as int], out@.last()),
        decreases lv.len() + rv.len() - a - b,
    {
        let take_left = a < left.len() && (b >= right.len() || !rank_less(&right[b], &left[a]));
        let ghost before = out@;
        if take_left {
            out.push(left[a]);
            a += 1;
        } else {
            out.push(right[b]);
            b += 1;
        }
        proof {
            assert forall|p: int, q: int| 0 <= p < q < out@.len() implies !rank_lt(#[trigger] out@[q], #[trigger] out@[p]) by {
                if q == out@.len() - 1 && p < before.len() {
                    assert(out@[p] == before[p]);
                    if p < before.len() - 1 {
                        assert(!rank_lt(before.last(), before[p]));
                    }
                }
            }
            assert forall|k: int| 0 <= k < out@.len() implies lv.contains(#[trigger] out@[k]) || rv.contains(out@[k]) by {
                if k < before.len() {
                    assert(out@[k] == before[k]);
                }
            }
            if take_left {
                if a < lv.len() {
                    assert(!rank_lt(lv[a as int], lv[a - 1]));
                }
            } else {
                if b < rv.len() {
                    assert(!rank_lt(rv[b as int], rv[b - 1]));
                }
            }
        }
    }
    proof {
        assert forall|i: int| 0 <= i < out@.len() implies v@.contains(#[trigger] out@[i]) by {
            if lv.contains(out@[i]) {
                let k = choose|k: int| 0 <= k < lv.len() && lv[k] == out@[i];
                let m = choose|m: int| 0 <= m < lv.len() && (v@.subrange(0, mid as int)).contains(lv[m]) && lv[m] == lv[k];
                assert(v@.subrange(0, mid as int).contains(out@[i]));
                let j = choose|j: int| 0 <= j < mid && v@.subrange(0, mid as int)[j] == out@[i];
                assert(v@[j] == out@[i]);
            } else {
                let k = choose|k: int| 0 <= k < rv.len() && rv[k] == out@[i];
                assert(v@.subrange(mid as int, n as int).contains(out@[i]));
                let j = choose|j: int| 0 <= j < n - mid && v@.subrange(mid as int, n as int)[j] == out@[i];
                assert(v@[mid + j] == out@[i]);
            }
        }
    }
    out
}

/// Makes a node for `state`, ranking it for `stage`.
fn new_node(
    stage: Stage,
    cases: &OrientationCases,
    state: CellState,
    cost: usize,
    parent: usize,
    alg: usize,
    path: Ghost<Seq<Alg>>,
    tables: &Tables,
) -> (n: Node)
    requires
        state.wf(),
    ensures
        n.state == state,
        n.cost == cost,
        n.parent == parent,
        n.alg == alg,
        n.path == path,
        n.distance == stage.spec_stage_distance(state.0@, *cases),
{
    // Charge for the finish now rather than discovering it later.
    let extra = match cases.finish_cost(state) {
        Some(c) => c,
        None => 0,
    };
    Node {
        state,
        cost,
        projected_cost: cost.saturating_add(extra),
        distance: stage.distance(state, cases),
        bars: state.bars_by(tables),
        parent,
        alg,
        path,
    }
}

/// Keeps the best-ranked nodes: sorted by rank, each cell (up to what its
/// pieces show) only once, at most half of `beam_width` (and at least one)
/// at any one distance, at most `beam_width` in all.
fn prune(candidates: Vec<Node>, beam_width: usize, tables: &Tables) -> (r: Vec<Node>)
    requires
        forall|i: int| 0 <= i < candidates@.len() ==> (#[trigger] candidates@[i]).state.wf(),
    ensures
        r@.len() <= beam_width,
        r@.len() <= candidates@.len(),
        forall|i: int| 0 <= i < r@.len() ==> candidates@.contains(#[trigger] r@[i]),
        rank_sorted(r@),
        candidates@.len() > 0 && beam_width > 0 ==> r@.len() > 0,
{
    let per_distance_cap = if beam_width / 2 > 1 {
        beam_width / 2
    } else {
        1
    };
    let sorted = sort_nodes(candidates);
    let mut seen = StateSet::new();
    let mut distances: Vec<usize> = Vec::new();
    let mut counts: Vec<usize> = Vec::new();
    let mut out: Vec<Node> = Vec::new();
    let mut i: usize = 0;
    while i < sorted.len() && out.len() < beam_width
        invariant
            0 <= i <= sorted@.len(),
            sorted@.len() == candidates@.len(),
            forall|k: int| 0 <= k < candidates@.len() ==> (#[trigger] candidates@[k]).state.wf(),
            forall|k: int| 0 <= k < sorted@.len() ==> candidates@.contains(#[trigger] sorted@[k]),
            rank_sorted(sorted@),
            seen.wf(),
            distances@.len() == counts@.len(),
            out@.len() <= beam_width,
            out@.len() <= i,
            forall|k: int| 0 <= k < out@.len() ==> candidates@.contains(#[trigger] out@[k]),
            forall|k: int, m: int|
                0 <= k < out@.len() && 0 <= m < sorted@.len() && i <= m ==> !rank_lt(
                    #[trigger] sorted@[m],
                    #[trigger] out@[k],
                ),
            rank_sorted(out@),
            per_distance_cap >= 1,
            i == 0 ==> seen.contents() == Set::<CellState>::empty() && distances@.len() == 0,
            i > 0 && beam_width > 0 ==> out@.len() > 0,
        decreases sorted@.len() - i,
    {
        let node = sorted[i];
        proof {
            assert(candidates@.contains(sorted@[i as int]));
            let c = choose|c: int| 0 <= c < candidates@.len() && candidates@[c] == sorted@[i as int];
            assert(candidates@[c].state.wf());
        }
        if seen.insert(node.state.canonicalize_by(tables)) {
            let mut t: usize = 0;
            let mut count: usize = 1;
            let mut found = false;
            while t < distances.len()
                invariant
                    0 <= t <= distances@.len(),
                    distances@.len() == counts@.len(),
                    !found ==> count == 1,
                    found ==> distances@.len() > 0,
                decreases distances@.len() - t,
            {
                if !found && distances[t] == node.distance {
                    count = counts[t].saturating_add(1);
                    counts.set(t, count);
                    found = true;
                }
                t += 1;
            }
            if !found {
                distances.push(node.distance);
                counts.push(1);
            }
            if count <= per_distance_cap {
                let ghost before = out@;
                out.push(node);
                proof {
                    assert forall|p: int, q: int| 0 <= p < q < out@.len() implies !rank_lt(#[trigger] out@[q], #[trigger] out@[p]) by {
                        if q == out@.len() - 1 {
                            assert(out@[p] == before[p]);
                        } else {
                            assert(out@[p] == before[p]);
                            assert(out@[q] == before[q]);
                        }
                    }
                    assert forall|k: int, m: int|
                        0 <= k < out@.len() && 0 <= m < sorted@.len() && i + 1 <= m implies !rank_lt(
                            #[trigger] sorted@[m],
                            #[trigger] out@[k],
                        ) by {
                        if k < before.len() {
                            assert(out@[k] == before[k]);
                        }
                    }
                    assert forall|k: int| 0 <= k < out@.len() implies candidates@.contains(#[trigger] out@[k]) by {
                        if k < before.len() {
                            assert(out@[k] == before[k]);
                        }
                    }
                }
            }
        }
        i += 1;
    }
    out
}

/// The node is the start after its path, links back through `history`,
/// and knows its distance for `stage`.
spec fn good(
    n: Node,
    stage: Stage,
    cases: OrientationCases,
    start: Seq<ElemId>,
    algs: Seq<Alg>,
    history: Seq<Node>,
) -> bool {
    &&& node_ok(n, start, algs)
    &&& links_ok(n, history, history.len() as int, algs)
    &&& n.distance == stage.spec_stage_distance(n.state.0@, cases)
}

/// Every node of `v` is [`good`].
spec fn all_good(
    v: Seq<Node>,
    stage: Stage,
    cases: OrientationCases,
    start: Seq<ElemId>,
    algs: Seq<Alg>,
    history: Seq<Node>,
) -> bool {
    forall|k: int| 0 <= k < v.len() ==> good(#[trigger] v[k], stage, cases, start, algs, history)
}

/// Nodes taken from good nodes are good.
proof fn lemma_good_subset(
    v: Seq<Node>,
    w: Seq<Node>,
    stage: Stage,
    cases: OrientationCases,
    start: Seq<ElemId>,
    algs: Seq<Alg>,
    history: Seq<Node>,
)
    requires
        all_good(v, stage, cases, start, algs, history),
        forall|i: int| 0 <= i < w.len() ==> v.contains(#[trigger] w[i]),
    ensures
        all_good(w, stage, cases, start, algs, history),
{
    assert forall|i: int| 0 <= i < w.len() implies good(#[trigger] w[i], stage, cases, start, algs, history) by {
        assert(v.contains(w[i]));
        let k = choose|k: int| 0 <= k < v.len() && v[k] == w[i];
        assert(good(v[k], stage, cases, start, algs, history));
    }
}

/// Nodes taken from nodes reached by some algorithm were reached by some
/// algorithm.
proof fn lemma_moved_subset(v: Seq<Node>, w: Seq<Node>)
    requires
        forall|k: int| 0 <= k < v.len() ==> (#[trigger] v[k]).alg != usize::MAX,
        forall|i: int| 0 <= i < w.len() ==> v.contains(#[trigger] w[i]),
    ensures
        forall|k: int| 0 <= k < w.len() ==> (#[trigger] w[k]).alg != usize::MAX,
{
    assert forall|k: int| 0 <= k < w.len() implies (#[trigger] w[k]).alg != usize::MAX by {
        assert(v.contains(w[k]));
        let m = choose|m: int| 0 <= m < v.len() && v[m] == w[k];
        assert(v[m].alg != usize::MAX);
    }
}

/// Good nodes stay good as the history grows.
proof fn lemma_good_extend(
    n: Node,
    stage: Stage,
    cases: OrientationCases,
    start: Seq<ElemId>,
    algs: Seq<Alg>,
    old: Seq<Node>,
    new: Seq<Node>,
)
    requires
        good(n, stage, cases, start, algs, old),
        old.len() <= new.len(),
        forall|i: int| 0 <= i < old.len() ==> new[i] == old[i],
    ensures
        good(n, stage, cases, start, algs, new),
{
    if n.alg != usize::MAX && n.parent != usize::MAX {
        assert(new[n.parent as int] == old[n.parent as int]);
    }
}

/// Adds to `next` the node each algorithm makes of the history's node at
/// `parent`.
fn expand(
    stage: Stage,
    algs: &[Alg],
    cases: &OrientationCases,
    history: &Vec<Node>,
    parent: usize,
    next: &mut Vec<Node>,
    Ghost(start): Ghost<Seq<ElemId>>,
    tables: &Tables,
)
    requires
        parent < history@.len(),
        history@.len() <= usize::MAX,
        node_ok(history@[parent as int], start, algs@),
        effects_ok(algs@),
        all_good(old(next)@, stage, *cases, start, algs@, history@),
        forall|k: int| 0 <= k < old(next)@.len() ==> (#[trigger] old(next)@[k]).alg != usize::MAX,
    ensures
        all_good(final(next)@, stage, *cases, start, algs@, history@),
        final(next)@.len() == old(next)@.len() + algs@.len(),
        forall|k: int| 0 <= k < final(next)@.len() ==> (#[trigger] final(next)@[k]).alg != usize::MAX,
{
    let node = history[parent];
    let mut a: usize = 0;
    while a < algs.len()
        invariant
            0 <= a <= algs@.len(),
            node == history@[parent as int],
            parent < history@.len(),
            history@.len() <= usize::MAX,
            node_ok(node, start, algs@),
            effects_ok(algs@),
            all_good(next@, stage, *cases, start, algs@, history@),
            next@.len() == old(next)@.len() + a,
            forall|k: int| 0 <= k < next@.len() ==> (#[trigger] next@[k]).alg != usize::MAX,
        decreases algs@.len() - a,
    {
        let alg = &algs[a];
        proof {
            assert(effect_ok(algs@[a as int].effect));
            assert(a < algs@.len());
        }
        let state = apply_alg_by(alg, node.state, tables);
        let ghost path = node.path@.push(algs@[a as int]);
        let child = new_node(stage, cases, state, node.cost.saturating_add(alg.cost), parent, a, Ghost(path), tables);
        proof {
            assert(path.drop_last() =~= node.path@);
            assert(effects_ok(path)) by {
                assert forall|i: int| 0 <= i < path.len() implies effect_ok(#[trigger] path[i].effect) by {
                    if i < node.path@.len() {
                        assert(path[i] == node.path@[i]);
                    }
                }
            }
            assert forall|i: int| 0 <= i < path.len() implies algs@.contains(#[trigger] path[i]) by {
                if i < node.path@.len() {
                    assert(path[i] == node.path@[i]);
                } else {
                    assert(path[i] == algs@[a as int]);
                }
            }
            assert(apply_all(start, path) == effect_on(algs@[a as int].effect, apply_all(start, node.path@)));
            assert(node_ok(child, start, algs@));
            assert(child.alg != usize::MAX);
            assert(child.parent != usize::MAX);
            assert(child.path@ == history@[child.parent as int].path@.push(algs@[child.alg as int]));
            assert(links_ok(child, history@, history@.len() as int, algs@));
            assert(good(child, stage, *cases, start, algs@, history@));
        }
        let ghost before = next@;
        next.push(child);
        proof {
            assert forall|k: int| 0 <= k < next@.len() implies good(#[trigger] next@[k], stage, *cases, start, algs@, history@)
                && next@[k].alg != usize::MAX by {
                if k < before.len() {
                    assert(next@[k] == before[k]);
                }
            }
        }
        a += 1;
    }
}

/// Beam search over whole algorithms until the stage's distance is at most
/// one, starting from `start`.
///
/// Returns the algorithms to apply, and whether the line reaches the goal:
/// then, for OLC, nothing is left misoriented, and for the 2c permutation,
/// when no finishes are known, at most one ridge is unsolved. Falling short
/// still returns a line whenever a round ran, so the progress made is kept:
/// the line to the best-ranked leader of the rounds, which ends short of the
/// goal. Which line that is depends on how the beam was pruned, and the
/// contract leaves it open.
#[verifier::rlimit(60)]
pub fn run_beam(
    stage: Stage,
    algs: &[Alg],
    cases: &OrientationCases,
    start: CellState,
    params: &LastCellSearchParams,
) -> (r: (Vec<Alg>, bool))
    requires
        cases.wf(),
        start.wf(),
        effects_ok(algs@),
    ensures
        drawn_from(r.0@, algs@, cases.finish_algs_view()),
        effects_ok(r.0@),
        r.1 && stage == Stage::Olc ==> misoriented(apply_all(start.0@, r.0@)) == 0,
        r.1 && stage == Stage::Plc2c && cases.finisher_map().is_empty() ==> unsolved_count(
            apply_all(start.0@, r.0@),
            0,
        ) <= 1,
        params.max_rounds > 0 && algs@.len() > 0 && params.beam_width > 0 ==> r.0@.len() > 0,
        cases.finisher_map().contains_key(orientation_key_of(start.0@) as u128) ==> r.1 && r.0@ == cases.finish_seq(
            cases.finisher_map()[orientation_key_of(start.0@) as u128],
        ),
        !r.1 && r.0@.len() > 0 ==> stage.spec_stage_distance(apply_all(start.0@, r.0@), *cases) > 1,
        stage == Stage::Olc && misoriented(start.0@) != 0 ==> (r.1 <==> misoriented(apply_all(start.0@, r.0@)) == 0),
        stage == Stage::Plc2c && cases.finisher_map().is_empty() && (unsolved_count(start.0@, 0) > 1 || r.0@.len()
            > 0) ==> (r.1 <==> unsolved_count(apply_all(start.0@, r.0@), 0) <= 1),
{
    if let Some(finish) = cases.finisher(start) {
        proof {
            lemma_oriented_none_misoriented(apply_all(start.0@, finish@));
            lemma_finish_drawn(*cases, finish@, orientation_key_of(start.0@) as u128);
        }
        return (finish, true);
    }
    let ghost s0 = start.0@;
    // Trim in bulk rather than after every expansion; the slack keeps
    // enough duplicates around that deduplication has something to choose
    // from.
    let slack: usize = if params.beam_width <= usize::MAX / 8 {
        params.beam_width * 8
    } else {
        usize::MAX
    };
    let tables = Tables::new();
    let mut history: Vec<Node> = Vec::new();
    let start_node = new_node(stage, cases, start, 0, usize::MAX, usize::MAX, Ghost(Seq::empty()), &tables);
    let mut beam: Vec<Node> = Vec::new();
    beam.push(start_node);
    proof {
        assert(beam@[0] == start_node);
        assert(all_good(beam@, stage, *cases, s0, algs@, history@));
    }
    let mut best: Option<Node> = None;
    let mut best_complete: Option<Node> = None;
    let mut round: usize = 0;
    while round < params.max_rounds
        invariant
            cases.wf(),
            effects_ok(algs@),
            s0 == start.0@,
            history_ok(history@, algs@),
            forall|k: int| 0 <= k < history@.len() ==> node_ok(#[trigger] history@[k], s0, algs@),
            all_good(beam@, stage, *cases, s0, algs@, history@),
            best matches Some(n) ==> good(n, stage, *cases, s0, algs@, history@) && n.alg != usize::MAX,
            best_complete matches Some(n) ==> good(n, stage, *cases, s0, algs@, history@) && n.distance <= 1
                && n.alg != usize::MAX,
            beam@.len() > 0,
            round > 0 ==> best is Some,
            best_complete is None ==> (best matches Some(n) ==> n.distance > 1),
        ensures
            best_complete is None ==> (best matches Some(n) ==> n.distance > 1),
            cases.wf(),
            effects_ok(algs@),
            s0 == start.0@,
            history_ok(history@, algs@),
            forall|k: int| 0 <= k < history@.len() ==> node_ok(#[trigger] history@[k], s0, algs@),
            best matches Some(n) ==> good(n, stage, *cases, s0, algs@, history@) && n.alg != usize::MAX,
            best_complete matches Some(n) ==> good(n, stage, *cases, s0, algs@, history@) && n.distance <= 1
                && n.alg != usize::MAX,
            params.max_rounds > 0 && algs@.len() > 0 && params.beam_width > 0 ==> best is Some,
        decreases params.max_rounds - round,
    {
        // Each beam node keeps its index in the history so its children can
        // point back at it, so record the whole beam before expanding.
        let base = history.len();
        let ghost old_history = history@;
        let mut t: usize = 0;
        while t < beam.len()
            invariant
                0 <= t <= beam@.len(),
                base == old_history.len(),
                history@.len() == base + t,
                forall|i: int| 0 <= i < base ==> history@[i] == old_history[i],
                forall|i: int| 0 <= i < t ==> history@[base + i] == beam@[i],
                history_ok(history@, algs@),
                forall|k: int| 0 <= k < history@.len() ==> node_ok(#[trigger] history@[k], s0, algs@),
                all_good(beam@, stage, *cases, s0, algs@, old_history),
            decreases beam@.len() - t,
        {
            let ghost h = history@;
            history.push(beam[t]);
            proof {
                assert(good(beam@[t as int], stage, *cases, s0, algs@, old_history));
                assert forall|i: int| 0 <= i < history@.len() implies links_ok(#[trigger] history@[i], history@, i, algs@) by {
                    if i < h.len() {
                        assert(history@[i] == h[i]);
                        assert(links_ok(h[i], h, i, algs@));
                        lemma_links_extend(h[i], h, history@, i, algs@);
                    } else {
                        let n = beam@[t as int];
                        assert(history@[i] == n);
                        if n.alg != usize::MAX && n.parent != usize::MAX {
                            assert(history@[n.parent as int] == old_history[n.parent as int]);
                        }
                    }
                }
                assert forall|k: int| 0 <= k < history@.len() implies node_ok(#[trigger] history@[k], s0, algs@) by {
                    if k < h.len() {
                        assert(history@[k] == h[k]);
                    }
                }
            }
            t += 1;
        }
        proof {
            if let Some(n) = best {
                lemma_good_extend(n, stage, *cases, s0, algs@, old_history, history@);
            }
            if let Some(n) = best_complete {
                lemma_good_extend(n, stage, *cases, s0, algs@, old_history, history@);
            }
        }
        let recorded = history.len();
        let mut next: Vec<Node> = Vec::new();
        let mut i: usize = 0;
        while i < beam.len()
            invariant
                0 <= i <= beam@.len(),
                history@.len() == base + beam@.len(),
                recorded == history@.len(),
                forall|j: int| 0 <= j < beam@.len() ==> history@[base + j] == beam@[j],
                forall|k: int| 0 <= k < history@.len() ==> node_ok(#[trigger] history@[k], s0, algs@),
                effects_ok(algs@),
                all_good(next@, stage, *cases, s0, algs@, history@),
                forall|k: int| 0 <= k < next@.len() ==> (#[trigger] next@[k]).alg != usize::MAX,
                i > 0 && algs@.len() > 0 && params.beam_width > 0 ==> next@.len() > 0,
            decreases beam@.len() - i,
        {
            expand(stage, algs, cases, &history, base + i, &mut next, Ghost(s0), &tables);
            if next.len() > slack {
                let ghost before = next@;
                next = prune(next, params.beam_width, &tables);
                proof {
                    lemma_good_subset(before, next@, stage, *cases, s0, algs@, history@);
                    lemma_moved_subset(before, next@);
                }
            }
            i += 1;
        }
        let ghost before = next@;
        next = prune(next, params.beam_width, &tables);
        proof {
            lemma_good_subset(before, next@, stage, *cases, s0, algs@, history@);
            lemma_moved_subset(before, next@);
        }
        if next.len() == 0 {
            break;
        }
        let leader = next[0];
        proof {
            assert(good(next@[0], stage, *cases, s0, algs@, history@));
        }
        best = match best {
            None => Some(leader),
            Some(b) => if rank_less(&leader, &b) {
                Some(leader)
            } else {
                Some(b)
            },
        };
        // A node the backward table can finish gives a complete line, but
        // not necessarily the cheapest, so keep the cheapest seen.
        let mut candidate: Option<Node> = None;
        let mut c: usize = 0;
        while c < next.len()
            invariant
                0 <= c <= next@.len(),
                all_good(next@, stage, *cases, s0, algs@, history@),
                forall|k: int| 0 <= k < next@.len() ==> (#[trigger] next@[k]).alg != usize::MAX,
                candidate matches Some(n) ==> good(n, stage, *cases, s0, algs@, history@) && n.distance <= 1
                    && n.alg != usize::MAX,
                candidate is None ==> forall|m: int| 0 <= m < c ==> (#[trigger] next@[m]).distance > 1,
            decreases next@.len() - c,
        {
            let n = next[c];
            proof {
                assert(good(next@[c as int], stage, *cases, s0, algs@, history@));
            }
            if n.distance <= 1 {
                candidate = match candidate {
                    None => Some(n),
                    Some(m) => if n.projected_cost < m.projected_cost {
                        Some(n)
                    } else {
                        Some(m)
                    },
                };
            }
            c += 1;
        }
        if let Some(cand) = candidate {
            best_complete = match best_complete {
                None => Some(cand),
                Some(b) => if cand.projected_cost < b.projected_cost {
                    Some(cand)
                } else {
                    Some(b)
                },
            };
        }
        // Extending a line only costs more, so once every node is at least
        // as expensive as the best complete line nothing left can beat it.
        if let Some(complete) = best_complete {
            let mut all_costlier = true;
            let mut c: usize = 0;
            while c < next.len()
                invariant
                    0 <= c <= next@.len(),
                decreases next@.len() - c,
            {
                if next[c].cost < complete.projected_cost {
                    all_costlier = false;
                }
                c += 1;
            }
            if all_costlier {
                break;
            }
        }
        beam = next;
        round += 1;
    }
    match best_complete {
        Some(node) => {
            let mut path = path_to(&history, algs, node);
            let ghost p = path@;
            proof {
                assert(p == node.path@);
            }
            match cases.finisher(node.state) {
                Some(finish) => {
                    let mut k: usize = 0;
                    while k < finish.len()
                        invariant
                            0 <= k <= finish@.len(),
                            path@ == p + finish@.take(k as int),
                        decreases finish@.len() - k,
                    {
                        path.push(finish[k]);
                        proof {
                            assert(finish@.take(k + 1) == finish@.take(k as int).push(finish@[k as int]));
                        }
                        k += 1;
                    }
                    proof {
                        assert(finish@.take(finish@.len() as int) == finish@);
                        lemma_apply_all_concat(s0, p, finish@);
                        lemma_oriented_none_misoriented(apply_all(node.state.0@, finish@));
                        lemma_finish_drawn(*cases, finish@, orientation_key_of(node.state.0@) as u128);
                        lemma_path_drawn(p, finish@, algs@, cases.finish_algs_view());
                    }
                },
                None => {
                    proof {
                        lemma_path_drawn(p, Seq::empty(), algs@, cases.finish_algs_view());
                        assert(p + Seq::<Alg>::empty() =~= p);
                    }
                },
            }
            (path, true)
        },
        None => match best {
            Some(node) => {
                let path = path_to(&history, algs, node);
                proof {
                    lemma_path_drawn(path@, Seq::empty(), algs@, cases.finish_algs_view());
                    assert(path@ + Seq::<Alg>::empty() =~= path@);
                }
                (path, false)
            },
            None => (Vec::new(), false),
        },
    }
}

/// The algorithms of a stored finish are among the finishing algorithms.
proof fn lemma_finish_drawn(cases: OrientationCases, fin: Seq<Alg>, k: u128)
    requires
        cases.wf(),
        cases.finisher_map().contains_key(k),
        fin == cases.finish_seq(cases.finisher_map()[k]),
    ensures
        forall|i: int| 0 <= i < fin.len() ==> cases.finish_algs_view().contains(#[trigger] fin[i]),
        effects_ok(fin),
{
    let f = cases.finisher_map()[k];
    assert(cases.finish_algs_view()[f.first as int] == fin[0]);
    if f.second != NO_ALG {
        assert(cases.finish_algs_view()[f.second as int] == fin[1]);
    }
    assert forall|i: int| 0 <= i < fin.len() implies cases.finish_algs_view().contains(#[trigger] fin[i]) by {
        if i == 0 {
            assert(cases.finish_algs_view()[f.first as int] == fin[i]);
        } else {
            assert(cases.finish_algs_view()[f.second as int] == fin[i]);
        }
    }
    assert forall|i: int| 0 <= i < fin.len() implies effect_ok(#[trigger] fin[i].effect) by {
        if i == 0 {
            assert(effect_ok(cases.finish_algs_view()[f.first as int].effect));
        } else {
            assert(effect_ok(cases.finish_algs_view()[f.second as int].effect));
        }
    }
}

/// A path of `algs` followed by finishing algorithms is drawn from both.
proof fn lemma_path_drawn(p: Seq<Alg>, fin: Seq<Alg>, algs: Seq<Alg>, finish: Seq<Alg>)
    requires
        forall|i: int| 0 <= i < p.len() ==> algs.contains(#[trigger] p[i]),
        forall|i: int| 0 <= i < fin.len() ==> finish.contains(#[trigger] fin[i]),
    ensures
        drawn_from(p + fin, algs, finish),
{
    assert forall|i: int| 0 <= i < (p + fin).len() implies algs.contains(#[trigger] (p + fin)[i]) || finish.contains(
        (p + fin)[i],
    ) by {
        if i < p.len() {
            assert((p + fin)[i] == p[i]);
        } else {
            assert((p + fin)[i] == fin[i - p.len()]);
        }
    }
}

/// `new` is `old` followed by a line that orients `state`, drawn from
/// `algs` and `finish`.
pub open spec fn finishes_from(
    old: Seq<Alg>,
    new: Seq<Alg>,
    state: Seq<ElemId>,
    algs: Seq<Alg>,
    finish: Seq<Alg>,
) -> bool {
    &&& old.len() <= new.len()
    &&& new.take(old.len() as int) == old
    &&& all_oriented(apply_all(state, new.skip(old.len() as int)))
    &&& drawn_from(new.skip(old.len() as int), algs, finish)
    &&& effects_ok(new.skip(old.len() as int))
}

/// A stored finish for the orientation of `state` costs at most `budget`.
pub open spec fn finish_fits(cases: OrientationCases, state: Seq<ElemId>, budget: int) -> bool {
    let key = orientation_key_of(state) as u128;
    cases.finisher_map().contains_key(key) && cases.finisher_map()[key].cost <= budget
}

/// Within `budget` twists, `state` can be finished by at most `plies` of
/// `algs`, each costing less than what is left and no two setups in a row
/// (the first not after a setup when `prev_setup`), followed by a stored
/// finish whose recorded cost fits in what is left.
pub open spec fn reachable_within(
    cases: OrientationCases,
    algs: Seq<Alg>,
    state: Seq<ElemId>,
    budget: int,
    plies: nat,
    prev_setup: bool,
) -> bool
    decreases plies,
{
    finish_fits(cases, state, budget) || (plies > 0 && exists|k: int|
        #![trigger algs[k]]
        0 <= k < algs.len() && algs[k].cost < budget && !(is_setup_spec(algs[k]) && prev_setup)
            && reachable_within(
            cases,
            algs,
            effect_on(algs[k].effect, state),
            budget - algs[k].cost,
            (plies - 1) as nat,
            is_setup_spec(algs[k]),
        ))
}

/// With no stored finish nothing can be finished.
proof fn lemma_unreachable_without_finishes(
    cases: OrientationCases,
    algs: Seq<Alg>,
    state: Seq<ElemId>,
    budget: int,
    plies: nat,
    prev_setup: bool,
)
    requires
        cases.finisher_map().is_empty(),
    ensures
        !reachable_within(cases, algs, state, budget, plies, prev_setup),
    decreases plies,
{
    assert(!cases.finisher_map().contains_key(orientation_key_of(state) as u128));
    if plies > 0 {
        assert forall|k: int| 0 <= k < algs.len() implies !reachable_within(
            cases,
            algs,
            effect_on(#[trigger] algs[k].effect, state),
            budget - algs[k].cost,
            (plies - 1) as nat,
            is_setup_spec(algs[k]),
        ) by {
            lemma_unreachable_without_finishes(
                cases,
                algs,
                effect_on(algs[k].effect, state),
                budget - algs[k].cost,
                (plies - 1) as nat,
                is_setup_spec(algs[k]),
            );
        }
    }
}

/// Extends `path` until the cell is oriented, spending at most `budget`
/// twists and `plies_left` algorithms before a stored finish, never two
/// setups in a row. Returns whether it managed to, leaving the line in
/// `path`; when it did not, `path` is as it was.
fn finish_within_budget(
    cases: &OrientationCases,
    algs: &[Alg],
    setups: &[bool],
    state: CellState,
    budget: usize,
    plies_left: usize,
    previous_was_setup: bool,
    path: &mut Vec<Alg>,
    tables: &Tables,
) -> (r: bool)
    requires
        cases.wf(),
        state.wf(),
        effects_ok(algs@),
        setups@.len() == algs@.len(),
        forall|k: int| 0 <= k < algs@.len() ==> setups@[k] == is_setup_spec(#[trigger] algs@[k]),
        cheapest_first(algs@),
    ensures
        r ==> finishes_from(old(path)@, final(path)@, state.0@, algs@, cases.finish_algs_view()),
        !r ==> final(path)@ == old(path)@,
        r == reachable_within(*cases, algs@, state.0@, budget as int, plies_left as nat, previous_was_setup),
    decreases plies_left,
{
    let ghost start = path@;
    if let Some(cost) = cases.finish_cost(state) {
        if cost <= budget {
            if let Some(fin) = cases.finisher(state) {
                let mut k: usize = 0;
                while k < fin.len()
                    invariant
                        0 <= k <= fin@.len(),
                        path@ == start + fin@.take(k as int),
                    decreases fin@.len() - k,
                {
                    path.push(fin[k]);
                    proof {
                        assert(fin@.take(k + 1) == fin@.take(k as int).push(fin@[k as int]));
                    }
                    k += 1;
                }
                proof {
                    assert(fin@.take(fin@.len() as int) == fin@);
                    assert(path@.take(start.len() as int) =~= start);
                    assert(path@.skip(start.len() as int) =~= fin@);
                    lemma_finish_drawn(*cases, fin@, orientation_key_of(state.0@) as u128);
                    lemma_path_drawn(Seq::empty(), fin@, algs@, cases.finish_algs_view());
                    assert(Seq::<Alg>::empty() + fin@ =~= fin@);
                }
                return true;
            }
        }
    }
    proof {
        assert(!finish_fits(*cases, state.0@, budget as int));
    }
    if plies_left == 0 {
        return false;
    }
    let mut k: usize = 0;
    // Every algorithm costs at least one, and so does the finish, so a
    // branch needs strictly less than the budget to leave room to end; the
    // algorithms are sorted by cost, so the first that does not fit ends the
    // search.
    while k < algs.len() && algs[k].cost < budget
        invariant
            0 <= k <= algs@.len(),
            path@ == start,
            start == old(path)@,
            cases.wf(),
            state.wf(),
            effects_ok(algs@),
            setups@.len() == algs@.len(),
            forall|m: int| 0 <= m < algs@.len() ==> setups@[m] == is_setup_spec(#[trigger] algs@[m]),
            cheapest_first(algs@),
            plies_left > 0,
            !finish_fits(*cases, state.0@, budget as int),
            forall|m: int|
                0 <= m < k ==> !((#[trigger] algs@[m]).cost < budget && !(is_setup_spec(algs@[m])
                    && previous_was_setup) && reachable_within(
                    *cases,
                    algs@,
                    effect_on(algs@[m].effect, state.0@),
                    budget - algs@[m].cost,
                    (plies_left - 1) as nat,
                    is_setup_spec(algs@[m]),
                )),
        decreases algs@.len() - k,
    {
        let alg = algs[k];
        let is_setup = setups[k];
        // Two setups in a row compose into one, which is already in the set.
        if !(is_setup && previous_was_setup) {
            proof {
                assert(effect_ok(algs@[k as int].effect));
            }
            let next = apply_alg_by(&alg, state, tables);
            path.push(alg);
            let ghost pushed = path@;
            if finish_within_budget(cases, algs, setups, next, budget - alg.cost, plies_left - 1, is_setup, path, tables) {
                proof {
                    let ext = path@.skip(pushed.len() as int);
                    assert(path@.take(pushed.len() as int) == pushed);
                    assert(path@.skip(start.len() as int) =~= seq![alg] + ext) by {
                        assert forall|i: int| 0 <= i < path@.len() - start.len() implies path@.skip(start.len() as int)[i] == (seq![alg] + ext)[i] by {
                            if i == 0 {
                                assert(path@.take(pushed.len() as int)[start.len() as int] == pushed[start.len() as int]);
                            }
                        }
                    }
                    assert(path@.take(start.len() as int) =~= start) by {
                        assert forall|i: int| 0 <= i < start.len() implies path@.take(start.len() as int)[i] == start[i] by {
                            assert(path@.take(pushed.len() as int)[i] == pushed[i]);
                        }
                    }
                    assert(finishes_from(pushed, path@, next.0@, algs@, cases.finish_algs_view()));
                    lemma_apply_all_concat(state.0@, seq![alg], ext);
                    assert(seq![alg].drop_last() =~= Seq::<Alg>::empty());
                    assert(apply_all(state.0@, seq![alg]) == effect_on(alg.effect, apply_all(state.0@, Seq::<Alg>::empty())));
                    assert(algs@.contains(alg)) by {
                        assert(algs@[k as int] == alg);
                    }
                    assert forall|i: int| 0 <= i < (seq![alg] + ext).len() implies algs@.contains(#[trigger] (seq![alg] + ext)[i]) || cases.finish_algs_view().contains(
                        (seq![alg] + ext)[i],
                    ) by {
                        if i > 0 {
                            assert((seq![alg] + ext)[i] == ext[i - 1]);
                        }
                    }
                    assert forall|i: int| 0 <= i < (seq![alg] + ext).len() implies effect_ok(#[trigger] (seq![alg] + ext)[i].effect) by {
                        if i > 0 {
                            assert((seq![alg] + ext)[i] == ext[i - 1]);
                        }
                    }
                    assert(start.len() <= path@.len());
                    assert(all_oriented(apply_all(state.0@, path@.skip(start.len() as int))));
                    assert(drawn_from(path@.skip(start.len() as int), algs@, cases.finish_algs_view()));
                    assert(effects_ok(path@.skip(start.len() as int)));
                    assert(algs@[k as int] == alg);
                    assert(reachable_within(*cases, algs@, state.0@, budget as int, plies_left as nat, previous_was_setup));
                }
                return true;
            }
            path.pop();
            proof {
                assert(path@ =~= start);
            }
        }
        k += 1;
    }
    proof {
        if reachable_within(*cases, algs@, state.0@, budget as int, plies_left as nat, previous_was_setup) {
            let m = choose|m: int|
                #![trigger algs@[m]]
                0 <= m < algs@.len() && algs@[m].cost < budget && !(is_setup_spec(algs@[m]) && previous_was_setup)
                    && reachable_within(
                    *cases,
                    algs@,
                    effect_on(algs@[m].effect, state.0@),
                    budget - algs@[m].cost,
                    (plies_left - 1) as nat,
                    is_setup_spec(algs@[m]),
                );
            if m >= k {
                assert(algs@[k as int].cost <= algs@[m].cost);
            }
        }
    }
    false
}

/// How many algorithms iterative deepening may put before the one that the
/// finish follows.
pub open spec fn ids_plies(params: LastCellSearchParams) -> nat {
    if params.max_ids_algs >= 2 {
        (params.max_ids_algs - 2) as nat
    } else {
        0
    }
}

/// The algorithms iterative deepening branches over: the first `ids_algs`.
pub open spec fn ids_searched(algs: Seq<Alg>, params: LastCellSearchParams) -> Seq<Alg> {
    algs.take(if params.ids_algs < algs.len() { params.ids_algs as int } else { algs.len() as int })
}

/// Iterative deepening finds a line for `start` within `budget`.
pub open spec fn ids_found(
    cases: OrientationCases,
    algs: Seq<Alg>,
    start: Seq<ElemId>,
    params: LastCellSearchParams,
    budget: int,
) -> bool {
    reachable_within(cases, ids_searched(algs, params), start, budget, ids_plies(params) + 1, false)
}

/// `b` is the least budget, from one to `max_ids_cost`, within which
/// iterative deepening finds a line.
pub open spec fn least_ids_budget(
    cases: OrientationCases,
    algs: Seq<Alg>,
    start: Seq<ElemId>,
    params: LastCellSearchParams,
    b: int,
) -> bool {
    &&& 1 <= b <= params.max_ids_cost
    &&& ids_found(cases, algs, start, params, b)
    &&& forall|b2: int| 1 <= b2 < b ==> !#[trigger] ids_found(cases, algs, start, params, b2)
}

/// Some budget from one to `max_ids_cost` admits a line.
pub open spec fn some_ids_budget(
    cases: OrientationCases,
    algs: Seq<Alg>,
    start: Seq<ElemId>,
    params: LastCellSearchParams,
) -> bool {
    exists|b: int| 1 <= b <= params.max_ids_cost && #[trigger] ids_found(cases, algs, start, params, b)
}

/// Iterative deepening on the twist budget: tries budgets from one up to
/// `max_ids_cost`, over the first `ids_algs` algorithms, for a line that
/// ends in a stored finish, and returns the first found.
///
/// Returns nothing when no finish is stored.
pub fn run_iterative_deepening(
    stage: Stage,
    algs: &[Alg],
    cases: &OrientationCases,
    start: CellState,
    params: &LastCellSearchParams,
) -> (r: Option<Vec<Alg>>)
    requires
        cases.wf(),
        start.wf(),
        effects_ok(algs@),
        cheapest_first(algs@),
    ensures
        cases.finisher_map().is_empty() ==> r is None,
        r is Some <==> some_ids_budget(*cases, algs@, start.0@, *params),
        r is Some ==> exists|b: int| #[trigger] least_ids_budget(*cases, algs@, start.0@, *params, b),
        1 <= params.max_ids_cost && finish_fits(*cases, start.0@, params.max_ids_cost as int) ==> r is Some,
        r matches Some(p) ==> all_oriented(apply_all(start.0@, p@)) && drawn_from(
            p@,
            algs@,
            cases.finish_algs_view(),
        ) && effects_ok(p@) && p@.len() > 0,
{
    // Only the orientation stages have a finisher table to lean on.
    if cases.has_no_finishers() {
        proof {
            if some_ids_budget(*cases, algs@, start.0@, *params) {
                let b = choose|b: int| 1 <= b <= params.max_ids_cost && #[trigger] ids_found(*cases, algs@, start.0@, *params, b);
                lemma_unreachable_without_finishes(*cases, ids_searched(algs@, *params), start.0@, b, ids_plies(*params) + 1, false);
            }
        }
        return None;
    }
    let n = if params.ids_algs < algs.len() {
        params.ids_algs
    } else {
        algs.len()
    };
    let mut searched: Vec<Alg> = Vec::new();
    let mut setups: Vec<bool> = Vec::new();
    let mut k: usize = 0;
    while k < n
        invariant
            0 <= k <= n,
            n <= algs@.len(),
            searched@ == algs@.take(k as int),
            setups@.len() == k,
            forall|m: int| 0 <= m < k ==> setups@[m] == is_setup_spec(#[trigger] searched@[m]),
        decreases n - k,
    {
        searched.push(algs[k]);
        setups.push(is_setup(&algs[k]));
        proof {
            assert(algs@.take(k + 1) == algs@.take(k as int).push(algs@[k as int]));
        }
        k += 1;
    }
    proof {
        assert forall|i: int| 0 <= i < searched@.len() implies effect_ok(#[trigger] searched@[i].effect) by {
            assert(searched@[i] == algs@[i]);
        }
        assert(searched@ == ids_searched(algs@, *params));
        assert forall|p: int, q: int| 0 <= p < q < searched@.len() implies (#[trigger] searched@[p]).cost <= (#[trigger] searched@[q]).cost by {
            assert(searched@[p] == algs@[p]);
            assert(searched@[q] == algs@[q]);
        }
    }
    let tables = Tables::new();
    let plies = if params.max_ids_algs >= 2 {
        params.max_ids_algs - 2
    } else {
        0
    };
    let mut spent: usize = 0;
    while spent < params.max_ids_cost
        invariant
            spent <= params.max_ids_cost,
            !cases.finisher_map().is_empty(),
            cases.wf(),
            start.wf(),
            effects_ok(searched@),
            setups@.len() == searched@.len(),
            searched@.len() <= algs@.len(),
            forall|i: int| 0 <= i < searched@.len() ==> searched@[i] == algs@[i],
            forall|m: int| 0 <= m < searched@.len() ==> setups@[m] == is_setup_spec(#[trigger] searched@[m]),
            cheapest_first(searched@),
            searched@ == ids_searched(algs@, *params),
            plies as nat == ids_plies(*params),
            forall|b2: int| 1 <= b2 <= spent ==> !#[trigger] ids_found(*cases, algs@, start.0@, *params, b2),
        decreases params.max_ids_cost - spent,
    {
        let budget = spent + 1;
        let known = match cases.finish_cost(start) {
            Some(c) => c <= budget,
            None => false,
        };
        if known {
            if let Some(fin) = cases.finisher(start) {
                proof {
                    lemma_finish_drawn(*cases, fin@, orientation_key_of(start.0@) as u128);
                    lemma_path_drawn(Seq::empty(), fin@, algs@, cases.finish_algs_view());
                    assert(Seq::<Alg>::empty() + fin@ =~= fin@);
                    assert(finish_fits(*cases, start.0@, budget as int));
                    assert(ids_found(*cases, algs@, start.0@, *params, budget as int));
                    assert(least_ids_budget(*cases, algs@, start.0@, *params, budget as int));
                }
                return Some(fin);
            }
        }
        proof {
            assert(!finish_fits(*cases, start.0@, budget as int));
        }
        let mut i: usize = 0;
        while i < searched.len()
            invariant
                0 <= i <= searched@.len(),
                1 <= budget <= params.max_ids_cost,
                !cases.finisher_map().is_empty(),
                cases.wf(),
                start.wf(),
                effects_ok(searched@),
                setups@.len() == searched@.len(),
                searched@.len() <= algs@.len(),
                forall|j: int| 0 <= j < searched@.len() ==> searched@[j] == algs@[j],
                forall|m: int| 0 <= m < searched@.len() ==> setups@[m] == is_setup_spec(#[trigger] searched@[m]),
                cheapest_first(searched@),
                searched@ == ids_searched(algs@, *params),
                plies as nat == ids_plies(*params),
                budget == spent + 1,
                forall|b2: int| 1 <= b2 <= spent ==> !#[trigger] ids_found(*cases, algs@, start.0@, *params, b2),
                !finish_fits(*cases, start.0@, budget as int),
                forall|m: int|
                    0 <= m < i ==> !((#[trigger] searched@[m]).cost < budget && reachable_within(
                        *cases,
                        searched@,
                        effect_on(searched@[m].effect, start.0@),
                        budget - searched@[m].cost,
                        plies as nat,
                        is_setup_spec(searched@[m]),
                    )),
            decreases searched@.len() - i,
        {
            let first = searched[i];
            if first.cost < budget {
                proof {
                    assert(effect_ok(searched@[i as int].effect));
                }
                let mut path: Vec<Alg> = Vec::new();
                path.push(first);
                let after = apply_alg_by(&first, start, &tables);
                let ghost one = path@;
                if finish_within_budget(cases, &searched, &setups, after, budget - first.cost, plies, setups[i], &mut path, &tables) {
                    proof {
                        let ext = path@.skip(1);
                        assert(path@ =~= seq![first] + ext) by {
                            assert(path@.take(1)[0] == one[0]);
                        }
                        lemma_apply_all_concat(start.0@, seq![first], ext);
                        assert(seq![first].drop_last() =~= Seq::<Alg>::empty());
                        assert(apply_all(start.0@, seq![first]) == effect_on(first.effect, apply_all(start.0@, Seq::<Alg>::empty())));
                        assert forall|j: int| 0 <= j < path@.len() implies algs@.contains(#[trigger] path@[j]) || cases.finish_algs_view().contains(
                            path@[j],
                        ) by {
                            if j == 0 {
                                assert(algs@[i as int] == path@[j]);
                            } else {
                                assert(path@[j] == ext[j - 1]);
                                if searched@.contains(ext[j - 1]) {
                                    let m = choose|m: int| 0 <= m < searched@.len() && searched@[m] == ext[j - 1];
                                    assert(algs@[m] == path@[j]);
                                }
                            }
                        }
                        assert forall|j: int| 0 <= j < path@.len() implies effect_ok(#[trigger] path@[j].effect) by {
                            if j > 0 {
                                assert(path@[j] == ext[j - 1]);
                            }
                        }
                        assert(searched@[i as int] == first);
                        assert(ids_found(*cases, algs@, start.0@, *params, budget as int));
                        assert(least_ids_budget(*cases, algs@, start.0@, *params, budget as int));
                    }
                    return Some(path);
                }
            }
            i += 1;
        }
        proof {
            if ids_found(*cases, algs@, start.0@, *params, budget as int) {
                let m = choose|m: int|
                    #![trigger searched@[m]]
                    0 <= m < searched@.len() && searched@[m].cost < budget && !(is_setup_spec(searched@[m]) && false)
                        && reachable_within(
                        *cases,
                        searched@,
                        effect_on(searched@[m].effect, start.0@),
                        budget - searched@[m].cost,
                        (ids_plies(*params) + 1 - 1) as nat,
                        is_setup_spec(searched@[m]),
                    );
                assert(false);
            }
        }
        spent += 1;
    }
    proof {
        if some_ids_budget(*cases, algs@, start.0@, *params) {
            let b = choose|b: int| 1 <= b <= params.max_ids_cost && #[trigger] ids_found(*cases, algs@, start.0@, *params, b);
            assert(!ids_found(*cases, algs@, start.0@, *params, b));
        }
        if 1 <= params.max_ids_cost && finish_fits(*cases, start.0@, params.max_ids_cost as int) {
            assert(ids_found(*cases, algs@, start.0@, *params, params.max_ids_cost as int));
        }
    }
    None
}

/// Searches a stage, trying iterative deepening for a shortest answer
/// before settling for the beam's.
///
/// Returns the algorithms to apply and whether the goal was reached.
/// Falling short still returns the best line found rather than nothing.
pub fn run_stage(
    stage: Stage,
    algs: &[Alg],
    cases: &OrientationCases,
    start: CellState,
    params: &LastCellSearchParams,
) -> (r: (Vec<Alg>, bool))
    requires
        cases.wf(),
        start.wf(),
        effects_ok(algs@),
        cheapest_first(algs@),
    ensures
        drawn_from(r.0@, algs@, cases.finish_algs_view()),
        effects_ok(r.0@),
        stage.spec_remaining(start.0@) == 0 ==> r.0@.len() == 0 && r.1,
        algs@.len() == 0 && stage.spec_remaining(start.0@) != 0 ==> r.0@.len() == 0 && !r.1,
        r.1 && stage == Stage::Olc ==> misoriented(apply_all(start.0@, r.0@)) == 0,
        r.1 && stage == Stage::Plc2c && cases.finisher_map().is_empty() ==> unsolved_count(
            apply_all(start.0@, r.0@),
            0,
        ) <= 1,
        stage.spec_remaining(start.0@) != 0 && params.max_rounds > 0 && algs@.len() > 0 && params.beam_width > 0
            ==> r.0@.len() > 0,
        stage == Stage::Olc ==> (r.1 <==> misoriented(apply_all(start.0@, r.0@)) == 0),
        stage == Stage::Plc2c && cases.finisher_map().is_empty() && (unsolved_count(start.0@, 0) != 1 || r.0@.len()
            > 0) ==> (r.1 <==> unsolved_count(apply_all(start.0@, r.0@), 0) <= 1),
        stage.spec_remaining(start.0@) != 0 && algs@.len() > 0 && cases.finisher_map().contains_key(
            orientation_key_of(start.0@) as u128,
        ) ==> r.1,
{
    if stage.remaining(start) == 0 {
        return (Vec::new(), true);
    }
    if algs.len() == 0 {
        return (Vec::new(), false);
    }
    if let Some(found) = run_iterative_deepening(stage, algs, cases, start, params) {
        proof {
            lemma_oriented_none_misoriented(apply_all(start.0@, found@));
        }
        return (found, true);
    }
    run_beam(stage, algs, cases, start, params)
}

/// One algorithm of a last-cell solution, and what it did.
#[derive(Debug, Clone, Copy)]
pub struct LastCellStep {
    pub stage: &'static str,
    pub alg: Alg,
    /// Misoriented `[ridges, edges, corners]` before and after.
    pub unoriented: [[usize; 3]; 2],
    /// Unsolved `[ridges, edges, corners]` before and after.
    pub unsolved: [[usize; 3]; 2],
}

/// What the last-cell solver managed to do.
#[derive(Debug, Clone)]
pub struct LastCellSolution {
    /// The solution, in the same frame as the puzzle it was given.
    pub twists: Vec<Twist>,
    /// Move count in ETM.
    pub cost: usize,
    /// The last cell after applying `twists`, in the canonical frame.
    pub residual: CellState,
    /// Names of the stages that reached their goal, in order.
    pub stages_completed: Vec<&'static str>,
    /// One entry per algorithm applied, in order.
    pub steps: Vec<LastCellStep>,
}

impl LastCellSolution {
    /// Returns whether the residual cell is solved.
    pub fn is_cell_solved(&self) -> (b: bool)
        requires
            self.residual.wf(),
        ensures
            b == forall|j: int| 0 <= j < 26 ==> #[trigger] slot_solved(self.residual.0[j], j),
    {
        self.residual.is_solved()
    }
}

/// The algorithms of the steps, in order.
pub open spec fn step_algs(steps: Seq<LastCellStep>) -> Seq<Alg> {
    steps.map_values(|st: LastCellStep| st.alg)
}

/// The twists of the algorithms, one after another.
pub open spec fn alg_twists(algs: Seq<Alg>) -> Seq<Twist>
    decreases algs.len(),
{
    if algs.len() == 0 {
        Seq::empty()
    } else {
        alg_twists(algs.drop_last()) + algs.last().twists@
    }
}

/// The last cell of attitudes `a`, slot by slot.
pub open spec fn cell_of(a: Seq<ElemId>) -> Seq<ElemId> {
    Seq::new(26, |j: int| a[cell_piece(j)])
}

/// F2L is intact in some frame: for some grip as it stands, or for the
/// canonical last cell after some rotation.
pub open spec fn frame_exists(a: Seq<ElemId>) -> bool {
    (exists|g: GripId| f2l_solved(a, g)) || (exists|j: u8| j < 192 && f2l_solved(reoriented(a, ElemId(j)), I))
}

/// `e` is the rotation [`find_canonical_frame`] picks for `a`.
pub open spec fn is_canonical_frame(a: Seq<ElemId>, e: ElemId) -> bool {
    &&& e.wf()
    &&& f2l_solved(reoriented(a, e), I)
    &&& (exists|g: GripId| f2l_solved(a, g)) ==> e.spec_times_grip(first_f2l_grip(a)) == I && forall|j: u8|
        j < e.0 ==> ElemId(j).spec_times_grip(first_f2l_grip(a)) != I
    &&& !(exists|g: GripId| f2l_solved(a, g)) ==> forall|j: u8|
        j < e.0 ==> !f2l_solved(reoriented(a, ElemId(j)), I)
}

/// The stages are prepared: each has fine algorithms, cheapest first, and
/// well-formed finishes, and the permutation stage, which keeps every type
/// oriented, has no finishes.
pub open spec fn stages_ok(stages: Seq<(Vec<Alg>, OrientationCases)>) -> bool {
    forall|k: int|
        0 <= k < stages.len() ==> {
            &&& (#[trigger] stages[k]).1.wf()
            &&& effects_ok(stages[k].0@)
            &&& all_valid(stages[k].0@)
            &&& cheapest_first(stages[k].0@)
            &&& k == 1 ==> stages[k].1.finisher_map().is_empty()
        }
}

/// The first `m` steps belong to OLC and the rest to PLC.
pub open spec fn stage_split(steps: Seq<LastCellStep>, m: int) -> bool {
    &&& 0 <= m <= steps.len()
    &&& forall|i: int| 0 <= i < m ==> (#[trigger] steps[i]).stage@ == Stage::Olc.spec_name()
    &&& forall|i: int| m <= i < steps.len() ==> (#[trigger] steps[i]).stage@ == Stage::Plc2c.spec_name()
}

/// Of the first `n` stages, each is recorded exactly when the ones before it
/// were and the cell after its own steps meets its goal, where the first `m`
/// steps are OLC's: OLC's goal is nothing misoriented, PLC's at most one
/// unsolved ridge (whether PLC is recorded is left open only when it starts
/// from exactly one and takes no step). A stage whose goal holds when it starts adds no steps,
/// and a stage not recorded ends the search. A stage that searches
/// (`olc_searches`, `plc_searches`) and starts short of its goal takes at
/// least one step, whether or not it then reaches the goal.
pub open spec fn stages_exact(
    s: LastCellSolution,
    c0: Seq<ElemId>,
    n: int,
    olc_searches: bool,
    plc_searches: bool,
    m: int,
) -> bool {
    let algs = step_algs(s.steps@);
    let after_olc = apply_all(c0, algs.take(m));
    let end = apply_all(c0, algs);
    let done = s.stages_completed@.len();
    &&& stage_split(s.steps@, m)
    &&& done <= n
    &&& n == 0 ==> s.steps@.len() == 0
    &&& n >= 1 && misoriented(c0) == 0 ==> m == 0
    &&& n >= 1 ==> (done >= 1 <==> misoriented(after_olc) == 0)
    &&& done == 0 ==> m == s.steps@.len()
    &&& n >= 2 && done >= 1 ==> {
        &&& done == 2 ==> unsolved_count(end, 0) <= 1
        &&& unsolved_count(after_olc, 0) != 1 || s.steps@.len() > m ==> (done == 2 <==> unsolved_count(end, 0)
            <= 1)
        &&& unsolved_count(after_olc, 0) == 0 ==> done == 2 && m == s.steps@.len()
    }
    &&& olc_searches && n >= 1 && misoriented(c0) != 0 ==> m > 0
    &&& plc_searches && n >= 2 && done >= 1 && unsolved_count(after_olc, 0) != 0 ==> s.steps@.len() > m
}

/// A stage with these algorithms searches: it has an algorithm to try and
/// its beam runs at least one round of at least one node.
pub open spec fn searches(algs: Seq<Alg>, params: LastCellSearchParams) -> bool {
    algs.len() > 0 && params.max_rounds > 0 && params.beam_width > 0
}

/// Stage `k` of `stages` searches.
pub open spec fn stage_searches(
    stages: Seq<(Vec<Alg>, OrientationCases)>,
    k: int,
    params: LastCellSearchParams,
) -> bool {
    0 <= k < stages.len() && searches(stages[k].0@, params)
}

/// The stages recorded in `s` are exactly those whose goals its steps met.
pub open spec fn stages_reached(
    s: LastCellSolution,
    c0: Seq<ElemId>,
    n: int,
    olc_searches: bool,
    plc_searches: bool,
) -> bool {
    exists|m: int| stages_exact(s, c0, n, olc_searches, plc_searches, m)
}

/// The solution is what the steps make of the last cell of `state` in
/// frame `e`: the residual is the cell after the steps' algorithms, the
/// twists are theirs carried back by the inverse of `e` and simplified,
/// the cost counts them, and each step records the counts around it.
pub open spec fn solution_from(s: LastCellSolution, state: Seq<ElemId>, e: ElemId) -> bool {
    let c0 = cell_of(reoriented(state, e));
    let algs = step_algs(s.steps@);
    &&& is_canonical_frame(state, e)
    &&& s.residual.0@ == apply_all(c0, algs)
    &&& s.twists@ == simplified(crate::symmetry::transformed_twists(alg_twists(algs), e.spec_inverse()))
    &&& s.cost == move_starts(s.twists@).len()
    &&& s.stages_completed@.len() <= 2
    &&& forall|k: int| 0 <= k < s.stages_completed@.len() ==> (#[trigger] s.stages_completed@[k])@ == spec_stages()[k].spec_name()
    &&& forall|i: int|
        0 <= i < s.steps@.len() ==> is_profile((#[trigger] s.steps@[i]).unoriented[0], apply_all(c0, algs.take(i)))
            && is_profile(s.steps@[i].unoriented[1], apply_all(c0, algs.take(i + 1)))
    &&& s.stages_completed@.len() >= 1 ==> exists|m: int|
        0 <= m <= s.steps@.len() && misoriented(apply_all(c0, algs.take(m))) == 0 && forall|i: int|
            0 <= i < m ==> (#[trigger] s.steps@[i]).stage@ == Stage::Olc.spec_name()
}

/// Each step records the misoriented counts of the cell before and after
/// it.
pub open spec fn steps_profiled(steps: Seq<LastCellStep>, c0: Seq<ElemId>) -> bool {
    forall|i: int|
        0 <= i < steps.len() ==> is_profile((#[trigger] steps[i]).unoriented[0], apply_all(c0, step_algs(steps).take(i)))
            && is_profile(steps[i].unoriented[1], apply_all(c0, step_algs(steps).take(i + 1)))
}

/// The first `m` steps belong to OLC, and leave nothing misoriented.
pub open spec fn olc_done_by(steps: Seq<LastCellStep>, c0: Seq<ElemId>, m: int) -> bool {
    &&& 0 <= m <= steps.len()
    &&& misoriented(apply_all(c0, step_algs(steps).take(m))) == 0
    &&& forall|i: int| 0 <= i < m ==> (#[trigger] steps[i]).stage@ == Stage::Olc.spec_name()
}

/// Steps that extend others agree with them on what the first `m` did.
proof fn lemma_steps_prefix(new: Seq<LastCellStep>, old: Seq<LastCellStep>, c0: Seq<ElemId>, m: int)
    requires
        old.len() <= new.len(),
        forall|i: int| 0 <= i < old.len() ==> new[i] == old[i],
        olc_done_by(old, c0, m),
    ensures
        olc_done_by(new, c0, m),
{
    assert(step_algs(new).take(m) =~= step_algs(old).take(m));
    assert forall|i: int| 0 <= i < m implies (#[trigger] new[i]).stage@ == Stage::Olc.spec_name() by {
        assert(new[i] == old[i]);
    }
}

/// Applies `alg` as a step of `stage`: to the cell, the twists and the
/// steps.
#[verifier::rlimit(40)]
fn push_step(
    stage: Stage,
    alg: Alg,
    cell: &mut CellState,
    twists: &mut Vec<Twist>,
    steps: &mut Vec<LastCellStep>,
    Ghost(c0): Ghost<Seq<ElemId>>,
)
    requires
        old(cell).wf(),
        effect_ok(alg.effect),
        alg.valid(),
        old(cell).0@ == apply_all(c0, step_algs(old(steps)@)),
        old(twists)@ == alg_twists(step_algs(old(steps)@)),
        all_wf(old(twists)@),
        steps_profiled(old(steps)@, c0),
    ensures
        final(cell).wf(),
        final(cell).0@ == effect_on(alg.effect, old(cell).0@),
        final(steps)@.len() == old(steps)@.len() + 1,
        forall|i: int| 0 <= i < old(steps)@.len() ==> final(steps)@[i] == old(steps)@[i],
        final(steps)@.last().stage@ == stage.spec_name(),
        step_algs(final(steps)@) == step_algs(old(steps)@).push(alg),
        final(cell).0@ == apply_all(c0, step_algs(final(steps)@)),
        final(twists)@ == alg_twists(step_algs(final(steps)@)),
        all_wf(final(twists)@),
        steps_profiled(final(steps)@, c0),
{
    let tw = alg.twists.as_slice();
    let ghost tw0 = twists@;
    let mut w: usize = 0;
    while w < tw.len()
        invariant
            0 <= w <= tw@.len(),
            tw@ == alg.twists@,
            twists@ == tw0 + tw@.take(w as int),
        decreases tw@.len() - w,
    {
        twists.push(tw[w]);
        proof {
            assert(tw@.take(w + 1) == tw@.take(w as int).push(tw@[w as int]));
        }
        w += 1;
    }
    let before = *cell;
    *cell = apply_alg(&alg, before);
    let step = LastCellStep {
        stage: stage.name(),
        alg,
        unoriented: [before.unoriented(), cell.unoriented()],
        unsolved: [before.unsolved(), cell.unsolved()],
    };
    let ghost old_steps = steps@;
    steps.push(step);
    proof {
        assert(tw@.take(tw@.len() as int) == tw@);
        assert(step_algs(steps@) =~= step_algs(old_steps).push(alg));
        assert(step_algs(steps@).drop_last() =~= step_algs(old_steps));
        assert(all_wf(twists@)) by {
            assert forall|i: int| 0 <= i < twists@.len() implies (#[trigger] twists@[i]).wf() by {
                if i < tw0.len() {
                    assert(twists@[i] == tw0[i]);
                } else {
                    assert(twists@[i] == tw@[i - tw0.len()]);
                }
            }
        }
        assert forall|i: int|
            0 <= i < steps@.len() implies is_profile((#[trigger] steps@[i]).unoriented[0], apply_all(c0, step_algs(steps@).take(i)))
                && is_profile(steps@[i].unoriented[1], apply_all(c0, step_algs(steps@).take(i + 1))) by {
            if i < old_steps.len() {
                assert(steps@[i] == old_steps[i]);
                assert(step_algs(steps@).take(i) =~= step_algs(old_steps).take(i));
                assert(step_algs(steps@).take(i + 1) =~= step_algs(old_steps).take(i + 1));
            } else {
                assert(step_algs(steps@).take(i) =~= step_algs(old_steps));
                assert(step_algs(steps@).take(i + 1) =~= step_algs(steps@));
            }
        }
    }
}

/// Carries the twists back into the puzzle's own frame and assembles the
/// solution.
fn make_solution(
    state: &PuzzleState,
    e: ElemId,
    twists: Vec<Twist>,
    cell: CellState,
    stages_completed: Vec<&'static str>,
    steps: Vec<LastCellStep>,
    Ghost(olc_end): Ghost<int>,
) -> (s: LastCellSolution)
    requires
        is_canonical_frame(state@, e),
        cell.0@ == apply_all(cell_of(reoriented(state@, e)), step_algs(steps@)),
        twists@ == alg_twists(step_algs(steps@)),
        all_wf(twists@),
        stages_completed@.len() <= 2,
        forall|j: int| 0 <= j < stages_completed@.len() ==> (#[trigger] stages_completed@[j])@ == spec_stages()[j].spec_name(),
        steps_profiled(steps@, cell_of(reoriented(state@, e))),
        stages_completed@.len() >= 1 ==> olc_done_by(steps@, cell_of(reoriented(state@, e)), olc_end),
    ensures
        solution_from(s, state@, e),
        s.steps@ == steps@,
        s.stages_completed@ == stages_completed@,
{
    let from_canonical = e.inv();
    let back = crate::algs::transform_twists(twists.as_slice(), from_canonical);
    let twists = simplify_twists(back.as_slice());
    let cost = twist_count(twists.as_slice());
    let s = LastCellSolution { twists, cost, residual: cell, stages_completed, steps };
    proof {
        let c0 = cell_of(reoriented(state@, e));
        if s.stages_completed@.len() >= 1 {
            assert(olc_done_by(s.steps@, c0, olc_end));
        }
    }
    s
}

/// Runs `stage` from the current cell and applies what it found as steps.
/// Returns whether the stage reached its goal.
#[verifier::rlimit(60)]
fn apply_stage(
    stage: Stage,
    algs: &Vec<Alg>,
    cases: &OrientationCases,
    params: &LastCellSearchParams,
    cell: &mut CellState,
    twists: &mut Vec<Twist>,
    steps: &mut Vec<LastCellStep>,
    Ghost(c0): Ghost<Seq<ElemId>>,
) -> (reached: bool)
    requires
        cases.wf(),
        effects_ok(algs@),
        all_valid(algs@),
        cheapest_first(algs@),
        old(cell).wf(),
        old(cell).0@ == apply_all(c0, step_algs(old(steps)@)),
        old(twists)@ == alg_twists(step_algs(old(steps)@)),
        all_wf(old(twists)@),
        steps_profiled(old(steps)@, c0),
    ensures
        final(cell).wf(),
        final(cell).0@ == apply_all(c0, step_algs(final(steps)@)),
        final(twists)@ == alg_twists(step_algs(final(steps)@)),
        all_wf(final(twists)@),
        steps_profiled(final(steps)@, c0),
        old(steps)@.len() <= final(steps)@.len(),
        forall|i: int| 0 <= i < old(steps)@.len() ==> final(steps)@[i] == old(steps)@[i],
        forall|i: int| old(steps)@.len() <= i < final(steps)@.len() ==> (#[trigger] final(steps)@[i]).stage@ == stage.spec_name(),
        reached && stage == Stage::Olc ==> misoriented(apply_all(c0, step_algs(final(steps)@))) == 0,
        stage.spec_remaining(old(cell).0@) == 0 ==> reached && final(steps)@ == old(steps)@,
        stage == Stage::Olc ==> (reached <==> misoriented(final(cell).0@) == 0),
        stage == Stage::Plc2c && cases.finisher_map().is_empty() && (unsolved_count(old(cell).0@, 0) != 1
            || final(steps)@.len() > old(steps)@.len()) ==> (reached <==> unsolved_count(final(cell).0@, 0) <= 1),
        stage == Stage::Plc2c && cases.finisher_map().is_empty() && reached ==> unsolved_count(final(cell).0@, 0)
            <= 1,
        stage.spec_remaining(old(cell).0@) != 0 && params.max_rounds > 0 && algs@.len() > 0 && params.beam_width > 0
            ==> final(steps)@.len() > old(steps)@.len(),
{
    let (solution, reached) = run_stage(stage, algs.as_slice(), cases, *cell, params);
    let ghost before_steps = steps@;
    let ghost stage_start = cell.0@;
    let mut t: usize = 0;
    while t < solution.len()
        invariant
            0 <= t <= solution@.len(),
            effects_ok(solution@),
            drawn_from(solution@, algs@, cases.finish_algs_view()),
            all_valid(algs@),
            cases.wf(),
            cell.wf(),
            steps@.len() == before_steps.len() + t,
            forall|i: int| 0 <= i < before_steps.len() ==> steps@[i] == before_steps[i],
            step_algs(steps@) == step_algs(before_steps) + solution@.take(t as int),
            stage_start == apply_all(c0, step_algs(before_steps)),
            cell.0@ == apply_all(c0, step_algs(steps@)),
            twists@ == alg_twists(step_algs(steps@)),
            all_wf(twists@),
            steps_profiled(steps@, c0),
            forall|i: int| before_steps.len() <= i < steps@.len() ==> (#[trigger] steps@[i]).stage@ == stage.spec_name(),
        decreases solution@.len() - t,
    {
        let alg = solution[t];
        proof {
            assert(effect_ok(solution@[t as int].effect));
            if algs@.contains(alg) {
                let m = choose|m: int| 0 <= m < algs@.len() && algs@[m] == alg;
                assert(algs@[m].valid());
            } else {
                assert(cases.finish_algs_view().contains(alg));
                let m = choose|m: int| 0 <= m < cases.finish_algs_view().len() && cases.finish_algs_view()[m] == alg;
                assert(cases.finish_algs_view()[m].valid());
            }
        }
        let ghost old_steps = steps@;
        push_step(stage, alg, cell, twists, steps, Ghost(c0));
        proof {
            assert(solution@.take(t + 1) =~= solution@.take(t as int).push(alg));
            assert(step_algs(steps@) =~= step_algs(before_steps) + solution@.take(t + 1));
            assert forall|i: int| before_steps.len() <= i < steps@.len() implies (#[trigger] steps@[i]).stage@ == stage.spec_name() by {
                if i < old_steps.len() {
                    assert(steps@[i] == old_steps[i]);
                }
            }
        }
        t += 1;
    }
    proof {
        assert(solution@.take(solution@.len() as int) == solution@);
        assert(step_algs(steps@) == step_algs(before_steps) + solution@);
        lemma_apply_all_concat(c0, step_algs(before_steps), solution@);
        assert(apply_all(c0, step_algs(steps@)) == apply_all(stage_start, solution@));
        if solution@.len() == 0 {
            assert(steps@ =~= before_steps);
        }
    }
    reached
}

/// Solves as much of the last cell as the stages can, in the frame where
/// the canonical last cell is the one left, and carries the answer back.
///
/// Stage `k` of [`STAGES`] uses the algorithms and finishes at `stages[k]`;
/// the stages run in order while each reaches its goal.
#[verifier::rlimit(80)]
pub fn solve_in_canonical_frame(
    state: &PuzzleState,
    stages: &[(Vec<Alg>, OrientationCases)],
    params: &LastCellSearchParams,
) -> (s: LastCellSolution)
    requires
        frame_exists(state@),
        stages_ok(stages@),
    ensures
        exists|e: ElemId|
            solution_from(s, state@, e) && stages_reached(
                s,
                cell_of(reoriented(state@, e)),
                if stages@.len() < 2 {
                    stages@.len() as int
                } else {
                    2
                },
                stage_searches(stages@, 0, *params),
                stage_searches(stages@, 1, *params),
            ),
{
    let to_canonical = find_canonical_frame(state).unwrap();
    let canonical = state.reorient(to_canonical);
    let start = CellState::of(&canonical);
    let ghost c0 = cell_of(reoriented(state@, to_canonical));
    let ghost n: int = if stages@.len() < 2 {
        stages@.len() as int
    } else {
        2
    };
    proof {
        assert(start.0@ =~= c0);
        assert(is_canonical_frame(state@, to_canonical));
    }
    let mut cell = start;
    let mut twists: Vec<Twist> = Vec::new();
    let mut stages_completed: Vec<&'static str> = Vec::new();
    let mut steps: Vec<LastCellStep> = Vec::new();
    proof {
        assert(step_algs(steps@) =~= Seq::<Alg>::empty());
        assert(twists@ =~= alg_twists(step_algs(steps@)));
    }
    if stages.len() == 0 {
        let s = make_solution(state, to_canonical, twists, cell, stages_completed, steps, Ghost(0));
        proof {
            assert(stages_exact(s, c0, n, stage_searches(stages@, 0, *params), stage_searches(stages@, 1, *params), 0));
        }
        return s;
    }
    proof {
        assert(stages@[0].1.wf());
    }
    let olc = STAGES[0];
    let reached = apply_stage(olc, &stages[0].0, &stages[0].1, params, &mut cell, &mut twists, &mut steps, Ghost(c0));
    let ghost m: int = steps@.len() as int;
    let ghost after_olc = cell.0@;
    proof {
        assert(step_algs(steps@).take(m) =~= step_algs(steps@));
        assert(stage_split(steps@, m));
        if misoriented(c0) == 0 {
            assert(steps@.len() == 0);
        }
    }
    if !reached {
        // Later stages assume this one finished.
        let s = make_solution(state, to_canonical, twists, cell, stages_completed, steps, Ghost(m));
        proof {
            assert(stages_exact(s, c0, n, stage_searches(stages@, 0, *params), stage_searches(stages@, 1, *params), m));
        }
        return s;
    }
    stages_completed.push(olc.name());
    proof {
        assert(olc_done_by(steps@, c0, m));
        assert(spec_stages()[0] == olc);
    }
    if stages.len() < 2 {
        let s = make_solution(state, to_canonical, twists, cell, stages_completed, steps, Ghost(m));
        proof {
            assert(stages_exact(s, c0, n, stage_searches(stages@, 0, *params), stage_searches(stages@, 1, *params), m));
        }
        return s;
    }
    proof {
        assert(stages@[1].1.wf());
        assert(stages@[1].1.finisher_map().is_empty());
    }
    let plc = STAGES[1];
    let ghost olc_steps = steps@;
    let reached = apply_stage(plc, &stages[1].0, &stages[1].1, params, &mut cell, &mut twists, &mut steps, Ghost(c0));
    proof {
        lemma_steps_prefix(steps@, olc_steps, c0, m);
        assert(step_algs(steps@).take(m) =~= step_algs(olc_steps));
        assert(stage_split(steps@, m)) by {
            assert forall|i: int| 0 <= i < m implies (#[trigger] steps@[i]).stage@ == Stage::Olc.spec_name() by {
                assert(steps@[i] == olc_steps[i]);
            }
        }
    }
    if !reached {
        let s = make_solution(state, to_canonical, twists, cell, stages_completed, steps, Ghost(m));
        proof {
            assert(stages_exact(s, c0, n, stage_searches(stages@, 0, *params), stage_searches(stages@, 1, *params), m));
        }
        return s;
    }
    stages_completed.push(plc.name());
    proof {
        assert(spec_stages()[1] == plc);
    }
    let s = make_solution(state, to_canonical, twists, cell, stages_completed, steps, Ghost(m));
    proof {
        assert(stages_exact(s, c0, n, stage_searches(stages@, 0, *params), stage_searches(stages@, 1, *params), m));
    }
    s
}

/// A last-cell solver with each stage's algorithms and finishes already
/// worked out, so that one of these serves every scramble.
pub struct LastCellSolver {
    params: LastCellSearchParams,
    /// Algorithms and finishes for each entry of [`STAGES`], in order.
    stages: Vec<(Vec<Alg>, OrientationCases)>,
}

impl LastCellSolver {
    /// Every stage is prepared.
    pub closed spec fn wf(&self) -> bool {
        &&& stages_ok(self.stages@)
        &&& self.stages@.len() == 2
    }

    /// The search parameters.
    pub closed spec fn spec_params(&self) -> LastCellSearchParams {
        self.params
    }

    /// The algorithms and finishes of each stage.
    pub closed spec fn stages_view(&self) -> Seq<(Seq<Alg>, OrientationCases)> {
        self.stages@.map_values(|st: (Vec<Alg>, OrientationCases)| (st.0@, st.1))
    }

    /// Prepares every stage from `table`: stage `k` of [`STAGES`] gets what
    /// [`stage_algs`] picks for it, and the finishes and profiles of the
    /// table's algorithms that keep its preserved types oriented.
    pub fn new(table: &AlgTable, params: LastCellSearchParams) -> (s: Self)
        ensures
            s.wf(),
            s.spec_params() == params,
            s.stages_view().len() == 2,
            forall|k: int|
                0 <= k < 2 ==> {
                    let algs = (#[trigger] s.stages_view()[k]).0;
                    let cases = s.stages_view()[k].1;
                    &&& algs.len() <= params.max_algs_per_stage
                    &&& cheapest_first(algs)
                    &&& forall|i: int| 0 <= i < algs.len() ==> table@.contains(#[trigger] algs[i]) && usable_for(
                        spec_stages()[k],
                        algs[i],
                    )
                    &&& forall|p: [usize; 3]|
                        #[trigger] cases.clearable_set().contains(p) <==> nonzero_profile(p) && produced_profile(
                            table@,
                            spec_stages()[k].spec_preserve(),
                            table@.len() as int,
                            p,
                        )
                },
            forall|k: int|
                0 <= k < 2 && table_serves(table@, spec_stages()[k], params) ==> (#[trigger] s.stages_view()[k]).0.len()
                    > 0,
    {
        let mut stages: Vec<(Vec<Alg>, OrientationCases)> = Vec::new();
        let mut k: usize = 0;
        while k < 2
            invariant
                0 <= k <= 2,
                stages@.len() == k,
                stages_ok(stages@),
                forall|j: int|
                    0 <= j < k ==> {
                        let algs = (#[trigger] stages@[j]).0@;
                        let cases = stages@[j].1;
                        &&& algs.len() <= params.max_algs_per_stage
                        &&& cheapest_first(algs)
                        &&& forall|i: int| 0 <= i < algs.len() ==> table@.contains(#[trigger] algs[i]) && usable_for(
                            spec_stages()[j],
                            algs[i],
                        )
                        &&& forall|p: [usize; 3]|
                            #[trigger] cases.clearable_set().contains(p) <==> nonzero_profile(p) && produced_profile(
                                table@,
                                spec_stages()[j].spec_preserve(),
                                table@.len() as int,
                                p,
                            )
                    },
                forall|j: int|
                    0 <= j < k && table_serves(table@, spec_stages()[j], params) ==> (#[trigger] stages@[j]).0@.len() > 0,
            decreases 2 - k,
        {
            let stage = STAGES[k];
            let algs = stage_algs(stage, table, &params);
            let cases = OrientationCases::of(table, stage.preserve(), &params);
            let ghost before = stages@;
            proof {
                if table_serves(table@, stage, params) {
                    let t = choose|t: int| 0 <= t < table@.len() && usable_for(stage, #[trigger] table@[t]);
                    assert(usable_for(stage, table@[t]));
                    if algs@.len() == 0 {
                        assert(!represented(algs@, table@[t], stage.spec_relevant()));
                    }
                }
            }
            stages.push((algs, cases));
            proof {
                assert(spec_stages()[k as int] == stage);
                assert forall|j: int|
                    0 <= j < k + 1 && table_serves(table@, spec_stages()[j], params) implies (#[trigger] stages@[j]).0@.len()
                        > 0 by {
                    if j < before.len() {
                        assert(stages@[j] == before[j]);
                    }
                }
                assert forall|j: int| 0 <= j < stages@.len() implies {
                    &&& (#[trigger] stages@[j]).1.wf()
                    &&& effects_ok(stages@[j].0@)
                    &&& all_valid(stages@[j].0@)
                } by {
                    if j < before.len() {
                        assert(stages@[j] == before[j]);
                    }
                }
                assert forall|j: int|
                    0 <= j < k + 1 implies {
                        let algs = (#[trigger] stages@[j]).0@;
                        let cases = stages@[j].1;
                        &&& algs.len() <= params.max_algs_per_stage
                        &&& cheapest_first(algs)
                        &&& forall|i: int| 0 <= i < algs.len() ==> table@.contains(#[trigger] algs[i]) && usable_for(
                            spec_stages()[j],
                            algs[i],
                        )
                        &&& forall|p: [usize; 3]|
                            #[trigger] cases.clearable_set().contains(p) <==> nonzero_profile(p) && produced_profile(
                                table@,
                                spec_stages()[j].spec_preserve(),
                                table@.len() as int,
                                p,
                            )
                    } by {
                    if j < before.len() {
                        assert(stages@[j] == before[j]);
                    }
                }
            }
            k += 1;
        }
        let s = LastCellSolver { params, stages };
        proof {
            assert forall|k: int| 0 <= k < 2 implies #[trigger] s.stages_view()[k] == (s.stages@[k].0@, s.stages@[k].1) by {}
        }
        s
    }

    /// Solves as much of the last cell as it can, starting from a state
    /// whose F2L is intact in some frame.
    pub fn solve(&self, state: &PuzzleState) -> (s: LastCellSolution)
        requires
            self.wf(),
            frame_exists(state@),
        ensures
            exists|e: ElemId|
                solution_from(s, state@, e) && stages_reached(
                    s,
                    cell_of(reoriented(state@, e)),
                    2,
                    searches(self.stages_view()[0].0, self.spec_params()),
                    searches(self.stages_view()[1].0, self.spec_params()),
                ),
    {
        proof {
            assert(self.stages_view()[0].0 == self.stages@[0].0@);
            assert(self.stages_view()[1].0 == self.stages@[1].0@);
        }
        solve_in_canonical_frame(state, self.stages.as_slice(), &self.params)
    }
}

/// Prepares the stages from `table` and solves one state.
pub fn solve_last_cell(state: &PuzzleState, table: &AlgTable, params: &LastCellSearchParams) -> (s: LastCellSolution)
    requires
        frame_exists(state@),
    ensures
        exists|e: ElemId|
            solution_from(s, state@, e) && stages_reached(
                s,
                cell_of(reoriented(state@, e)),
                2,
                table_serves(table@, Stage::Olc, *params),
                table_serves(table@, Stage::Plc2c, *params),
            ),
{
    let solver = LastCellSolver::new(table, *params);
    let s = solver.solve(state);
    proof {
        assert(spec_stages()[0] == Stage::Olc);
        assert(spec_stages()[1] == Stage::Plc2c);
        let e = choose|e: ElemId|
            solution_from(s, state@, e) && stages_reached(
                s,
                cell_of(reoriented(state@, e)),
                2,
                searches(solver.stages_view()[0].0, solver.spec_params()),
                searches(solver.stages_view()[1].0, solver.spec_params()),
            );
        let c0 = cell_of(reoriented(state@, e));
        let m = choose|m: int|
            stages_exact(
                s,
                c0,
                2,
                searches(solver.stages_view()[0].0, solver.spec_params()),
                searches(solver.stages_view()[1].0, solver.spec_params()),
                m,
            );
        assert(stages_exact(
            s,
            c0,
            2,
            table_serves(table@, Stage::Olc, *params),
            table_serves(table@, Stage::Plc2c, *params),
            m,
        ));
    }
    s
}

/// The table can serve `stage` under `params`: some algorithm of it may
/// serve the stage, a stage may keep at least one, and the beam runs.
pub open spec fn table_serves(table: Seq<Alg>, stage: Stage, params: LastCellSearchParams) -> bool {
    &&& params.max_algs_per_stage > 0
    &&& params.max_rounds > 0
    &&& params.beam_width > 0
    &&& exists|t: int| 0 <= t < table.len() && usable_for(stage, #[trigger] table[t])
}

/// An effect that fixes the slots of the types in `kinds` leaves those
/// slots of every cell as they were.
pub proof fn lemma_fixed_slots_unchanged(e: CellEffect, c: Seq<ElemId>, kinds: [bool; 3])
    requires
        cell_wf(c),
        forall|kind: int|
            0 <= kind < 3 && #[trigger] kinds[kind] ==> forall|k: int|
                0 <= k < kind_slots(kind).len() ==> {
                    let j = #[trigger] kind_slots(kind)[k];
                    e.sources()[j as int] == j && e.gains()[j as int] == spec_ident()
                },
    ensures
        forall|kind: int, k: int|
            0 <= kind < 3 && kinds[kind] && 0 <= k < kind_slots(kind).len() ==> {
                let j = #[trigger] kind_slots(kind)[k] as int;
                effect_on(e, c)[j] == c[j]
            },
{
    assert forall|kind: int, k: int|
        0 <= kind < 3 && kinds[kind] && 0 <= k < kind_slots(kind).len() implies {
            let j = #[trigger] kind_slots(kind)[k] as int;
            effect_on(e, c)[j] == c[j]
        } by {
        let j = kind_slots(kind)[k] as int;
        assert(j < 26);
        crate::algebra::lemma_mul_ident(c[j]);
    }
}

/// An effect that keeps the pieces of type `kind` oriented leaves that
/// type oriented on a cell whose pieces are all oriented.
pub proof fn lemma_keeps_oriented(e: CellEffect, c: Seq<ElemId>, kind: int)
    requires
        effect_ok(e),
        cell_wf(c),
        all_oriented(c),
        0 <= kind < 3,
        crate::lastcell::kind_slots_keep_oriented(e, kind),
    ensures
        forall|k: int| 0 <= k < kind_slots(kind).len() ==> oriented(
            #[trigger] effect_on(e, c)[kind_slots(kind)[k] as int],
        ),
{
    assert forall|k: int| 0 <= k < kind_slots(kind).len() implies oriented(
        #[trigger] effect_on(e, c)[kind_slots(kind)[k] as int],
    ) by {
        let j = kind_slots(kind)[k] as int;
        assert(j < 26);
        let x = c[e.sources()[j] as int];
        assert(oriented(x));
        assert(oriented(e.gains()[j]));
        crate::algebra::lemma_grip_action_law(e.gains()[j], x, I);
    }
}

/// Every piece of type `kind` in `a` is oriented.
pub open spec fn kind_oriented(a: Seq<ElemId>, kind: int) -> bool {
    forall|k: int| 0 <= k < kind_slots(kind).len() ==> oriented(#[trigger] a[kind_slots(kind)[k] as int])
}

/// An effect leaves the pieces of type `kind` oriented on every cell whose
/// pieces are all oriented exactly when every attitude it gives that type
/// keeps the last cell's grip in place, which is what
/// [`CellEffect::preserves_orientation`] reports.
pub proof fn lemma_keeps_oriented_iff(e: CellEffect, kind: int)
    requires
        effect_ok(e),
        0 <= kind < 3,
    ensures
        crate::lastcell::kind_slots_keep_oriented(e, kind) <==> forall|c: Seq<ElemId>|
            cell_wf(c) && all_oriented(c) ==> #[trigger] kind_oriented(effect_on(e, c), kind),
{
    if crate::lastcell::kind_slots_keep_oriented(e, kind) {
        assert forall|c: Seq<ElemId>| cell_wf(c) && all_oriented(c) implies #[trigger] kind_oriented(
            effect_on(e, c),
            kind,
        ) by {
            lemma_keeps_oriented(e, c, kind);
        }
    } else {
        let c = solved_cell();
        crate::algebra::lemma_grip_action_law(spec_ident(), spec_ident(), I);
        assert(cell_wf(c));
        assert(all_oriented(c));
        let k = choose|k: int|
            0 <= k < kind_slots(kind).len() && !oriented(#[trigger] e.gains()[kind_slots(kind)[k] as int]);
        let j = kind_slots(kind)[k] as int;
        assert(j < 26);
        crate::algebra::lemma_mul_ident(e.gains()[j]);
        assert(effect_on(e, c)[j] == e.gains()[j]);
        assert(!kind_oriented(effect_on(e, c), kind));
    }
}

/// `e` takes every slot of the types in `kinds` from itself, with no gain.
pub open spec fn fixes_kinds(e: CellEffect, kinds: [bool; 3]) -> bool {
    forall|kind: int|
        0 <= kind < 3 && #[trigger] kinds[kind] ==> forall|k: int|
            0 <= k < kind_slots(kind).len() ==> {
                let j = #[trigger] kind_slots(kind)[k];
                e.sources()[j as int] == j && e.gains()[j as int] == spec_ident()
            }
}

/// `e` leaves the slots of the types in `kinds` of `c` as they were.
pub open spec fn leaves_kinds(e: CellEffect, c: Seq<ElemId>, kinds: [bool; 3]) -> bool {
    forall|kind: int, k: int|
        0 <= kind < 3 && kinds[kind] && 0 <= k < kind_slots(kind).len() ==> {
            let j = #[trigger] kind_slots(kind)[k] as int;
            effect_on(e, c)[j] == c[j]
        }
}

/// An effect leaves the slots of the types in `kinds` of every cell as they
/// were exactly when it takes each of them from itself with no gain, which
/// is what [`CellEffect::fixes`] reports.
pub proof fn lemma_fixes_iff(e: CellEffect, kinds: [bool; 3])
    requires
        effect_ok(e),
    ensures
        fixes_kinds(e, kinds) <==> forall|c: Seq<ElemId>| cell_wf(c) ==> #[trigger] leaves_kinds(e, c, kinds),
{
    if fixes_kinds(e, kinds) {
        assert forall|c: Seq<ElemId>| cell_wf(c) implies #[trigger] leaves_kinds(e, c, kinds) by {
            lemma_fixed_slots_unchanged(e, c, kinds);
        }
    } else {
        let kind = choose|kind: int|
            0 <= kind < 3 && #[trigger] kinds[kind] && !(forall|k: int|
                0 <= k < kind_slots(kind).len() ==> {
                    let j = #[trigger] kind_slots(kind)[k];
                    e.sources()[j as int] == j && e.gains()[j as int] == spec_ident()
                });
        let k = choose|k: int|
            0 <= k < kind_slots(kind).len() && !({
                let j = #[trigger] kind_slots(kind)[k];
                e.sources()[j as int] == j && e.gains()[j as int] == spec_ident()
            });
        let j = kind_slots(kind)[k] as int;
        assert(j < 26);
        let src = e.sources()[j] as int;
        assert(src < 26);
        let g = e.gains()[j];
        let x = if g == spec_ident() {
            ElemId(1)
        } else {
            spec_ident()
        };
        let c = solved_cell().update(src, x);
        assert(cell_wf(c));
        crate::algebra::lemma_mul_ident(g);
        crate::algebra::lemma_mul_ident(ElemId(1));
        assert(effect_on(e, c)[j] == g.spec_times(x));
        if src == j {
            assert(g != spec_ident());
            assert(effect_on(e, c)[j] != c[j]);
        } else {
            assert(c[j] == spec_ident());
            assert(effect_on(e, c)[j] != c[j]);
        }
        assert(!leaves_kinds(e, c, kinds));
    }
}

/// `e1` and `e2` put the same attitudes in the slots of the types in
/// `kinds` of `c`.
pub open spec fn act_alike(e1: CellEffect, e2: CellEffect, c: Seq<ElemId>, kinds: [bool; 3]) -> bool {
    forall|kind: int, k: int|
        0 <= kind < 3 && kinds[kind] && 0 <= k < kind_slots(kind).len() ==> {
            let j = #[trigger] kind_slots(kind)[k] as int;
            effect_on(e1, c)[j] == effect_on(e2, c)[j]
        }
}

/// Two effects have the same signature on the types in `kinds` exactly when
/// they act alike on those slots of every cell.
pub proof fn lemma_signature_iff(e1: CellEffect, e2: CellEffect, kinds: [bool; 3])
    requires
        effect_ok(e1),
        effect_ok(e2),
    ensures
        e1.spec_signature(kinds) == e2.spec_signature(kinds) <==> forall|c: Seq<ElemId>|
            cell_wf(c) ==> #[trigger] act_alike(e1, e2, c, kinds),
{
    if e1.spec_signature(kinds) == e2.spec_signature(kinds) {
        crate::lastcell::lemma_signature_means_action(e1, e2, kinds);
        assert forall|c: Seq<ElemId>| cell_wf(c) implies #[trigger] act_alike(e1, e2, c, kinds) by {
            assert forall|kind: int, k: int|
                0 <= kind < 3 && kinds[kind] && 0 <= k < kind_slots(kind).len() implies {
                    let j = #[trigger] kind_slots(kind)[k] as int;
                    effect_on(e1, c)[j] == effect_on(e2, c)[j]
                } by {
                let j = kind_slots(kind)[k] as int;
                assert(j < 26);
            }
        }
    } else {
        if forall|kind: int, k: int|
            0 <= kind < 3 && kinds[kind] && 0 <= k < kind_slots(kind).len() ==> {
                let j = #[trigger] kind_slots(kind)[k] as int;
                e1.sources()[j] == e2.sources()[j] && e1.gains()[j] == e2.gains()[j]
            } {
            assert forall|kind: int| 0 <= kind < 3 && kinds[kind] implies #[trigger] e1.kind_signature(kind_slots(kind))
                =~= e2.kind_signature(kind_slots(kind)) by {
                assert forall|k: int| 0 <= k < kind_slots(kind).len() implies e1.kind_signature(kind_slots(kind))[k]
                    == e2.kind_signature(kind_slots(kind))[k] by {
                    let j = kind_slots(kind)[k] as int;
                    assert(e1.sources()[j] == e2.sources()[j] && e1.gains()[j] == e2.gains()[j]);
                }
            }
            assert(kinds[0] ==> e1.kind_signature(kind_slots(0)) == e2.kind_signature(kind_slots(0)));
            assert(kinds[1] ==> e1.kind_signature(kind_slots(1)) == e2.kind_signature(kind_slots(1)));
            assert(kinds[2] ==> e1.kind_signature(kind_slots(2)) == e2.kind_signature(kind_slots(2)));
            assert(false);
        }
        let (kind, k) = choose|kind: int, k: int|
            0 <= kind < 3 && kinds[kind] && 0 <= k < kind_slots(kind).len() && !({
                let j = #[trigger] kind_slots(kind)[k] as int;
                e1.sources()[j] == e2.sources()[j] && e1.gains()[j] == e2.gains()[j]
            });
        let j = kind_slots(kind)[k] as int;
        assert(j < 26);
        let s1 = e1.sources()[j] as int;
        let s2 = e2.sources()[j] as int;
        assert(s1 < 26 && s2 < 26);
        let g1 = e1.gains()[j];
        let g2 = e2.gains()[j];
        let x = if g1 == g2 {
            ElemId(1)
        } else {
            spec_ident()
        };
        let c = if s1 == s2 {
            solved_cell()
        } else {
            solved_cell().update(s1, x)
        };
        assert(cell_wf(c));
        crate::algebra::lemma_mul_ident(g1);
        crate::algebra::lemma_mul_ident(g2);
        crate::algebra::lemma_mul_ident(ElemId(1));
        if s1 == s2 {
            assert(effect_on(e1, c)[j] == g1);
            assert(effect_on(e2, c)[j] == g2);
        } else {
            assert(effect_on(e2, c)[j] == g2);
            assert(effect_on(e1, c)[j] == g1.spec_times(x));
            if g1 == g2 {
                if g1.spec_times(ElemId(1)) == g1 {
                    crate::algebra::lemma_mul_inv(g1);
                    crate::algebra::lemma_mul_assoc(g1.spec_inverse(), g1, ElemId(1));
                    assert(false);
                }
            }
        }
        assert(!act_alike(e1, e2, c, kinds));
    }
}

/// A solved last cell needs nothing: a solution from it that ran both
/// stages has no steps and records both.
pub proof fn lemma_solved_cell_needs_nothing(s: LastCellSolution, olc_searches: bool, plc_searches: bool)
    requires
        stages_reached(s, solved_cell(), 2, olc_searches, plc_searches),
    ensures
        s.steps@.len() == 0,
        s.stages_completed@.len() == 2,
{
    broadcast use vstd::seq_lib::group_filter_ensures;

    let c0 = solved_cell();
    let m = choose|m: int| stages_exact(s, c0, 2, olc_searches, plc_searches, m);
    crate::algebra::lemma_grip_action_law(spec_ident(), spec_ident(), I);
    assert(all_oriented(c0));
    lemma_oriented_none_misoriented(c0);
    assert(m == 0);
    assert(step_algs(s.steps@).take(0) =~= Seq::<Alg>::empty());
    assert(apply_all(c0, step_algs(s.steps@).take(0)) == c0);
    let f = kind_slots(0).filter(|j: usize| !slot_solved(c0[j as int], j as int));
    if f.len() > 0 {
        assert(f.contains(f[0]));
        kind_slots(0).lemma_filter_contains_rev(|j: usize| !slot_solved(c0[j as int], j as int), f[0]);
        assert(kind_slots(0).contains(f[0]));
        assert(f[0] < 26);
        assert forall|g: GripId| #![trigger crate::locations::piece_touches(cell_piece(f[0] as int), g)]
            crate::locations::piece_touches(cell_piece(f[0] as int), g) implies spec_ident().spec_times_grip(g) == g by {
            crate::algebra::lemma_grip_action_law(spec_ident(), spec_ident(), g);
        }
        assert(slot_solved(c0[f[0] as int], f[0] as int));
    }
    assert(unsolved_count(c0, 0) == 0);
}

/// The slots of each piece type are those whose pieces have that type's
/// number of nonzero coordinates: two for ridges, three for edges, four for
/// corners.
pub proof fn lemma_kind_of_slot(j: int)
    requires
        0 <= j < 26,
    ensures
        kind_slots(crate::locations::last_cell_nonzeros(j) - 2).contains(j as usize),
        forall|kind: int| 0 <= kind < 3 && #[trigger] kind_slots(kind).contains(j as usize) ==> crate::locations::last_cell_nonzeros(j) == kind + 2,
{
    if j == 4 {
        assert(kind_slots(0)[0] == 4usize);
    } else if j == 10 {
        assert(kind_slots(0)[1] == 10usize);
    } else if j == 12 {
        assert(kind_slots(0)[2] == 12usize);
    } else if j == 13 {
        assert(kind_slots(0)[3] == 13usize);
    } else if j == 15 {
        assert(kind_slots(0)[4] == 15usize);
    } else if j == 21 {
        assert(kind_slots(0)[5] == 21usize);
    } else if j == 1 {
        assert(kind_slots(1)[0] == 1usize);
    } else if j == 3 {
        assert(kind_slots(1)[1] == 3usize);
    } else if j == 5 {
        assert(kind_slots(1)[2] == 5usize);
    } else if j == 7 {
        assert(kind_slots(1)[3] == 7usize);
    } else if j == 9 {
        assert(kind_slots(1)[4] == 9usize);
    } else if j == 11 {
        assert(kind_slots(1)[5] == 11usize);
    } else if j == 14 {
        assert(kind_slots(1)[6] == 14usize);
    } else if j == 16 {
        assert(kind_slots(1)[7] == 16usize);
    } else if j == 18 {
        assert(kind_slots(1)[8] == 18usize);
    } else if j == 20 {
        assert(kind_slots(1)[9] == 20usize);
    } else if j == 22 {
        assert(kind_slots(1)[10] == 22usize);
    } else if j == 24 {
        assert(kind_slots(1)[11] == 24usize);
    } else if j == 0 {
        assert(kind_slots(2)[0] == 0usize);
    } else if j == 2 {
        assert(kind_slots(2)[1] == 2usize);
    } else if j == 6 {
        assert(kind_slots(2)[2] == 6usize);
    } else if j == 8 {
        assert(kind_slots(2)[3] == 8usize);
    } else if j == 17 {
        assert(kind_slots(2)[4] == 17usize);
    } else if j == 19 {
        assert(kind_slots(2)[5] == 19usize);
    } else if j == 23 {
        assert(kind_slots(2)[6] == 23usize);
    } else if j == 25 {
        assert(kind_slots(2)[7] == 25usize);
    }
    assert forall|kind: int| 0 <= kind < 3 && #[trigger] kind_slots(kind).contains(j as usize) implies crate::locations::last_cell_nonzeros(j) == kind + 2 by {
        let k = choose|k: int| 0 <= k < kind_slots(kind).len() && kind_slots(kind)[k] == j as usize;
        if kind == 0 {
            assert(0 <= k < 6);
        } else if kind == 1 {
            assert(0 <= k < 12);
        } else {
            assert(0 <= k < 8);
        }
    }
}

/// `e` takes every slot of type `kind` from a slot of the same type.
pub open spec fn sources_keep_kind(e: CellEffect, kind: int) -> bool {
    forall|k: int|
        0 <= k < kind_slots(kind).len() ==> kind_slots(kind).contains(
            #[trigger] e.sources()[kind_slots(kind)[k] as int] as usize,
        )
}

/// A piece moved by a rotation keeps its number of nonzero coordinates, so
/// the slot it comes from holds a piece of the same type.
proof fn lemma_source_same_type(x: ElemId, j: int, src: int)
    requires
        x.wf(),
        0 <= j < 26,
        0 <= src < 26,
        src == crate::lastcell::cell_slot(crate::locations::spec_mul_index(x, cell_piece(j))),
    ensures
        crate::locations::last_cell_nonzeros(src) == crate::locations::last_cell_nonzeros(j),
{
    let p = cell_piece(j);
    crate::locations::lemma_cell_raw(I, j);
    let m = crate::locations::spec_mul_index(x, p);
    crate::locations::lemma_mul_index(x, p, p);
    assert(cell_piece(src) == m);
    crate::locations::lemma_location(p);
    crate::locations::lemma_location(m);
    let v = crate::locations::location(p);
    crate::locations::lemma_rotate_location(x, v, v);
    crate::locations::lemma_index_of(x.spec_times_vec(v), crate::locations::location(m));
    crate::locations::lemma_last_cell_nonzeros(j);
    crate::locations::lemma_last_cell_nonzeros(src);
}

/// An effect read out of attitudes `a` takes every slot from a slot of the
/// same piece type: a rotation keeps the number of nonzero coordinates.
pub proof fn lemma_recorded_sources_keep_kind(e: CellEffect, a: Seq<ElemId>, kind: int)
    requires
        e.records(a),
        effect_ok(e),
        crate::puzzle_state::attitudes_wf(a),
        0 <= kind < 3,
    ensures
        sources_keep_kind(e, kind),
{
    assert forall|k: int| 0 <= k < kind_slots(kind).len() implies kind_slots(kind).contains(
        #[trigger] e.sources()[kind_slots(kind)[k] as int] as usize,
    ) by {
        let j = kind_slots(kind)[k] as int;
        assert(kind_slots(kind).contains(j as usize));
        assert(0 <= j < 26);
        let src = e.sources()[j] as int;
        assert(src < 26);
        crate::locations::lemma_cell_raw(I, j);
        let x = a[cell_piece(j)].spec_inverse();
        crate::algebra::lemma_mul_inv(a[cell_piece(j)]);
        lemma_source_same_type(x, j, src);
        lemma_kind_of_slot(j);
        lemma_kind_of_slot(src);
    }
}

/// An effect that takes the slots of type `kind` from slots of that type
/// leaves that type oriented on every cell where it starts out oriented
/// exactly when every attitude it gives that type keeps the last cell's
/// grip in place, which is what [`CellEffect::preserves_orientation`]
/// reports. Effects read out of a state do take each type from itself
/// ([`lemma_recorded_sources_keep_kind`]).
pub proof fn lemma_kind_orientation_iff(e: CellEffect, kind: int)
    requires
        effect_ok(e),
        0 <= kind < 3,
        sources_keep_kind(e, kind),
    ensures
        crate::lastcell::kind_slots_keep_oriented(e, kind) <==> forall|c: Seq<ElemId>|
            cell_wf(c) && kind_oriented(c, kind) ==> #[trigger] kind_oriented(effect_on(e, c), kind),
{
    if crate::lastcell::kind_slots_keep_oriented(e, kind) {
        assert forall|c: Seq<ElemId>| cell_wf(c) && kind_oriented(c, kind) implies #[trigger] kind_oriented(
            effect_on(e, c),
            kind,
        ) by {
            assert forall|k: int| 0 <= k < kind_slots(kind).len() implies oriented(
                #[trigger] effect_on(e, c)[kind_slots(kind)[k] as int],
            ) by {
                let j = kind_slots(kind)[k] as int;
                assert(kind_slots(kind).contains(j as usize));
                assert(j < 26);
                let src = e.sources()[j];
                assert(kind_slots(kind).contains(src as usize));
                let q = choose|q: int| 0 <= q < kind_slots(kind).len() && kind_slots(kind)[q] == src as usize;
                assert(oriented(c[kind_slots(kind)[q] as int]));
                assert(oriented(e.gains()[j]));
                crate::algebra::lemma_grip_action_law(e.gains()[j], c[src as int], I);
            }
        }
    } else {
        let c = solved_cell();
        crate::algebra::lemma_grip_action_law(spec_ident(), spec_ident(), I);
        assert(cell_wf(c));
        assert(all_oriented(c));
        assert(kind_oriented(c, kind));
        let k = choose|k: int|
            0 <= k < kind_slots(kind).len() && !oriented(#[trigger] e.gains()[kind_slots(kind)[k] as int]);
        let j = kind_slots(kind)[k] as int;
        assert(kind_slots(kind).contains(j as usize));
        assert(j < 26);
        crate::algebra::lemma_mul_ident(e.gains()[j]);
        assert(effect_on(e, c)[j] == e.gains()[j]);
        assert(!kind_oriented(effect_on(e, c), kind));
    }
}

/// At most 26 pieces of the cell are misoriented.
pub proof fn lemma_misoriented_bounded(a: Seq<ElemId>)
    ensures
        0 <= misoriented(a) <= 26,
{
    kind_slots(0).lemma_filter_len(|j: usize| !oriented(a[j as int]));
    kind_slots(1).lemma_filter_len(|j: usize| !oriented(a[j as int]));
    kind_slots(2).lemma_filter_len(|j: usize| !oriented(a[j as int]));
}

/// The ranking of the orientation stage comes in bands: only an oriented
/// cell is at zero; a misoriented cell that a stored finish orients is at
/// one; among misoriented cells with no stored finish, one whose profile
/// some algorithm produces is somewhere from 3 to 28, while one whose
/// profile no algorithm produces is at 31 or more. So such a clearable cell
/// always ranks strictly ahead of a dead end, however many more pieces it
/// has misoriented.
pub proof fn lemma_distance_bands(cases: OrientationCases, a: Seq<ElemId>, b: Seq<ElemId>)
    ensures
        cases.spec_distance(a) == 0 <==> misoriented(a) == 0,
        misoriented(a) != 0 && cases.finisher_map().contains_key(orientation_key_of(a) as u128) ==> cases.spec_distance(a)
            == 1,
        misoriented(a) != 0 && !cases.finisher_map().contains_key(orientation_key_of(a) as u128)
            && cases.profile_clearable(a) ==> 3 <= cases.spec_distance(a) <= 28,
        misoriented(b) != 0 && !cases.finisher_map().contains_key(orientation_key_of(b) as u128)
            && !cases.profile_clearable(b) ==> cases.spec_distance(b) >= 31,
        misoriented(a) != 0 && !cases.finisher_map().contains_key(orientation_key_of(a) as u128)
            && cases.profile_clearable(a) && misoriented(b) != 0 && !cases.finisher_map().contains_key(
            orientation_key_of(b) as u128,
        ) && !cases.profile_clearable(b) ==> cases.spec_distance(a) < cases.spec_distance(b),
        misoriented(a) != 0 && misoriented(b) != 0 && cases.finisher_map().contains_key(orientation_key_of(a) as u128)
            && !cases.finisher_map().contains_key(orientation_key_of(b) as u128) ==> cases.spec_distance(a)
            < cases.spec_distance(b),
{
    lemma_misoriented_bounded(a);
    lemma_misoriented_bounded(b);
}

} // verus!
