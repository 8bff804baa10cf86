//! Replaying twists versus applying what they did: a state reached by twists
//! is the solved state's result of those twists acting on the starting
//! attitudes, which is what lets a [`CellEffect`] stand in for an algorithm.
use vstd::prelude::*;

use crate::algebra::{
    lemma_grip_inverse, lemma_grip_action_law, lemma_inverse_of_product, lemma_mul_assoc, lemma_mul_ident,
    lemma_mul_inv, lemma_mul_wf,
};
use crate::elements::ElemId;
use crate::grips::{GripId, I};
use crate::lastcell::{cell_piece, cell_slot, simplified, CellEffect};
use crate::locations::{cell_index, in_cell, lemma_cell_raw, lemma_mul_index, piece_touches, spec_mul_index};
use crate::puzzle_state::{
    attitudes_wf, f2l_solved, is_canonical_attitude, looks_same, piece_solved, twisted,
    twists_applied,
};
use crate::symmetry::{
    lemma_ident_inverse, lemma_index_action_law, lemma_index_inverse, home_of, homes_distinct, lemma_applied_wf, lemma_reachable_homes_distinct,
    lemma_solved_homes, lemma_solved_piece_home, lemma_twisted_at, lemma_twisted_home,
    lemma_twisted_wf,
};
use crate::twist::Twist;

verus! {

/// The solved state: every piece at home with the identity attitude.
pub open spec fn solved_attitudes() -> Seq<ElemId> {
    Seq::new(72, |k: int| ElemId(0))
}

/// Every twist of `ts` turns its own cell.
pub open spec fn all_turn_own_cell(ts: Seq<Twist>) -> bool {
    forall|k: int| 0 <= k < ts.len() ==> (#[trigger] ts[k]).turns_own_cell()
}

/// Where the piece that stands at `k` after twists `ts` stood before them,
/// whatever the state: each twist brings the piece at the location its
/// inverse sends `k` to, when `k` is in the twisted cell.
pub open spec fn path_source(ts: Seq<Twist>, k: int) -> int
    decreases ts.len(),
{
    if ts.len() == 0 {
        k
    } else {
        let t = ts.last();
        if in_cell(t.grip, k) {
            path_source(ts.drop_last(), spec_mul_index(t.transform.spec_inverse(), k))
        } else {
            path_source(ts.drop_last(), k)
        }
    }
}

/// The rotation that the piece standing at `k` after twists `ts` gained
/// from them.
pub open spec fn path_gain(ts: Seq<Twist>, k: int) -> ElemId
    decreases ts.len(),
{
    if ts.len() == 0 {
        ElemId(0)
    } else {
        let t = ts.last();
        if in_cell(t.grip, k) {
            t.transform.spec_times(path_gain(ts.drop_last(), spec_mul_index(t.transform.spec_inverse(), k)))
        } else {
            path_gain(ts.drop_last(), k)
        }
    }
}

/// Twists act on each piece alone: after `ts`, the piece at `k` is the one
/// that stood at `path_source(ts, k)`, whatever the state, having gained
/// `path_gain(ts, k)`, which carries its old location to `k`.
pub proof fn lemma_applied_as_path(a: Seq<ElemId>, ts: Seq<Twist>, k: int)
    requires
        attitudes_wf(a),
        all_turn_own_cell(ts),
        0 <= k < 72,
    ensures
        0 <= path_source(ts, k) < 72,
        path_gain(ts, k).wf(),
        twists_applied(a, ts)[k] == path_gain(ts, k).spec_times(a[path_source(ts, k)]),
        spec_mul_index(path_gain(ts, k), path_source(ts, k)) == k,
    decreases ts.len(),
{
    if ts.len() == 0 {
        lemma_mul_ident(a[k]);
        lemma_index_action_law(ElemId(0), ElemId(0), k);
    } else {
        let rest = ts.drop_last();
        let t = ts.last();
        assert(t == ts[ts.len() - 1]);
        assert(all_turn_own_cell(rest)) by {
            assert forall|j: int| 0 <= j < rest.len() implies (#[trigger] rest[j]).turns_own_cell() by {
                assert(rest[j] == ts[j]);
            }
        }
        let y = twists_applied(a, rest);
        lemma_applied_wf(a, rest);
        lemma_twisted_at(y, t, k);
        if in_cell(t.grip, k) {
            let e = t.transform;
            lemma_mul_inv(e);
            let p = spec_mul_index(e.spec_inverse(), k);
            lemma_mul_index(e.spec_inverse(), k, k);
            lemma_applied_as_path(a, rest, p);
            let g = path_gain(rest, p);
            let s = path_source(rest, p);
            lemma_mul_assoc(e, g, a[s]);
            lemma_mul_wf(e, g);
            lemma_index_action_law(e, g, s);
            lemma_index_inverse(e, k);
        } else {
            lemma_applied_as_path(a, rest, k);
        }
    }
}

proof fn lemma_prefix_turns_own_cell(ts: Seq<Twist>)
    requires
        all_turn_own_cell(ts),
        ts.len() > 0,
    ensures
        all_turn_own_cell(ts.drop_last()),
        forall|k: int| 0 <= k < ts.drop_last().len() ==> (#[trigger] ts.drop_last()[k]).wf(),
        forall|k: int| 0 <= k < ts.len() ==> (#[trigger] ts[k]).wf(),
{
    assert forall|k: int| 0 <= k < ts.drop_last().len() implies (
    #[trigger] ts.drop_last()[k]).turns_own_cell() by {
        assert(ts.drop_last()[k] == ts[k]);
    }
    assert forall|k: int| 0 <= k < ts.len() implies (#[trigger] ts[k]).wf() by {
        assert(ts[k].turns_own_cell());
    }
}

/// Twisting from any attitudes gives, at each location, the attitude that
/// the same twists give from solved, times the starting attitude of the
/// piece that belongs there.
pub proof fn lemma_applied_linear(s: Seq<ElemId>, ts: Seq<Twist>, k: int)
    requires
        attitudes_wf(s),
        all_turn_own_cell(ts),
        0 <= k < 72,
    ensures
        twists_applied(s, ts)[k] == twists_applied(solved_attitudes(), ts)[k].spec_times(
            s[home_of(twists_applied(solved_attitudes(), ts), k)],
        ),
    decreases ts.len(),
{
    let z = solved_attitudes();
    lemma_mul_ident(ElemId(0));
    if ts.len() == 0 {
        lemma_solved_homes(k);
        lemma_mul_ident(s[k]);
    } else {
        let rest = ts.drop_last();
        let t = ts.last();
        lemma_prefix_turns_own_cell(ts);
        let e = twists_applied(z, rest);
        let sa = twists_applied(s, rest);
        lemma_applied_wf(z, rest);
        lemma_applied_wf(s, rest);
        lemma_twisted_at(sa, t, k);
        lemma_twisted_at(e, t, k);
        lemma_twisted_home(e, t, k);
        if in_cell(t.grip, k) {
            let ti = t.transform.spec_inverse();
            lemma_mul_inv(t.transform);
            let j = crate::locations::spec_mul_index(ti, k);
            lemma_mul_index(ti, k, k);
            lemma_applied_linear(s, rest, j);
            let h = home_of(e, j);
            lemma_mul_inv(e[j]);
            lemma_mul_index(e[j].spec_inverse(), j, j);
            lemma_mul_assoc(t.transform, e[j], s[h]);
        } else {
            lemma_applied_linear(s, rest, k);
        }
    }
}

/// With F2L intact and no two pieces belonging in the same location, every
/// piece in the last cell belongs in the last cell.
pub proof fn lemma_cell_homes_in_cell(a: Seq<ElemId>, last_cell: GripId, k: int)
    requires
        attitudes_wf(a),
        homes_distinct(a),
        f2l_solved(a, last_cell),
        in_cell(last_cell, k),
    ensures
        0 <= home_of(a, k) < 72,
        in_cell(last_cell, home_of(a, k)),
{
    let o = choose|o: int| 0 <= o < 26 && cell_index(last_cell, o) == k;
    lemma_cell_raw(last_cell, o);
    let h = home_of(a, k);
    lemma_mul_inv(a[k]);
    lemma_mul_index(a[k].spec_inverse(), k, k);
    if !in_cell(last_cell, h) {
        assert(piece_solved(a, h));
        lemma_solved_piece_home(a, h);
        assert(home_of(a, h) == home_of(a, k));
    }
}

/// Attitudes that look the same still do after both are followed by `x`.
pub proof fn lemma_looks_same_times(i: int, a: ElemId, b: ElemId, x: ElemId)
    requires
        a.wf(),
        b.wf(),
        x.wf(),
        looks_same(i, a, b),
    ensures
        looks_same(i, a.spec_times(x), b.spec_times(x)),
{
    reveal(looks_same);
    lemma_mul_inv(a);
    lemma_mul_inv(b);
    lemma_mul_inv(x);
    lemma_inverse_of_product(a, x);
    lemma_inverse_of_product(b, x);
    assert forall|g: GripId| #![trigger piece_touches(i, g)] piece_touches(i, g) implies a.spec_times(
        x,
    ).spec_inverse().spec_times_grip(g) == b.spec_times(x).spec_inverse().spec_times_grip(g) by {
        lemma_grip_action_law(x.spec_inverse(), a.spec_inverse(), g);
        lemma_grip_action_law(x.spec_inverse(), b.spec_inverse(), g);
    }
}

/// Attitudes that look the same have the same canonical attitude.
pub proof fn lemma_same_canonical(i: int, a: ElemId, b: ElemId, c: ElemId, d: ElemId)
    requires
        looks_same(i, a, b),
        is_canonical_attitude(i, a, c),
        is_canonical_attitude(i, b, d),
    ensures
        c == d,
{
    reveal(looks_same);
    assert(looks_same(i, c, b));
    assert(looks_same(i, d, a));
    if c.0 < d.0 {
        assert(!looks_same(i, ElemId(c.0), b));
    } else if d.0 < c.0 {
        assert(!looks_same(i, ElemId(d.0), a));
    }
}

/// Applying the effect recorded from an algorithm to the last cell of any
/// state gives, slot by slot, attitudes that look the same as replaying the
/// algorithm's twists on that state, provided the algorithm keeps F2L.
pub proof fn lemma_effect_matches_replay(ts: Seq<Twist>, eff: CellEffect, s: Seq<ElemId>, j: int)
    requires
        all_turn_own_cell(ts),
        f2l_solved(twists_applied(solved_attitudes(), ts), I),
        eff.records(twists_applied(solved_attitudes(), ts)),
        attitudes_wf(s),
        0 <= j < 26,
    ensures
        eff.sources()[j] < 26,
        looks_same(
            cell_piece(j),
            eff.gains()[j].spec_times(s[cell_piece(eff.sources()[j] as int)]),
            twists_applied(s, ts)[cell_piece(j)],
        ),
{
    let z = solved_attitudes();
    let e = twists_applied(z, ts);
    let c = cell_piece(j);
    lemma_cell_raw(I, j);
    assert(in_cell(I, c));
    assert forall|k: int| 0 <= k < ts.len() implies (#[trigger] ts[k]).wf() by {
        assert(ts[k].turns_own_cell());
    }
    lemma_mul_ident(ElemId(0));
    lemma_applied_wf(z, ts);
    lemma_reachable_homes_distinct(ts);
    lemma_cell_homes_in_cell(e, I, c);
    let h = home_of(e, c);
    let sl = cell_slot(h);
    let o = choose|o: int| 0 <= o < 26 && cell_index(I, o) == h;
    assert(cell_piece(o) == h);
    assert(0 <= sl < 26 && cell_piece(sl) == h);
    assert(eff.sources()[j] == sl);
    lemma_applied_linear(s, ts, c);
    assert(is_canonical_attitude(c, e[c], eff.gains()[j]));
    lemma_looks_same_times(c, eff.gains()[j], e[c], s[h]);
}

/// The effect of doing nothing leaves a cell as it is.
pub proof fn lemma_identity_effect(eff: CellEffect, c: Seq<ElemId>, j: int)
    requires
        forall|k: int| 0 <= k < 26 ==> #[trigger] eff.sources()[k] == k,
        forall|k: int| 0 <= k < 26 ==> #[trigger] eff.gains()[k] == ElemId(0),
        c[j].wf(),
        0 <= j < 26,
    ensures
        eff.gains()[j].spec_times(c[eff.sources()[j] as int]) == c[j],
{
    lemma_mul_ident(c[j]);
}

/// Twisting a grip by two rotations in turn is twisting it once by their
/// product.
pub proof fn lemma_twist_merge(a: Seq<ElemId>, u: Twist, t: Twist)
    requires
        attitudes_wf(a),
        u.turns_own_cell(),
        t.turns_own_cell(),
        u.grip == t.grip,
    ensures
        (Twist { grip: t.grip, transform: t.transform.spec_times(u.transform) }).turns_own_cell(),
        twisted(twisted(a, u), t) == twisted(
            a,
            Twist { grip: t.grip, transform: t.transform.spec_times(u.transform) },
        ),
{
    let g = t.grip;
    let tt = t.transform;
    let ut = u.transform;
    let c = Twist { grip: g, transform: tt.spec_times(ut) };
    lemma_mul_wf(tt, ut);
    lemma_grip_action_law(tt, ut, g);
    lemma_mul_inv(tt);
    lemma_mul_inv(ut);
    lemma_grip_inverse(tt, g);
    lemma_inverse_of_product(tt, ut);
    lemma_twisted_wf(a, u);
    let b = twisted(a, u);
    assert forall|k: int| 0 <= k < 72 implies #[trigger] twisted(b, t)[k] == twisted(a, c)[k] by {
        lemma_twisted_at(b, t, k);
        lemma_twisted_at(a, c, k);
        lemma_twisted_at(a, u, k);
        if in_cell(g, k) {
            let ti = tt.spec_inverse();
            let j = crate::locations::spec_mul_index(ti, k);
            lemma_mul_index(ti, k, k);
            crate::symmetry::lemma_cell_closed(ti, g, k);
            lemma_twisted_at(a, u, j);
            lemma_index_action_law(ut.spec_inverse(), ti, k);
            let m = crate::locations::spec_mul_index(ut.spec_inverse(), j);
            lemma_mul_index(ut.spec_inverse(), j, j);
            lemma_mul_assoc(tt, ut, a[m]);
        }
    }
    assert(twisted(b, t) =~= twisted(a, c));
}

/// Twisting a grip by the identity changes nothing.
pub proof fn lemma_identity_twist(a: Seq<ElemId>, g: GripId)
    requires
        attitudes_wf(a),
    ensures
        twisted(a, Twist { grip: g, transform: ElemId(0) }) == a,
{
    let t = Twist { grip: g, transform: ElemId(0) };
    lemma_mul_ident(ElemId(0));
    lemma_grip_action_law(ElemId(0), ElemId(0), g);
    lemma_ident_inverse();
    assert forall|k: int| 0 <= k < 72 implies #[trigger] twisted(a, t)[k] == a[k] by {
        lemma_twisted_at(a, t, k);
        lemma_index_action_law(ElemId(0), ElemId(0), k);
        lemma_mul_ident(a[k]);
    }
    assert(twisted(a, t) =~= a);
}

/// Simplifying twists that turn their own cells keeps them turning their own
/// cells and keeps what they do.
pub proof fn lemma_simplified_same_effect(a: Seq<ElemId>, ts: Seq<Twist>)
    requires
        attitudes_wf(a),
        all_turn_own_cell(ts),
    ensures
        all_turn_own_cell(simplified(ts)),
        twists_applied(a, simplified(ts)) == twists_applied(a, ts),
    decreases ts.len(),
{
    if ts.len() > 0 {
        let rest = ts.drop_last();
        let t = ts.last();
        lemma_prefix_turns_own_cell(ts);
        lemma_simplified_same_effect(a, rest);
        let r = simplified(rest);
        lemma_prefix_turns_own_cell_all(r);
        lemma_applied_wf(a, r);
        if r.len() > 0 && r.last().grip == t.grip {
            let u = r.last();
            let r2 = r.drop_last();
            let y = twists_applied(a, r2);
            lemma_prefix_turns_own_cell(r);
            lemma_applied_wf(a, r2);
            lemma_twist_merge(y, u, t);
            let combined = t.transform.spec_times(u.transform);
            if combined == ElemId(0) {
                lemma_identity_twist(y, t.grip);
                assert(simplified(ts) == r2);
            } else {
                let merged = Twist { grip: t.grip, transform: combined };
                assert(simplified(ts) == r.update(r.len() - 1, merged));
                assert(r.update(r.len() - 1, merged).drop_last() =~= r2);
                assert forall|k: int| 0 <= k < simplified(ts).len() implies (
                #[trigger] simplified(ts)[k]).turns_own_cell() by {
                    if k < r.len() - 1 {
                        assert(simplified(ts)[k] == r[k]);
                    }
                }
            }
        } else {
            assert(simplified(ts) == r.push(t));
            assert(r.push(t).drop_last() =~= r);
            assert forall|k: int| 0 <= k < simplified(ts).len() implies (
            #[trigger] simplified(ts)[k]).turns_own_cell() by {
                if k < r.len() {
                    assert(simplified(ts)[k] == r[k]);
                }
            }
        }
    }
}

proof fn lemma_prefix_turns_own_cell_all(ts: Seq<Twist>)
    requires
        all_turn_own_cell(ts),
    ensures
        forall|k: int| 0 <= k < ts.len() ==> (#[trigger] ts[k]).wf(),
{
    assert forall|k: int| 0 <= k < ts.len() implies (#[trigger] ts[k]).wf() by {
        assert(ts[k].turns_own_cell());
    }
}

/// Two attitudes that look alike at location `i` have the same canonical
/// attitude there.
pub proof fn lemma_canonical_of_look_alike(i: int, a: ElemId, b: ElemId, c: ElemId)
    requires
        looks_same(i, a, b),
        is_canonical_attitude(i, a, c),
    ensures
        is_canonical_attitude(i, b, c),
{
    reveal(looks_same);
    assert forall|g: GripId| #![trigger piece_touches(i, g)] piece_touches(i, g) implies c.spec_inverse().spec_times_grip(
        g,
    ) == b.spec_inverse().spec_times_grip(g) by {
        assert(c.spec_inverse().spec_times_grip(g) == a.spec_inverse().spec_times_grip(g));
        assert(a.spec_inverse().spec_times_grip(g) == b.spec_inverse().spec_times_grip(g));
    }
    assert(looks_same(i, c, b));
    assert forall|id: u8| id < c.0 implies !looks_same(i, ElemId(id), b) by {
        if looks_same(i, ElemId(id), b) {
            assert forall|g: GripId| #![trigger piece_touches(i, g)] piece_touches(i, g) implies ElemId(
                id,
            ).spec_inverse().spec_times_grip(g) == a.spec_inverse().spec_times_grip(g) by {
                assert(ElemId(id).spec_inverse().spec_times_grip(g) == b.spec_inverse().spec_times_grip(g));
                assert(a.spec_inverse().spec_times_grip(g) == b.spec_inverse().spec_times_grip(g));
            }
            assert(looks_same(i, ElemId(id), a));
            assert(!looks_same(i, ElemId(id), a));
        }
    }
}

/// One slot of [`lemma_effect_matches_replay_canonical`].
proof fn lemma_slot_canonical(ts: Seq<Twist>, eff: CellEffect, s: Seq<ElemId>, j: int, xj: ElemId, yj: ElemId)
    requires
        all_turn_own_cell(ts),
        f2l_solved(twists_applied(solved_attitudes(), ts), I),
        eff.records(twists_applied(solved_attitudes(), ts)),
        attitudes_wf(s),
        0 <= j < 26,
        is_canonical_attitude(cell_piece(j), twists_applied(s, ts)[cell_piece(j)], xj),
        is_canonical_attitude(cell_piece(j), eff.gains()[j].spec_times(s[cell_piece(eff.sources()[j] as int)]), yj),
    ensures
        xj == yj,
{
    lemma_effect_matches_replay(ts, eff, s, j);
    lemma_canonical_agree(
        cell_piece(j),
        eff.gains()[j].spec_times(s[cell_piece(eff.sources()[j] as int)]),
        twists_applied(s, ts)[cell_piece(j)],
        xj,
        yj,
    );
}

/// Attitudes that look alike have one canonical attitude.
proof fn lemma_canonical_agree(i: int, a: ElemId, b: ElemId, xj: ElemId, yj: ElemId)
    requires
        looks_same(i, a, b),
        is_canonical_attitude(i, b, xj),
        is_canonical_attitude(i, a, yj),
    ensures
        xj == yj,
{
    reveal(looks_same);
    assert(looks_same(i, b, a));
    lemma_canonical_of_look_alike(i, b, a, xj);
    crate::lastcell::lemma_canonical_unique(i, a, xj, yj);
}

/// Applying the recorded effect of twists `ts` to the last cell of any
/// state, and replaying `ts` on that state, give last cells that
/// canonicalize alike: `x` and `y` are the canonical forms of the replayed
/// cell and of the cell the effect gives.
pub proof fn lemma_effect_matches_replay_canonical(
    ts: Seq<Twist>,
    eff: CellEffect,
    s: Seq<ElemId>,
    x: Seq<ElemId>,
    y: Seq<ElemId>,
)
    requires
        all_turn_own_cell(ts),
        f2l_solved(twists_applied(solved_attitudes(), ts), I),
        eff.records(twists_applied(solved_attitudes(), ts)),
        attitudes_wf(s),
        x.len() == 26,
        y.len() == 26,
        forall|j: int|
            0 <= j < 26 ==> is_canonical_attitude(cell_piece(j), twists_applied(s, ts)[cell_piece(j)], #[trigger] x[j]),
        forall|j: int|
            0 <= j < 26 ==> is_canonical_attitude(
                cell_piece(j),
                eff.gains()[j].spec_times(s[cell_piece(eff.sources()[j] as int)]),
                #[trigger] y[j],
            ),
    ensures
        x == y,
{
    assert forall|j: int| 0 <= j < 26 implies x[j] == y[j] by {
        lemma_slot_canonical(ts, eff, s, j, x[j], y[j]);
    }
    assert(x =~= y);
}

} // verus!
