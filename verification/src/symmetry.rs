//! Rotating the whole puzzle: how rotations move piece locations, and what
//! reorienting a state keeps.
use vstd::prelude::*;

use crate::algebra::{
    lemma_inverse_of_product, lemma_mul_assoc, lemma_grip_action_law, lemma_grip_component, lemma_grip_inverse, lemma_mul_ident, lemma_mul_inv,
    lemma_mul_wf, lemma_vec_action_law,
};
use crate::grips::{grip_of, GripId};
use crate::elements::ElemId;
use crate::locations::{
    index_of, lemma_index_of, lemma_location, lemma_mul_index, lemma_rotate_location, location,
    nonzeros, piece_touches, spec_mul_index, in_cell, cell_index, lemma_in_cell_touches,
    lemma_cell_raw,
};
use crate::puzzle_state::{
    belongs_to_cell, f2l_solved, is_canonical_attitude, is_f2l_key, looks_same, all_solved, attitudes_wf, moved_to, piece_solved, reached_by, reoriented, twist_target, twisted,
    twists_applied,
};
use crate::lastcell::inverted;
use crate::elements::TransformByElem;
use crate::twist::Twist;
use crate::space::Vec4;

verus! {

/// A piece location vector is the location of its index.
proof fn lemma_location_of_index(v: Vec4)
    requires
        v.bounded(-1, 1),
        nonzeros(v) >= 2,
    ensures
        index_of(v) matches Some(k) && k < 72 && location(k as int) == v,
{
    lemma_index_of(v, v);
    let k = index_of(v)->0;
    lemma_location(k as int);
    lemma_index_of(v, location(k as int));
}

/// Rotations act on piece locations: the identity leaves every piece in
/// place, and a product moves a piece as its factors do in turn.
pub proof fn lemma_index_action_law(a: ElemId, b: ElemId, i: int)
    requires
        a.wf(),
        b.wf(),
        0 <= i < 72,
    ensures
        spec_mul_index(ElemId(0), i) == i,
        spec_mul_index(a.spec_times(b), i) == spec_mul_index(a, spec_mul_index(b, i)),
{
    reveal(spec_mul_index);
    lemma_location(i);
    let v = location(i);
    lemma_vec_action_law(a, b, v);
    lemma_rotate_location(b, v, v);
    let w = b.spec_times_vec(v);
    lemma_location_of_index(w);
    lemma_mul_index(b, i, i);
    lemma_mul_wf(a, b);
}

/// Rotating by a rotation and then by its inverse leaves every piece in
/// place, and so does the other order.
pub proof fn lemma_index_inverse(e: ElemId, i: int)
    requires
        e.wf(),
        0 <= i < 72,
    ensures
        spec_mul_index(e.spec_inverse(), spec_mul_index(e, i)) == i,
        spec_mul_index(e, spec_mul_index(e.spec_inverse(), i)) == i,
{
    lemma_mul_inv(e);
    lemma_index_action_law(e.spec_inverse(), e, i);
    lemma_index_action_law(e, e.spec_inverse(), i);
}

/// Reorienting by a rotation and then by its inverse gives the state back.
pub proof fn lemma_reorient_round_trip(a: Seq<ElemId>, e: ElemId)
    requires
        attitudes_wf(a),
        e.wf(),
    ensures
        reoriented(reoriented(a, e), e.spec_inverse()) == a,
{
    let inv = e.spec_inverse();
    let b = reoriented(a, e);
    lemma_mul_inv(e);
    assert forall|k: int| 0 <= k < 72 implies #[trigger] reoriented(b, inv)[k] == a[k] by {
        lemma_index_inverse(e, k);
        let i = spec_mul_index(e, k);
        lemma_mul_index(e, k, k);
        assert(spec_mul_index(inv, i) == k);
        assert(reached_by(inv, k));
        let i2 = choose|i2: int| 0 <= i2 < 72 && spec_mul_index(inv, i2) == k;
        lemma_index_inverse(e, i2);
        assert(i2 == i);
        assert(reached_by(e, i));
        let k2 = choose|k2: int| 0 <= k2 < 72 && spec_mul_index(e, k2) == i;
        lemma_mul_index(e, k2, k);
        assert(k2 == k);
        assert(b[i] == e.spec_times(a[k]).spec_times(inv));
        lemma_group_cancel(e, a[k]);
    }
    assert(reoriented(b, inv) =~= a);
}

/// Conjugating by `e` and then by its inverse gives `x` back.
proof fn lemma_group_cancel(e: ElemId, x: ElemId)
    requires
        e.wf(),
        x.wf(),
    ensures
        e.spec_inverse().spec_times(e.spec_times(x).spec_times(e.spec_inverse())).spec_times(
            e.spec_inverse().spec_inverse(),
        ) == x,
{
    let inv = e.spec_inverse();
    lemma_mul_inv(e);
    lemma_mul_wf(e, x);
    crate::algebra::lemma_mul_assoc(e, x, inv);
    let ex = e.spec_times(x);
    lemma_mul_wf(inv, ex);
    crate::algebra::lemma_mul_assoc(inv, ex, inv);
    crate::algebra::lemma_mul_assoc(inv.spec_times(ex), inv, e);
    crate::algebra::lemma_mul_assoc(inv, e, x);
    lemma_mul_ident(x);
    lemma_mul_ident(inv.spec_times(ex));
}

/// The location a rotation carries piece `i` to is the rotated location.
pub proof fn lemma_location_moved(e: ElemId, i: int)
    requires
        e.wf(),
        0 <= i < 72,
    ensures
        location(spec_mul_index(e, i)) == e.spec_times_vec(location(i)),
{
    lemma_location(i);
    lemma_rotate_location(e, location(i), location(i));
    lemma_mul_index(e, i, i);
    lemma_location_of_index(e.spec_times_vec(location(i)));
}

/// A piece touches a grip exactly when, rotated, it touches the rotated
/// grip.
pub proof fn lemma_touches_rotated(e: ElemId, i: int, g: GripId)
    requires
        e.wf(),
        0 <= i < 72,
    ensures
        piece_touches(spec_mul_index(e, i), e.spec_times_grip(g)) == piece_touches(i, g),
{
    reveal(piece_touches);
    lemma_location_moved(e, i);
    lemma_location(i);
    lemma_grip_component(e, location(i), g);
    let h = e.spec_times_grip(g);
    let x = location(spec_mul_index(e, i)).at(h.spec_axis());
    let y = location(i).at(g.spec_axis());
    lemma_rotate_location(e, location(i), location(i));
    assert(-1 <= x <= 1 && -1 <= y <= 1);
    let sh = h.spec_signum();
    let sg = g.spec_signum();
    assert(x * sh == y * sg);
    assert((x == sh) == (y == sg)) by (nonlinear_arith)
        requires
            x * sh == y * sg,
            -1 <= x <= 1,
            -1 <= y <= 1,
            sh == 1 || sh == -1,
            sg == 1 || sg == -1,
    ;
}

/// The piece at `i` is solved exactly when, after reorienting by `e`, the
/// piece that lands at the image of `i` is.
proof fn lemma_reorient_piece_solved(a: Seq<ElemId>, e: ElemId, i: int)
    requires
        attitudes_wf(a),
        e.wf(),
        0 <= i < 72,
    ensures
        piece_solved(reoriented(a, e), spec_mul_index(e, i)) == piece_solved(a, i),
{
    let inv = e.spec_inverse();
    let k = spec_mul_index(e, i);
    let b = reoriented(a, e);
    lemma_mul_inv(e);
    lemma_mul_index(e, i, i);
    assert(reached_by(e, k));
    let i2 = choose|i2: int| 0 <= i2 < 72 && spec_mul_index(e, i2) == k;
    lemma_mul_index(e, i2, i);
    let x = a[i];
    lemma_mul_wf(e, x);
    assert(b[k] == e.spec_times(x).spec_times(inv));
    if piece_solved(a, i) {
        assert forall|g: GripId| #![trigger piece_touches(k, g)]
            piece_touches(k, g) implies b[k].spec_times_grip(g) == g by {
            let h = inv.spec_times_grip(g);
            lemma_grip_inverse(e, g);
            lemma_touches_rotated(e, i, h);
            lemma_grip_action_law(e.spec_times(x), inv, g);
            lemma_grip_action_law(e, x, h);
        }
    }
    if piece_solved(b, k) {
        assert forall|h: GripId| #![trigger piece_touches(i, h)]
            piece_touches(i, h) implies a[i].spec_times_grip(h) == h by {
            let g = e.spec_times_grip(h);
            lemma_touches_rotated(e, i, h);
            assert(piece_touches(k, g));
            lemma_grip_inverse(e, h);
            lemma_grip_action_law(e.spec_times(x), inv, g);
            lemma_grip_action_law(e, x, h);
            lemma_grip_inverse(e, x.spec_times_grip(h));
        }
    }
}

/// Reorienting leaves a state just as solved, or unsolved, as it was.
pub proof fn lemma_reorient_keeps_solved(a: Seq<ElemId>, e: ElemId)
    requires
        attitudes_wf(a),
        e.wf(),
    ensures
        all_solved(reoriented(a, e)) == all_solved(a),
{
    let b = reoriented(a, e);
    if all_solved(a) {
        assert forall|k: int| 0 <= k < 72 implies #[trigger] piece_solved(b, k) by {
            lemma_index_inverse(e, k);
            let i = spec_mul_index(e.spec_inverse(), k);
            lemma_mul_inv(e);
            lemma_mul_index(e.spec_inverse(), k, k);
            lemma_reorient_piece_solved(a, e, i);
            assert(piece_solved(a, i));
        }
    }
    if all_solved(b) {
        assert forall|i: int| 0 <= i < 72 implies #[trigger] piece_solved(a, i) by {
            lemma_mul_index(e, i, i);
            lemma_reorient_piece_solved(a, e, i);
            assert(piece_solved(b, spec_mul_index(e, i)));
        }
    }
}

/// A rotation that fixes a grip keeps the cell of that grip in place as a
/// whole.
pub proof fn lemma_cell_closed(e: ElemId, g: GripId, k: int)
    requires
        e.wf(),
        e.fixes_grip(g),
        in_cell(g, k),
    ensures
        0 <= k < 72,
        in_cell(g, spec_mul_index(e, k)),
{
    let o = choose|o: int| 0 <= o < 26 && cell_index(g, o) == k;
    lemma_cell_raw(g, o);
    lemma_in_cell_touches(g, k);
    lemma_touches_rotated(e, k, g);
    lemma_mul_index(e, k, k);
    lemma_in_cell_touches(g, spec_mul_index(e, k));
}

/// Twisting and then twisting back gives the state back.
pub proof fn lemma_twist_undo(a: Seq<ElemId>, t: Twist)
    requires
        attitudes_wf(a),
        t.turns_own_cell(),
    ensures
        attitudes_wf(twisted(a, t)),
        twisted(twisted(a, t), t.spec_inv()) == a,
{
    let g = t.grip;
    let e = t.transform;
    let ti = t.spec_inv();
    let ei = ti.transform;
    let b = twisted(a, t);
    lemma_mul_inv(e);
    lemma_grip_inverse(e, g);
    assert(ei.fixes_grip(g));
    lemma_twisted_wf(a, t);
    assert forall|k: int| 0 <= k < 72 implies #[trigger] twisted(b, ti)[k] == a[k] by {
        if in_cell(g, k) {
            let o0 = choose|o: int| 0 <= o < 26 && cell_index(g, o) == k;
            lemma_cell_closed(e, g, k);
            let m = spec_mul_index(e, k);
            let o1 = choose|o: int| 0 <= o < 26 && cell_index(g, o) == m;
            lemma_index_inverse(e, k);
            assert(twist_target(ti, o1) == k);
            assert(moved_to(ti, k));
            let o = choose|o: int| 0 <= o < 26 && twist_target(ti, o) == k;
            lemma_cell_raw(g, o);
            lemma_index_inverse(e, cell_index(g, o));
            assert(cell_index(g, o) == m);
            assert(twist_target(t, o0) == m);
            assert(moved_to(t, m));
            let op = choose|op: int| 0 <= op < 26 && twist_target(t, op) == m;
            lemma_cell_raw(g, op);
            lemma_mul_index(e, cell_index(g, op), k);
            assert(b[m] == e.spec_times(a[k]));
            crate::algebra::lemma_mul_assoc(ei, e, a[k]);
            lemma_mul_ident(a[k]);
        } else {
            if moved_to(ti, k) {
                let o = choose|o: int| 0 <= o < 26 && twist_target(ti, o) == k;
                lemma_cell_closed(ei, g, cell_index(g, o));
            }
            if moved_to(t, k) {
                let o = choose|o: int| 0 <= o < 26 && twist_target(t, o) == k;
                lemma_cell_closed(e, g, cell_index(g, o));
            }
        }
    }
    assert(twisted(b, ti) =~= a);
}

/// Twisting keeps every attitude a rotation.
pub proof fn lemma_twisted_wf(a: Seq<ElemId>, t: Twist)
    requires
        attitudes_wf(a),
        t.wf(),
    ensures
        attitudes_wf(twisted(a, t)),
{
    assert forall|k: int| 0 <= k < 72 implies (#[trigger] twisted(a, t)[k]).wf() by {
        if moved_to(t, k) {
            let o = choose|o: int| 0 <= o < 26 && twist_target(t, o) == k;
            lemma_cell_raw(t.grip, o);
            lemma_mul_wf(t.transform, a[cell_index(t.grip, o)]);
        }
    }
}

/// Applying two sequences of twists one after the other is applying their
/// concatenation.
pub proof fn lemma_applied_concat(a: Seq<ElemId>, s1: Seq<Twist>, s2: Seq<Twist>)
    ensures
        twists_applied(a, s1 + s2) == twists_applied(twists_applied(a, s1), s2),
    decreases s2.len(),
{
    if s2.len() == 0 {
        assert(s1 + s2 =~= s1);
    } else {
        assert((s1 + s2).drop_last() =~= s1 + s2.drop_last());
        lemma_applied_concat(a, s1, s2.drop_last());
    }
}

/// Applying twists keeps every attitude a rotation.
pub proof fn lemma_applied_wf(a: Seq<ElemId>, ts: Seq<Twist>)
    requires
        attitudes_wf(a),
        forall|k: int| 0 <= k < ts.len() ==> (#[trigger] ts[k]).wf(),
    ensures
        attitudes_wf(twists_applied(a, ts)),
    decreases ts.len(),
{
    if ts.len() > 0 {
        lemma_applied_wf(a, ts.drop_last());
        lemma_twisted_wf(twists_applied(a, ts.drop_last()), ts.last());
    }
}

/// Applying a sequence of twists and then its inverse gives the state back.
pub proof fn lemma_inverted_undoes(a: Seq<ElemId>, ts: Seq<Twist>)
    requires
        attitudes_wf(a),
        forall|k: int| 0 <= k < ts.len() ==> (#[trigger] ts[k]).turns_own_cell(),
    ensures
        twists_applied(twists_applied(a, ts), inverted(ts)) == a,
    decreases ts.len(),
{
    if ts.len() == 0 {
        assert(inverted(ts) =~= Seq::<Twist>::empty());
    } else {
        let rest = ts.drop_last();
        let t = ts.last();
        assert forall|k: int| 0 <= k < rest.len() implies (#[trigger] rest[k]).turns_own_cell() by {
            assert(rest[k] == ts[k]);
        }
        lemma_inverted_undoes(a, rest);
        assert forall|k: int| 0 <= k < rest.len() implies (#[trigger] rest[k]).wf() by {
            assert(rest[k].turns_own_cell());
        }
        lemma_applied_wf(a, rest);
        let mid = twists_applied(a, rest);
        assert(inverted(ts) =~= seq![t.spec_inv()] + inverted(rest));
        lemma_applied_concat(twists_applied(a, ts), seq![t.spec_inv()], inverted(rest));
        let one = seq![t.spec_inv()];
        assert(one.drop_last() =~= Seq::<Twist>::empty());
        let x = twists_applied(a, ts);
        assert(x == twisted(mid, t));
        assert(twists_applied(x, one.drop_last()) == x);
        assert(twists_applied(x, one) == twisted(x, t.spec_inv()));
        assert(twists_applied(twists_applied(a, ts), seq![t.spec_inv()]) == twisted(
            twisted(mid, t),
            t.spec_inv(),
        ));
        lemma_twist_undo(mid, t);
    }
}

/// The attitude at each location after reorienting: the piece that lands at
/// `k` came from the location that the inverse rotation sends `k` to, and is
/// conjugated.
pub proof fn lemma_reoriented_at(a: Seq<ElemId>, e: ElemId, k: int)
    requires
        attitudes_wf(a),
        e.wf(),
        0 <= k < 72,
    ensures
        reoriented(a, e)[k] == e.spec_times(a[spec_mul_index(e.spec_inverse(), k)]).spec_times(
            e.spec_inverse(),
        ),
{
    lemma_mul_inv(e);
    let i = spec_mul_index(e.spec_inverse(), k);
    lemma_index_inverse(e, k);
    lemma_mul_index(e.spec_inverse(), k, k);
    assert(reached_by(e, k));
    let i2 = choose|i2: int| 0 <= i2 < 72 && spec_mul_index(e, i2) == k;
    lemma_mul_index(e, i2, i);
}

/// The attitude at each location after a twist that turns its own cell:
/// inside the cell, the piece that lands at `k` came from where the inverse
/// rotation sends `k` and gains the rotation; outside, nothing moves.
pub proof fn lemma_twisted_at(a: Seq<ElemId>, t: Twist, k: int)
    requires
        t.turns_own_cell(),
        0 <= k < 72,
    ensures
        twisted(a, t)[k] == if in_cell(t.grip, k) {
            t.transform.spec_times(a[spec_mul_index(t.transform.spec_inverse(), k)])
        } else {
            a[k]
        },
{
    let g = t.grip;
    let e = t.transform;
    let ei = e.spec_inverse();
    lemma_mul_inv(e);
    lemma_grip_inverse(e, g);
    if in_cell(g, k) {
        let j = spec_mul_index(ei, k);
        lemma_cell_closed(ei, g, k);
        let o = choose|o: int| 0 <= o < 26 && cell_index(g, o) == j;
        lemma_index_inverse(e, k);
        assert(twist_target(t, o) == k);
        assert(moved_to(t, k));
        let o2 = choose|o2: int| 0 <= o2 < 26 && twist_target(t, o2) == k;
        lemma_cell_raw(g, o2);
        lemma_mul_index(ei, k, k);
        lemma_mul_index(e, cell_index(g, o2), j);
    } else if moved_to(t, k) {
        let o = choose|o: int| 0 <= o < 26 && twist_target(t, o) == k;
        lemma_cell_closed(e, g, cell_index(g, o));
    }
}

/// A twist seen after rotating the whole puzzle still turns its own cell.
pub proof fn lemma_transformed_twist(t: Twist, e: ElemId)
    requires
        t.turns_own_cell(),
        e.wf(),
    ensures
        t.spec_transform_by(e).turns_own_cell(),
{
    let u = t.spec_transform_by(e);
    lemma_mul_inv(e);
    lemma_mul_wf(e, t.transform);
    lemma_mul_wf(e.spec_times(t.transform), e.spec_inverse());
    lemma_grip_action_law(e.spec_times(t.transform), e.spec_inverse(), u.grip);
    lemma_grip_inverse(e, t.grip);
    lemma_grip_action_law(e, t.transform, t.grip);
}

/// Conjugating `t` by `e`, and `x` by `e`, then multiplying, is conjugating
/// the product `t * x`.
pub(crate) proof fn lemma_conjugate_product(e: ElemId, t: ElemId, x: ElemId)
    requires
        e.wf(),
        t.wf(),
        x.wf(),
    ensures
        e.spec_times(t).spec_times(e.spec_inverse()).spec_times(
            e.spec_times(x).spec_times(e.spec_inverse()),
        ) == e.spec_times(t.spec_times(x)).spec_times(e.spec_inverse()),
{
    let ei = e.spec_inverse();
    lemma_mul_inv(e);
    lemma_mul_wf(e, t);
    lemma_mul_wf(e, x);
    lemma_mul_wf(t, x);
    let et = e.spec_times(t);
    let ex = e.spec_times(x);
    lemma_mul_wf(et, ei);
    lemma_mul_wf(ex, ei);
    lemma_mul_wf(ei, ex);
    // (et ei)(ex ei) = et (ei (ex ei)) = et ((ei ex) ei)
    lemma_mul_assoc(et, ei, ex.spec_times(ei));
    lemma_mul_assoc(ei, ex, ei);
    // ei ex = ei (e x) = (ei e) x = x
    lemma_mul_assoc(ei, e, x);
    lemma_mul_ident(x);
    // et (x ei) = (et x) ei, and et x = (e t) x = e (t x)
    lemma_mul_assoc(et, x, ei);
    lemma_mul_assoc(e, t, x);
}

/// The conjugated rotation undoes to the conjugated inverse, and moves the
/// piece at `k` where the inverse rotation, the inverse twist and the
/// rotation move it in turn.
proof fn lemma_conjugate_inverse_index(tr: ElemId, e: ElemId, k: int)
    requires
        tr.wf(),
        e.wf(),
        0 <= k < 72,
    ensures
        spec_mul_index(e.spec_times(tr).spec_times(e.spec_inverse()).spec_inverse(), k)
            == spec_mul_index(
            e,
            spec_mul_index(tr.spec_inverse(), spec_mul_index(e.spec_inverse(), k)),
        ),
{
    let ei = e.spec_inverse();
    let ti = tr.spec_inverse();
    lemma_mul_inv(e);
    lemma_mul_inv(tr);
    lemma_mul_wf(e, tr);
    lemma_mul_wf(ti, ei);
    lemma_inverse_of_product(e.spec_times(tr), ei);
    lemma_inverse_of_product(e, tr);
    lemma_mul_assoc(e, ti, ei);
    lemma_index_action_law(e, ti.spec_times(ei), k);
    lemma_index_action_law(ti, ei, k);
}

/// The two sides of the commutation agree at location `k`.
proof fn lemma_reorient_twist_at(a: Seq<ElemId>, t: Twist, e: ElemId, k: int)
    requires
        attitudes_wf(a),
        t.turns_own_cell(),
        e.wf(),
        0 <= k < 72,
    ensures
        reoriented(twisted(a, t), e)[k] == twisted(reoriented(a, e), t.spec_transform_by(e))[k],
{
    let g = t.grip;
    let tr = t.transform;
    let ei = e.spec_inverse();
    let u = t.spec_transform_by(e);
    let b = twisted(a, t);
    let r = reoriented(a, e);
    lemma_mul_inv(e);
    lemma_mul_inv(tr);
    lemma_twisted_wf(a, t);
    lemma_transformed_twist(t, e);
    let i = spec_mul_index(ei, k);
    lemma_mul_index(ei, k, k);
    lemma_index_inverse(e, k);
    lemma_reoriented_at(b, e, k);
    lemma_twisted_at(a, t, i);
    lemma_twisted_at(r, u, k);
    lemma_reoriented_at(a, e, k);
    lemma_in_cell_touches(g, i);
    lemma_in_cell_touches(u.grip, k);
    lemma_touches_rotated(e, i, g);
    if in_cell(g, i) {
        let j = spec_mul_index(tr.spec_inverse(), i);
        lemma_mul_index(tr.spec_inverse(), i, i);
        lemma_conjugate_inverse_index(tr, e, k);
        let m = spec_mul_index(u.transform.spec_inverse(), k);
        assert(m == spec_mul_index(e, j));
        lemma_index_inverse(e, j);
        lemma_mul_index(e, j, j);
        lemma_reoriented_at(a, e, m);
        lemma_conjugate_product(e, tr, a[j]);
    }
}

/// Rotating the whole puzzle after a twist is the same as rotating first and
/// then making the twist as seen in the rotated puzzle.
pub proof fn lemma_reorient_twist(a: Seq<ElemId>, t: Twist, e: ElemId)
    requires
        attitudes_wf(a),
        t.turns_own_cell(),
        e.wf(),
    ensures
        reoriented(twisted(a, t), e) == twisted(reoriented(a, e), t.spec_transform_by(e)),
{
    assert forall|k: int| 0 <= k < 72 implies #[trigger] reoriented(twisted(a, t), e)[k]
        == twisted(reoriented(a, e), t.spec_transform_by(e))[k] by {
        lemma_reorient_twist_at(a, t, e, k);
    }
    assert(reoriented(twisted(a, t), e) =~= twisted(reoriented(a, e), t.spec_transform_by(e)));
}

/// Each twist of `ts` as seen after rotating the whole puzzle by `e`.
pub open spec fn transformed_twists(ts: Seq<Twist>, e: ElemId) -> Seq<Twist> {
    Seq::new(ts.len(), |k: int| ts[k].spec_transform_by(e))
}

/// Rotating the whole puzzle after a sequence of twists is the same as
/// rotating first and then making the twists as seen in the rotated puzzle.
pub proof fn lemma_reorient_twists(a: Seq<ElemId>, ts: Seq<Twist>, e: ElemId)
    requires
        attitudes_wf(a),
        forall|k: int| 0 <= k < ts.len() ==> (#[trigger] ts[k]).turns_own_cell(),
        e.wf(),
    ensures
        reoriented(twists_applied(a, ts), e) == twists_applied(
            reoriented(a, e),
            transformed_twists(ts, e),
        ),
    decreases ts.len(),
{
    if ts.len() == 0 {
        assert(transformed_twists(ts, e).len() == 0);
    } else {
        let rest = ts.drop_last();
        assert forall|k: int| 0 <= k < rest.len() implies (#[trigger] rest[k]).turns_own_cell() by {
            assert(rest[k] == ts[k]);
        }
        assert forall|k: int| 0 <= k < rest.len() implies (#[trigger] rest[k]).wf() by {
            assert(rest[k].turns_own_cell());
        }
        lemma_reorient_twists(a, rest, e);
        lemma_applied_wf(a, rest);
        lemma_reorient_twist(twists_applied(a, rest), ts.last(), e);
        assert(transformed_twists(ts, e).drop_last() =~= transformed_twists(rest, e));
    }
}

/// The location that the piece at `i` belongs in: where the inverse of its
/// attitude carries it.
pub open spec fn home_of(a: Seq<ElemId>, i: int) -> int {
    spec_mul_index(a[i].spec_inverse(), i)
}

/// No two pieces belong in the same location.
pub open spec fn homes_distinct(a: Seq<ElemId>) -> bool {
    forall|i: int, j: int|
        0 <= i < 72 && 0 <= j < 72 && i != j ==> #[trigger] home_of(a, i) != #[trigger] home_of(
            a,
            j,
        )
}

/// The identity is its own inverse.
pub proof fn lemma_ident_inverse()
    ensures
        ElemId(0).spec_inverse() == ElemId(0),
{
    lemma_mul_ident(ElemId(0));
    crate::algebra::lemma_inverse_unique(ElemId(0), ElemId(0));
}

/// In the solved state every piece is at home.
pub proof fn lemma_solved_homes(i: int)
    requires
        0 <= i < 72,
    ensures
        home_of(Seq::new(72, |k: int| ElemId(0)), i) == i,
{
    lemma_ident_inverse();
    lemma_index_action_law(ElemId(0), ElemId(0), i);
}

/// After a twist that turns its own cell, the piece at `k` is the one that
/// was at the location the inverse rotation sends `k` to, if `k` is in the
/// cell, and the same piece otherwise.
pub proof fn lemma_twisted_home(a: Seq<ElemId>, t: Twist, k: int)
    requires
        attitudes_wf(a),
        t.turns_own_cell(),
        0 <= k < 72,
    ensures
        home_of(twisted(a, t), k) == home_of(
            a,
            if in_cell(t.grip, k) {
                spec_mul_index(t.transform.spec_inverse(), k)
            } else {
                k
            },
        ),
{
    lemma_twisted_at(a, t, k);
    if in_cell(t.grip, k) {
        let tr = t.transform;
        let ti = tr.spec_inverse();
        lemma_mul_inv(tr);
        let j = spec_mul_index(ti, k);
        lemma_mul_index(ti, k, k);
        let x = a[j];
        lemma_mul_inv(x);
        lemma_inverse_of_product(tr, x);
        lemma_index_action_law(x.spec_inverse(), ti, k);
    }
}

/// A twist that turns its own cell keeps every piece's home distinct.
pub proof fn lemma_twisted_homes_distinct(a: Seq<ElemId>, t: Twist)
    requires
        attitudes_wf(a),
        homes_distinct(a),
        t.turns_own_cell(),
    ensures
        homes_distinct(twisted(a, t)),
{
    let g = t.grip;
    let ti = t.transform.spec_inverse();
    lemma_mul_inv(t.transform);
    lemma_grip_inverse(t.transform, g);
    let b = twisted(a, t);
    assert forall|i: int, j: int|
        0 <= i < 72 && 0 <= j < 72 && i != j implies #[trigger] home_of(b, i) != #[trigger] home_of(
        b,
        j,
    ) by {
        lemma_twisted_home(a, t, i);
        lemma_twisted_home(a, t, j);
        let si = if in_cell(g, i) {
            spec_mul_index(ti, i)
        } else {
            i
        };
        let sj = if in_cell(g, j) {
            spec_mul_index(ti, j)
        } else {
            j
        };
        lemma_mul_index(ti, i, j);
        lemma_mul_index(ti, j, i);
        if in_cell(g, i) {
            lemma_cell_closed(ti, g, i);
        }
        if in_cell(g, j) {
            lemma_cell_closed(ti, g, j);
        }
        assert(si != sj);
        assert(0 <= si < 72 && 0 <= sj < 72);
    }
}

/// Applying twists that turn their own cells keeps every piece's home
/// distinct.
pub proof fn lemma_applied_homes_distinct(a: Seq<ElemId>, ts: Seq<Twist>)
    requires
        attitudes_wf(a),
        homes_distinct(a),
        forall|k: int| 0 <= k < ts.len() ==> (#[trigger] ts[k]).turns_own_cell(),
    ensures
        homes_distinct(twists_applied(a, ts)),
    decreases ts.len(),
{
    if ts.len() > 0 {
        let rest = ts.drop_last();
        assert forall|k: int| 0 <= k < rest.len() implies (#[trigger] rest[k]).turns_own_cell() by {
            assert(rest[k] == ts[k]);
        }
        assert forall|k: int| 0 <= k < rest.len() implies (#[trigger] rest[k]).wf() by {
            assert(rest[k].turns_own_cell());
        }
        lemma_applied_homes_distinct(a, rest);
        lemma_applied_wf(a, rest);
        lemma_twisted_homes_distinct(twists_applied(a, rest), ts.last());
    }
}

/// In every state reached from solved by twists, no two pieces belong in the
/// same location.
pub proof fn lemma_reachable_homes_distinct(ts: Seq<Twist>)
    requires
        forall|k: int| 0 <= k < ts.len() ==> (#[trigger] ts[k]).turns_own_cell(),
    ensures
        homes_distinct(twists_applied(Seq::new(72, |k: int| ElemId(0)), ts)),
{
    let s = Seq::new(72, |k: int| ElemId(0));
    assert forall|i: int, j: int|
        0 <= i < 72 && 0 <= j < 72 && i != j implies #[trigger] home_of(s, i) != #[trigger] home_of(
        s,
        j,
    ) by {
        lemma_solved_homes(i);
        lemma_solved_homes(j);
    }
    lemma_applied_homes_distinct(s, ts);
}

/// The grip along axis `axis` on the side of sign `c`.
spec fn grip_along(axis: int, c: int) -> GripId {
    grip_of(2 * axis + if c < 0 {
        1int
    } else {
        0int
    })
}

proof fn lemma_grip_along(axis: int, c: int)
    requires
        0 <= axis < 4,
        c == 1 || c == -1,
    ensures
        grip_along(axis, c).spec_axis() == axis,
        grip_along(axis, c).spec_signum() == c,
{
    GripId::lemma_of_id(
        2 * axis + if c < 0 {
            1int
        } else {
            0int
        },
    );
}

/// A rotation that fixes every grip a piece touches leaves the piece where
/// it is.
proof fn lemma_fixing_rotation_keeps_piece(e: ElemId, h: int)
    requires
        e.wf(),
        0 <= h < 72,
        forall|g: GripId| #![trigger piece_touches(h, g)] piece_touches(h, g) ==> e.spec_times_grip(g) == g,
    ensures
        spec_mul_index(e, h) == h,
{
    reveal(piece_touches);
    let k = spec_mul_index(e, h);
    lemma_mul_index(e, h, h);
    lemma_location_moved(e, h);
    lemma_location(h);
    lemma_location(k);
    lemma_rotate_location(e, location(h), location(h));
    let v = location(h);
    let w = location(k);
    assert forall|axis: int| 0 <= axis < 4 && v.at(axis) != 0 implies w.at(axis) == v.at(axis) by {
        let c = v.at(axis);
        lemma_grip_along(axis, c);
        let g = grip_along(axis, c);
        assert(piece_touches(h, g));
        lemma_touches_rotated(e, h, g);
    }
    assert(v.at(0) != 0 ==> w.at(0) == v.at(0));
    assert(v.at(1) != 0 ==> w.at(1) == v.at(1));
    assert(v.at(2) != 0 ==> w.at(2) == v.at(2));
    assert(v.at(3) != 0 ==> w.at(3) == v.at(3));
    assert(w == v);
}

/// A solved piece is at home.
pub proof fn lemma_solved_piece_home(a: Seq<ElemId>, h: int)
    requires
        attitudes_wf(a),
        0 <= h < 72,
        piece_solved(a, h),
    ensures
        home_of(a, h) == h,
{
    let x = a[h];
    lemma_mul_inv(x);
    assert forall|g: GripId| #![trigger piece_touches(h, g)] piece_touches(h, g) implies x.spec_inverse().spec_times_grip(g) == g by {
        lemma_grip_inverse(x, g);
    }
    lemma_fixing_rotation_keeps_piece(x.spec_inverse(), h);
}

/// The identity looks like `a` at location `i` exactly when `a` fixes every
/// grip the piece at `i` touches.
proof fn lemma_looks_like_identity(i: int, a: ElemId)
    requires
        a.wf(),
    ensures
        looks_same(i, ElemId(0), a) <==> forall|g: GripId|
            #![trigger piece_touches(i, g)]
            piece_touches(i, g) ==> a.spec_times_grip(g) == g,
{
    reveal(looks_same);
    lemma_ident_inverse();
    lemma_mul_inv(a);
    if looks_same(i, ElemId(0), a) {
        assert forall|g: GripId| #![trigger piece_touches(i, g)] piece_touches(i, g) implies a.spec_times_grip(g) == g by {
            lemma_grip_action_law(ElemId(0), ElemId(0), g);
            lemma_grip_inverse(a, g);
        }
    }
    if forall|g: GripId| #![trigger piece_touches(i, g)] piece_touches(i, g) ==> a.spec_times_grip(g) == g {
        assert forall|g: GripId| #![trigger piece_touches(i, g)] piece_touches(i, g) implies ElemId(0).spec_inverse().spec_times_grip(g) == a.spec_inverse().spec_times_grip(g) by {
            lemma_grip_action_law(ElemId(0), ElemId(0), g);
            lemma_grip_inverse(a, g);
        }
    }
}

/// The canonical attitude of an attitude that looks like the identity is
/// the identity.
proof fn lemma_canonical_identity(i: int, a: ElemId, c: ElemId)
    requires
        is_canonical_attitude(i, a, c),
        looks_same(i, ElemId(0), a),
    ensures
        c == ElemId(0),
{
    if c.0 > 0 {
        assert(!looks_same(i, ElemId(0u8), a));
    }
}

/// Where a piece touches the rotated grip, the piece that belongs there
/// touches the grip.
proof fn lemma_belongs_home(a: Seq<ElemId>, i: int, g: GripId)
    requires
        attitudes_wf(a),
        0 <= i < 72,
    ensures
        belongs_to_cell(a, i, g) == piece_touches(home_of(a, i), g),
{
    let x = a[i];
    lemma_mul_inv(x);
    let h = home_of(a, i);
    lemma_mul_index(x.spec_inverse(), i, i);
    lemma_touches_rotated(x, h, g);
    lemma_index_inverse(x.spec_inverse(), i);
}

/// Two states agree on their F2L keys exactly when the first has F2L
/// intact, provided no two of its pieces belong in the same location (as in
/// every state that twists reach from solved).
pub proof fn lemma_f2l_key_law(
    a: Seq<ElemId>,
    last_cell: GripId,
    key: Seq<u8>,
    solved_key: Seq<u8>,
)
    requires
        attitudes_wf(a),
        homes_distinct(a),
        is_f2l_key(a, last_cell, key),
        is_f2l_key(Seq::new(72, |k: int| ElemId(0)), last_cell, solved_key),
    ensures
        (key == solved_key) == f2l_solved(a, last_cell),
{
    let s = Seq::new(72, |k: int| ElemId(0));
    assert forall|i: int| 0 <= i < 72 implies #[trigger] solved_key[i] == (if in_cell(last_cell, i) {
        255u8
    } else {
        0u8
    }) by {
        lemma_grip_action_law(ElemId(0), ElemId(0), last_cell);
        lemma_in_cell_touches(last_cell, i);
        if !belongs_to_cell(s, i, last_cell) {
            lemma_looks_like_identity(i, ElemId(0));
            lemma_mul_ident(ElemId(0));
            assert forall|g: GripId| #![trigger piece_touches(i, g)] piece_touches(i, g) implies ElemId(0).spec_times_grip(g) == g by {
                lemma_grip_action_law(ElemId(0), ElemId(0), g);
            }
            lemma_canonical_identity(i, ElemId(0), ElemId(solved_key[i]));
        }
    }
    if f2l_solved(a, last_cell) {
        assert forall|i: int| 0 <= i < 72 implies #[trigger] key[i] == solved_key[i] by {
            lemma_in_cell_touches(last_cell, i);
            lemma_belongs_home(a, i, last_cell);
            let h = home_of(a, i);
            lemma_mul_inv(a[i]);
            lemma_mul_index(a[i].spec_inverse(), i, i);
            if in_cell(last_cell, i) {
                lemma_in_cell_touches(last_cell, h);
                if !in_cell(last_cell, h) {
                    assert(piece_solved(a, h));
                    lemma_solved_piece_home(a, h);
                    assert(home_of(a, h) == h);
                    assert(false);
                }
            } else {
                assert(piece_solved(a, i));
                lemma_solved_piece_home(a, i);
                assert(!piece_touches(i, last_cell));
                lemma_looks_like_identity(i, a[i]);
                if belongs_to_cell(a, i, last_cell) {
                    assert(false);
                }
                lemma_canonical_identity(i, a[i], ElemId(key[i]));
            }
        }
        assert(key =~= solved_key);
    }
    if key == solved_key {
        assert forall|i: int| 0 <= i < 72 implies in_cell(last_cell, i) || #[trigger] piece_solved(a, i) by {
            if !in_cell(last_cell, i) {
                assert(key[i] == 0);
                assert(!belongs_to_cell(a, i, last_cell));
                lemma_looks_like_identity(i, a[i]);
                reveal(looks_same);
            }
        }
    }
}

/// In every state that twists reach from solved, the F2L key agrees with
/// the solved one exactly when F2L is intact.
pub proof fn lemma_reachable_f2l_key_law(
    ts: Seq<Twist>,
    last_cell: GripId,
    key: Seq<u8>,
    solved_key: Seq<u8>,
)
    requires
        forall|k: int| 0 <= k < ts.len() ==> (#[trigger] ts[k]).turns_own_cell(),
        is_f2l_key(twists_applied(Seq::new(72, |k: int| ElemId(0)), ts), last_cell, key),
        is_f2l_key(Seq::new(72, |k: int| ElemId(0)), last_cell, solved_key),
    ensures
        (key == solved_key) == f2l_solved(
            twists_applied(Seq::new(72, |k: int| ElemId(0)), ts),
            last_cell,
        ),
{
    let s = Seq::new(72, |k: int| ElemId(0));
    lemma_reachable_homes_distinct(ts);
    assert forall|k: int| 0 <= k < ts.len() implies (#[trigger] ts[k]).wf() by {
        assert(ts[k].turns_own_cell());
    }
    lemma_mul_ident(ElemId(0));
    lemma_applied_wf(s, ts);
    lemma_f2l_key_law(twists_applied(s, ts), last_cell, key, solved_key);
}

/// Reorienting carries an intact F2L for one cell to an intact F2L for the
/// rotated cell.
pub proof fn lemma_reorient_f2l(a: Seq<ElemId>, e: ElemId, g: GripId)
    requires
        attitudes_wf(a),
        e.wf(),
        f2l_solved(a, g),
    ensures
        f2l_solved(reoriented(a, e), e.spec_times_grip(g)),
{
    let r = reoriented(a, e);
    assert forall|k: int| 0 <= k < 72 implies in_cell(e.spec_times_grip(g), k)
        || #[trigger] piece_solved(r, k) by {
        lemma_index_inverse(e, k);
        lemma_mul_inv(e);
        let i = spec_mul_index(e.spec_inverse(), k);
        lemma_mul_index(e.spec_inverse(), k, k);
        lemma_reorient_piece_solved(a, e, i);
        if in_cell(g, i) {
            lemma_in_cell_touches(g, i);
            lemma_touches_rotated(e, i, g);
            lemma_in_cell_touches(e.spec_times_grip(g), k);
        } else {
            assert(piece_solved(a, i));
        }
    }
}


/// Canonical attitudes survive being carried by a rotation: if `c` is the
/// canonical attitude of `a` at location `i`, then at the location `e`
/// carries `i` to, `e * a` and `e * c` have one canonical attitude (`x` and
/// `y` are theirs).
pub proof fn lemma_canonical_commutes_with_rotation(
    i: int,
    a: ElemId,
    c: ElemId,
    e: ElemId,
    x: ElemId,
    y: ElemId,
)
    requires
        0 <= i < 72,
        a.wf(),
        e.wf(),
        crate::puzzle_state::is_canonical_attitude(i, a, c),
        crate::puzzle_state::is_canonical_attitude(crate::locations::spec_mul_index(e, i), e.spec_times(a), x),
        crate::puzzle_state::is_canonical_attitude(crate::locations::spec_mul_index(e, i), e.spec_times(c), y),
    ensures
        x == y,
{
    reveal(crate::puzzle_state::looks_same);
    let j = crate::locations::spec_mul_index(e, i);
    let ea = e.spec_times(a);
    let ec = e.spec_times(c);
    crate::algebra::lemma_inverse_of_product(e, a);
    crate::algebra::lemma_inverse_of_product(e, c);
    crate::algebra::lemma_mul_inv(e);
    crate::algebra::lemma_mul_inv(a);
    crate::algebra::lemma_mul_inv(c);
    assert forall|h: GripId| #![trigger crate::locations::piece_touches(j, h)] crate::locations::piece_touches(j, h)
        implies ec.spec_inverse().spec_times_grip(h) == ea.spec_inverse().spec_times_grip(h) by {
        let g = e.spec_inverse().spec_times_grip(h);
        crate::algebra::lemma_grip_inverse(e, h);
        lemma_touches_rotated(e, i, g);
        assert(crate::locations::piece_touches(i, g));
        assert(c.spec_inverse().spec_times_grip(g) == a.spec_inverse().spec_times_grip(g));
        crate::algebra::lemma_grip_action_law(c.spec_inverse(), e.spec_inverse(), h);
        crate::algebra::lemma_grip_action_law(a.spec_inverse(), e.spec_inverse(), h);
    }
    assert(crate::puzzle_state::looks_same(j, ec, ea));
    crate::replay::lemma_same_canonical(j, ec, ea, y, x);
}

} // verus!
