//! The 72 piece locations of the 3x3x3x3 and how rotations move them.
//!
//! A location is a vector whose coordinates are each -1, 0 or 1. Reading the
//! coordinates plus one as base-3 digits, X lowest, numbers the 81 vectors
//! from 0 to 80 (the raw index). Nine of them hold no movable piece: the core
//! and the eight cell centres, the vectors with at most one nonzero
//! coordinate. Skipping those numbers the 72 piece locations.
use vstd::prelude::*;

use crate::elements::{
    elem_perm, elem_signs, field, is_perm, lemma_elem, preimage, rotate_vec, ElemId,
};
use crate::grips::{hypercube_grips, GripId, HYPERCUBE_GRIPS};
use crate::space::Vec4;

verus! {

/// Raw indices of the core and the eight cell centres.
pub open spec fn excluded(r: int) -> bool {
    r == 13 || r == 31 || r == 37 || r == 39 || r == 40 || r == 41 || r == 43 || r == 49 || r
        == 67
}

pub open spec fn ind(b: bool) -> int {
    if b {
        1
    } else {
        0
    }
}

/// Number of excluded raw indices below `r`.
#[verifier::opaque]
pub open spec fn excluded_below(r: int) -> int {
    ind(13 < r) + ind(31 < r) + ind(37 < r) + ind(39 < r) + ind(40 < r) + ind(41 < r) + ind(43 < r)
        + ind(49 < r) + ind(67 < r)
}

/// Piece index of raw index `r`, or `None` for the core and the centres.
pub open spec fn spec_adjust(r: int) -> Option<u8> {
    if excluded(r) {
        None
    } else {
        Some((r - excluded_below(r)) as u8)
    }
}

/// Raw index of piece index `i`.
#[verifier::opaque]
pub open spec fn unadjust(i: int) -> int {
    let r0 = i;
    let r1 = if r0 >= 13 {
        r0 + 1
    } else {
        r0
    };
    let r2 = if r1 >= 31 {
        r1 + 1
    } else {
        r1
    };
    let r3 = if r2 >= 37 {
        r2 + 1
    } else {
        r2
    };
    let r4 = if r3 >= 39 {
        r3 + 1
    } else {
        r3
    };
    let r5 = if r4 >= 40 {
        r4 + 1
    } else {
        r4
    };
    let r6 = if r5 >= 41 {
        r5 + 1
    } else {
        r5
    };
    let r7 = if r6 >= 43 {
        r6 + 1
    } else {
        r6
    };
    let r8 = if r7 >= 49 {
        r7 + 1
    } else {
        r7
    };
    if r8 >= 67 {
        r8 + 1
    } else {
        r8
    }
}

/// Raw index of a location vector.
pub open spec fn raw_of(v: Vec4) -> int {
    (v.x + 1) + 3 * (v.y + 1) + 9 * (v.z + 1) + 27 * (v.w + 1)
}

/// The location vector with raw index `r`.
pub open spec fn location_of_raw(r: int) -> Vec4 {
    Vec4 {
        x: (r % 3 - 1) as i8,
        y: ((r / 3) % 3 - 1) as i8,
        z: ((r / 9) % 3 - 1) as i8,
        w: ((r / 27) % 3 - 1) as i8,
    }
}

/// The location vector of piece index `i`.
pub open spec fn location(i: int) -> Vec4 {
    location_of_raw(unadjust(i))
}

/// Piece index of a location vector, or `None` for the core and centres.
pub open spec fn index_of(v: Vec4) -> Option<u8> {
    spec_adjust(raw_of(v))
}

/// Number of nonzero coordinates.
pub open spec fn nonzeros(v: Vec4) -> int {
    ind(v.x != 0) + ind(v.y != 0) + ind(v.z != 0) + ind(v.w != 0)
}

/// Where rotation `e` carries the piece at index `i`.
#[verifier::opaque]
pub open spec fn spec_mul_index(e: ElemId, i: int) -> int {
    match index_of(e.spec_times_vec(location(i))) {
        Some(k) => k as int,
        None => 0,
    }
}

proof fn lemma_unadjust_u8(i: u8)
    by (bit_vector)
    requires
        i < 72,
    ensures
        unadjust(i as int) < 81,
        !excluded(unadjust(i as int)),
        unadjust(i as int) - excluded_below(unadjust(i as int)) == i,
{
}

/// Piece indices and raw indices correspond.
pub proof fn lemma_unadjust(i: int)
    requires
        0 <= i < 72,
    ensures
        0 <= unadjust(i) < 81,
        spec_adjust(unadjust(i)) == Some(i as u8),
{
    reveal(excluded_below);
    reveal(unadjust);
    lemma_unadjust_u8(i as u8);
}

proof fn lemma_adjust_u8(r: u8, s: u8)
    by (bit_vector)
    requires
        r < 81,
        s < 81,
        !excluded(r as int),
        !excluded(s as int),
    ensures
        r - excluded_below(r as int) < 72,
        r - excluded_below(r as int) == s - excluded_below(s as int) ==> r == s,
{
}

/// Distinct raw indices of pieces have distinct piece indices, all below 72.
pub proof fn lemma_adjust(r: int, s: int)
    requires
        0 <= r < 81,
        0 <= s < 81,
        !excluded(r),
        !excluded(s),
    ensures
        spec_adjust(r) matches Some(k) && k < 72,
        spec_adjust(r) == spec_adjust(s) ==> r == s,
{
    reveal(excluded_below);
    lemma_adjust_u8(r as u8, s as u8);
}

proof fn lemma_excluded_u8(r: u8)
    by (bit_vector)
    requires
        r < 81,
    ensures
        excluded(r as int) <==> (ind(r % 3 != 1) + ind((r / 3) % 3 != 1) + ind((r / 9) % 3 != 1)
            + ind((r / 27) % 3 != 1)) <= 1,
{
}

/// Location vectors and raw indices correspond, and the core and centres are
/// the vectors with at most one nonzero coordinate.
pub proof fn lemma_raw(r: int)
    requires
        0 <= r < 81,
    ensures
        raw_of(location_of_raw(r)) == r,
        location_of_raw(r).bounded(-1, 1),
        excluded(r) <==> nonzeros(location_of_raw(r)) <= 1,
{
    lemma_excluded_u8(r as u8);
}

pub proof fn lemma_raw_of(v: Vec4)
    requires
        v.bounded(-1, 1),
    ensures
        0 <= raw_of(v) < 81,
        location_of_raw(raw_of(v)) == v,
{
    let r = raw_of(v);
    assert(r % 3 == v.x + 1);
    assert((r / 3) % 3 == v.y + 1);
    assert((r / 9) % 3 == v.z + 1);
    assert((r / 27) % 3 == v.w + 1);
}

proof fn lemma_preimage_u8(p: u8)
    by (bit_vector)
    requires
        is_perm(p),
    ensures
        preimage(p, field(p, 0)) == 0,
        preimage(p, field(p, 1)) == 1,
        preimage(p, field(p, 2)) == 2,
        preimage(p, field(p, 3)) == 3,
        field(p, 0) < 4,
        field(p, 1) < 4,
        field(p, 2) < 4,
        field(p, 3) < 4,
        preimage(p, 0) != preimage(p, 1),
        preimage(p, 0) != preimage(p, 2),
        preimage(p, 0) != preimage(p, 3),
        preimage(p, 1) != preimage(p, 2),
        preimage(p, 1) != preimage(p, 3),
        preimage(p, 2) != preimage(p, 3),
{
}

proof fn lemma_rotate_vec_injective(p: u8, s: u8, v: Vec4, u: Vec4)
    requires
        is_perm(p),
        rotate_vec(p, s, v) == rotate_vec(p, s, u),
        v.bounded(-1, 1),
        u.bounded(-1, 1),
    ensures
        v == u,
{
    lemma_preimage_u8(p);
    let a = rotate_vec(p, s, v);
    let b = rotate_vec(p, s, u);
    assert forall|j: u8| j < 4 implies v.at(j as int) == u.at(j as int) by {
        let k = field(p, j);
        assert(preimage(p, k) == j);
        if k == 0 {
            assert(a.x == b.x);
        } else if k == 1 {
            assert(a.y == b.y);
        } else if k == 2 {
            assert(a.z == b.z);
        } else {
            assert(a.w == b.w);
        }
    }
    assert(v.at(0) == u.at(0));
    assert(v.at(1) == u.at(1));
    assert(v.at(2) == u.at(2));
    assert(v.at(3) == u.at(3));
}

proof fn lemma_sum_perm(q0: int, q1: int, q2: int, q3: int, t: Seq<int>)
    requires
        0 <= q0 < 4,
        0 <= q1 < 4,
        0 <= q2 < 4,
        0 <= q3 < 4,
        q0 != q1,
        q0 != q2,
        q0 != q3,
        q1 != q2,
        q1 != q3,
        q2 != q3,
        t.len() == 4,
    ensures
        t[q0] + t[q1] + t[q2] + t[q3] == t[0] + t[1] + t[2] + t[3],
{
}

proof fn lemma_rotate_vec_nonzeros(p: u8, s: u8, v: Vec4)
    requires
        is_perm(p),
        v.bounded(-1, 1),
    ensures
        nonzeros(rotate_vec(p, s, v)) == nonzeros(v),
        rotate_vec(p, s, v).bounded(-1, 1),
{
    lemma_preimage_u8(p);
    let t = seq![ind(v.x != 0), ind(v.y != 0), ind(v.z != 0), ind(v.w != 0)];
    let q0 = preimage(p, 0) as int;
    let q1 = preimage(p, 1) as int;
    let q2 = preimage(p, 2) as int;
    let q3 = preimage(p, 3) as int;
    assert(0 <= q0 < 4 && 0 <= q1 < 4 && 0 <= q2 < 4 && 0 <= q3 < 4);
    lemma_sum_perm(q0, q1, q2, q3, t);
    let a = rotate_vec(p, s, v);
    assert(ind(a.x != 0) == t[q0]);
    assert(ind(a.y != 0) == t[q1]);
    assert(ind(a.z != 0) == t[q2]);
    assert(ind(a.w != 0) == t[q3]);
}

/// A rotation keeps locations inside the grid, keeps the number of nonzero
/// coordinates, and sends distinct locations to distinct locations.
pub proof fn lemma_rotate_location(e: ElemId, v: Vec4, u: Vec4)
    requires
        e.wf(),
        v.bounded(-1, 1),
        u.bounded(-1, 1),
    ensures
        e.spec_times_vec(v).bounded(-1, 1),
        nonzeros(e.spec_times_vec(v)) == nonzeros(v),
        e.spec_times_vec(v) == e.spec_times_vec(u) ==> v == u,
{
    lemma_elem(e.0);
    lemma_rotate_vec_nonzeros(elem_perm(e.0), elem_signs(e.0), v);
    if e.spec_times_vec(v) == e.spec_times_vec(u) {
        lemma_rotate_vec_injective(elem_perm(e.0), elem_signs(e.0), v, u);
    }
}

/// A rotation sends piece indices to piece indices, distinct ones to
/// distinct ones.
pub proof fn lemma_mul_index(e: ElemId, i: int, j: int)
    requires
        e.wf(),
        0 <= i < 72,
        0 <= j < 72,
    ensures
        0 <= spec_mul_index(e, i) < 72,
        index_of(e.spec_times_vec(location(i))) == Some(spec_mul_index(e, i) as u8),
        spec_mul_index(e, i) == spec_mul_index(e, j) ==> i == j,
{
    reveal(spec_mul_index);
    lemma_location(i);
    lemma_location(j);
    let v = location(i);
    let u = location(j);
    lemma_rotate_location(e, v, u);
    lemma_rotate_location(e, u, v);
    let a = e.spec_times_vec(v);
    let b = e.spec_times_vec(u);
    lemma_index_of(a, b);
    if spec_mul_index(e, i) == spec_mul_index(e, j) {
        assert(a == b);
        assert(v == u);
    }
}

/// The location of a piece index is a piece location, and tells the indices
/// apart.
pub proof fn lemma_location(i: int)
    requires
        0 <= i < 72,
    ensures
        location(i).bounded(-1, 1),
        nonzeros(location(i)) >= 2,
        index_of(location(i)) == Some(i as u8),
        forall|j: int| 0 <= j < 72 && location(i) == location(j) ==> i == j,
{
    lemma_unadjust(i);
    lemma_raw(unadjust(i));
    assert forall|j: int| 0 <= j < 72 && location(i) == location(j) implies i == j by {
        lemma_unadjust(j);
        lemma_raw(unadjust(j));
    }
}

/// Piece locations have piece indices, distinct ones distinct indices.
pub proof fn lemma_index_of(a: Vec4, b: Vec4)
    requires
        a.bounded(-1, 1),
        b.bounded(-1, 1),
        nonzeros(a) >= 2,
        nonzeros(b) >= 2,
    ensures
        index_of(a) matches Some(k) && k < 72,
        index_of(a) == index_of(b) ==> a == b,
{
    lemma_raw_of(a);
    lemma_raw_of(b);
    lemma_raw(raw_of(a));
    lemma_raw(raw_of(b));
    lemma_adjust(raw_of(a), raw_of(b));
}

/// Powers of three for the four axes.
pub open spec fn pow3(k: int) -> int {
    if k == 0 {
        1
    } else if k == 1 {
        3
    } else if k == 2 {
        9
    } else {
        27
    }
}

/// Stride of slot `slot` when the axis of a grip is moved to slot 0.
pub open spec fn cell_stride(axis: int, slot: int) -> int {
    if slot == 0 {
        pow3(axis)
    } else if slot == axis {
        1
    } else {
        pow3(slot)
    }
}

/// Raw index of the `i`th piece of the cell of grip `g`: pieces are taken in
/// `(z, y, x)` order over the three other axes, skipping the centre.
pub open spec fn cell_raw(g: GripId, i: int) -> int {
    let axis = g.spec_axis();
    let j = i + ind(i >= 13);
    let init = cell_stride(axis, 0) * (if g.is_negative() {
        0int
    } else {
        2int
    });
    init + (j % 3) * cell_stride(axis, 1) + ((j / 3) % 3) * cell_stride(axis, 2) + ((j / 9) % 3)
        * cell_stride(axis, 3)
}

/// Piece index of the `i`th piece of the cell of grip `g`.
pub open spec fn cell_index(g: GripId, i: int) -> int {
    match spec_adjust(cell_raw(g, i)) {
        Some(k) => k as int,
        None => 0,
    }
}

/// Whether piece index `k` is one of the pieces of the cell of grip `g`.
pub open spec fn in_cell(g: GripId, k: int) -> bool {
    exists|o: int| 0 <= o < 26 && cell_index(g, o) == k
}

/// Whether the piece whose home is location `i` shows a sticker on grip `g`.
#[verifier::opaque]
pub open spec fn piece_touches(i: int, g: GripId) -> bool {
    location(i).at(g.spec_axis()) == g.spec_signum()
}

proof fn lemma_cell_raw_u8(g: u8, i: u8)
    by (bit_vector)
    requires
        g < 8,
        i < 26,
    ensures
        ({
            let axis = g / 2;
            let j = i + (if i >= 13 {
                1u8
            } else {
                0u8
            });
            let p = |k: u8|
                if k == 0 {
                    1u8
                } else if k == 1 {
                    3u8
                } else if k == 2 {
                    9u8
                } else {
                    27u8
                };
            let st = |slot: u8|
                if slot == 0 {
                    p(axis)
                } else if slot == axis {
                    1u8
                } else {
                    p(slot)
                };
            let raw = st(0) * (if g % 2 == 1 {
                0u8
            } else {
                2u8
            }) + (j % 3) * st(1) + ((j / 3) % 3) * st(2) + ((j / 9) % 3) * st(3);
            raw < 81 && !excluded(raw as int)
        }),
{
}

/// The pieces of a cell are pieces.
pub proof fn lemma_cell_raw(g: GripId, i: int)
    requires
        0 <= i < 26,
    ensures
        0 <= cell_raw(g, i) < 81,
        !excluded(cell_raw(g, i)),
        0 <= cell_index(g, i) < 72,
{
    g.lemma_id_roundtrip();
    lemma_cell_raw_u8(g.spec_id(), i as u8);
    lemma_adjust(cell_raw(g, i), cell_raw(g, i));
}

/// Digit `axis` of a raw index, read in base 3: the coordinate along that
/// axis, plus one.
pub open spec fn raw_digit(r: int, axis: int) -> int {
    (r / pow3(axis)) % 3
}

/// The axis read by slot `slot` of a cell whose grip lies along `axis`.
pub open spec fn slot_axis(axis: int, slot: int) -> int {
    if slot == axis {
        0
    } else {
        slot
    }
}

/// The slot in the cell of `g` of the piece with raw index `r`.
pub open spec fn cell_slot_of_raw(g: GripId, r: int) -> int {
    let axis = g.spec_axis();
    let j = raw_digit(r, slot_axis(axis, 1)) + 3 * raw_digit(r, slot_axis(axis, 2)) + 9 * raw_digit(
        r,
        slot_axis(axis, 3),
    );
    j - ind(j > 13)
}

proof fn lemma_cell_slot_u8(g: u8, r: u8)
    by (bit_vector)
    requires
        g < 8,
        r < 81,
        !excluded(r as int),
        ({
            let p = |k: u8|
                if k == 0 {
                    1u8
                } else if k == 1 {
                    3u8
                } else if k == 2 {
                    9u8
                } else {
                    27u8
                };
            (r / p(g / 2)) % 3 == (if g % 2 == 1 {
                0u8
            } else {
                2u8
            })
        }),
    ensures
        ({
            let axis = g / 2;
            let p = |k: u8|
                if k == 0 {
                    1u8
                } else if k == 1 {
                    3u8
                } else if k == 2 {
                    9u8
                } else {
                    27u8
                };
            let sa = |slot: u8|
                if slot == axis {
                    0u8
                } else {
                    slot
                };
            let jj = (r / p(sa(1))) % 3 + 3 * ((r / p(sa(2))) % 3) + 9 * ((r / p(sa(3))) % 3);
            let i = jj - (if jj > 13 {
                1u8
            } else {
                0u8
            });
            let j = i + (if i >= 13 {
                1u8
            } else {
                0u8
            });
            let st = |slot: u8|
                if slot == 0 {
                    p(axis)
                } else if slot == axis {
                    1u8
                } else {
                    p(slot)
                };
            let raw = st(0) * (if g % 2 == 1 {
                0u8
            } else {
                2u8
            }) + (j % 3) * st(1) + ((j / 3) % 3) * st(2) + ((j / 9) % 3) * st(3);
            0 <= i < 26 && raw == r
        }),
{
}

proof fn lemma_cell_digit_u8(g: u8, i: u8)
    by (bit_vector)
    requires
        g < 8,
        i < 26,
    ensures
        ({
            let axis = g / 2;
            let j = i + (if i >= 13 {
                1u8
            } else {
                0u8
            });
            let p = |k: u8|
                if k == 0 {
                    1u8
                } else if k == 1 {
                    3u8
                } else if k == 2 {
                    9u8
                } else {
                    27u8
                };
            let st = |slot: u8|
                if slot == 0 {
                    p(axis)
                } else if slot == axis {
                    1u8
                } else {
                    p(slot)
                };
            let raw = st(0) * (if g % 2 == 1 {
                0u8
            } else {
                2u8
            }) + (j % 3) * st(1) + ((j / 3) % 3) * st(2) + ((j / 9) % 3) * st(3);
            ((raw as u8) / p(axis)) % 3 == (if g % 2 == 1 {
                0u8
            } else {
                2u8
            })
        }),
{
}

/// The pieces of the cell of `g` are exactly the pieces that touch `g`.
pub proof fn lemma_in_cell_touches(g: GripId, k: int)
    requires
        0 <= k < 72,
    ensures
        in_cell(g, k) <==> piece_touches(k, g),
{
    reveal(piece_touches);
    g.lemma_id_roundtrip();
    lemma_unadjust(k);
    let r = unadjust(k);
    lemma_raw(r);
    let axis = g.spec_axis();
    assert(location(k).at(axis) == raw_digit(r, axis) - 1);
    if in_cell(g, k) {
        let o = choose|o: int| 0 <= o < 26 && cell_index(g, o) == k;
        lemma_cell_raw(g, o);
        lemma_cell_digit_u8(g.spec_id(), o as u8);
        lemma_adjust(cell_raw(g, o), r);
        assert(cell_raw(g, o) == r);
    }
    if piece_touches(k, g) {
        lemma_cell_slot_u8(g.spec_id(), r as u8);
        let o = cell_slot_of_raw(g, r);
        assert(0 <= o < 26 && cell_raw(g, o) == r);
        assert(cell_index(g, o) == k);
    }
}

fn exec_ind(b: bool) -> (r: usize)
    ensures
        r == ind(b),
{
    if b {
        1
    } else {
        0
    }
}

/// Returns the piece index of raw index `i`, or `None` for the core and the
/// cell centres.
pub fn adjust_index(i: usize) -> (r: Option<u8>)
    ensures
        r == spec_adjust(i as int),
{
    proof {
        reveal(excluded_below);
    }
    if i == 13 || i == 31 || i == 37 || i == 39 || i == 40 || i == 41 || i == 43 || i == 49 || i
        == 67 {
        return None;
    }
    let below = exec_ind(13 < i) + exec_ind(31 < i) + exec_ind(37 < i) + exec_ind(39 < i)
        + exec_ind(40 < i) + exec_ind(41 < i) + exec_ind(43 < i) + exec_ind(49 < i) + exec_ind(
        67 < i,
    );
    Some((i - below) as u8)
}

/// Returns the raw index of piece index `i`.
fn unadjust_index(i: usize) -> (r: usize)
    requires
        i < 72,
    ensures
        r == unadjust(i as int),
        r < 81,
{
    proof {
        reveal(unadjust);
        lemma_unadjust(i as int);
    }
    let mut r = i;
    if r >= 13 {
        r += 1;
    }
    if r >= 31 {
        r += 1;
    }
    if r >= 37 {
        r += 1;
    }
    if r >= 39 {
        r += 1;
    }
    if r >= 40 {
        r += 1;
    }
    if r >= 41 {
        r += 1;
    }
    if r >= 43 {
        r += 1;
    }
    if r >= 49 {
        r += 1;
    }
    if r >= 67 {
        r += 1;
    }
    r
}

/// Returns the piece index of a location vector, or `None` for the core and
/// the cell centres.
pub fn vec4_to_index(v: Vec4) -> (r: Option<u8>)
    requires
        v.bounded(-1, 1),
    ensures
        r == index_of(v),
{
    let raw = (v.x + 1) as usize + 3 * (v.y + 1) as usize + 9 * (v.z + 1) as usize + 27 * (v.w
        + 1) as usize;
    adjust_index(raw)
}

/// Returns the location vector of piece index `i`.
pub fn piece_location(i: usize) -> (v: Vec4)
    requires
        i < 72,
    ensures
        v == location(i as int),
        v.bounded(-1, 1),
{
    proof {
        lemma_location(i as int);
    }
    let r = unadjust_index(i);
    Vec4 {
        x: (r % 3) as i8 - 1,
        y: ((r / 3) % 3) as i8 - 1,
        z: ((r / 9) % 3) as i8 - 1,
        w: ((r / 27) % 3) as i8 - 1,
    }
}

/// Returns the piece index that rotation `e` carries piece index `i` to.
pub fn mul_elem_index(e: ElemId, i: usize) -> (k: u8)
    requires
        e.wf(),
        i < 72,
    ensures
        k == spec_mul_index(e, i as int),
        k < 72,
{
    proof {
        reveal(spec_mul_index);
        lemma_mul_index(e, i as int, i as int);
        lemma_location(i as int);
        lemma_rotate_location(e, location(i as int), location(i as int));
    }
    match vec4_to_index(e.mul_vec(piece_location(i))) {
        Some(k) => k,
        None => 0,
    }
}

/// Tabulates [`mul_elem_index`] for every rotation.
pub fn gen_mul_elem_index_table() -> (table: Vec<[u8; 72]>)
    ensures
        table@.len() == 192,
        forall|e: int, i: int|
            0 <= e < 192 && 0 <= i < 72 ==> #[trigger] table@[e][i] == spec_mul_index(
                ElemId(e as u8),
                i,
            ),
{
    let mut table: Vec<[u8; 72]> = Vec::new();
    let mut e: u8 = 0;
    while e < 192
        invariant
            0 <= e <= 192,
            table@.len() == e,
            forall|a: int, i: int|
                0 <= a < e && 0 <= i < 72 ==> #[trigger] table@[a][i] == spec_mul_index(
                    ElemId(a as u8),
                    i,
                ),
        decreases 192 - e,
    {
        let mut row = [0u8; 72];
        let mut i: usize = 0;
        while i < 72
            invariant
                0 <= i <= 72,
                e < 192,
                forall|j: int| 0 <= j < i ==> #[trigger] row[j] == spec_mul_index(ElemId(e), j),
            decreases 72 - i,
        {
            row[i] = mul_elem_index(ElemId(e), i);
            i += 1;
        }
        table.push(row);
        e += 1;
    }
    table
}

fn exec_pow3(k: usize) -> (r: usize)
    ensures
        r == pow3(k as int),
{
    if k == 0 {
        1
    } else if k == 1 {
        3
    } else if k == 2 {
        9
    } else {
        27
    }
}

/// Returns the piece indices of the cell of grip `g`, ordered by `(z, y, x)`
/// within the cell (skipping the cell's own centre).
///
/// [`lemma_cells_of_grips`] proves that the 26 indices are distinct and all
/// touch `g`, and [`lemma_shared_pieces`] that the cells of two different
/// grips share nine pieces, or none when the grips are opposite.
pub fn indices_for_grip(g: GripId) -> (ret: [u8; 26])
    ensures
        forall|i: int| 0 <= i < 26 ==> #[trigger] ret[i] == cell_index(g, i),
        forall|i: int| 0 <= i < 26 ==> #[trigger] ret[i] < 72,
{
    let axis = g.axis();
    let s0 = exec_pow3(axis);
    let s1 = if axis == 1 {
        1
    } else {
        3
    };
    let s2 = if axis == 2 {
        1
    } else {
        9
    };
    let s3 = if axis == 3 {
        1
    } else {
        27
    };
    let init = s0 * if g.signum() == 1 {
        2
    } else {
        0
    };
    let mut ret = [0u8; 26];
    let mut i: usize = 0;
    while i < 26
        invariant
            0 <= i <= 26,
            axis == g.spec_axis(),
            s0 == cell_stride(axis as int, 0),
            s1 == cell_stride(axis as int, 1),
            s2 == cell_stride(axis as int, 2),
            s3 == cell_stride(axis as int, 3),
            init == cell_stride(axis as int, 0) * (if g.is_negative() {
                0int
            } else {
                2int
            }),
            forall|k: int| 0 <= k < i ==> #[trigger] ret[k] == cell_index(g, k),
            forall|k: int| 0 <= k < i ==> #[trigger] ret[k] < 72,
        decreases 26 - i,
    {
        let j = i + exec_ind(i >= 13);
        let x = j % 3;
        let y = (j / 3) % 3;
        let z = (j / 9) % 3;
        proof {
            lemma_cell_raw(g, i as int);
        }
        let raw = init + x * s1 + y * s2 + z * s3;
        ret[i] = match adjust_index(raw) {
            Some(k) => k,
            None => 0,
        };
        i += 1;
    }
    ret
}

/// Returns whether piece index `k` is one of the pieces of the cell of grip
/// `g`.
pub fn cell_contains(g: GripId, k: usize) -> (b: bool)
    ensures
        b == in_cell(g, k as int),
{
    if k >= 72 {
        proof {
            assert forall|i: int| 0 <= i < 26 implies cell_index(g, i) != k by {
                lemma_cell_raw(g, i);
            }
        }
        return false;
    }
    proof {
        lemma_in_cell_touches(g, k as int);
    }
    piece_has_grip(k, g)
}

/// Returns whether the piece whose home is location `i` shows a sticker on
/// grip `g`.
pub fn piece_has_grip(i: usize, g: GripId) -> (b: bool)
    requires
        i < 72,
    ensures
        b == piece_touches(i as int, g),
{
    proof {
        reveal(piece_touches);
    }
    piece_location(i).get(g.axis()) == g.signum()
}

/// Returns the grips touched by the piece whose home is location `i`, in ID
/// order: exactly the stickers that piece shows.
pub fn piece_grips(i: usize) -> (ret: Vec<GripId>)
    requires
        i < 72,
    ensures
        ret@ == hypercube_grips().filter(|g: GripId| piece_touches(i as int, g)),
{
    let grips = HYPERCUBE_GRIPS;
    let mut ret: Vec<GripId> = Vec::new();
    let mut k: usize = 0;
    while k < 8
        invariant
            0 <= k <= 8,
            i < 72,
            grips@ == hypercube_grips(),
            ret@ == hypercube_grips().take(k as int).filter(|g: GripId| piece_touches(i as int, g)),
        decreases 8 - k,
    {
        proof {
            reveal_with_fuel(Seq::filter, 1);
            assert(hypercube_grips().take(k + 1).drop_last() == hypercube_grips().take(k as int));
        }
        let g = grips[k];
        if piece_has_grip(i, g) {
            ret.push(g);
        }
        k += 1;
    }
    proof {
        assert(hypercube_grips().take(8) == hypercube_grips());
    }
    ret
}

/// Two pieces of one cell with the same raw index are the same piece.
proof fn lemma_cell_raw_injective_u8(g: u8, i1: u8, i2: u8)
    by (bit_vector)
    requires
        g < 8,
        i1 < 26,
        i2 < 26,
        ({
            let axis = g / 2;
            let p = |k: u8|
                if k == 0 {
                    1u8
                } else if k == 1 {
                    3u8
                } else if k == 2 {
                    9u8
                } else {
                    27u8
                };
            let st = |slot: u8|
                if slot == 0 {
                    p(axis)
                } else if slot == axis {
                    1u8
                } else {
                    p(slot)
                };
            let j1 = i1 + (if i1 >= 13 {
                1u8
            } else {
                0u8
            });
            let j2 = i2 + (if i2 >= 13 {
                1u8
            } else {
                0u8
            });
            (j1 % 3) * st(1) + ((j1 / 3) % 3) * st(2) + ((j1 / 9) % 3) * st(3) == (j2 % 3) * st(1) + ((j2 / 3) % 3)
                * st(2) + ((j2 / 9) % 3) * st(3)
        }),
    ensures
        i1 == i2,
{
}

/// The cells of grips: each lists 26 distinct pieces, every one of which
/// touches its grip, and the cells of two opposite grips share no piece.
pub proof fn lemma_cells_of_grips(g1: GripId, g2: GripId)
    ensures
        forall|i: int, j: int| 0 <= i < j < 26 ==> cell_index(g1, i) != cell_index(g1, j),
        forall|i: int| 0 <= i < 26 ==> 0 <= #[trigger] cell_index(g1, i) < 72 && piece_touches(cell_index(g1, i), g1),
        g1 != g2 && g1.spec_axis() == g2.spec_axis() ==> forall|i: int, j: int|
            0 <= i < 26 && 0 <= j < 26 ==> #[trigger] cell_index(g1, i) != #[trigger] cell_index(g2, j),
{
    g1.lemma_id_roundtrip();
    g2.lemma_id_roundtrip();
    assert forall|i: int, j: int| 0 <= i < j < 26 implies cell_index(g1, i) != cell_index(g1, j) by {
        lemma_cell_raw(g1, i);
        lemma_cell_raw(g1, j);
        lemma_cell_raw_u8(g1.spec_id(), i as u8);
        lemma_cell_raw_u8(g1.spec_id(), j as u8);
        lemma_adjust(cell_raw(g1, i), cell_raw(g1, j));
        if cell_raw(g1, i) == cell_raw(g1, j) {
            lemma_cell_raw_injective_u8(g1.spec_id(), i as u8, j as u8);
        }
    }
    assert forall|i: int| 0 <= i < 26 implies 0 <= #[trigger] cell_index(g1, i) < 72 && piece_touches(
        cell_index(g1, i),
        g1,
    ) by {
        lemma_cell_raw(g1, i);
        assert(in_cell(g1, cell_index(g1, i)));
        lemma_in_cell_touches(g1, cell_index(g1, i));
    }
    if g1 != g2 && g1.spec_axis() == g2.spec_axis() {
        assert forall|i: int, j: int| 0 <= i < 26 && 0 <= j < 26 implies #[trigger] cell_index(g1, i)
            != #[trigger] cell_index(g2, j) by {
            lemma_cell_raw(g1, i);
            lemma_cell_raw(g2, j);
            let k = cell_index(g1, i);
            if k == cell_index(g2, j) {
                assert(in_cell(g1, k));
                assert(in_cell(g2, k));
                lemma_in_cell_touches(g1, k);
                lemma_in_cell_touches(g2, k);
                reveal(piece_touches);
                assert(g1.spec_signum() != g2.spec_signum());
            }
        }
    }
}

/// The smaller of the two axes other than `a1` and `a2`.
pub open spec fn low_other_axis(a1: int, a2: int) -> int {
    if a1 != 0 && a2 != 0 {
        0
    } else if a1 != 1 && a2 != 1 {
        1
    } else {
        2
    }
}

/// The larger of the two axes other than `a1` and `a2`.
pub open spec fn high_other_axis(a1: int, a2: int) -> int {
    if a1 != 3 && a2 != 3 {
        3
    } else if a1 != 2 && a2 != 2 {
        2
    } else {
        1
    }
}

/// Coordinate `axis` of the `t`th location, of nine, that touches both `g1`
/// and `g2`: their signs along their own axes, and the base-3 digits of `t`,
/// less one, along the other two.
pub open spec fn shared_coord(g1: GripId, g2: GripId, t: int, axis: int) -> int {
    if axis == g1.spec_axis() {
        g1.spec_signum()
    } else if axis == g2.spec_axis() {
        g2.spec_signum()
    } else if axis == low_other_axis(g1.spec_axis(), g2.spec_axis()) {
        t % 3 - 1
    } else {
        t / 3 - 1
    }
}

/// The `t`th location, of nine, that touches both `g1` and `g2`.
pub open spec fn shared_location(g1: GripId, g2: GripId, t: int) -> Vec4 {
    Vec4 {
        x: shared_coord(g1, g2, t, 0) as i8,
        y: shared_coord(g1, g2, t, 1) as i8,
        z: shared_coord(g1, g2, t, 2) as i8,
        w: shared_coord(g1, g2, t, 3) as i8,
    }
}

/// The pieces in the cells of both `g1` and `g2`.
pub open spec fn shared_pieces(g1: GripId, g2: GripId) -> Set<int> {
    Set::new(|k: int| 0 <= k < 72 && in_cell(g1, k) && in_cell(g2, k))
}

proof fn lemma_shared_location(g1: GripId, g2: GripId, t: int)
    requires
        g1.spec_axis() != g2.spec_axis(),
        0 <= t < 9,
    ensures
        shared_location(g1, g2, t).bounded(-1, 1),
        nonzeros(shared_location(g1, g2, t)) >= 2,
        forall|axis: int| 0 <= axis < 4 ==> #[trigger] shared_location(g1, g2, t).at(axis) == shared_coord(g1, g2, t, axis),
        shared_location(g1, g2, t).at(g1.spec_axis()) == g1.spec_signum(),
        shared_location(g1, g2, t).at(g2.spec_axis()) == g2.spec_signum(),
        shared_location(g1, g2, t).at(low_other_axis(g1.spec_axis(), g2.spec_axis())) == t % 3 - 1,
        shared_location(g1, g2, t).at(high_other_axis(g1.spec_axis(), g2.spec_axis())) == t / 3 - 1,
{
    g1.lemma_id_roundtrip();
    g2.lemma_id_roundtrip();
}

/// The cells of two grips share exactly nine pieces when the grips lie on
/// different axes, and none when they are opposite: so the entries of
/// [`indices_for_grip`] for two different grips meet in 9 or 0 places.
pub proof fn lemma_shared_pieces(g1: GripId, g2: GripId)
    requires
        g1 != g2,
    ensures
        shared_pieces(g1, g2).finite(),
        shared_pieces(g1, g2).len() == if g1.spec_axis() == g2.spec_axis() {
            0int
        } else {
            9int
        },
{
    g1.lemma_id_roundtrip();
    g2.lemma_id_roundtrip();
    let a1 = g1.spec_axis();
    let a2 = g2.spec_axis();
    if a1 == a2 {
        assert forall|k: int| !shared_pieces(g1, g2).contains(k) by {
            if shared_pieces(g1, g2).contains(k) {
                lemma_in_cell_touches(g1, k);
                lemma_in_cell_touches(g2, k);
                reveal(piece_touches);
                assert(g1.spec_signum() != g2.spec_signum());
            }
        }
        assert(shared_pieces(g1, g2) =~= Set::<int>::empty());
    } else {
        let b = low_other_axis(a1, a2);
        let c = high_other_axis(a1, a2);
        let shared = Seq::new(
            9,
            |t: int|
                match index_of(shared_location(g1, g2, t)) {
                    Some(k) => k as int,
                    None => 0,
                },
        );
        assert forall|t: int| 0 <= t < 9 implies index_of(shared_location(g1, g2, t)) == Some(
            #[trigger] shared[t] as u8,
        ) && 0 <= shared[t] < 72 && location(shared[t]) == shared_location(g1, g2, t) by {
            lemma_shared_location(g1, g2, t);
            let v = shared_location(g1, g2, t);
            lemma_index_of(v, v);
            let k = shared[t];
            lemma_location(k);
            lemma_index_of(v, location(k));
        }
        assert(shared.no_duplicates()) by {
            assert forall|t1: int, t2: int| 0 <= t1 < 9 && 0 <= t2 < 9 && t1 != t2 implies shared[t1] != shared[t2] by {
                lemma_shared_location(g1, g2, t1);
                lemma_shared_location(g1, g2, t2);
                if shared[t1] == shared[t2] {
                    assert(shared_location(g1, g2, t1) == shared_location(g1, g2, t2));
                    assert(shared_location(g1, g2, t1).at(b) == shared_location(g1, g2, t2).at(b));
                    assert(shared_location(g1, g2, t1).at(c) == shared_location(g1, g2, t2).at(c));
                }
            }
        }
        assert forall|k: int| #[trigger] shared_pieces(g1, g2).contains(k) <==> shared.to_set().contains(k) by {
            if shared_pieces(g1, g2).contains(k) {
                lemma_in_cell_touches(g1, k);
                lemma_in_cell_touches(g2, k);
                reveal(piece_touches);
                lemma_location(k);
                let v = location(k);
                let t = (v.at(b) + 1) + 3 * (v.at(c) + 1);
                assert(0 <= t < 9);
                lemma_shared_location(g1, g2, t);
                let w = shared_location(g1, g2, t);
                assert forall|axis: int| 0 <= axis < 4 implies #[trigger] w.at(axis) == v.at(axis) by {}
                assert(w.x == v.x) by {
                    assert(w.at(0) == v.at(0));
                }
                assert(w.y == v.y) by {
                    assert(w.at(1) == v.at(1));
                }
                assert(w.z == v.z) by {
                    assert(w.at(2) == v.at(2));
                }
                assert(w.w == v.w) by {
                    assert(w.at(3) == v.at(3));
                }
                assert(w == v);
                assert(shared[t] == k);
                assert(shared.contains(k));
            }
            if shared.to_set().contains(k) {
                let t = choose|t: int| 0 <= t < 9 && shared[t] == k;
                lemma_shared_location(g1, g2, t);
                reveal(piece_touches);
                assert(piece_touches(k, g1));
                assert(piece_touches(k, g2));
                lemma_in_cell_touches(g1, k);
                lemma_in_cell_touches(g2, k);
            }
        }
        assert(shared_pieces(g1, g2) =~= shared.to_set());
        shared.unique_seq_to_set();
    }
}

proof fn lemma_last_cell_digits_u8(j: u8)
    by (bit_vector)
    requires
        j < 26,
    ensures
        ({
            let jj = j + (if j >= 13 {
                1u8
            } else {
                0u8
            });
            let r = (jj % 3) * 3 + ((jj / 3) % 3) * 9 + (jj / 9) % 3;
            ind(r % 3 != 1) + ind((r / 3) % 3 != 1) + ind((r / 9) % 3 != 1) + ind((r / 27) % 3 != 1) == (if j == 4
                || j == 10 || j == 12 || j == 13 || j == 15 || j == 21 {
                2int
            } else if j == 1 || j == 3 || j == 5 || j == 7 || j == 9 || j == 11 || j == 14 || j == 16 || j == 18
                || j == 20 || j == 22 || j == 24 {
                3int
            } else {
                4int
            })
        }),
{
}

/// How many nonzero coordinates the `j`th piece of the cell of `I` has: two
/// for a ridge, three for an edge, four for a corner.
pub open spec fn last_cell_nonzeros(j: int) -> int {
    if j == 4 || j == 10 || j == 12 || j == 13 || j == 15 || j == 21 {
        2
    } else if j == 1 || j == 3 || j == 5 || j == 7 || j == 9 || j == 11 || j == 14 || j == 16 || j == 18 || j == 20
        || j == 22 || j == 24 {
        3
    } else {
        4
    }
}

/// The `j`th piece of the cell of `I` sits at the location of its raw index,
/// and has [`last_cell_nonzeros`] nonzero coordinates.
pub proof fn lemma_last_cell_nonzeros(j: int)
    requires
        0 <= j < 26,
    ensures
        location(cell_index(GripId::I, j)) == location_of_raw(cell_raw(GripId::I, j)),
        nonzeros(location(cell_index(GripId::I, j))) == last_cell_nonzeros(j),
{
    let g = GripId::I;
    g.lemma_id_roundtrip();
    lemma_cell_raw(g, j);
    let r = cell_raw(g, j);
    let k = cell_index(g, j);
    lemma_unadjust(k);
    reveal(excluded_below);
    lemma_unadjust_u8(k as u8);
    lemma_adjust(r, unadjust(k));
    assert(unadjust(k) == r);
    lemma_last_cell_digits_u8(j as u8);
    lemma_raw(r);
}

} // verus!
