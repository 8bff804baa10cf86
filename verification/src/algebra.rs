//! The group laws of the rotations of the hypercube, proved on their
//! numbering: the identity, inverses, associativity, and the action on
//! grips.
use vstd::prelude::*;

use crate::grips::GripId;
use crate::space::Vec4;
use crate::elements::{
    compose, compose_signs, elem_perm, elem_signs, encode, field, inverse, inverse_signs,
    is_perm, parity, preimage, rank, rotate_coord, rotate_vec, sbit, spec_inv, spec_mul,
    spec_mul_grip, unrank, ElemId,
};

verus! {

/// Parity of the number of negated columns among the four sign bits of `s`.
pub open spec fn xor4(s: u8) -> bool {
    (sbit(s, 0) != sbit(s, 1)) != (sbit(s, 2) != sbit(s, 3))
}

/// `(p, s)` is a rotation: a permutation with four signs whose determinant
/// is 1.
pub open spec fn is_rotation(p: u8, s: u8) -> bool {
    &&& is_perm(p)
    &&& s < 16
    &&& xor4(s) == parity(p)
}

/// The identity permutation, packed.
pub open spec fn ident_perm() -> u8 {
    228
}

/// A permutation is the one of its rank.
proof fn lemma_unrank_rank(p: u8)
    requires
        is_perm(p),
    ensures
        rank(p) < 24,
        unrank(rank(p)) == p,
{
    reveal(unrank);
    assert(rank(p) < 24 && unrank(rank(p)) == p) by (bit_vector)
        requires
            is_perm(p),
    ;
}

/// The rank of the permutation of rank `r` is `r`.
proof fn lemma_rank_unrank(r: u8)
    requires
        r < 24,
    ensures
        rank(unrank(r)) == r,
{
    reveal(unrank);
    assert(rank(unrank(r)) == r) by (bit_vector)
        requires
            r < 24,
    ;
}

/// The decoded signs of rotation `id` make a rotation, and keep its low
/// three bits.
proof fn lemma_elem_rotation(id: u8)
    requires
        id < 192,
    ensures
        is_perm(elem_perm(id)),
        elem_signs(id) < 16,
        xor4(elem_signs(id)) == parity(elem_perm(id)),
        elem_signs(id) & 7 == id % 8,
{
    reveal(unrank);
    reveal(parity);
    assert(is_perm(elem_perm(id)) && elem_signs(id) < 16 && xor4(elem_signs(id)) == parity(
        elem_perm(id),
    ) && elem_signs(id) & 7 == id % 8) by (bit_vector)
        requires
            id < 192,
    ;
}

/// Signs with the determinant condition are recovered from their low three
/// bits.
proof fn lemma_signs_from_low(s: u8, par: bool)
    by (bit_vector)
    requires
        s < 16,
        xor4(s) == par,
    ensures
        (if par != ((sbit(s & 7, 0) != sbit(s & 7, 1)) != sbit(s & 7, 2)) {
            (s & 7) | 8
        } else {
            s & 7
        }) == s,
{
}

/// Decoding the number of a rotation gives the rotation back.
pub proof fn lemma_decode_encode(p: u8, s: u8)
    requires
        is_rotation(p, s),
    ensures
        rank(p) < 24,
        encode(p, s) < 192,
        elem_perm(encode(p, s)) == p,
        elem_signs(encode(p, s)) == s,
{
    lemma_unrank_rank(p);
    let id = encode(p, s);
    assert(s & 7 < 8) by (bit_vector);
    assert(id / 8 == rank(p));
    assert(id % 8 == s & 7);
    lemma_signs_from_low(s, parity(p));
}

/// Encoding the decoded rotation of a number gives the number back.
pub proof fn lemma_encode_decode(id: u8)
    requires
        id < 192,
    ensures
        encode(elem_perm(id), elem_signs(id)) == id,
        is_rotation(elem_perm(id), elem_signs(id)),
{
    lemma_rank_unrank(id / 8);
    lemma_elem_rotation(id);
}

/// The inverse of a permutation is a permutation of the same parity, whose
/// inverse is the permutation, and which composes with it to the identity.
proof fn lemma_perm_inverse(p: u8)
    requires
        is_perm(p),
    ensures
        is_perm(inverse(p)),
        inverse(inverse(p)) == p,
        parity(inverse(p)) == parity(p),
        compose(p, inverse(p)) == ident_perm(),
        compose(inverse(p), p) == ident_perm(),
        compose(ident_perm(), p) == p,
        compose(p, ident_perm()) == p,
{
    reveal(parity);
    assert(is_perm(inverse(p)) && inverse(inverse(p)) == p && parity(inverse(p)) == parity(p)
        && compose(p, inverse(p)) == 228 && compose(inverse(p), p) == 228 && compose(228, p) == p
        && compose(p, 228) == p) by (bit_vector)
        requires
            is_perm(p),
    ;
}

/// The signs of the inverse rotation: their product is unchanged, taking
/// them twice gives the signs back, and they cancel with the signs of the
/// rotation.
proof fn lemma_inverse_signs(s: u8, p: u8)
    requires
        is_perm(p),
        s < 16,
    ensures
        inverse_signs(s, p) < 16,
        xor4(inverse_signs(s, p)) == xor4(s),
        inverse_signs(inverse_signs(s, p), inverse(p)) == s,
        compose_signs(s, inverse_signs(s, p), inverse(p)) == 0,
        compose_signs(inverse_signs(s, p), s, p) == 0,
{
    assert(inverse_signs(s, p) < 16 && xor4(inverse_signs(s, p)) == xor4(s) && inverse_signs(
        inverse_signs(s, p),
        inverse(p),
    ) == s && compose_signs(s, inverse_signs(s, p), inverse(p)) == 0 && compose_signs(
        inverse_signs(s, p),
        s,
        p,
    ) == 0) by (bit_vector)
        requires
            is_perm(p),
            s < 16,
    ;
}

/// The composition of two permutations is a permutation whose parity is
/// the sum of theirs.
proof fn lemma_compose_parity(p: u8, q: u8)
    requires
        is_perm(p),
        is_perm(q),
    ensures
        is_perm(compose(p, q)),
        parity(compose(p, q)) == (parity(p) != parity(q)),
{
    reveal(parity);
    assert(is_perm(compose(p, q)) && parity(compose(p, q)) == (parity(p) != parity(q))) by (
    bit_vector)
        requires
            is_perm(p),
            is_perm(q),
    ;
}

/// Composition of permutations is associative.
proof fn lemma_compose_assoc(p: u8, q: u8, r: u8)
    ensures
        compose(compose(p, q), r) == compose(p, compose(q, r)),
{
    assert(compose(compose(p, q), r) == compose(p, compose(q, r))) by (bit_vector);
}

/// The signs of a product: their product is the product of the factors'
/// signs.
proof fn lemma_compose_signs(sa: u8, sb: u8, pb: u8)
    requires
        is_perm(pb),
        sa < 16,
        sb < 16,
    ensures
        compose_signs(sa, sb, pb) < 16,
        xor4(compose_signs(sa, sb, pb)) == (xor4(sa) != xor4(sb)),
{
    assert(compose_signs(sa, sb, pb) < 16 && xor4(compose_signs(sa, sb, pb)) == (xor4(sa) != xor4(
        sb,
    ))) by (bit_vector)
        requires
            is_perm(pb),
            sa < 16,
            sb < 16,
    ;
}

/// Multiplying signs is associative.
proof fn lemma_compose_signs_assoc(sa: u8, sb: u8, sc: u8, pb: u8, pc: u8)
    ensures
        compose_signs(compose_signs(sa, sb, pb), sc, pc) == compose_signs(
            sa,
            compose_signs(sb, sc, pc),
            compose(pb, pc),
        ),
{
    assert(compose_signs(compose_signs(sa, sb, pb), sc, pc) == compose_signs(
        sa,
        compose_signs(sb, sc, pc),
        compose(pb, pc),
    )) by (bit_vector);
}

/// The identity rotation and its action on signs.
proof fn lemma_ident_signs(s: u8, p: u8)
    requires
        s < 16,
    ensures
        elem_perm(0) == ident_perm(),
        elem_signs(0) == 0,
        compose_signs(0, s, p) == s,
        compose_signs(s, 0, ident_perm()) == s,
{
    reveal(unrank);
    reveal(parity);
    assert(elem_perm(0) == 228 && elem_signs(0) == 0) by (bit_vector);
    assert(compose_signs(0, s, p) == s && compose_signs(s, 0, 228) == s) by (bit_vector)
        requires
            s < 16,
    ;
}

/// The rotation numbered by a product is the product of the rotations.
proof fn lemma_decode_mul(a: u8, b: u8)
    requires
        a < 192,
        b < 192,
    ensures
        spec_mul(a, b) < 192,
        elem_perm(spec_mul(a, b)) == compose(elem_perm(a), elem_perm(b)),
        elem_signs(spec_mul(a, b)) == compose_signs(elem_signs(a), elem_signs(b), elem_perm(b)),
{
    reveal(spec_mul);
    lemma_encode_decode(a);
    lemma_encode_decode(b);
    lemma_compose_parity(elem_perm(a), elem_perm(b));
    lemma_compose_signs(elem_signs(a), elem_signs(b), elem_perm(b));
    lemma_decode_encode(
        compose(elem_perm(a), elem_perm(b)),
        compose_signs(elem_signs(a), elem_signs(b), elem_perm(b)),
    );
}

/// The rotation numbered by an inverse is the inverse rotation.
proof fn lemma_decode_inv(a: u8)
    requires
        a < 192,
    ensures
        spec_inv(a) < 192,
        elem_perm(spec_inv(a)) == inverse(elem_perm(a)),
        elem_signs(spec_inv(a)) == inverse_signs(elem_signs(a), elem_perm(a)),
{
    reveal(spec_inv);
    lemma_encode_decode(a);
    lemma_perm_inverse(elem_perm(a));
    lemma_inverse_signs(elem_signs(a), elem_perm(a));
    lemma_decode_encode(inverse(elem_perm(a)), inverse_signs(elem_signs(a), elem_perm(a)));
}

/// The product of two rotations is a rotation.
pub proof fn lemma_mul_wf(a: ElemId, b: ElemId)
    requires
        a.wf(),
        b.wf(),
    ensures
        a.spec_times(b).wf(),
{
    lemma_decode_mul(a.0, b.0);
}

/// Multiplication of rotations is associative.
pub proof fn lemma_mul_assoc(a: ElemId, b: ElemId, c: ElemId)
    requires
        a.wf(),
        b.wf(),
        c.wf(),
    ensures
        a.spec_times(b).spec_times(c) == a.spec_times(b.spec_times(c)),
{
    reveal(spec_mul);
    lemma_decode_mul(a.0, b.0);
    lemma_decode_mul(b.0, c.0);
    lemma_compose_assoc(elem_perm(a.0), elem_perm(b.0), elem_perm(c.0));
    lemma_compose_signs_assoc(
        elem_signs(a.0),
        elem_signs(b.0),
        elem_signs(c.0),
        elem_perm(b.0),
        elem_perm(c.0),
    );
}

/// The identity is neutral on both sides.
pub proof fn lemma_mul_ident(a: ElemId)
    requires
        a.wf(),
    ensures
        ElemId(0).spec_times(a) == a,
        a.spec_times(ElemId(0)) == a,
{
    reveal(spec_mul);
    lemma_encode_decode(a.0);
    lemma_ident_signs(elem_signs(a.0), elem_perm(a.0));
    lemma_perm_inverse(elem_perm(a.0));
}

/// Each rotation times its inverse, in either order, is the identity, and
/// the inverse of the inverse is the rotation.
pub proof fn lemma_mul_inv(a: ElemId)
    requires
        a.wf(),
    ensures
        a.spec_inverse().wf(),
        a.spec_times(a.spec_inverse()) == ElemId(0),
        a.spec_inverse().spec_times(a) == ElemId(0),
        a.spec_inverse().spec_inverse() == a,
{
    reveal(spec_mul);
    reveal(spec_inv);
    let p = elem_perm(a.0);
    let s = elem_signs(a.0);
    lemma_encode_decode(a.0);
    lemma_decode_inv(a.0);
    lemma_perm_inverse(p);
    lemma_inverse_signs(s, p);
    lemma_perm_inverse(inverse(p));
    assert(encode(228, 0) == 0) by (bit_vector);
}

/// Rotating a grip by a product is rotating it by each factor in turn.
proof fn lemma_grip_compose(pa: u8, sa: u8, pb: u8, sb: u8, g: u8)
    requires
        g < 8,
    ensures
        spec_mul_grip_of(compose(pa, pb), compose_signs(sa, sb, pb), g) == spec_mul_grip_of(
            pa,
            sa,
            spec_mul_grip_of(pb, sb, g),
        ),
        spec_mul_grip_of(ident_perm(), 0, g) == g,
{
    assert(spec_mul_grip_of(compose(pa, pb), compose_signs(sa, sb, pb), g) == spec_mul_grip_of(
        pa,
        sa,
        spec_mul_grip_of(pb, sb, g),
    ) && spec_mul_grip_of(228, 0, g) == g) by (bit_vector)
        requires
            g < 8,
    ;
}

/// The grip that the signed permutation `(p, s)` sends grip number `g` to.
pub open spec fn spec_mul_grip_of(p: u8, s: u8, g: u8) -> u8 {
    let axis = g / 2;
    let negative = g % 2 == 1;
    (field(p, axis) * 2 + (if sbit(s, axis) != negative {
        1u8
    } else {
        0u8
    })) as u8
}

/// Rotations act on grips: the identity fixes every grip, and a product
/// moves a grip as its factors do in turn.
pub proof fn lemma_grip_action_law(a: ElemId, b: ElemId, g: GripId)
    requires
        a.wf(),
        b.wf(),
    ensures
        ElemId(0).spec_times_grip(g) == g,
        a.spec_times(b).spec_times_grip(g) == a.spec_times_grip(b.spec_times_grip(g)),
{
    g.lemma_id_roundtrip();
    lemma_decode_mul(a.0, b.0);
    lemma_ident_signs(0, 0);
    lemma_grip_compose(elem_perm(a.0), elem_signs(a.0), elem_perm(b.0), elem_signs(b.0), g.spec_id());
    crate::elements::lemma_grip_action(b.0, g.spec_id());
    GripId::lemma_of_id(spec_mul_grip(b.0, g.spec_id()) as int);
}

/// Where a composed permutation takes a coordinate from.
proof fn lemma_preimage_compose(pa: u8, pb: u8, k: u8)
    requires
        is_perm(pa),
        is_perm(pb),
        k < 4,
    ensures
        preimage(pa, k) < 4,
        preimage(compose(pa, pb), k) == preimage(pb, preimage(pa, k)),
        field(pb, preimage(pb, preimage(pa, k))) == preimage(pa, k),
{
    assert(preimage(pa, k) < 4 && preimage(compose(pa, pb), k) == preimage(pb, preimage(pa, k))
        && field(pb, preimage(pb, preimage(pa, k))) == preimage(pa, k)) by (bit_vector)
        requires
            is_perm(pa),
            is_perm(pb),
            k < 4,
    ;
}

/// Sign `j` of a product of signed permutations.
proof fn lemma_compose_signs_bit(sa: u8, sb: u8, pb: u8, j: u8)
    requires
        j < 4,
    ensures
        sbit(compose_signs(sa, sb, pb), j) == (sbit(sb, j) != sbit(sa, field(pb, j))),
{
    assert(sbit(compose_signs(sa, sb, pb), j) == (sbit(sb, j) != sbit(sa, field(pb, j)))) by (
    bit_vector)
        requires
            j < 4,
    ;
}

/// Coordinate `k` of a vector rotated by a product of signed permutations.
proof fn lemma_rotate_coord_compose(pa: u8, sa: u8, pb: u8, sb: u8, v: Vec4, k: u8)
    requires
        is_perm(pa),
        is_perm(pb),
        k < 4,
        v.bounded(-127, 127),
    ensures
        rotate_coord(compose(pa, pb), compose_signs(sa, sb, pb), v, k) == rotate_coord(
            pa,
            sa,
            rotate_vec(pb, sb, v),
            k,
        ),
{
    lemma_preimage_compose(pa, pb, k);
    let m = preimage(pa, k);
    lemma_compose_signs_bit(sa, sb, pb, preimage(pb, m));
    let w = rotate_vec(pb, sb, v);
    assert(w.at(m as int) == rotate_coord(pb, sb, v, m));
}

/// Rotations act on vectors: the identity fixes every vector, and a
/// product moves a vector as its factors do in turn.
pub proof fn lemma_vec_action_law(a: ElemId, b: ElemId, v: Vec4)
    requires
        a.wf(),
        b.wf(),
        v.bounded(-127, 127),
    ensures
        ElemId(0).spec_times_vec(v) == v,
        a.spec_times(b).spec_times_vec(v) == a.spec_times_vec(b.spec_times_vec(v)),
{
    lemma_decode_mul(a.0, b.0);
    lemma_encode_decode(a.0);
    lemma_encode_decode(b.0);
    lemma_ident_signs(0, 0);
    let (pa, sa, pb, sb) = (elem_perm(a.0), elem_signs(a.0), elem_perm(b.0), elem_signs(b.0));
    lemma_rotate_coord_compose(pa, sa, pb, sb, v, 0);
    lemma_rotate_coord_compose(pa, sa, pb, sb, v, 1);
    lemma_rotate_coord_compose(pa, sa, pb, sb, v, 2);
    lemma_rotate_coord_compose(pa, sa, pb, sb, v, 3);
    assert(preimage(ident_perm(), 0) == 0 && preimage(ident_perm(), 1) == 1 && preimage(
        ident_perm(),
        2,
    ) == 2 && preimage(ident_perm(), 3) == 3 && !sbit(0, 0) && !sbit(0, 1) && !sbit(0, 2)
        && !sbit(0, 3)) by (bit_vector);
}

/// A permutation undoes itself on a coordinate it moved.
proof fn lemma_preimage_field(p: u8, j: u8)
    requires
        is_perm(p),
        j < 4,
    ensures
        field(p, j) < 4,
        preimage(p, field(p, j)) == j,
{
    assert(field(p, j) < 4 && preimage(p, field(p, j)) == j) by (bit_vector)
        requires
            is_perm(p),
            j < 4,
    ;
}

/// A rotation keeps the component of a vector along a grip: the rotated
/// vector has along the rotated grip the component the vector had along the
/// grip.
pub proof fn lemma_grip_component(e: ElemId, v: Vec4, g: GripId)
    requires
        e.wf(),
        v.bounded(-127, 127),
    ensures
        e.spec_times_vec(v).at(e.spec_times_grip(g).spec_axis()) * e.spec_times_grip(g).spec_signum()
            == v.at(g.spec_axis()) * g.spec_signum(),
{
    let p = elem_perm(e.0);
    let s = elem_signs(e.0);
    lemma_encode_decode(e.0);
    g.lemma_id_roundtrip();
    let axis = (g.spec_id() / 2) as u8;
    lemma_preimage_field(p, axis);
    crate::elements::lemma_grip_action(e.0, g.spec_id());
    GripId::lemma_of_id(spec_mul_grip(e.0, g.spec_id()) as int);
    let h = e.spec_times_grip(g);
    assert(h.spec_id() == spec_mul_grip(e.0, g.spec_id()));
    assert(h.spec_axis() == field(p, axis));
    let w = e.spec_times_vec(v);
    assert(w.at(field(p, axis) as int) == rotate_coord(p, s, v, field(p, axis)));
}

/// A rotation moves distinct grips to distinct grips, and its inverse moves
/// them back.
pub proof fn lemma_grip_inverse(e: ElemId, g: GripId)
    requires
        e.wf(),
    ensures
        e.spec_inverse().spec_times_grip(e.spec_times_grip(g)) == g,
        e.spec_times_grip(e.spec_inverse().spec_times_grip(g)) == g,
{
    lemma_mul_inv(e);
    lemma_grip_action_law(e.spec_inverse(), e, g);
    lemma_grip_action_law(e, e.spec_inverse(), g);
}

/// A rotation whose product with `a` is the identity is the inverse of
/// `a`.
pub proof fn lemma_inverse_unique(a: ElemId, b: ElemId)
    requires
        a.wf(),
        b.wf(),
        a.spec_times(b) == ElemId(0),
    ensures
        b == a.spec_inverse(),
{
    lemma_mul_inv(a);
    lemma_mul_assoc(a.spec_inverse(), a, b);
    lemma_mul_ident(b);
    lemma_mul_ident(a.spec_inverse());
}

/// The inverse of a product is the product of the inverses, in the other
/// order.
pub proof fn lemma_inverse_of_product(a: ElemId, b: ElemId)
    requires
        a.wf(),
        b.wf(),
    ensures
        a.spec_times(b).spec_inverse() == b.spec_inverse().spec_times(a.spec_inverse()),
{
    let ai = a.spec_inverse();
    let bi = b.spec_inverse();
    lemma_mul_inv(a);
    lemma_mul_inv(b);
    lemma_mul_wf(a, b);
    lemma_mul_wf(bi, ai);
    lemma_mul_assoc(a, b, bi.spec_times(ai));
    lemma_mul_assoc(b, bi, ai);
    lemma_mul_ident(ai);
    lemma_inverse_unique(a.spec_times(b), bi.spec_times(ai));
}

} // verus!
