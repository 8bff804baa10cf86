//! Elements of the rotation group of the hypercube.
//!
//! A rotation of the hypercube is a signed permutation matrix with
//! determinant 1. Column `j` of the matrix of a rotation is `±e_k`: the
//! rotation sends axis `j` to axis `k`, flipped when the sign is negative.
//!
//! A permutation of the four axes is stored packed in a byte, two bits per
//! axis (`field(p, j)` is where axis `j` goes), and the signs of the four
//! columns as the low four bits of another byte. There are 24 permutations,
//! ranked from 0 to 23 in lexicographic order, and each rotation is numbered
//! `8 * rank + signs of columns 0..3`. The sign of column 3 is then whatever
//! makes the determinant 1.
use vstd::prelude::*;

use crate::grips::{grip_of, GripId};
use crate::space::Vec4;

verus! {

/// Where a packed permutation `p` sends axis `j`.
pub open spec fn field(p: u8, j: u8) -> u8 {
    if j == 0 {
        p & 3
    } else if j == 1 {
        (p >> 2u8) & 3
    } else if j == 2 {
        (p >> 4u8) & 3
    } else {
        (p >> 6u8) & 3
    }
}

/// Packs the images of the four axes into a byte.
pub open spec fn pack(a: u8, b: u8, c: u8, d: u8) -> u8 {
    a | (b << 2u8) | (c << 4u8) | (d << 6u8)
}

/// Whether `p` is a permutation of the four axes.
pub open spec fn is_perm(p: u8) -> bool {
    let f0 = field(p, 0);
    let f1 = field(p, 1);
    let f2 = field(p, 2);
    let f3 = field(p, 3);
    f0 != f1 && f0 != f2 && f0 != f3 && f1 != f2 && f1 != f3 && f2 != f3
}

/// The permutation of rank `r` (for `r < 24`).
#[verifier::opaque]
pub open spec fn unrank(r: u8) -> u8 {
    let f0 = r / 6;
    let m = r % 6;
    let r1 = m / 2;
    let r2 = m % 2;
    let f1 = if r1 >= f0 {
        (r1 + 1) as u8
    } else {
        r1
    };
    let lo = if f0 < f1 {
        f0
    } else {
        f1
    };
    let hi = if f0 < f1 {
        f1
    } else {
        f0
    };
    let c1 = if r2 >= lo {
        (r2 + 1) as u8
    } else {
        r2
    };
    let f2 = if c1 >= hi {
        (c1 + 1) as u8
    } else {
        c1
    };
    pack(f0, f1, f2, f0 ^ f1 ^ f2)
}

pub open spec fn gt(a: u8, b: u8) -> u8 {
    if a > b {
        1
    } else {
        0
    }
}

/// Lexicographic rank of the permutation `p`.
pub open spec fn rank(p: u8) -> u8 {
    let f0 = field(p, 0);
    let f1 = field(p, 1);
    let f2 = field(p, 2);
    let r2 = if f2 >= gt(f2, f0) + gt(f2, f1) {
        f2 - gt(f2, f0) - gt(f2, f1)
    } else {
        0
    };
    (f0 * 6 + (f1 - gt(f1, f0)) * 2 + r2) as u8
}

/// Whether `p` is an odd permutation.
#[verifier::opaque]
pub open spec fn parity(p: u8) -> bool {
    let f0 = field(p, 0);
    let f1 = field(p, 1);
    let f2 = field(p, 2);
    let f3 = field(p, 3);
    ((f0 > f1) != (f0 > f2)) != (((f0 > f3) != (f1 > f2)) != ((f1 > f3) != (f2 > f3)))
}

/// Whether bit `j` of `s` is set, i.e. whether column `j` is negated.
pub open spec fn sbit(s: u8, j: u8) -> bool {
    (s >> j) & 1 == 1
}

/// `p ∘ q`: axis `j` goes to `field(p, field(q, j))`.
pub open spec fn compose(p: u8, q: u8) -> u8 {
    pack(
        field(p, field(q, 0)),
        field(p, field(q, 1)),
        field(p, field(q, 2)),
        field(p, field(q, 3)),
    )
}

/// The column of `p` that holds a 1 in row `k`.
pub open spec fn preimage(p: u8, k: u8) -> u8 {
    if field(p, 0) == k {
        0
    } else if field(p, 1) == k {
        1
    } else if field(p, 2) == k {
        2
    } else {
        3
    }
}

/// The inverse permutation of `p`.
pub open spec fn inverse(p: u8) -> u8 {
    pack(preimage(p, 0), preimage(p, 1), preimage(p, 2), preimage(p, 3))
}

pub open spec fn bit(b: bool, j: u8) -> u8 {
    if b {
        (1u8 << j) as u8
    } else {
        0
    }
}

/// Signs of the product of `(p_a, s_a)` and `(p_b, s_b)`: column `j` of
/// the product is `s_b[j] * s_a[p_b[j]] * e_{p_a[p_b[j]]}`.
pub open spec fn compose_signs(sa: u8, sb: u8, pb: u8) -> u8 {
    bit(sbit(sb, 0) != sbit(sa, field(pb, 0)), 0) | bit(sbit(sb, 1) != sbit(sa, field(pb, 1)), 1)
        | bit(sbit(sb, 2) != sbit(sa, field(pb, 2)), 2) | bit(
        sbit(sb, 3) != sbit(sa, field(pb, 3)),
        3,
    )
}

/// Signs of the transpose of `(p, s)`.
pub open spec fn inverse_signs(s: u8, p: u8) -> u8 {
    bit(sbit(s, preimage(p, 0)), 0) | bit(sbit(s, preimage(p, 1)), 1) | bit(
        sbit(s, preimage(p, 2)),
        2,
    ) | bit(sbit(s, preimage(p, 3)), 3)
}

/// Number of the rotation with permutation `p` and signs `s`.
pub open spec fn encode(p: u8, s: u8) -> u8 {
    (rank(p) * 8 + (s & 7)) as u8
}

/// Permutation of rotation number `id`.
pub open spec fn elem_perm(id: u8) -> u8 {
    unrank(id / 8)
}

/// Column signs of rotation number `id`.
pub open spec fn elem_signs(id: u8) -> u8 {
    let low = id % 8;
    let s3 = parity(elem_perm(id)) != ((sbit(low, 0) != sbit(low, 1)) != sbit(low, 2));
    if s3 {
        low | 8
    } else {
        low
    }
}

/// Number of the product `a * b`.
#[verifier::opaque]
pub open spec fn spec_mul(a: u8, b: u8) -> u8 {
    encode(
        compose(elem_perm(a), elem_perm(b)),
        compose_signs(elem_signs(a), elem_signs(b), elem_perm(b)),
    )
}

/// Number of the inverse of `a`.
#[verifier::opaque]
pub open spec fn spec_inv(a: u8) -> u8 {
    encode(inverse(elem_perm(a)), inverse_signs(elem_signs(a), elem_perm(a)))
}

/// ID of the grip that rotation `e` sends grip `g` to.
pub open spec fn spec_mul_grip(e: u8, g: u8) -> u8 {
    let axis = g / 2;
    let negative = g % 2 == 1;
    let new_axis = field(elem_perm(e), axis);
    let new_negative = sbit(elem_signs(e), axis) != negative;
    (new_axis * 2 + (if new_negative {
        1u8
    } else {
        0u8
    })) as u8
}

/// Element of the rotation group of the hypercube, identified by its number
/// (see the module documentation). Only numbers below
/// [`crate::group::ELEM_COUNT`] are elements.
#[derive(Debug, Default, Copy, Clone, PartialEq, Eq, Structural, Hash, PartialOrd, Ord)]
pub struct ElemId(pub u8);

/// ID of the identity element.
pub const IDENT_ID: u8 = 0;

/// ID of the quarter turn that carries +X to +Y.
pub const XY_ID: u8 = 50;
/// ID of the quarter turn that carries +X to +Z.
pub const XZ_ID: u8 = 116;
/// ID of the quarter turn that carries +X to +W.
pub const XW_ID: u8 = 168;
/// ID of the quarter turn that carries +Y to +X.
pub const YX_ID: u8 = 49;
/// ID of the quarter turn that carries +Z to +X.
pub const ZX_ID: u8 = 113;
/// ID of the quarter turn that carries +W to +X.
pub const WX_ID: u8 = 169;
/// ID of the quarter turn that carries +Y to +Z.
pub const YZ_ID: u8 = 20;
/// ID of the quarter turn that carries +Y to +W.
pub const YW_ID: u8 = 40;
/// ID of the quarter turn that carries +Z to +Y.
pub const ZY_ID: u8 = 18;
/// ID of the quarter turn that carries +W to +Y.
pub const WY_ID: u8 = 42;
/// ID of the quarter turn that carries +Z to +W.
pub const ZW_ID: u8 = 8;
/// ID of the quarter turn that carries +W to +Z.
pub const WZ_ID: u8 = 12;

/// The identity element.
pub open spec fn spec_ident() -> ElemId {
    ElemId(0)
}

/// Every rotation number decodes to a permutation and four signs, and the
/// transpose of a rotation is again a rotation.
pub proof fn lemma_elem(a: u8)
    by (bit_vector)
    requires
        a < 192,
    ensures
        is_perm(elem_perm(a)),
        elem_signs(a) < 16,
        rank(inverse(elem_perm(a))) < 24,
{
}

/// The product of two rotations is a rotation.
pub proof fn lemma_mul_closed(a: u8, b: u8)
    by (bit_vector)
    requires
        a < 192,
        b < 192,
    ensures
        rank(compose(elem_perm(a), elem_perm(b))) < 24,
{
}

/// Rotations send grips to grips.
pub proof fn lemma_grip_action(e: u8, g: u8)
    by (bit_vector)
    requires
        e < 192,
        g < 8,
    ensures
        spec_mul_grip(e, g) < 8,
{
}

proof fn lemma_field_bounds(p: u8)
    by (bit_vector)
    ensures
        p & 3 < 4,
        (p >> 2u8) & 3 < 4,
        (p >> 4u8) & 3 < 4,
        (p >> 6u8) & 3 < 4,
{
}

pub(crate) fn exec_field(p: u8, j: u8) -> (f: u8)
    ensures
        f == field(p, j),
        f < 4,
{
    proof {
        lemma_field_bounds(p);
    }
    if j == 0 {
        p & 3
    } else if j == 1 {
        (p >> 2u8) & 3
    } else if j == 2 {
        (p >> 4u8) & 3
    } else {
        (p >> 6u8) & 3
    }
}

pub(crate) fn exec_pack(a: u8, b: u8, c: u8, d: u8) -> (p: u8)
    ensures
        p == pack(a, b, c, d),
{
    a | (b << 2u8) | (c << 4u8) | (d << 6u8)
}

pub(crate) fn exec_unrank(r: u8) -> (p: u8)
    ensures
        p == unrank(r),
{
    let f0 = r / 6;
    let m = r % 6;
    let r1 = m / 2;
    let r2 = m % 2;
    let f1 = if r1 >= f0 {
        r1 + 1
    } else {
        r1
    };
    let lo = if f0 < f1 {
        f0
    } else {
        f1
    };
    let hi = if f0 < f1 {
        f1
    } else {
        f0
    };
    let c1 = if r2 >= lo {
        r2 + 1
    } else {
        r2
    };
    let f2 = if c1 >= hi {
        c1 + 1
    } else {
        c1
    };
    proof {
        reveal(unrank);
    }
    exec_pack(f0, f1, f2, f0 ^ f1 ^ f2)
}

pub(crate) fn exec_gt(a: u8, b: u8) -> (g: u8)
    ensures
        g == gt(a, b),
{
    if a > b {
        1
    } else {
        0
    }
}

pub(crate) fn exec_rank(p: u8) -> (r: u8)
    ensures
        r == rank(p),
{
    let f0 = exec_field(p, 0);
    let f1 = exec_field(p, 1);
    let f2 = exec_field(p, 2);
    let g20 = exec_gt(f2, f0);
    let g21 = exec_gt(f2, f1);
    let r2 = if f2 >= g20 + g21 {
        f2 - g20 - g21
    } else {
        0
    };
    f0 * 6 + (f1 - exec_gt(f1, f0)) * 2 + r2
}

pub(crate) fn exec_parity(p: u8) -> (b: bool)
    ensures
        b == parity(p),
{
    let f0 = exec_field(p, 0);
    let f1 = exec_field(p, 1);
    let f2 = exec_field(p, 2);
    let f3 = exec_field(p, 3);
    proof {
        reveal(parity);
    }
    ((f0 > f1) != (f0 > f2)) != (((f0 > f3) != (f1 > f2)) != ((f1 > f3) != (f2 > f3)))
}

pub(crate) fn exec_sbit(s: u8, j: u8) -> (b: bool)
    requires
        j < 8,
    ensures
        b == sbit(s, j),
{
    (s >> j) & 1 == 1
}

pub(crate) fn exec_bit(b: bool, j: u8) -> (r: u8)
    requires
        j < 8,
    ensures
        r == bit(b, j),
{
    if b {
        1u8 << j
    } else {
        0
    }
}

pub(crate) fn exec_compose(p: u8, q: u8) -> (r: u8)
    ensures
        r == compose(p, q),
{
    let q0 = exec_field(q, 0);
    let q1 = exec_field(q, 1);
    let q2 = exec_field(q, 2);
    let q3 = exec_field(q, 3);
    exec_pack(exec_field(p, q0), exec_field(p, q1), exec_field(p, q2), exec_field(p, q3))
}

pub(crate) fn exec_preimage(p: u8, k: u8) -> (j: u8)
    ensures
        j == preimage(p, k),
        j < 4,
{
    if exec_field(p, 0) == k {
        0
    } else if exec_field(p, 1) == k {
        1
    } else if exec_field(p, 2) == k {
        2
    } else {
        3
    }
}

pub(crate) fn exec_elem_perm(id: u8) -> (p: u8)
    ensures
        p == elem_perm(id),
{
    exec_unrank(id / 8)
}

pub(crate) fn exec_elem_signs(id: u8) -> (s: u8)
    ensures
        s == elem_signs(id),
{
    let low = id % 8;
    let s3 = exec_parity(exec_elem_perm(id)) != ((exec_sbit(low, 0) != exec_sbit(low, 1))
        != exec_sbit(low, 2));
    if s3 {
        low | 8
    } else {
        low
    }
}

pub(crate) fn exec_encode(p: u8, s: u8) -> (id: u8)
    requires
        rank(p) < 24,
    ensures
        id == encode(p, s),
        id < 192,
{
    let r = exec_rank(p);
    proof {
        assert(s & 7 <= 7) by (bit_vector);
    }
    r * 8 + (s & 7)
}

/// Coordinate `k` of the image of `v` under the signed permutation
/// `(p, s)`: coordinate `j` of `v` lands on coordinate `field(p, j)`,
/// negated when column `j` is.
pub open spec fn rotate_coord(p: u8, s: u8, v: Vec4, k: u8) -> int {
    if sbit(s, preimage(p, k)) {
        -v.at(preimage(p, k) as int)
    } else {
        v.at(preimage(p, k) as int)
    }
}

/// Image of `v` under the signed permutation `(p, s)`.
pub open spec fn rotate_vec(p: u8, s: u8, v: Vec4) -> Vec4 {
    Vec4 {
        x: rotate_coord(p, s, v, 0) as i8,
        y: rotate_coord(p, s, v, 1) as i8,
        z: rotate_coord(p, s, v, 2) as i8,
        w: rotate_coord(p, s, v, 3) as i8,
    }
}

/// Coordinate `k` of the image of `v` under the rotation `(p, s)`.
fn image_coord(p: u8, s: u8, v: &Vec4, k: u8) -> (c: i8)
    requires
        k < 4,
        v.bounded(-127, 127),
    ensures
        c == rotate_coord(p, s, *v, k),
        -127 <= c <= 127,
{
    let j = exec_preimage(p, k);
    let c = v.get(j as usize);
    if exec_sbit(s, j) {
        -c
    } else {
        c
    }
}

impl ElemId {
    /// The identity element.
    pub fn ident() -> (e: Self)
        ensures
            e == spec_ident(),
    {
        ElemId(IDENT_ID)
    }

    /// The ID denotes an element of the group.
    pub open spec fn wf(self) -> bool {
        self.0 < 192
    }

    /// Entry of the matrix of this rotation in row `row`, column `col`.
    pub open spec fn entry(self, row: int, col: int) -> int {
        if field(elem_perm(self.0), col as u8) as int == row {
            if sbit(elem_signs(self.0), col as u8) {
                -1
            } else {
                1
            }
        } else {
            0
        }
    }

    /// The product `self * rhs`, as a number.
    pub open spec fn spec_times(self, rhs: ElemId) -> ElemId {
        ElemId(spec_mul(self.0, rhs.0))
    }

    pub open spec fn spec_inverse(self) -> ElemId {
        ElemId(spec_inv(self.0))
    }

    /// The grip this rotation sends `g` to.
    pub open spec fn spec_times_grip(self, g: GripId) -> GripId {
        grip_of(spec_mul_grip(self.0, g.spec_id()) as int)
    }

    /// The image of `v` under this rotation.
    pub open spec fn spec_times_vec(self, v: Vec4) -> Vec4 {
        rotate_vec(elem_perm(self.0), elem_signs(self.0), v)
    }

    /// Whether this rotation fixes `v`.
    pub open spec fn fixes_vec(self, v: Vec4) -> bool {
        self.spec_times_vec(v) == v
    }

    /// Whether this rotation fixes grip `g`.
    pub open spec fn fixes_grip(self, g: GripId) -> bool {
        self.spec_times_grip(g) == g
    }

    /// Returns the inverse element.
    pub fn inv(self) -> (r: ElemId)
        requires
            self.wf(),
        ensures
            r == self.spec_inverse(),
            r.wf(),
    {
        proof {
            lemma_elem(self.0);
            reveal(spec_inv);
        }
        let p = exec_elem_perm(self.0);
        let s = exec_elem_signs(self.0);
        let q = exec_pack(
            exec_preimage(p, 0),
            exec_preimage(p, 1),
            exec_preimage(p, 2),
            exec_preimage(p, 3),
        );
        let t = exec_bit(exec_sbit(s, exec_preimage(p, 0)), 0) | exec_bit(
            exec_sbit(s, exec_preimage(p, 1)),
            1,
        ) | exec_bit(exec_sbit(s, exec_preimage(p, 2)), 2) | exec_bit(
            exec_sbit(s, exec_preimage(p, 3)),
            3,
        );
        ElemId(exec_encode(q, t))
    }

    /// Returns the product `self * rhs`: first `rhs`, then `self`.
    pub fn mul(self, rhs: ElemId) -> (r: ElemId)
        requires
            self.wf(),
            rhs.wf(),
        ensures
            r == self.spec_times(rhs),
            r.wf(),
    {
        proof {
            lemma_mul_closed(self.0, rhs.0);
            reveal(spec_mul);
        }
        let pa = exec_elem_perm(self.0);
        let pb = exec_elem_perm(rhs.0);
        let sa = exec_elem_signs(self.0);
        let sb = exec_elem_signs(rhs.0);
        let q0 = exec_field(pb, 0);
        let q1 = exec_field(pb, 1);
        let q2 = exec_field(pb, 2);
        let q3 = exec_field(pb, 3);
        let p = exec_compose(pa, pb);
        let t = exec_bit(exec_sbit(sb, 0) != exec_sbit(sa, q0), 0) | exec_bit(
            exec_sbit(sb, 1) != exec_sbit(sa, q1),
            1,
        ) | exec_bit(exec_sbit(sb, 2) != exec_sbit(sa, q2), 2) | exec_bit(
            exec_sbit(sb, 3) != exec_sbit(sa, q3),
            3,
        );
        ElemId(exec_encode(p, t))
    }

    /// Returns the grip that this rotation sends `g` to.
    pub fn mul_grip(self, g: GripId) -> (r: GripId)
        requires
            self.wf(),
        ensures
            r == self.spec_times_grip(g),
    {
        proof {
            lemma_grip_action(self.0, g.spec_id());
        }
        let gid = g.id();
        let axis = gid / 2;
        let negative = gid % 2 == 1;
        let new_axis = exec_field(exec_elem_perm(self.0), axis);
        let new_negative = exec_sbit(exec_elem_signs(self.0), axis) != negative;
        GripId::new(new_axis * 2 + if new_negative {
            1u8
        } else {
            0u8
        })
    }

    /// Returns the image of `v` under this rotation.
    ///
    /// Coordinates of `v` must be above `i8::MIN`, since they may be
    /// negated.
    pub fn mul_vec(self, v: Vec4) -> (r: Vec4)
        requires
            self.wf(),
            v.bounded(-127, 127),
        ensures
            r == self.spec_times_vec(v),
            r.bounded(-127, 127),
    {
        proof {
            lemma_elem(self.0);
        }
        let p = exec_elem_perm(self.0);
        let s = exec_elem_signs(self.0);
        Vec4 {
            x: image_coord(p, s, &v, 0),
            y: image_coord(p, s, &v, 1),
            z: image_coord(p, s, &v, 2),
            w: image_coord(p, s, &v, 3),
        }
    }

    /// Conjugates `obj` by this element.
    pub fn transform<T: TransformByElem>(self, obj: T) -> (r: T)
        requires
            self.wf(),
            obj.transformable(),
        ensures
            r == obj.spec_transform_by(self),
    {
        obj.transform_by(self)
    }

    /// Constructs an element from an ID, which must be less than
    /// [`crate::group::ELEM_COUNT`].
    pub fn new(id: u8) -> (e: Self)
        requires
            id < 192,
        ensures
            e == ElemId(id),
    {
        Self(id)
    }

    /// Returns the internal ID.
    pub fn id(self) -> (id: u8)
        ensures
            id == self.0,
    {
        self.0
    }

    /// Returns the element with ID `id`, or `None` if there is none.
    pub fn from_id(id: u8) -> (e: Option<Self>)
        ensures
            id < 192 ==> e == Some(ElemId(id)),
            id >= 192 ==> e.is_none(),
    {
        if id < 192 {
            Some(Self(id))
        } else {
            None
        }
    }

    /// Whether two elements are the same.
    pub fn equals(self, other: ElemId) -> (b: bool)
        ensures
            b == (self == other),
    {
        self.0 == other.0
    }
}

/// Things that rotations of the hypercube act on by conjugation.
pub trait TransformByElem: Sized {
    /// Whether the value is one that rotations can act on.
    spec fn transformable(&self) -> bool;

    /// The value conjugated by `elem`.
    spec fn spec_transform_by(self, elem: ElemId) -> Self;

    fn transform_by(self, elem: ElemId) -> (r: Self)
        requires
            elem.wf(),
            self.transformable(),
        ensures
            r == self.spec_transform_by(elem),
    ;
}

impl TransformByElem for ElemId {
    open spec fn transformable(&self) -> bool {
        self.wf()
    }

    open spec fn spec_transform_by(self, elem: ElemId) -> Self {
        elem.spec_times(self).spec_times(elem.spec_inverse())
    }

    fn transform_by(self, elem: ElemId) -> (r: Self) {
        let inv = elem.inv();
        elem.mul(self).mul(inv)
    }
}

} // verus!
