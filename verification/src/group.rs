//! The rotation group of the hypercube, and the tables of its actions.
use vstd::prelude::*;

use crate::elements::ElemId;
use crate::grips::{grip_of, GripId, R};
use crate::space::{unit, unit_vec, Mat4, Vec4};

verus! {

/// Number of rotations of the hypercube.
pub const ELEM_COUNT: usize = 192;

/// Row `row` of the product of `a` and `v`.
pub open spec fn vecmul_at(a: Mat4, v: Vec4, row: int) -> int {
    a.entry(row, 0) * v.at(0) + a.entry(row, 1) * v.at(1) + a.entry(row, 2) * v.at(2) + a.entry(
        row,
        3,
    ) * v.at(3)
}

/// The product of `a` and `v` fits in the coordinates of a [`Vec4`].
pub open spec fn vecmul_fits(a: Mat4, v: Vec4) -> bool {
    forall|row: int| 0 <= row < 4 ==> -128 <= #[trigger] vecmul_at(a, v, row) <= 127
}

/// The product `a * b` fits in the entries of a [`Mat4`].
pub open spec fn matmul_fits(a: Mat4, b: Mat4) -> bool {
    forall|col: int| 0 <= col < 4 ==> vecmul_fits(a, #[trigger] b.col(col))
}

fn mul_i8(a: i8, b: i8) -> (r: i32)
    ensures
        r == a * b,
        -16384 <= r <= 16384,
{
    proof {
        assert(-16384 <= (a as int) * (b as int) <= 16384) by (nonlinear_arith)
            requires
                -128 <= a <= 127,
                -128 <= b <= 127,
        ;
    }
    (a as i32) * (b as i32)
}

fn vecmul_row(a: &Mat4, v: &Vec4, row: usize) -> (r: i32)
    requires
        row < 4,
    ensures
        r == vecmul_at(*a, *v, row as int),
{
    mul_i8(a.x.get(row), v.x) + mul_i8(a.y.get(row), v.y) + mul_i8(a.z.get(row), v.z) + mul_i8(
        a.w.get(row),
        v.w,
    )
}

/// Multiplies a matrix by a vector.
pub fn vecmul(a: Mat4, b: Vec4) -> (r: Vec4)
    requires
        vecmul_fits(a, b),
    ensures
        forall|row: int| 0 <= row < 4 ==> r.at(row) == vecmul_at(a, b, row),
{
    let x = vecmul_row(&a, &b, 0);
    let y = vecmul_row(&a, &b, 1);
    let z = vecmul_row(&a, &b, 2);
    let w = vecmul_row(&a, &b, 3);
    proof {
        assert(-128 <= vecmul_at(a, b, 0) <= 127);
        assert(-128 <= vecmul_at(a, b, 1) <= 127);
        assert(-128 <= vecmul_at(a, b, 2) <= 127);
        assert(-128 <= vecmul_at(a, b, 3) <= 127);
    }
    Vec4 { x: x as i8, y: y as i8, z: z as i8, w: w as i8 }
}

/// Multiplies two matrices.
pub fn matmul(a: Mat4, b: Mat4) -> (r: Mat4)
    requires
        matmul_fits(a, b),
    ensures
        forall|row: int, col: int|
            0 <= row < 4 && 0 <= col < 4 ==> r.entry(row, col) == vecmul_at(a, b.col(col), row),
{
    proof {
        assert(vecmul_fits(a, b.col(0)));
        assert(vecmul_fits(a, b.col(1)));
        assert(vecmul_fits(a, b.col(2)));
        assert(vecmul_fits(a, b.col(3)));
    }
    Mat4 { x: vecmul(a, b.x), y: vecmul(a, b.y), z: vecmul(a, b.z), w: vecmul(a, b.w) }
}

/// Returns whether `e` fixes `v`.
pub fn fixes_vector(e: ElemId, v: Vec4) -> (b: bool)
    requires
        e.wf(),
        v.bounded(-127, 127),
    ensures
        b == e.fixes_vec(v),
{
    e.mul_vec(v).equals(&v)
}

/// Returns the elements of `group` that fix `v`, in order.
pub fn stabilizer(group: &[ElemId], v: Vec4) -> (ret: Vec<ElemId>)
    requires
        forall|k: int| 0 <= k < group@.len() ==> (#[trigger] group@[k]).wf(),
        v.bounded(-127, 127),
    ensures
        ret@ == group@.filter(|e: ElemId| e.fixes_vec(v)),
{
    let mut ret: Vec<ElemId> = Vec::new();
    let mut k: usize = 0;
    while k < group.len()
        invariant
            0 <= k <= group@.len(),
            forall|i: int| 0 <= i < group@.len() ==> (#[trigger] group@[i]).wf(),
            v.bounded(-127, 127),
            ret@ == group@.take(k as int).filter(|e: ElemId| e.fixes_vec(v)),
        decreases group.len() - k,
    {
        proof {
            reveal_with_fuel(Seq::filter, 1);
            assert(group@.take(k + 1).drop_last() == group@.take(k as int));
        }
        let e = group[k];
        if fixes_vector(e, v) {
            ret.push(e);
        }
        k += 1;
    }
    proof {
        assert(group@.take(group@.len() as int) == group@);
    }
    ret
}

/// All the rotations of the hypercube, in ID order.
pub open spec fn all_elems() -> Seq<ElemId> {
    Seq::new(192, |i: int| ElemId(i as u8))
}

/// Returns every rotation of the hypercube, in ID order.
pub fn hypercube_rotations() -> (ret: Vec<ElemId>)
    ensures
        ret@ == all_elems(),
{
    let mut ret: Vec<ElemId> = Vec::new();
    let mut i: u8 = 0;
    while i < 192
        invariant
            0 <= i <= 192,
            ret@ == all_elems().take(i as int),
        decreases 192 - i,
    {
        ret.push(ElemId(i));
        proof {
            assert(all_elems().take(i + 1) == all_elems().take(i as int).push(ElemId(i)));
        }
        i += 1;
    }
    proof {
        assert(all_elems().take(192) == all_elems());
    }
    ret
}

/// Returns the rotations that fix `v`, in ID order.
pub fn vector_stabilizer(v: Vec4) -> (ret: Vec<ElemId>)
    requires
        v.bounded(-127, 127),
    ensures
        ret@ == all_elems().filter(|e: ElemId| e.fixes_vec(v)),
{
    let all = hypercube_rotations();
    stabilizer(all.as_slice(), v)
}

/// Returns the rotations that fix both `v1` and `v2`, in ID order.
pub fn plane_stabilizer(v1: Vec4, v2: Vec4) -> (ret: Vec<ElemId>)
    requires
        v1.bounded(-127, 127),
        v2.bounded(-127, 127),
    ensures
        ret@ == all_elems().filter(|e: ElemId| e.fixes_vec(v1)).filter(
            |e: ElemId| e.fixes_vec(v2),
        ),
{
    let first = vector_stabilizer(v1);
    proof {
        assert forall|k: int| 0 <= k < first@.len() implies (#[trigger] first@[k]).wf() by {
            lemma_filter_wf(all_elems(), |e: ElemId| e.fixes_vec(v1), k);
        }
    }
    stabilizer(first.as_slice(), v2)
}

proof fn lemma_filter_wf(s: Seq<ElemId>, pred: spec_fn(ElemId) -> bool, k: int)
    requires
        s == all_elems(),
        0 <= k < s.filter(pred).len(),
    ensures
        s.filter(pred)[k].wf(),
{
    let x = s.filter(pred)[k];
    assert(s.filter(pred).contains(x));
    s.lemma_filter_contains_rev(pred, x);
    let i = choose|i: int| 0 <= i < s.len() && s[i] == x;
}

/// Returns the rotations of an ordinary cube, as the rotations of the
/// hypercube that fix the W axis.
pub fn cube_rotations() -> (ret: Vec<ElemId>)
    ensures
        ret@ == all_elems().filter(|e: ElemId| e.fixes_vec(unit(3))),
{
    vector_stabilizer(unit_vec(3))
}

/// Lookup tables for the action of the rotation group.
pub struct Group {
    pub inv_elem: [ElemId; ELEM_COUNT],
    pub mul_elem_elem: [[ElemId; ELEM_COUNT]; ELEM_COUNT],
    pub mul_elem_vec: [[Vec4; 4]; ELEM_COUNT],
    pub mul_elem_grip: [[GripId; 8]; ELEM_COUNT],
}

impl Group {
    /// The tables agree with the group operations.
    pub open spec fn tabulates(&self) -> bool {
        &&& forall|a: int| #![trigger self.inv_elem[a]]
            0 <= a < 192 ==> self.inv_elem[a] == ElemId(a as u8).spec_inverse()
        &&& forall|a: int, b: int|
            0 <= a < 192 && 0 <= b < 192 ==> #[trigger] self.mul_elem_elem[a][b] == ElemId(
                a as u8,
            ).spec_times(ElemId(b as u8))
        &&& forall|a: int, k: int|
            0 <= a < 192 && 0 <= k < 4 ==> #[trigger] self.mul_elem_vec[a][k] == ElemId(
                a as u8,
            ).spec_times_vec(unit(k))
        &&& forall|a: int, g: int|
            0 <= a < 192 && 0 <= g < 8 ==> #[trigger] self.mul_elem_grip[a][g] == ElemId(
                a as u8,
            ).spec_times_grip(grip_of(g))
    }

    /// Tabulates the inverse of each rotation, the product of each pair,
    /// the image of each axis and the image of each grip.
    pub fn bc4() -> (g: Self)
        ensures
            g.tabulates(),
    {
        let mut inv_elem = [ElemId(0); ELEM_COUNT];
        let mut mul_elem_elem = [[ElemId(0); ELEM_COUNT]; ELEM_COUNT];
        let mut mul_elem_vec = [[Vec4::zero(); 4]; ELEM_COUNT];
        let mut mul_elem_grip = [[R; 8]; ELEM_COUNT];
        let mut a: usize = 0;
        while a < ELEM_COUNT
            invariant
                0 <= a <= 192,
                forall|i: int| #![trigger inv_elem[i]]
                    0 <= i < a ==> inv_elem[i] == ElemId(i as u8).spec_inverse(),
                forall|i: int, j: int|
                    0 <= i < a && 0 <= j < 192 ==> #[trigger] mul_elem_elem[i][j] == ElemId(
                        i as u8,
                    ).spec_times(ElemId(j as u8)),
                forall|i: int, k: int|
                    0 <= i < a && 0 <= k < 4 ==> #[trigger] mul_elem_vec[i][k] == ElemId(
                        i as u8,
                    ).spec_times_vec(unit(k)),
                forall|i: int, h: int|
                    0 <= i < a && 0 <= h < 8 ==> #[trigger] mul_elem_grip[i][h] == ElemId(
                        i as u8,
                    ).spec_times_grip(grip_of(h)),
            decreases 192 - a,
        {
            let e = ElemId(a as u8);
            inv_elem[a] = e.inv();

            let mut row = [ElemId(0); ELEM_COUNT];
            let mut b: usize = 0;
            while b < ELEM_COUNT
                invariant
                    0 <= b <= 192,
                    a < 192,
                    e == ElemId(a as u8),
                    forall|j: int|
                        0 <= j < b ==> #[trigger] row[j] == e.spec_times(ElemId(j as u8)),
                decreases 192 - b,
            {
                row[b] = e.mul(ElemId(b as u8));
                b += 1;
            }
            mul_elem_elem[a] = row;

            let mut cols = [Vec4::zero(); 4];
            let mut k: usize = 0;
            while k < 4
                invariant
                    0 <= k <= 4,
                    a < 192,
                    e == ElemId(a as u8),
                        forall|j: int| 0 <= j < k ==> #[trigger] cols[j] == e.spec_times_vec(unit(j)),
                decreases 4 - k,
            {
                cols[k] = e.mul_vec(unit_vec(k));
                k += 1;
            }
            mul_elem_vec[a] = cols;

            let mut grips = [R; 8];
            let mut h: usize = 0;
            while h < 8
                invariant
                    0 <= h <= 8,
                    a < 192,
                    e == ElemId(a as u8),
                    forall|j: int|
                        0 <= j < h ==> #[trigger] grips[j] == e.spec_times_grip(grip_of(j)),
                decreases 8 - h,
            {
                grips[h] = e.mul_grip(GripId::new(h as u8));
                h += 1;
            }
            mul_elem_grip[a] = grips;
            a += 1;
        }
        Group { inv_elem, mul_elem_elem, mul_elem_vec, mul_elem_grip }
    }
}

} // verus!
