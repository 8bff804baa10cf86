//! The eight grips (cells) of the 3x3x3x3 and the rotations that fix them.
use vstd::prelude::*;

use crate::elements::{spec_ident, ElemId};
use crate::group::fixes_vector;
use crate::space::Vec4;

verus! {

/// One of the eight cells of the hypercube.
///
/// `R`/`L` point along ±X, `U`/`D` along ±Y, `F`/`B` along ±Z and `O`/`I`
/// along ±W. The ID of a grip is `2 * axis`, plus one for the negative
/// direction.
#[derive(Debug, Default, Copy, Clone, PartialEq, Eq, Structural, Hash, PartialOrd, Ord)]
pub enum GripId {
    #[default]
    R,
    L,
    U,
    D,
    F,
    B,
    O,
    I,
}

pub use GripId::{B, D, F, I, L, O, R, U};

/// All eight grips, in ID order.
pub const HYPERCUBE_GRIPS: [GripId; 8] = [R, L, U, D, F, B, O, I];

/// All eight grips, in ID order.
pub open spec fn hypercube_grips() -> Seq<GripId> {
    seq![R, L, U, D, F, B, O, I]
}

/// The six grips of an ordinary cube.
pub const CUBE_GRIPS: [GripId; 6] = [R, L, U, D, F, B];

/// The grip with a given ID (only meaningful below 8).
pub open spec fn grip_of(id: int) -> GripId {
    if id == 0 {
        R
    } else if id == 1 {
        L
    } else if id == 2 {
        U
    } else if id == 3 {
        D
    } else if id == 4 {
        F
    } else if id == 5 {
        B
    } else if id == 6 {
        O
    } else {
        I
    }
}

impl GripId {
    /// ID of the grip, from 0 to 7.
    pub open spec fn spec_id(self) -> u8 {
        match self {
            R => 0,
            L => 1,
            U => 2,
            D => 3,
            F => 4,
            B => 5,
            O => 6,
            I => 7,
        }
    }

    /// Axis the grip points along.
    pub open spec fn spec_axis(self) -> int {
        self.spec_id() as int / 2
    }

    /// Whether the grip points in the negative direction of its axis.
    pub open spec fn is_negative(self) -> bool {
        self.spec_id() % 2 == 1
    }

    /// +1 or -1, the direction of the grip along its axis.
    pub open spec fn spec_signum(self) -> int {
        if self.is_negative() {
            -1
        } else {
            1
        }
    }

    /// Unit vector pointing at the grip.
    pub open spec fn spec_vec(self) -> Vec4 {
        let s = self.spec_signum() as i8;
        let a = self.spec_axis();
        Vec4 {
            x: if a == 0 { s } else { 0 },
            y: if a == 1 { s } else { 0 },
            z: if a == 2 { s } else { 0 },
            w: if a == 3 { s } else { 0 },
        }
    }

    pub proof fn lemma_id_roundtrip(self)
        ensures
            self.spec_id() < 8,
            grip_of(self.spec_id() as int) == self,
    {
    }

    pub proof fn lemma_of_id(id: int)
        requires
            0 <= id < 8,
        ensures
            grip_of(id).spec_id() == id,
    {
    }

    pub fn id(self) -> (id: u8)
        ensures
            id == self.spec_id(),
    {
        match self {
            R => 0,
            L => 1,
            U => 2,
            D => 3,
            F => 4,
            B => 5,
            O => 6,
            I => 7,
        }
    }

    pub fn axis(self) -> (axis: usize)
        ensures
            axis == self.spec_axis(),
            axis < 4,
    {
        (self.id() / 2) as usize
    }

    pub fn signum(self) -> (s: i8)
        ensures
            s == self.spec_signum(),
    {
        if self.id() % 2 == 0 {
            1
        } else {
            -1
        }
    }

    /// Returns the positive and negative grip on `axis`.
    pub fn pair_on_axis(axis: usize) -> (pair: [Self; 2])
        requires
            axis < 4,
        ensures
            pair[0].spec_axis() == axis,
            !pair[0].is_negative(),
            pair[1] == pair[0].spec_opposite(),
    {
        let g1 = Self::new((axis as u8) * 2);
        [g1, g1.opposite()]
    }

    /// Constructs a grip from an ID, which must be less than 8.
    pub fn new(id: u8) -> (g: Self)
        requires
            id < 8,
        ensures
            g == grip_of(id as int),
            g.spec_id() == id,
    {
        match Self::try_new(id) {
            Some(g) => g,
            None => R,
        }
    }

    /// Constructs a grip from an ID, or returns `None` if `id` is not less
    /// than 8.
    pub fn try_new(id: u8) -> (g: Option<Self>)
        ensures
            id < 8 ==> g == Some(grip_of(id as int)),
            id >= 8 ==> g.is_none(),
    {
        match id {
            0 => Some(R),
            1 => Some(L),
            2 => Some(U),
            3 => Some(D),
            4 => Some(F),
            5 => Some(B),
            6 => Some(O),
            7 => Some(I),
            _ => None,
        }
    }

    /// The grip on the other side of the same axis.
    pub open spec fn spec_opposite(self) -> GripId {
        grip_of(if self.spec_id() % 2 == 0 {
            self.spec_id() + 1
        } else {
            self.spec_id() - 1
        })
    }

    pub fn opposite(self) -> (g: Self)
        ensures
            g == self.spec_opposite(),
            g.spec_axis() == self.spec_axis(),
            g.is_negative() != self.is_negative(),
    {
        match self {
            R => L,
            L => R,
            U => D,
            D => U,
            F => B,
            B => F,
            O => I,
            I => O,
        }
    }

    /// The letter naming the grip.
    pub open spec fn spec_char(self) -> char {
        match self {
            R => 'R',
            L => 'L',
            U => 'U',
            D => 'D',
            F => 'F',
            B => 'B',
            O => 'O',
            I => 'I',
        }
    }

    pub fn char(self) -> (c: char)
        ensures
            c == self.spec_char(),
    {
        match self {
            R => 'R',
            L => 'L',
            U => 'U',
            D => 'D',
            F => 'F',
            B => 'B',
            O => 'O',
            I => 'I',
        }
    }

    /// Returns the unit vector pointing at the grip.
    pub fn vec(self) -> (v: Vec4)
        ensures
            v == self.spec_vec(),
    {
        let s = self.signum();
        let a = self.axis();
        Vec4 {
            x: if a == 0 { s } else { 0 },
            y: if a == 1 { s } else { 0 },
            z: if a == 2 { s } else { 0 },
            w: if a == 3 { s } else { 0 },
        }
    }

    /// Returns the elements of `subgroup`, other than the identity, that fix
    /// this grip's vector, in their order in `subgroup`.
    pub fn transforms(self, subgroup: &[ElemId]) -> (ret: Vec<ElemId>)
        requires
            forall|k: int| 0 <= k < subgroup@.len() ==> (#[trigger] subgroup@[k]).wf(),
        ensures
            ret@ == subgroup@.filter(|e: ElemId| e.fixes_vec(self.spec_vec()) && e != spec_ident()),
    {
        let v = self.vec();
        let mut ret: Vec<ElemId> = Vec::new();
        let mut k: usize = 0;
        while k < subgroup.len()
            invariant
                0 <= k <= subgroup@.len(),
                forall|i: int| 0 <= i < subgroup@.len() ==> (#[trigger] subgroup@[i]).wf(),
                v == self.spec_vec(),
                ret@ == subgroup@.take(k as int).filter(
                    |e: ElemId| e.fixes_vec(self.spec_vec()) && e != spec_ident(),
                ),
            decreases subgroup.len() - k,
        {
            proof {
                reveal_with_fuel(Seq::filter, 1);
                assert(subgroup@.take(k + 1).drop_last() == subgroup@.take(k as int));
            }
            let e = subgroup[k];
            if fixes_vector(e, v) && !e.equals(ElemId::ident()) {
                ret.push(e);
            }
            k += 1;
        }
        proof {
            assert(subgroup@.take(subgroup@.len() as int) == subgroup@);
        }
        ret
    }

    /// Whether a twist of this grip can carry `start` to `end`, i.e. whether
    /// this grip is on neither of their axes.
    pub fn can_transform_grip_to_grip(self, start: GripId, end: GripId) -> (b: bool)
        ensures
            b == (self.spec_axis() != start.spec_axis() && self.spec_axis() != end.spec_axis()),
    {
        self.axis() != start.axis() && self.axis() != end.axis()
    }
}

} // verus!
