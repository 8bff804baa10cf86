//! Twists of the 3x3x3x3 and their names.
//!
//! A twist turns one cell (grip) by a rotation that fixes that cell. It is
//! named by the grip's letter followed by:
//!
//! - nothing, for a side grip (`R`, `L`, `U`, `D`, `F`, `B`): the familiar 3D
//!   move, which turns the cell a quarter clockwise about its own axis and
//!   fixes the W axis;
//! - one grip letter `A`: a quarter turn of the cell about the axis pointing
//!   at `A`;
//! - two letters `AB`: a half turn about the axis through the edge between
//!   `A` and `B`;
//! - three letters `ABC`: a third of a turn about the axis through the
//!   corner of `A`, `B` and `C`, carrying `A` to `B`, `B` to `C` and `C` to
//!   `A`;
//!
//! optionally followed by `'` for the inverse or `2` for the same twist done
//! twice.
use vstd::prelude::*;

use crate::algebra::{
    is_rotation, lemma_decode_encode, lemma_grip_action_law, lemma_grip_inverse, lemma_mul_inv,
    lemma_mul_wf, spec_mul_grip_of,
};
use crate::elements::{
    encode, exec_encode, exec_pack, exec_parity, exec_rank, pack, parity,
    rank, spec_mul_grip, ElemId, TransformByElem,
};
use crate::grips::GripId;
use vstd::string::StrSliceExecFns;

verus! {

/// A twist: a rotation applied to the pieces of one cell.
#[derive(Debug, Copy, Clone, PartialEq, Eq, Structural, Hash, PartialOrd, Ord)]
pub struct Twist {
    pub grip: GripId,
    pub transform: ElemId,
}

impl Twist {
    /// The transform is an element of the group.
    pub open spec fn wf(self) -> bool {
        self.transform.wf()
    }

    /// The twist is well formed and its rotation fixes its own grip, so it
    /// turns the pieces of its cell among themselves.
    pub open spec fn turns_own_cell(self) -> bool {
        self.wf() && self.transform.fixes_grip(self.grip)
    }

    pub open spec fn spec_inv(self) -> Twist {
        Twist { grip: self.grip, transform: self.transform.spec_inverse() }
    }

    /// Returns the twist that undoes this one.
    pub fn inv(self) -> (t: Twist)
        requires
            self.wf(),
        ensures
            t == self.spec_inv(),
            t.wf(),
    {
        Twist { grip: self.grip, transform: self.transform.inv() }
    }
}

impl Default for Twist {
    /// The twist of `R` by the identity.
    fn default() -> (t: Self)
        ensures
            t == (Twist { grip: GripId::R, transform: ElemId(0) }),
    {
        Twist { grip: GripId::R, transform: ElemId::ident() }
    }
}

impl TransformByElem for Twist {
    open spec fn transformable(&self) -> bool {
        self.wf()
    }

    /// The same twist seen after rotating the whole puzzle by `elem`.
    open spec fn spec_transform_by(self, elem: ElemId) -> Self {
        Twist {
            grip: elem.spec_times_grip(self.grip),
            transform: elem.spec_times(self.transform).spec_times(elem.spec_inverse()),
        }
    }

    fn transform_by(self, elem: ElemId) -> (r: Self) {
        let inv = elem.inv();
        Twist { grip: elem.mul_grip(self.grip), transform: elem.mul(self.transform).mul(inv) }
    }
}

/// Sign of a grip as a column sign: whether it points the negative way.
pub open spec fn neg(g: GripId) -> bool {
    g.is_negative()
}

/// The smaller of the two axes other than `a` and `b`.
pub open spec fn other_low(a: u8, b: u8) -> u8 {
    if a != 0 && b != 0 {
        0
    } else if a != 1 && b != 1 {
        1
    } else {
        2
    }
}

/// The larger of the two axes other than `a` and `b`.
pub open spec fn other_high(a: u8, b: u8) -> u8 {
    if a != 3 && b != 3 {
        3
    } else if a != 2 && b != 2 {
        2
    } else {
        1
    }
}

/// The two axes other than `a` and `b`, smaller first.
pub open spec fn other_axes(a: u8, b: u8) -> (u8, u8) {
    (other_low(a, b), other_high(a, b))
}

/// The permutation that exchanges axes `a` and `b`.
pub open spec fn swap_perm(a: u8, b: u8) -> u8 {
    let f = |j: u8|
        if j == a {
            b
        } else if j == b {
            a
        } else {
            j
        };
    pack(f(0), f(1), f(2), f(3))
}

/// The permutation `a -> b -> c -> a`.
pub open spec fn cycle_perm(a: u8, b: u8, c: u8) -> u8 {
    let f = |j: u8|
        if j == a {
            b
        } else if j == b {
            c
        } else if j == c {
            a
        } else {
            j
        };
    pack(f(0), f(1), f(2), f(3))
}

pub open spec fn flag(b: bool, j: u8) -> u8 {
    if b {
        if j == 0 {
            1u8
        } else if j == 1 {
            2u8
        } else if j == 2 {
            4u8
        } else {
            8u8
        }
    } else {
        0
    }
}

/// The rotation with permutation `p` and column signs `s`, provided `p` is
/// a permutation of the four axes.
pub open spec fn from_signed_perm(p: u8, s: u8) -> Option<ElemId> {
    if rank(p) < 24 {
        Some(ElemId(encode(p, s)))
    } else {
        None
    }
}

/// Quarter turn of cell `g` about the axis pointing at `a`: in the plane
/// of the two remaining axes `p < q`, `e_p` goes to `σ e_q` and `e_q` to
/// `-σ e_p`, where `σ` is the product of the signs of `g` and `a` and the
/// sign of the permutation `(axis g, axis a, p, q)`.
pub open spec fn face_elem(g: GripId, a: GripId) -> Option<ElemId> {
    let ga = g.spec_id() / 2;
    let aa = a.spec_id() / 2;
    let (p, q) = other_axes(ga, aa);
    let negative = (neg(g) != neg(a)) != parity(pack(ga, aa, p, q));
    from_signed_perm(swap_perm(p, q), flag(negative, p) | flag(!negative, q))
}

/// Half turn of cell `g` about the axis through the edge of `a` and `b`.
pub open spec fn edge_elem(g: GripId, a: GripId, b: GripId) -> Option<ElemId> {
    let aa = a.spec_id() / 2;
    let ba = b.spec_id() / 2;
    let (p, q) = other_axes(aa, ba);
    let c = if p == g.spec_id() / 2 {
        q
    } else {
        p
    };
    let flip = neg(a) != neg(b);
    from_signed_perm(swap_perm(aa, ba), flag(flip, aa) | flag(flip, ba) | flag(true, c))
}

/// Third of a turn of cell `g` about the axis through the corner of `a`,
/// `b` and `c`, carrying `a` to `b`, `b` to `c` and `c` to `a`.
pub open spec fn vertex_elem(a: GripId, b: GripId, c: GripId) -> Option<ElemId> {
    let aa = a.spec_id() / 2;
    let ba = b.spec_id() / 2;
    let ca = c.spec_id() / 2;
    from_signed_perm(
        cycle_perm(aa, ba, ca),
        flag(neg(a) != neg(b), aa) | flag(neg(b) != neg(c), ba) | flag(neg(c) != neg(a), ca),
    )
}

/// A quarter turn of a cell is a rotation fixing the cell's grip.
proof fn lemma_face_rotation(g: u8, a: u8)
    requires
        g < 8,
        a < 8,
        g / 2 != a / 2,
    ensures
        ({
            let p = other_low(g / 2, a / 2);
            let q = other_high(g / 2, a / 2);
            let negative = ((g % 2 == 1) != (a % 2 == 1)) != parity(pack(g / 2, a / 2, p, q));
            let perm = swap_perm(p, q);
            let signs = flag(negative, p) | flag(!negative, q);
            is_rotation(perm, signs) && spec_mul_grip_of(perm, signs, g) == g
        }),
{
    reveal(parity);
    assert({
        let p = other_low(g / 2, a / 2);
            let q = other_high(g / 2, a / 2);
        let negative = ((g % 2 == 1) != (a % 2 == 1)) != parity(pack(g / 2, a / 2, p, q));
        let perm = swap_perm(p, q);
        let signs = flag(negative, p) | flag(!negative, q);
        is_rotation(perm, signs) && spec_mul_grip_of(perm, signs, g) == g
    }) by (bit_vector)
        requires
            g < 8,
            a < 8,
            g / 2 != a / 2,
    ;
}

/// A half turn of a cell about an edge is a rotation fixing the cell's grip.
proof fn lemma_edge_rotation(g: u8, a: u8, b: u8)
    requires
        g < 8,
        a < 8,
        b < 8,
        g / 2 != a / 2,
        g / 2 != b / 2,
        a / 2 != b / 2,
    ensures
        ({
            let p = other_low(a / 2, b / 2);
            let q = other_high(a / 2, b / 2);
            let c = if p == g / 2 {
                q
            } else {
                p
            };
            let flip = (a % 2 == 1) != (b % 2 == 1);
            let perm = swap_perm(a / 2, b / 2);
            let signs = flag(flip, a / 2) | flag(flip, b / 2) | flag(true, c);
            is_rotation(perm, signs) && spec_mul_grip_of(perm, signs, g) == g
        }),
{
    reveal(parity);
    assert({
        let p = other_low(a / 2, b / 2);
            let q = other_high(a / 2, b / 2);
        let c = if p == g / 2 {
            q
        } else {
            p
        };
        let flip = (a % 2 == 1) != (b % 2 == 1);
        let perm = swap_perm(a / 2, b / 2);
        let signs = flag(flip, a / 2) | flag(flip, b / 2) | flag(true, c);
        is_rotation(perm, signs) && spec_mul_grip_of(perm, signs, g) == g
    }) by (bit_vector)
        requires
            g < 8,
            a < 8,
            b < 8,
            g / 2 != a / 2,
            g / 2 != b / 2,
            a / 2 != b / 2,
    ;
}

/// A third of a turn of a cell about a corner is a rotation fixing the
/// cell's grip.
proof fn lemma_vertex_rotation(g: u8, a: u8, b: u8, c: u8)
    requires
        g < 8,
        a < 8,
        b < 8,
        c < 8,
        g / 2 != a / 2,
        g / 2 != b / 2,
        g / 2 != c / 2,
        a / 2 != b / 2,
        a / 2 != c / 2,
        b / 2 != c / 2,
    ensures
        ({
            let perm = cycle_perm(a / 2, b / 2, c / 2);
            let signs = flag((a % 2 == 1) != (b % 2 == 1), a / 2) | flag(
                (b % 2 == 1) != (c % 2 == 1),
                b / 2,
            ) | flag((c % 2 == 1) != (a % 2 == 1), c / 2);
            is_rotation(perm, signs) && spec_mul_grip_of(perm, signs, g) == g
        }),
{
    reveal(parity);
    assert({
        let perm = cycle_perm(a / 2, b / 2, c / 2);
        let signs = flag((a % 2 == 1) != (b % 2 == 1), a / 2) | flag(
            (b % 2 == 1) != (c % 2 == 1),
            b / 2,
        ) | flag((c % 2 == 1) != (a % 2 == 1), c / 2);
        is_rotation(perm, signs) && spec_mul_grip_of(perm, signs, g) == g
    }) by (bit_vector)
        requires
            g < 8,
            a < 8,
            b < 8,
            c < 8,
            g / 2 != a / 2,
            g / 2 != b / 2,
            g / 2 != c / 2,
            a / 2 != b / 2,
            a / 2 != c / 2,
            b / 2 != c / 2,
    ;
}

/// A signed permutation that is a rotation fixing `g` names a rotation
/// fixing `g`.
proof fn lemma_signed_perm_fixes(p: u8, s: u8, g: GripId)
    requires
        is_rotation(p, s),
        spec_mul_grip_of(p, s, g.spec_id()) == g.spec_id(),
    ensures
        from_signed_perm(p, s) matches Some(e) && e.wf() && e.fixes_grip(g),
{
    lemma_decode_encode(p, s);
    g.lemma_id_roundtrip();
    let e = ElemId(encode(p, s));
    assert(spec_mul_grip(e.0, g.spec_id()) == spec_mul_grip_of(p, s, g.spec_id()));
}

/// Every rotation that a twist name denotes fixes the twist's grip.
proof fn lemma_base_elem_fixes(g: GripId, axes: Seq<GripId>)
    ensures
        base_elem(g, axes) matches Some(e) ==> e.wf() && e.fixes_grip(g),
{
    let all = seq![g] + axes;
    if axes.len() <= 3 && distinct_axes(all) {
        if axes.len() == 0 {
            if g.spec_axis() < 3 {
                lemma_face_rotation(g.spec_id(), GripId::I.spec_id());
                let (p, q) = other_axes(g.spec_id() / 2, 3);
                let negative = (neg(g) != neg(GripId::I)) != parity(pack(g.spec_id() / 2, 3, p, q));
                lemma_signed_perm_fixes(swap_perm(p, q), flag(negative, p) | flag(!negative, q), g);
            }
        } else if axes.len() == 1 {
            let a = axes[0];
            assert(all[0] == g && all[1] == a);
            lemma_face_rotation(g.spec_id(), a.spec_id());
            let (p, q) = other_axes(g.spec_id() / 2, a.spec_id() / 2);
            let negative = (neg(g) != neg(a)) != parity(pack(g.spec_id() / 2, a.spec_id() / 2, p, q));
            lemma_signed_perm_fixes(swap_perm(p, q), flag(negative, p) | flag(!negative, q), g);
        } else if axes.len() == 2 {
            let a = axes[0];
            let b = axes[1];
            assert(all[0] == g && all[1] == a && all[2] == b);
            lemma_edge_rotation(g.spec_id(), a.spec_id(), b.spec_id());
            let (p, q) = other_axes(a.spec_id() / 2, b.spec_id() / 2);
            let c = if p == g.spec_id() / 2 {
                q
            } else {
                p
            };
            let flip = neg(a) != neg(b);
            lemma_signed_perm_fixes(
                swap_perm(a.spec_id() / 2, b.spec_id() / 2),
                flag(flip, a.spec_id() / 2) | flag(flip, b.spec_id() / 2) | flag(true, c),
                g,
            );
        } else {
            let a = axes[0];
            let b = axes[1];
            let c = axes[2];
            assert(all[0] == g && all[1] == a && all[2] == b && all[3] == c);
            lemma_vertex_rotation(g.spec_id(), a.spec_id(), b.spec_id(), c.spec_id());
            lemma_signed_perm_fixes(
                cycle_perm(a.spec_id() / 2, b.spec_id() / 2, c.spec_id() / 2),
                flag(neg(a) != neg(b), a.spec_id() / 2) | flag(neg(b) != neg(c), b.spec_id() / 2)
                    | flag(neg(c) != neg(a), c.spec_id() / 2),
                g,
            );
        }
    }
}

/// Every twist that a name denotes turns its own cell.
pub proof fn lemma_named_twist_turns_own_cell(name: Seq<char>)
    ensures
        twist_of_name(name) matches Some(t) ==> t.turns_own_cell(),
{
    if twist_of_name(name) is Some {
        let suffix = name.last();
        let has_suffix = suffix == '\'' || suffix == '2';
        let body = if has_suffix {
            name.drop_last()
        } else {
            name
        };
        let g = grip_of_char(body[0])->0;
        let axes = grips_of_chars(body.drop_first());
        lemma_base_elem_fixes(g, axes);
        let e = base_elem(g, axes)->0;
        lemma_mul_inv(e);
        lemma_grip_inverse(e, g);
        lemma_grip_action_law(e, e, g);
        lemma_mul_wf(e, e);
    }
}

/// The grip named by a letter.
pub open spec fn grip_of_char(c: char) -> Option<GripId> {
    if c == 'R' {
        Some(GripId::R)
    } else if c == 'L' {
        Some(GripId::L)
    } else if c == 'U' {
        Some(GripId::U)
    } else if c == 'D' {
        Some(GripId::D)
    } else if c == 'F' {
        Some(GripId::F)
    } else if c == 'B' {
        Some(GripId::B)
    } else if c == 'O' {
        Some(GripId::O)
    } else if c == 'I' {
        Some(GripId::I)
    } else {
        None
    }
}

/// Whether the grips are on pairwise distinct axes.
pub open spec fn distinct_axes(gs: Seq<GripId>) -> bool {
    forall|i: int, j: int|
        0 <= i < j < gs.len() ==> gs[i].spec_axis() != gs[j].spec_axis()
}

/// The rotation named by the letters after the grip, without any suffix.
pub open spec fn base_elem(g: GripId, axes: Seq<GripId>) -> Option<ElemId> {
    if axes.len() > 3 || !distinct_axes(seq![g] + axes) {
        None
    } else if axes.len() == 0 {
        if g.spec_axis() < 3 {
            face_elem(g, GripId::I)
        } else {
            None
        }
    } else if axes.len() == 1 {
        face_elem(g, axes[0])
    } else if axes.len() == 2 {
        edge_elem(g, axes[0], axes[1])
    } else {
        vertex_elem(axes[0], axes[1], axes[2])
    }
}

/// Every character of `s` names a grip.
pub open spec fn all_grip_chars(s: Seq<char>) -> bool {
    forall|i: int| 0 <= i < s.len() ==> (#[trigger] grip_of_char(s[i])) is Some
}

/// The grips named by the characters of `s`.
pub open spec fn grips_of_chars(s: Seq<char>) -> Seq<GripId> {
    Seq::new(s.len(), |i: int| grip_of_char(s[i])->0)
}

/// The twist that `name` denotes, if any.
pub open spec fn twist_of_name(name: Seq<char>) -> Option<Twist> {
    if name.len() == 0 {
        None
    } else {
        let suffix = name.last();
        let has_suffix = suffix == '\'' || suffix == '2';
        let body = if has_suffix {
            name.drop_last()
        } else {
            name
        };
        if body.len() == 0 || grip_of_char(body[0]) is None || !all_grip_chars(body.drop_first()) {
            None
        } else {
            let g = grip_of_char(body[0])->0;
            match base_elem(g, grips_of_chars(body.drop_first())) {
                Some(e) => Some(
                    Twist {
                        grip: g,
                        transform: if has_suffix && suffix == '\'' {
                            e.spec_inverse()
                        } else if has_suffix {
                            e.spec_times(e)
                        } else {
                            e
                        },
                    },
                ),
                None => None,
            }
        }
    }
}

/// Characters that separate twist names.
pub open spec fn is_space(c: char) -> bool {
    c == ' ' || c == '\t' || c == '\n' || c == '\r'
}

/// End of the name that starts at `i`.
pub open spec fn token_end(s: Seq<char>, i: int) -> int
    decreases s.len() - i,
{
    if i >= s.len() || is_space(s[i]) {
        i
    } else {
        token_end(s, i + 1)
    }
}

pub proof fn lemma_token_end(s: Seq<char>, i: int)
    requires
        0 <= i,
    ensures
        i <= token_end(s, i),
        i < s.len() ==> token_end(s, i) <= s.len(),
        i < s.len() && !is_space(s[i]) ==> i < token_end(s, i),
    decreases s.len() - i,
{
    if i < s.len() && !is_space(s[i]) {
        lemma_token_end(s, i + 1);
    }
}

/// The twists named by the space-separated names in `s` from position `i`
/// on, or `None` if one of the names denotes no twist.
pub open spec fn parse_from(s: Seq<char>, i: int) -> Option<Seq<Twist>>
    decreases s.len() - i,
{
    if i < 0 || i >= s.len() {
        Some(seq![])
    } else if is_space(s[i]) {
        parse_from(s, i + 1)
    } else {
        let j = token_end(s, i);
        proof {
            lemma_token_end(s, i);
        }
        match twist_of_name(s.subrange(i, j)) {
            None => None,
            Some(t) => match parse_from(s, j) {
                None => None,
                Some(rest) => Some(seq![t] + rest),
            },
        }
    }
}

/// `found` followed by what `rest` holds, if it holds anything.
pub open spec fn prepend(found: Seq<Twist>, rest: Option<Seq<Twist>>) -> Option<Seq<Twist>> {
    match rest {
        Some(r) => Some(found + r),
        None => None,
    }
}

} // verus!

verus! {

fn char_is_space(c: char) -> (b: bool)
    ensures
        b == is_space(c),
{
    c == ' ' || c == '\t' || c == '\n' || c == '\r'
}

fn grip_from_char(c: char) -> (g: Option<GripId>)
    ensures
        g == grip_of_char(c),
{
    if c == 'R' {
        Some(GripId::R)
    } else if c == 'L' {
        Some(GripId::L)
    } else if c == 'U' {
        Some(GripId::U)
    } else if c == 'D' {
        Some(GripId::D)
    } else if c == 'F' {
        Some(GripId::F)
    } else if c == 'B' {
        Some(GripId::B)
    } else if c == 'O' {
        Some(GripId::O)
    } else if c == 'I' {
        Some(GripId::I)
    } else {
        None
    }
}

fn exec_other_axes(a: u8, b: u8) -> (r: (u8, u8))
    ensures
        r == other_axes(a, b),
{
    let lo = if a != 0 && b != 0 {
        0
    } else if a != 1 && b != 1 {
        1
    } else {
        2
    };
    let hi = if a != 3 && b != 3 {
        3
    } else if a != 2 && b != 2 {
        2
    } else {
        1
    };
    (lo, hi)
}

fn exec_swap_perm(a: u8, b: u8) -> (p: u8)
    ensures
        p == swap_perm(a, b),
{
    let f0: u8 = if 0 == a {
        b
    } else if 0 == b {
        a
    } else {
        0
    };
    let f1: u8 = if 1 == a {
        b
    } else if 1 == b {
        a
    } else {
        1
    };
    let f2: u8 = if 2 == a {
        b
    } else if 2 == b {
        a
    } else {
        2
    };
    let f3: u8 = if 3 == a {
        b
    } else if 3 == b {
        a
    } else {
        3
    };
    exec_pack(f0, f1, f2, f3)
}

fn exec_cycle_perm(a: u8, b: u8, c: u8) -> (p: u8)
    ensures
        p == cycle_perm(a, b, c),
{
    let f0: u8 = if 0 == a {
        b
    } else if 0 == b {
        c
    } else if 0 == c {
        a
    } else {
        0
    };
    let f1: u8 = if 1 == a {
        b
    } else if 1 == b {
        c
    } else if 1 == c {
        a
    } else {
        1
    };
    let f2: u8 = if 2 == a {
        b
    } else if 2 == b {
        c
    } else if 2 == c {
        a
    } else {
        2
    };
    let f3: u8 = if 3 == a {
        b
    } else if 3 == b {
        c
    } else if 3 == c {
        a
    } else {
        3
    };
    exec_pack(f0, f1, f2, f3)
}

fn exec_flag(b: bool, j: u8) -> (f: u8)
    ensures
        f == flag(b, j),
{
    if b {
        if j == 0 {
            1u8
        } else if j == 1 {
            2u8
        } else if j == 2 {
            4u8
        } else {
            8u8
        }
    } else {
        0
    }
}

fn exec_from_signed_perm(p: u8, s: u8) -> (e: Option<ElemId>)
    ensures
        e == from_signed_perm(p, s),
        e matches Some(x) ==> x.wf(),
{
    if exec_rank(p) < 24 {
        Some(ElemId(exec_encode(p, s)))
    } else {
        None
    }
}

fn exec_neg(g: GripId) -> (b: bool)
    ensures
        b == neg(g),
{
    g.id() % 2 == 1
}

fn exec_face(g: GripId, a: GripId) -> (e: Option<ElemId>)
    ensures
        e == face_elem(g, a),
        e matches Some(x) ==> x.wf(),
{
    let ga = g.id() / 2;
    let aa = a.id() / 2;
    let (p, q) = exec_other_axes(ga, aa);
    let negative = (exec_neg(g) != exec_neg(a)) != exec_parity(exec_pack(ga, aa, p, q));
    exec_from_signed_perm(exec_swap_perm(p, q), exec_flag(negative, p) | exec_flag(!negative, q))
}

fn exec_edge(g: GripId, a: GripId, b: GripId) -> (e: Option<ElemId>)
    ensures
        e == edge_elem(g, a, b),
        e matches Some(x) ==> x.wf(),
{
    let aa = a.id() / 2;
    let ba = b.id() / 2;
    let (p, q) = exec_other_axes(aa, ba);
    let c = if p == g.id() / 2 {
        q
    } else {
        p
    };
    let flip = exec_neg(a) != exec_neg(b);
    exec_from_signed_perm(
        exec_swap_perm(aa, ba),
        exec_flag(flip, aa) | exec_flag(flip, ba) | exec_flag(true, c),
    )
}

fn exec_vertex(a: GripId, b: GripId, c: GripId) -> (e: Option<ElemId>)
    ensures
        e == vertex_elem(a, b, c),
        e matches Some(x) ==> x.wf(),
{
    let aa = a.id() / 2;
    let ba = b.id() / 2;
    let ca = c.id() / 2;
    exec_from_signed_perm(
        exec_cycle_perm(aa, ba, ca),
        exec_flag(exec_neg(a) != exec_neg(b), aa) | exec_flag(exec_neg(b) != exec_neg(c), ba)
            | exec_flag(exec_neg(c) != exec_neg(a), ca),
    )
}

fn exec_distinct_axes(gs: &Vec<GripId>) -> (b: bool)
    ensures
        b == distinct_axes(gs@),
{
    let mut i: usize = 0;
    while i < gs.len()
        invariant
            0 <= i <= gs@.len(),
            forall|a: int, b: int|
                0 <= a < b < gs@.len() && a < i ==> gs@[a].spec_axis() != gs@[b].spec_axis(),
        decreases gs.len() - i,
    {
        let mut j: usize = i + 1;
        while j < gs.len()
            invariant
                i < gs@.len(),
                i + 1 <= j <= gs@.len(),
                forall|a: int, b: int|
                    0 <= a < b < gs@.len() && a < i ==> gs@[a].spec_axis() != gs@[b].spec_axis(),
                forall|b: int| i < b < j ==> gs@[i as int].spec_axis() != gs@[b].spec_axis(),
            decreases gs.len() - j,
        {
            if gs[i].axis() == gs[j].axis() {
                return false;
            }
            j += 1;
        }
        i += 1;
    }
    true
}

fn exec_base_elem(g: GripId, axes: &Vec<GripId>) -> (e: Option<ElemId>)
    ensures
        e == base_elem(g, axes@),
        e matches Some(x) ==> x.wf(),
{
    if axes.len() > 3 {
        return None;
    }
    let mut all: Vec<GripId> = Vec::new();
    all.push(g);
    let mut k: usize = 0;
    while k < axes.len()
        invariant
            0 <= k <= axes@.len(),
            all@ == seq![g] + axes@.take(k as int),
        decreases axes.len() - k,
    {
        all.push(axes[k]);
        proof {
            assert(axes@.take(k + 1) == axes@.take(k as int).push(axes@[k as int]));
        }
        k += 1;
    }
    proof {
        assert(axes@.take(axes@.len() as int) == axes@);
    }
    if !exec_distinct_axes(&all) {
        return None;
    }
    if axes.len() == 0 {
        if g.axis() < 3 {
            exec_face(g, GripId::I)
        } else {
            None
        }
    } else if axes.len() == 1 {
        exec_face(g, axes[0])
    } else if axes.len() == 2 {
        exec_edge(g, axes[0], axes[1])
    } else {
        exec_vertex(axes[0], axes[1], axes[2])
    }
}

/// Returns the grips named by the characters of `s` from `from` up to `to`,
/// if every one of them names a grip.
fn parse_axes(s: &str, from: usize, to: usize) -> (r: Option<Vec<GripId>>)
    requires
        from <= to <= s@.len(),
    ensures
        r is Some <==> all_grip_chars(s@.subrange(from as int, to as int)),
        r matches Some(v) ==> v@ == grips_of_chars(s@.subrange(from as int, to as int)),
{
    let ghost chars = s@.subrange(from as int, to as int);
    let mut axes: Vec<GripId> = Vec::new();
    let mut k: usize = from;
    while k < to
        invariant
            from <= k <= to <= s@.len(),
            chars == s@.subrange(from as int, to as int),
            all_grip_chars(chars.take(k - from)),
            axes@ == grips_of_chars(chars.take(k - from)),
        decreases to - k,
    {
        match grip_from_char(s.get_char(k)) {
            Some(a) => {
                axes.push(a);
            },
            None => {
                proof {
                    assert(chars[k - from] == s@[k as int]);
                    assert(grip_of_char(chars[k - from]) is None);
                }
                return None;
            },
        }
        proof {
            assert(chars[k - from] == s@[k as int]);
            assert(chars.take(k + 1 - from) == chars.take(k - from).push(s@[k as int]));
            assert(axes@ == grips_of_chars(chars.take(k + 1 - from)));
        }
        k += 1;
    }
    proof {
        assert(chars.take(to - from) == chars);
    }
    Some(axes)
}

/// Returns the twist named by the characters of `s` from `start` up to
/// `end`, if that name denotes one.
pub fn parse_name(s: &str, start: usize, end: usize) -> (t: Option<Twist>)
    requires
        start <= end <= s@.len(),
    ensures
        t == twist_of_name(s@.subrange(start as int, end as int)),
        t matches Some(x) ==> x.turns_own_cell(),
{
    proof {
        lemma_named_twist_turns_own_cell(s@.subrange(start as int, end as int));
    }
    let ghost name = s@.subrange(start as int, end as int);
    if end <= start {
        return None;
    }
    let suffix = s.get_char(end - 1);
    let has_suffix = suffix == '\'' || suffix == '2';
    let body_end = if has_suffix {
        end - 1
    } else {
        end
    };
    let ghost body = if has_suffix {
        name.drop_last()
    } else {
        name
    };
    proof {
        assert(body == s@.subrange(start as int, body_end as int));
    }
    if body_end <= start {
        return None;
    }
    let g = match grip_from_char(s.get_char(start)) {
        Some(g) => g,
        None => return None,
    };
    proof {
        assert(body.drop_first() == s@.subrange(start + 1, body_end as int));
    }
    let axes = match parse_axes(s, start + 1, body_end) {
        Some(axes) => axes,
        None => return None,
    };
    let e = match exec_base_elem(g, &axes) {
        Some(e) => e,
        None => return None,
    };
    let transform = if has_suffix && suffix == '\'' {
        e.inv()
    } else if has_suffix {
        e.mul(e)
    } else {
        e
    };
    Some(Twist { grip: g, transform })
}

/// Parses a sequence of twist names separated by spaces, such as
/// `"R U R' U'"`. Returns `None` if some name denotes no twist.
pub fn parse_twists(s: &str) -> (r: Option<Vec<Twist>>)
    ensures
        r is Some <==> parse_from(s@, 0) is Some,
        r matches Some(v) ==> Some(v@) == parse_from(s@, 0),
        r matches Some(v) ==> forall|k: int| 0 <= k < v@.len() ==> (#[trigger] v@[k]).turns_own_cell(),
{
    let n = s.unicode_len();
    let mut out: Vec<Twist> = Vec::new();
    let mut i: usize = 0;
    while i < n
        invariant
            n == s@.len(),
            0 <= i <= n,
            parse_from(s@, 0) == prepend(out@, parse_from(s@, i as int)),
            forall|k: int| 0 <= k < out@.len() ==> (#[trigger] out@[k]).turns_own_cell(),
        decreases n - i,
    {
        let c = s.get_char(i);
        if char_is_space(c) {
            i += 1;
        } else {
            let mut j = i + 1;
            proof {
                lemma_token_end(s@, i as int);
            }
            while j < n && !char_is_space(s.get_char(j))
                invariant
                    n == s@.len(),
                    i < j <= n,
                    token_end(s@, i as int) == token_end(s@, j as int),
                decreases n - j,
            {
                j += 1;
            }
            proof {
                assert(token_end(s@, j as int) == j);
            }
            match parse_name(s, i, j) {
                Some(t) => {
                    proof {
                        assert(out@.push(t) == out@ + seq![t]);
                        match parse_from(s@, j as int) {
                            Some(rest) => {
                                assert(out@ + (seq![t] + rest) == out@.push(t) + rest);
                            },
                            None => {},
                        }
                    }
                    out.push(t);
                    i = j;
                },
                None => {
                    return None;
                },
            }
        }
    }
    proof {
        assert(out@ + seq![] == out@);
    }
    Some(out)
}

} // verus!
