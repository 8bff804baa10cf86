//! Blocks, the sets of blocks a puzzle state is made of, and the layer
//! masks of blocks with their compact numbering.
//!
//! A block spans, along each of the four axes, a nonempty set of the three
//! layers; its layer mask packs those sets as three bits per axis, axis `k`
//! in bits `4k..4k+3`. A set along one axis is never `{first, last}` without
//! the middle layer, so each axis has six possible sets and a whole mask has
//! `6^4 = 1296`, which `hash_of_layer` numbers densely.
use crate::elements::ElemId;
use crate::stackvec::StackVec;
use vstd::arithmetic::div_mod::lemma_div_denominator;
use vstd::prelude::*;

verus! {

/// The layer mask of a block.
#[derive(Clone, Copy, Debug, Default, PartialEq, Eq, Hash)]
pub struct PackedLayers {
    bits: u16,
}

impl View for PackedLayers {
    type V = u16;

    closed spec fn view(&self) -> u16 {
        self.bits
    }
}

impl PackedLayers {
    /// The mask with the given bits.
    pub fn from_u16(bits: u16) -> (r: Self)
        ensures
            r@ == bits,
    {
        PackedLayers { bits }
    }

    /// The bits of the mask.
    pub fn to_u16(&self) -> (bits: u16)
        ensures
            bits == self@,
    {
        self.bits
    }
}

/// The three layer bits of axis `axis` in `layer`.
pub open spec fn nibble(layer: u16, axis: int) -> u16 {
    (layer >> ((axis * 4) as u16)) & 7u16
}

/// Whether `bits` is a set of layers that a block can span along one axis.
pub open spec fn valid_bits(bits: u16) -> bool {
    bits != 0 && bits != 5 && bits < 8
}

/// Whether every axis of `layer` holds a set of layers that a block can span.
pub open spec fn valid_layer(layer: u16) -> bool {
    &&& valid_bits(nibble(layer, 0))
    &&& valid_bits(nibble(layer, 1))
    &&& valid_bits(nibble(layer, 2))
    &&& valid_bits(nibble(layer, 3))
}

/// The number, from 0 to 5, of a valid set of layers along one axis.
pub open spec fn digit_of_bits(bits: u16) -> int {
    if bits == 1 {
        0
    } else if bits == 2 {
        1
    } else if bits == 3 {
        2
    } else if bits == 4 {
        3
    } else if bits == 6 {
        4
    } else {
        5
    }
}

/// The set of layers that `digit_of_bits` numbers `digit`.
pub open spec fn bits_of_digit(digit: int) -> u16 {
    if digit == 0 {
        1
    } else if digit == 1 {
        2
    } else if digit == 2 {
        3
    } else if digit == 3 {
        4
    } else if digit == 4 {
        6
    } else {
        7
    }
}

/// The number of a layer mask: its axes read as base-6 digits, axis 0 the
/// most significant.
pub open spec fn layer_hash(layer: u16) -> int {
    216 * digit_of_bits(nibble(layer, 0)) + 36 * digit_of_bits(nibble(layer, 1)) + 6
        * digit_of_bits(nibble(layer, 2)) + digit_of_bits(nibble(layer, 3))
}

/// The first `k` axes of `layer` read as base-6 digits.
spec fn partial_hash(layer: u16, k: int) -> int
    decreases k,
{
    if k <= 0 {
        0
    } else {
        partial_hash(layer, k - 1) * 6 + digit_of_bits(nibble(layer, k - 1))
    }
}

/// Base-6 digit `k` of `hash`, counting from the least significant.
pub open spec fn hash_digit(hash: u16, k: int) -> int {
    (hash as int / divisor(k)) % 6
}

/// The layer mask that `layer_of_hash` builds from `hash`: digit `k`,
/// counting from the least significant, gives axis `k`.
pub open spec fn unhashed_layer(hash: u16) -> u16 {
    bits_of_digit(hash_digit(hash, 0)) | (bits_of_digit(hash_digit(hash, 1)) << 4u16) | (
    bits_of_digit(hash_digit(hash, 2)) << 8u16) | (bits_of_digit(hash_digit(hash, 3)) << 12u16)
}

/// The mask built from the first `k` digits of `hash`.
spec fn partial_unhash(hash: u16, k: int) -> u16
    decreases k,
{
    if k <= 0 {
        0
    } else {
        partial_unhash(hash, k - 1) | (bits_of_digit(hash_digit(hash, k - 1)) << ((k - 1)
            * 4) as u16)
    }
}

/// `6^k` for the axes of a mask.
pub open spec fn divisor(k: int) -> int {
    if k == 0 {
        1
    } else if k == 1 {
        6
    } else if k == 2 {
        36
    } else {
        216
    }
}

/// The number of a valid layer mask, from 0 to 1295.
pub fn hash_of_layer(layer: u16) -> (hash: u16)
    requires
        valid_layer(layer),
    ensures
        hash == layer_hash(layer),
        hash < 1296,
{
    let mut ret: u16 = 0;
    let mut axis: u16 = 0;
    while axis < 4
        invariant
            axis <= 4,
            valid_layer(layer),
            ret == partial_hash(layer, axis as int),
            ret < divisor(axis as int) || (axis == 4 && ret < 1296),
        decreases 4 - axis,
    {
        let bits = (layer >> (axis * 4)) & 0x7;
        assert(bits == nibble(layer, axis as int));
        let digit: u16 = if bits == 1 {
            0
        } else if bits == 2 {
            1
        } else if bits == 3 {
            2
        } else if bits == 4 {
            3
        } else if bits == 6 {
            4
        } else {
            5
        };
        ret = ret * 6 + digit;
        axis = axis + 1;
    }
    proof {
        reveal_with_fuel(partial_hash, 5);
    }
    ret
}

/// The layer mask whose axes are the base-6 digits of `hash`, least
/// significant first.
pub fn layer_of_hash(hash: u16) -> (layers: PackedLayers)
    ensures
        layers@ == unhashed_layer(hash),
{
    let start_hash = hash;
    let mut hash = hash;
    let mut ret: u16 = 0;
    let mut axis: u16 = 0;
    assert(start_hash as int / 1 == start_hash as int);
    while axis < 4
        invariant
            axis <= 4,
            axis < 4 ==> hash as int == start_hash as int / divisor(axis as int),
            ret == partial_unhash(start_hash, axis as int),
        decreases 4 - axis,
    {
        let bits = hash % 6;
        proof {
            if axis > 0 {
                lemma_div_denominator(start_hash as int, divisor(axis - 1), 6);
            }
            assert(bits == hash_digit(start_hash, axis as int));
        }
        hash = hash / 6;
        let layer_bits: u16 = if bits == 0 {
            1
        } else if bits == 1 {
            2
        } else if bits == 2 {
            3
        } else if bits == 3 {
            4
        } else if bits == 4 {
            6
        } else {
            7
        };
        ret = ret | (layer_bits << (axis * 4));
        proof {
            if axis < 3 {
                lemma_div_denominator(start_hash as int, divisor(axis as int), 6);
            }
        }
        axis = axis + 1;
    }
    proof {
        reveal_with_fuel(partial_unhash, 5);
        let b0 = bits_of_digit(hash_digit(start_hash, 0));
        assert((0u16 | (b0 << 0u16)) == b0) by (bit_vector);
    }
    PackedLayers::from_u16(ret)
}

/// Reading the nibbles of a mask assembled from four sets of layers gives
/// the sets back.
proof fn lemma_nibbles_of_assembled(b0: u16, b1: u16, b2: u16, b3: u16)
    requires
        b0 < 8,
        b1 < 8,
        b2 < 8,
        b3 < 8,
    ensures
        nibble(b0 | (b1 << 4u16) | (b2 << 8u16) | (b3 << 12u16), 0) == b0,
        nibble(b0 | (b1 << 4u16) | (b2 << 8u16) | (b3 << 12u16), 1) == b1,
        nibble(b0 | (b1 << 4u16) | (b2 << 8u16) | (b3 << 12u16), 2) == b2,
        nibble(b0 | (b1 << 4u16) | (b2 << 8u16) | (b3 << 12u16), 3) == b3,
{
    let m = b0 | (b1 << 4u16) | (b2 << 8u16) | (b3 << 12u16);
    assert(((m >> 0u16) & 7u16) == b0 && ((m >> 4u16) & 7u16) == b1 && ((m >> 8u16) & 7u16) == b2
        && ((m >> 12u16) & 7u16) == b3) by (bit_vector)
        requires
            b0 < 8,
            b1 < 8,
            b2 < 8,
            b3 < 8,
            m == b0 | (b1 << 4u16) | (b2 << 8u16) | (b3 << 12u16),
    ;
}

/// A mask that uses only the three layer bits of each axis is assembled from
/// its nibbles.
proof fn lemma_assembled_of_nibbles(layer: u16)
    requires
        layer & 0x8888u16 == 0,
    ensures
        layer == nibble(layer, 0) | (nibble(layer, 1) << 4u16) | (nibble(layer, 2) << 8u16) | (
        nibble(layer, 3) << 12u16),
{
    assert(layer == ((layer >> 0u16) & 7u16) | (((layer >> 4u16) & 7u16) << 4u16) | (((layer
        >> 8u16) & 7u16) << 8u16) | (((layer >> 12u16) & 7u16) << 12u16)) by (bit_vector)
        requires
            layer & 0x8888u16 == 0,
    ;
}

/// The base-6 digits of `216 * a + 36 * b + 6 * c + d` are `d`, `c`, `b`, `a`.
proof fn lemma_digits(a: int, b: int, c: int, d: int)
    requires
        0 <= a < 6,
        0 <= b < 6,
        0 <= c < 6,
        0 <= d < 6,
    ensures
        hash_digit((216 * a + 36 * b + 6 * c + d) as u16, 0) == d,
        hash_digit((216 * a + 36 * b + 6 * c + d) as u16, 1) == c,
        hash_digit((216 * a + 36 * b + 6 * c + d) as u16, 2) == b,
        hash_digit((216 * a + 36 * b + 6 * c + d) as u16, 3) == a,
{
    let h = 216 * a + 36 * b + 6 * c + d;
    assert(h / 1 == h);
    assert(h % 6 == d && (h / 6) % 6 == c && (h / 36) % 6 == b && (h / 216) % 6 == a) by (
    nonlinear_arith)
        requires
            h == 216 * a + 36 * b + 6 * c + d,
            0 <= a < 6,
            0 <= b < 6,
            0 <= c < 6,
            0 <= d < 6,
    ;
}

/// Numbering a valid layer mask and then unnumbering it gives the mask with
/// its axes in reverse order.
pub proof fn lemma_unhash_of_hash(layer: u16)
    requires
        valid_layer(layer),
    ensures
        unhashed_layer(layer_hash(layer) as u16) == nibble(layer, 3) | (nibble(layer, 2) << 4u16)
            | (nibble(layer, 1) << 8u16) | (nibble(layer, 0) << 12u16),
{
    lemma_digits(
        digit_of_bits(nibble(layer, 0)),
        digit_of_bits(nibble(layer, 1)),
        digit_of_bits(nibble(layer, 2)),
        digit_of_bits(nibble(layer, 3)),
    );
}

/// Numbering a valid layer mask and then unnumbering it gives the mask back
/// when its axes read the same in both directions and it uses only the
/// layer bits.
pub proof fn lemma_hash_round_trip(layer: u16)
    requires
        valid_layer(layer),
        layer & 0x8888u16 == 0,
        nibble(layer, 0) == nibble(layer, 3),
        nibble(layer, 1) == nibble(layer, 2),
    ensures
        unhashed_layer(layer_hash(layer) as u16) == layer,
{
    lemma_unhash_of_hash(layer);
    lemma_assembled_of_nibbles(layer);
}

/// Unnumbering any number below 1296 gives a valid layer mask whose number
/// has the digits of `hash` in reverse order.
pub proof fn lemma_hash_of_unhash(hash: u16)
    requires
        hash < 1296,
    ensures
        valid_layer(unhashed_layer(hash)),
        layer_hash(unhashed_layer(hash)) == 216 * hash_digit(hash, 0) + 36 * hash_digit(hash, 1)
            + 6 * hash_digit(hash, 2) + hash_digit(hash, 3),
{
    lemma_nibbles_of_assembled(
        bits_of_digit(hash_digit(hash, 0)),
        bits_of_digit(hash_digit(hash, 1)),
        bits_of_digit(hash_digit(hash, 2)),
        bits_of_digit(hash_digit(hash, 3)),
    );
}

/// The most blocks a [`BlockSet`] tracks: 21 blocks of three bytes and a
/// length byte fill 64 bytes.
pub const MAX_BLOCKS: usize = 21;

/// A block of pieces that move together: the layers it spans, and the
/// attitude every piece of it has.
#[derive(Clone, Copy, Debug, Default, PartialEq, Eq, Hash)]
pub struct Block {
    layers: PackedLayers,
    attitude: ElemId,
}

impl Block {
    /// The layers the block spans.
    pub closed spec fn spec_layers(self) -> PackedLayers {
        self.layers
    }

    /// The attitude of the block's pieces.
    pub closed spec fn spec_attitude(self) -> ElemId {
        self.attitude
    }

    /// The block spanning `layers` with attitude `attitude`.
    pub fn new(layers: PackedLayers, attitude: ElemId) -> (b: Self)
        ensures
            b.spec_layers() == layers,
            b.spec_attitude() == attitude,
    {
        Block { layers, attitude }
    }

    /// The layers the block spans.
    pub fn layers(&self) -> (l: PackedLayers)
        ensures
            l == self.spec_layers(),
    {
        self.layers
    }

    /// The attitude of the block's pieces.
    pub fn attitude(&self) -> (a: ElemId)
        ensures
            a == self.spec_attitude(),
    {
        self.attitude
    }
}

/// Two layer masks might belong to blocks that merge: both are nonempty and
/// they differ at most in the three layer bits of one axis.
pub open spec fn layers_may_merge(a: u16, b: u16) -> bool {
    let x = a ^ b;
    &&& a != 0
    &&& b != 0
    &&& (x & 0xfff8u16 == 0 || x & 0xff8fu16 == 0 || x & 0xf8ffu16 == 0 || x & 0x8fffu16 == 0)
}

/// Some two blocks of `blocks` have layer masks that might merge.
pub open spec fn some_pair_may_merge(blocks: Seq<Block>) -> bool {
    exists|i: int, j: int|
        0 <= i < j < blocks.len() && #[trigger] layers_may_merge(blocks[i].spec_layers()@, blocks[j].spec_layers()@)
}

/// The state of a puzzle as the blocks it is made of.
#[derive(Clone, Copy, Debug, PartialEq, Eq, Hash)]
pub struct BlockSet {
    pub blocks: StackVec<Block, MAX_BLOCKS>,
}

impl BlockSet {
    /// The puzzle is solved when everything forms one block.
    pub fn is_solved(self) -> (b: bool)
        ensures
            b == (self.blocks@.len() == 1),
    {
        self.blocks.len() == 1
    }

    /// Returns whether some two blocks have layer masks that differ only
    /// along one axis, the first test two blocks pass before they merge.
    ///
    /// Takes a nonempty set of at most 16 blocks.
    pub fn can_maybe_merge_blocks_len_lte_16(self) -> (r: bool)
        requires
            1 <= self.blocks@.len() <= 16,
        ensures
            r == some_pair_may_merge(self.blocks@),
    {
        let n = self.blocks.len();
        let mut i: usize = 0;
        while i < n
            invariant
                0 <= i <= n,
                n == self.blocks@.len(),
                forall|p: int, q: int|
                    0 <= p < i && p < q < n ==> !#[trigger] layers_may_merge(
                        self.blocks@[p].spec_layers()@,
                        self.blocks@[q].spec_layers()@,
                    ),
            decreases n - i,
        {
            let a = self.blocks.get(i).layers().to_u16();
            let mut j: usize = i + 1;
            while j < n
                invariant
                    i < n,
                    i + 1 <= j <= n,
                    n == self.blocks@.len(),
                    a == self.blocks@[i as int].spec_layers()@,
                    forall|p: int, q: int|
                        0 <= p < i && p < q < n ==> !#[trigger] layers_may_merge(
                            self.blocks@[p].spec_layers()@,
                            self.blocks@[q].spec_layers()@,
                        ),
                    forall|q: int|
                        i < q < j ==> !#[trigger] layers_may_merge(a, self.blocks@[q].spec_layers()@),
                decreases n - j,
            {
                let b = self.blocks.get(j).layers().to_u16();
                let x = a ^ b;
                if a != 0 && b != 0 && (x & 0xfff8u16 == 0 || x & 0xff8fu16 == 0 || x & 0xf8ffu16 == 0 || x
                    & 0x8fffu16 == 0) {
                    proof {
                        assert(layers_may_merge(self.blocks@[i as int].spec_layers()@, self.blocks@[j as int].spec_layers()@));
                    }
                    return true;
                }
                j += 1;
            }
            i += 1;
        }
        false
    }
}

} // verus!
