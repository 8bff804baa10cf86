use robodoan::blockbuilding::{Block, BlockSet};
use robodoan::{hash_of_layer, layer_of_hash, ElemId, Heuristic, PackedLayers, StackVec};

#[test]
fn test_hash_of_layer_extremes() {
    assert_eq!(0, hash_of_layer(0x1111));
    assert_eq!(1295, hash_of_layer(0x7777));
}

#[test]
fn test_hash_of_layer_digits() {
    // Axis 0 is the most significant digit: 7 -> 5, 4 -> 3, 2 -> 1, 1 -> 0.
    assert_eq!(5 * 216 + 3 * 36 + 6, hash_of_layer(0x1247));
}

#[test]
fn test_hashes_are_dense_and_distinct() {
    let valid = [1u16, 2, 3, 4, 6, 7];
    let mut seen = vec![false; 1296];
    for a in valid {
        for b in valid {
            for c in valid {
                for d in valid {
                    let layer = a | (b << 4) | (c << 8) | (d << 12);
                    let h = hash_of_layer(layer) as usize;
                    assert!(!seen[h]);
                    seen[h] = true;
                }
            }
        }
    }
    assert!(seen.iter().all(|&s| s));
}

#[test]
fn test_layer_of_hash_reverses_axes() {
    assert_eq!(0x7421, layer_of_hash(hash_of_layer(0x1247)).to_u16());
    assert_eq!(0x1111, layer_of_hash(0).to_u16());
    assert_eq!(0x7777, layer_of_hash(1295).to_u16());
}

#[test]
fn test_hash_round_trip_on_symmetric_layers() {
    for layer in [0x1111u16, 0x3663, 0x7227, 0x4444] {
        assert_eq!(layer, layer_of_hash(hash_of_layer(layer)).to_u16());
    }
}

#[test]
fn test_combinatoric_limit() {
    assert_eq!(Heuristic::default(), Heuristic::Correct);
    assert_eq!(8, Heuristic::Fast.combinatoric_limit(3, 3));
    assert_eq!(24, Heuristic::Correct.combinatoric_limit(3, 3));
    assert_eq!(1, Heuristic::Fast.combinatoric_limit(5, 0));
}

fn block_set(layers: &[u16]) -> BlockSet {
    let blocks: Vec<Block> = layers.iter().map(|&l| Block::new(PackedLayers::from_u16(l), ElemId(0))).collect();
    BlockSet { blocks: StackVec::from_slice(&blocks).unwrap() }
}

#[test]
fn test_can_maybe_merge_along_one_axis() {
    // 0x1111 and 0x1112 differ only along axis 0.
    assert!(block_set(&[0x1111, 0x2221, 0x1112]).can_maybe_merge_blocks_len_lte_16());
    // Equal masks pass the test too.
    assert!(block_set(&[0x3333, 0x3333]).can_maybe_merge_blocks_len_lte_16());
}

#[test]
fn test_can_maybe_merge_rejects_other_pairs() {
    // 0x1111 and 0x2221 differ along axes 0, 1 and 2.
    assert!(!block_set(&[0x1111, 0x2221]).can_maybe_merge_blocks_len_lte_16());
    // The fourth bit of a nibble is not a layer bit.
    assert!(!block_set(&[0x1111, 0x1119]).can_maybe_merge_blocks_len_lte_16());
    // An empty mask merges with nothing.
    assert!(!block_set(&[0x0001, 0x0000]).can_maybe_merge_blocks_len_lte_16());
    assert!(!block_set(&[0x1111]).can_maybe_merge_blocks_len_lte_16());
}

#[test]
fn test_can_maybe_merge_far_apart() {
    // Sixteen blocks, pairwise far apart but for the first and the last.
    let distinct = [
        0x1111u16, 0x2222, 0x4444, 0x3636, 0x6363, 0x7171, 0x1717, 0x2424, 0x4242, 0x6161, 0x1616, 0x3434, 0x4343,
        0x2727, 0x7272, 0x1112,
    ];
    assert!(block_set(&distinct).can_maybe_merge_blocks_len_lte_16());
    assert!(!block_set(&distinct[..15]).can_maybe_merge_blocks_len_lte_16());
}

#[test]
fn test_block_set_is_solved() {
    assert!(block_set(&[0x7777]).is_solved());
    assert!(!block_set(&[0x1111, 0x7776]).is_solved());
}
