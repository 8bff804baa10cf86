//! A verified model of the 3x3x3x3 puzzle: its rotation group, twists,
//! piece states and the last-cell machinery of a blockbuilding solver.
pub mod algebra;
pub mod algs;
pub mod blockbuilding;
pub mod blocksearch;
pub mod elements;
pub mod grips;
pub mod heuristic;
pub mod group;
pub mod lastcell;
pub mod locations;
pub mod puzzle_state;
pub mod replay;
pub mod search;
pub mod space;
pub mod stackvec;
pub mod symmetry;
pub mod tables;
pub mod twist;

pub use elements::{
    ElemId, TransformByElem, IDENT_ID, WX_ID, WY_ID, WZ_ID, XW_ID, XY_ID, XZ_ID, YW_ID, YX_ID, YZ_ID, ZW_ID, ZX_ID,
    ZY_ID,
};
pub use space::Vec4;
pub use grips::{GripId, B, CUBE_GRIPS, D, F, HYPERCUBE_GRIPS, I, L, O, R, U};
pub use group::{hypercube_rotations, ELEM_COUNT};
pub use lastcell::{
    cell_pieces, cell_rows_list, find_canonical_frame, invert_twists, simplify_twists, twist_count, CellEffect,
    CellState, CANONICAL_LAST_CELL, MAX_ALG_LEN,
};
pub use locations::{gen_mul_elem_index_table, indices_for_grip, mul_elem_index, piece_grips};
pub use puzzle_state::{
    canonical_attitude, CELL_CORNERS, CELL_EDGES, CELL_RIDGES, indistinguishable_attitude_classes, PuzzleState,
};
pub use twist::{parse_twists, Twist};
pub use stackvec::StackVec;
pub use blockbuilding::{hash_of_layer, layer_of_hash, PackedLayers};
pub use heuristic::Heuristic;
pub use tables::{Direct, PieceOps, Tables};
pub use algs::{
    build_alg, close_under_rotations, enumerate_halves, insert_cheapest, join_halves, twists_for_grip, Alg,
    AlgPass, AlgTable, AlgTableParams, MAX_HALF_DEPTH,
};
