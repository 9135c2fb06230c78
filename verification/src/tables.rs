//! Adjacency tables of the octants of a cell.
//!
//! An octant is a 3-bit code: bit 0 is the X side, bit 1 the Y side and bit 2
//! the Z side of the cell's centre, a set bit meaning the positive side. An
//! axis is 0, 1 or 2 for X, Y or Z.
use vstd::prelude::*;

verus! {

/// Pairs of octants (o0, o1) where o0 and o1 are face-adjacent: for each axis
/// the four pairs that differ in that axis only, the negative side first.
pub const FACE_ADJACENT_OCTANTS: [[[u8; 2]; 4]; 3] = [
    [[0b000, 0b001], [0b010, 0b011], [0b100, 0b101], [0b110, 0b111]],
    [[0b000, 0b010], [0b001, 0b011], [0b100, 0b110], [0b101, 0b111]],
    [[0b000, 0b100], [0b001, 0b101], [0b010, 0b110], [0b011, 0b111]],
];

/// Quartets of octants that surround one of the two inner edges along X, in Z
/// order.
pub const EDGE_ADJACENT_OCTANTS_NEG_X: [u8; 4] = [0b000, 0b010, 0b100, 0b110];

pub const EDGE_ADJACENT_OCTANTS_POS_X: [u8; 4] = [0b001, 0b011, 0b101, 0b111];

pub const EDGE_ADJACENT_OCTANTS_NEG_Y: [u8; 4] = [0b000, 0b100, 0b001, 0b101];

pub const EDGE_ADJACENT_OCTANTS_POS_Y: [u8; 4] = [0b010, 0b110, 0b011, 0b111];

pub const EDGE_ADJACENT_OCTANTS_NEG_Z: [u8; 4] = [0b000, 0b001, 0b010, 0b011];

pub const EDGE_ADJACENT_OCTANTS_POS_Z: [u8; 4] = [0b100, 0b101, 0b110, 0b111];

/// For each axis, the two quartets of octants that meet in an inner edge along
/// that axis: the one on the negative half of the axis, then the one on the
/// positive half.
pub const EDGE_ADJACENT_OCTANTS: [[[u8; 4]; 2]; 3] = [
    [EDGE_ADJACENT_OCTANTS_NEG_X, EDGE_ADJACENT_OCTANTS_POS_X],
    [EDGE_ADJACENT_OCTANTS_NEG_Y, EDGE_ADJACENT_OCTANTS_POS_Y],
    [EDGE_ADJACENT_OCTANTS_NEG_Z, EDGE_ADJACENT_OCTANTS_POS_Z],
];

/// For each axis of a face, the quartets of octants around the four edges that
/// lie in the face.
pub const FACE_TO_EDGE_ADJACENT_OCTANTS: [[[u8; 4]; 4]; 3] = [
    [
        EDGE_ADJACENT_OCTANTS_NEG_Y,
        EDGE_ADJACENT_OCTANTS_POS_Y,
        EDGE_ADJACENT_OCTANTS_NEG_Z,
        EDGE_ADJACENT_OCTANTS_POS_Z,
    ],
    [
        EDGE_ADJACENT_OCTANTS_NEG_Z,
        EDGE_ADJACENT_OCTANTS_POS_Z,
        EDGE_ADJACENT_OCTANTS_NEG_X,
        EDGE_ADJACENT_OCTANTS_POS_X,
    ],
    [
        EDGE_ADJACENT_OCTANTS_NEG_X,
        EDGE_ADJACENT_OCTANTS_POS_X,
        EDGE_ADJACENT_OCTANTS_NEG_Y,
        EDGE_ADJACENT_OCTANTS_POS_Y,
    ],
];

/// For each axis of a face, the axes of the four edges that lie in the face.
pub const FACE_TO_EDGE_AXIS: [[usize; 4]; 3] = [[1, 1, 2, 2], [2, 2, 0, 0], [0, 0, 1, 1]];

/// For each of the four edges in a face, the side of the face (0 or 1) that
/// each of the edge's four cells is taken from.
pub const FACE_TO_EDGE_NODE_ORDERS: [[usize; 4]; 4] = [
    [0, 0, 1, 1],
    [0, 0, 1, 1],
    [0, 1, 0, 1],
    [0, 1, 0, 1],
];

/// For each of the four edges in a face, the position in the edge's quartet of
/// octants that each of the edge's four cells takes its child from.
pub const FACE_TO_EDGE_MIRRORS: [[usize; 4]; 4] = [
    [2, 3, 0, 1],
    [2, 3, 0, 1],
    [1, 0, 3, 2],
    [1, 0, 3, 2],
];

/// The octant that differs from `octant` on `axis` only.
pub open spec fn across(octant: int, axis: int) -> int {
    if axis == 0 {
        if octant % 2 == 0 { octant + 1 } else { octant - 1 }
    } else if axis == 1 {
        if (octant / 2) % 2 == 0 { octant + 2 } else { octant - 2 }
    } else {
        if octant / 4 == 0 { octant + 4 } else { octant - 4 }
    }
}

/// The side of the cell's centre (0 negative, 1 positive) on which `octant`
/// lies along `axis`.
pub open spec fn side_of(octant: int, axis: int) -> int {
    if axis == 0 {
        octant % 2
    } else if axis == 1 {
        (octant / 2) % 2
    } else {
        octant / 4
    }
}

/// The octant on side `s0` of `axis`, side `s1` of the next axis and side `s2`
/// of the axis after that, the axes taken cyclically (X, Y, Z, X, ..).
pub open spec fn octant_at(axis: int, s0: int, s1: int, s2: int) -> int {
    if axis == 0 {
        s0 + 2 * s1 + 4 * s2
    } else if axis == 1 {
        2 * s0 + 4 * s1 + s2
    } else {
        4 * s0 + s1 + 2 * s2
    }
}

/// Every pair of face-adjacent octants holds two octants below 8 that differ
/// on the face's axis only, the one on the negative side first.
pub proof fn lemma_face_adjacent_octants(axis: int, face: int)
    requires
        0 <= axis < 3,
        0 <= face < 4,
    ensures
        FACE_ADJACENT_OCTANTS[axis][face][0] < 8,
        FACE_ADJACENT_OCTANTS[axis][face][1] < 8,
        side_of(FACE_ADJACENT_OCTANTS[axis][face][0] as int, axis) == 0,
        FACE_ADJACENT_OCTANTS[axis][face][1] == across(
            FACE_ADJACENT_OCTANTS[axis][face][0] as int,
            axis,
        ),
{
}

/// The quartet of octants around an inner edge lies on one side of the edge's
/// axis and runs through the four combinations of the two other axes in Z
/// order: the next axis varies fastest.
pub proof fn lemma_edge_adjacent_octants(axis: int, half: int, slot: int)
    requires
        0 <= axis < 3,
        0 <= half < 2,
        0 <= slot < 4,
    ensures
        EDGE_ADJACENT_OCTANTS[axis][half][slot] == octant_at(axis, half, slot % 2, slot / 2),
        EDGE_ADJACENT_OCTANTS[axis][half][slot] < 8,
{
}

/// The edges in a face along `axis` run along the two other axes, two edges
/// each, and their quartets are those of the inner edges along these axes.
pub proof fn lemma_face_to_edge(axis: int, edge: int)
    requires
        0 <= axis < 3,
        0 <= edge < 4,
    ensures
        FACE_TO_EDGE_AXIS[axis][edge] == (axis + 1 + edge / 2) % 3,
        FACE_TO_EDGE_ADJACENT_OCTANTS[axis][edge]
            == EDGE_ADJACENT_OCTANTS[FACE_TO_EDGE_AXIS[axis][edge] as int][edge % 2],
{
}

} // verus!
