//! The adjacency tables, entry by entry and by what the entries mean.
use octree_dual_contour::tables::{
    EDGE_ADJACENT_OCTANTS, EDGE_ADJACENT_OCTANTS_NEG_X, EDGE_ADJACENT_OCTANTS_NEG_Y,
    EDGE_ADJACENT_OCTANTS_NEG_Z, EDGE_ADJACENT_OCTANTS_POS_X, EDGE_ADJACENT_OCTANTS_POS_Y,
    EDGE_ADJACENT_OCTANTS_POS_Z, FACE_ADJACENT_OCTANTS, FACE_TO_EDGE_ADJACENT_OCTANTS,
    FACE_TO_EDGE_AXIS, FACE_TO_EDGE_MIRRORS, FACE_TO_EDGE_NODE_ORDERS,
};

#[test]
fn face_adjacent_octants_are_as_listed() {
    assert_eq!(
        FACE_ADJACENT_OCTANTS,
        [
            [[0, 1], [2, 3], [4, 5], [6, 7]],
            [[0, 2], [1, 3], [4, 6], [5, 7]],
            [[0, 4], [1, 5], [2, 6], [3, 7]],
        ]
    );
}

#[test]
fn edge_adjacent_octants_are_as_listed() {
    assert_eq!(EDGE_ADJACENT_OCTANTS_NEG_X, [0, 2, 4, 6]);
    assert_eq!(EDGE_ADJACENT_OCTANTS_POS_X, [1, 3, 5, 7]);
    assert_eq!(EDGE_ADJACENT_OCTANTS_NEG_Y, [0, 4, 1, 5]);
    assert_eq!(EDGE_ADJACENT_OCTANTS_POS_Y, [2, 6, 3, 7]);
    assert_eq!(EDGE_ADJACENT_OCTANTS_NEG_Z, [0, 1, 2, 3]);
    assert_eq!(EDGE_ADJACENT_OCTANTS_POS_Z, [4, 5, 6, 7]);
    assert_eq!(
        EDGE_ADJACENT_OCTANTS,
        [
            [[0, 2, 4, 6], [1, 3, 5, 7]],
            [[0, 4, 1, 5], [2, 6, 3, 7]],
            [[0, 1, 2, 3], [4, 5, 6, 7]],
        ]
    );
}

#[test]
fn face_to_edge_tables_are_as_listed() {
    assert_eq!(
        FACE_TO_EDGE_ADJACENT_OCTANTS,
        [
            [[0, 4, 1, 5], [2, 6, 3, 7], [0, 1, 2, 3], [4, 5, 6, 7]],
            [[0, 1, 2, 3], [4, 5, 6, 7], [0, 2, 4, 6], [1, 3, 5, 7]],
            [[0, 2, 4, 6], [1, 3, 5, 7], [0, 4, 1, 5], [2, 6, 3, 7]],
        ]
    );
    assert_eq!(FACE_TO_EDGE_AXIS, [[1, 1, 2, 2], [2, 2, 0, 0], [0, 0, 1, 1]]);
    assert_eq!(FACE_TO_EDGE_NODE_ORDERS, [[0, 0, 1, 1], [0, 0, 1, 1], [0, 1, 0, 1], [0, 1, 0, 1]]);
    assert_eq!(FACE_TO_EDGE_MIRRORS, [[2, 3, 0, 1], [2, 3, 0, 1], [1, 0, 3, 2], [1, 0, 3, 2]]);
}

#[test]
fn face_adjacent_octants_differ_on_the_axis_only() {
    for axis in 0..3 {
        let mut seen = [false; 8];
        for pair in FACE_ADJACENT_OCTANTS[axis] {
            assert_eq!(pair[0] & (1 << axis), 0);
            assert_eq!(pair[1], pair[0] | (1 << axis));
            seen[pair[0] as usize] = true;
            seen[pair[1] as usize] = true;
        }
        assert_eq!(seen, [true; 8]);
    }
}

#[test]
fn edge_adjacent_octants_run_in_z_order() {
    for axis in 0..3usize {
        let next = (axis + 1) % 3;
        let last = (axis + 2) % 3;
        for half in 0..2usize {
            for slot in 0..4usize {
                let expected = (half << axis) | ((slot % 2) << next) | ((slot / 2) << last);
                assert_eq!(EDGE_ADJACENT_OCTANTS[axis][half][slot] as usize, expected);
            }
        }
    }
}

#[test]
fn edges_in_a_face_run_along_the_other_axes() {
    for axis in 0..3usize {
        for edge in 0..4usize {
            let edge_axis = FACE_TO_EDGE_AXIS[axis][edge];
            assert_eq!(edge_axis, (axis + 1 + edge / 2) % 3);
            assert_ne!(edge_axis, axis);
            assert_eq!(
                FACE_TO_EDGE_ADJACENT_OCTANTS[axis][edge],
                EDGE_ADJACENT_OCTANTS[edge_axis][edge % 2]
            );
        }
    }
}

#[test]
fn mirrors_cross_the_face() {
    // The cell on one side of a face takes part in the octant that lies
    // across the face from the slot that it fills.
    for axis in 0..3usize {
        for edge in 0..4usize {
            let quartet = FACE_TO_EDGE_ADJACENT_OCTANTS[axis][edge];
            for slot in 0..4usize {
                let side = FACE_TO_EDGE_NODE_ORDERS[edge][slot];
                let octant = quartet[FACE_TO_EDGE_MIRRORS[edge][slot]];
                // A cell on the negative side of the face meets the face with
                // its octants on the positive side, and the other way round.
                assert_eq!(((octant >> axis) & 1) as usize, 1 - side);
                assert_eq!(octant, quartet[slot] ^ (1 << axis));
            }
        }
    }
}
