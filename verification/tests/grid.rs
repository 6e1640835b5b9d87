use keamogetswe::grid::{cell_coords, cell_index, clamped_cell, face_direction, face_neighbour, gradient_stencil};

#[test]
fn cell_index_is_z_major() {
    assert_eq!(cell_index(4, 0, 0, 0), 0);
    assert_eq!(cell_index(4, 3, 0, 0), 3);
    assert_eq!(cell_index(4, 0, 1, 0), 4);
    assert_eq!(cell_index(4, 0, 0, 1), 16);
    assert_eq!(cell_index(4, 3, 2, 1), 16 + 8 + 3);
    assert_eq!(cell_index(4, 3, 3, 3), 63);
}

#[test]
fn cell_coords_inverts_cell_index() {
    let n = 5;
    for z in 0..n {
        for y in 0..n {
            for x in 0..n {
                let i = cell_index(n, x, y, z);
                assert_eq!(cell_coords(n, i), (x, y, z));
            }
        }
    }
    for i in 0..n * n * n {
        let (x, y, z) = cell_coords(n, i);
        assert_eq!(cell_index(n, x, y, z), i);
    }
}

#[test]
fn clamped_cell_clamps_each_axis_to_last_layer() {
    assert_eq!(clamped_cell(4, 1, 2, 3), cell_index(4, 1, 2, 3));
    assert_eq!(clamped_cell(4, 9, 2, 3), cell_index(4, 3, 2, 3));
    assert_eq!(clamped_cell(4, 0, usize::MAX, 4), cell_index(4, 0, 3, 3));
    assert_eq!(clamped_cell(1, 7, 7, 7), 0);
    // a point with coordinate 1.0 at resolution 128 lands in the last cell
    assert_eq!(clamped_cell(128, 128, 128, 128), 128 * 128 * 128 - 1);
}

#[test]
fn face_directions_in_order() {
    assert_eq!(face_direction(0), (-1, 0, 0));
    assert_eq!(face_direction(1), (1, 0, 0));
    assert_eq!(face_direction(2), (0, -1, 0));
    assert_eq!(face_direction(3), (0, 1, 0));
    assert_eq!(face_direction(4), (0, 0, -1));
    assert_eq!(face_direction(5), (0, 0, 1));
}

#[test]
fn face_neighbours_stay_in_grid() {
    assert_eq!(face_neighbour(3, 0, 1, 2, 0), None);
    assert_eq!(face_neighbour(3, 0, 1, 2, 1), Some((1, 1, 2)));
    assert_eq!(face_neighbour(3, 0, 1, 2, 2), Some((0, 0, 2)));
    assert_eq!(face_neighbour(3, 0, 1, 2, 3), Some((0, 2, 2)));
    assert_eq!(face_neighbour(3, 0, 1, 2, 4), Some((0, 1, 1)));
    assert_eq!(face_neighbour(3, 0, 1, 2, 5), None);
    assert_eq!(face_neighbour(1, 0, 0, 0, 1), None);
}

#[test]
fn gradient_stencil_one_sided_at_faces() {
    let s = gradient_stencil(0, 5);
    assert_eq!((s.upper, s.lower, s.halved), (1, 0, false));
    let s = gradient_stencil(4, 5);
    assert_eq!((s.upper, s.lower, s.halved), (4, 3, false));
    let s = gradient_stencil(2, 5);
    assert_eq!((s.upper, s.lower, s.halved), (3, 1, true));
    let s = gradient_stencil(1, 2);
    assert_eq!((s.upper, s.lower, s.halved), (1, 0, false));
}
