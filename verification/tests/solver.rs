use keamogetswe::grid::{cell_coords, cell_index, face_neighbour};
use keamogetswe::solver::{CellState, Fmm, UNREACHED};

#[test]
fn new_march_has_only_the_source_accepted() {
    let f = Fmm::new(3, 13, 0);
    assert_eq!(f.resolution(), 3);
    assert_eq!(f.num_cells(), 27);
    for i in 0..27 {
        if i == 13 {
            assert_eq!(f.state_at(i), CellState::Accepted);
            assert_eq!(f.cost_at(i), 0);
        } else {
            assert_eq!(f.state_at(i), CellState::Far);
            assert_eq!(f.cost_at(i), UNREACHED);
        }
    }
}

#[test]
fn relax_takes_only_lower_keys_of_unaccepted_cells() {
    let mut f = Fmm::new(2, 0, 0);
    assert!(f.relax(1, 10));
    assert_eq!(f.state_at(1), CellState::Considered);
    assert_eq!(f.cost_at(1), 10);
    assert!(!f.relax(1, 10));
    assert!(!f.relax(1, 11));
    assert_eq!(f.cost_at(1), 10);
    assert!(f.relax(1, 4));
    assert_eq!(f.cost_at(1), 4);
    // the accepted source never changes
    assert!(!f.relax(0, 0));
    assert_eq!(f.state_at(0), CellState::Accepted);
}

#[test]
fn accept_next_takes_least_key_and_skips_stale_entries() {
    let mut f = Fmm::new(2, 0, 0);
    f.relax(1, 9);
    f.relax(2, 5);
    f.relax(1, 3); // leaves a stale entry (9, 1) in the queue
    assert_eq!(f.accept_next(), Some(1));
    assert_eq!(f.cost_at(1), 3);
    assert_eq!(f.state_at(1), CellState::Accepted);
    assert_eq!(f.accept_next(), Some(2));
    assert_eq!(f.cost_at(2), 5);
    assert_eq!(f.accept_next(), None);
    assert_eq!(f.accept_next(), None);
}

#[test]
fn accepted_cost_is_final() {
    let mut f = Fmm::new(2, 0, 0);
    f.relax(3, 7);
    assert_eq!(f.accept_next(), Some(3));
    assert!(!f.relax(3, 1));
    assert_eq!(f.cost_at(3), 7);
}

#[test]
fn neighbour_updates_of_corner_source() {
    let f = Fmm::new(2, 0, 0);
    let u = f.neighbour_updates(0);
    assert_eq!(u.len(), 3);
    assert_eq!((u[0].cell, u[0].x, u[0].y, u[0].z), (1, 1, 0, 0));
    assert_eq!((u[0].dx, u[0].dy, u[0].dz), (1, 0, 0));
    assert_eq!((u[0].axis_x, u[0].axis_y, u[0].axis_z), (0, UNREACHED, UNREACHED));
    assert_eq!((u[1].cell, u[1].dx, u[1].dy, u[1].dz), (2, 0, 1, 0));
    assert_eq!((u[1].axis_x, u[1].axis_y, u[1].axis_z), (UNREACHED, 0, UNREACHED));
    assert_eq!((u[2].cell, u[2].dx, u[2].dy, u[2].dz), (4, 0, 0, 1));
    assert_eq!((u[2].axis_x, u[2].axis_y, u[2].axis_z), (UNREACHED, UNREACHED, 0));
}

#[test]
fn neighbour_updates_skip_accepted_and_use_least_axis_key() {
    let n = 3;
    let centre = cell_index(n, 1, 1, 1);
    let mut f = Fmm::new(n, centre, 20);
    let left = cell_index(n, 0, 1, 1);
    f.relax(left, 5);
    assert_eq!(f.accept_next(), Some(left));
    // cell (0,1,1) is accepted with 5, centre with 20
    let u = f.neighbour_updates(centre);
    assert_eq!(u.len(), 5);
    assert!(u.iter().all(|v| v.cell != left));
    // (2,1,1): x-axis neighbours are the centre (20) and nothing beyond
    assert_eq!(u[0].cell, cell_index(n, 2, 1, 1));
    assert_eq!(u[0].axis_x, 20);
    // (1,0,1): x-axis neighbours (0,0,1) and (2,0,1) are far
    assert_eq!(u[1].cell, cell_index(n, 1, 0, 1));
    assert_eq!(u[1].axis_x, UNREACHED);
    assert_eq!(u[1].axis_y, 20);
    assert_eq!(f.axis_min(0, 1, 1, 0), 20);
    assert_eq!(f.axis_min(1, 1, 1, 0), 5);
    assert_eq!(f.axis_min(1, 1, 1, 1), UNREACHED);
}

#[test]
fn integer_march_matches_breadth_first_distance() {
    // With unit keys per step the march accepts cells in order of their
    // grid distance from the source.
    let n = 4;
    let src = cell_index(n, 0, 0, 0);
    let mut f = Fmm::new(n, src, 0);
    let mut order = Vec::new();
    let mut frontier = vec![src];
    loop {
        for c in frontier.drain(..) {
            let base = f.cost_at(c);
            for u in f.neighbour_updates(c) {
                f.relax(u.cell, base + 1);
            }
        }
        match f.accept_next() {
            Some(i) => {
                order.push(i);
                frontier.push(i);
            }
            None => break,
        }
    }
    assert_eq!(order.len(), n * n * n - 1);
    for z in 0..n {
        for y in 0..n {
            for x in 0..n {
                let i = cell_index(n, x, y, z);
                assert_eq!(f.state_at(i), CellState::Accepted);
                assert_eq!(f.cost_at(i), (x + y + z) as u64);
            }
        }
    }
    let mut last = 0;
    for i in order {
        assert!(f.cost_at(i) >= last);
        last = f.cost_at(i);
    }
}

#[test]
fn relaxing_other_cells_leaves_updates_unchanged() {
    let n = 3;
    let centre = cell_index(n, 1, 1, 1);
    let mut f = Fmm::new(n, centre, 2);
    let before = f.neighbour_updates(centre);
    for u in &before {
        f.relax(u.cell, 1 + u.cell as u64);
    }
    let after = f.neighbour_updates(centre);
    assert_eq!(before, after);
}

#[test]
fn march_with_unit_steps_gives_grid_distance() {
    let n = 4;
    let src = cell_index(n, 1, 2, 0);
    let mut f = Fmm::new(n, src, 0);
    f.march(src, |u| {
        let best = u.axis_x.min(u.axis_y).min(u.axis_z);
        Some(best + 1)
    });
    for z in 0..n {
        for y in 0..n {
            for x in 0..n {
                let i = cell_index(n, x, y, z);
                assert_eq!(f.state_at(i), CellState::Accepted);
                let d = (x as i64 - 1).abs() + (y as i64 - 2).abs() + z as i64;
                assert_eq!(f.cost_at(i), d as u64);
            }
        }
    }
    assert_eq!(f.accept_next(), None);
}

#[test]
fn march_without_offers_accepts_only_the_source() {
    let n = 3;
    let mut f = Fmm::new(n, 0, 0);
    f.march(0, |_u| None);
    assert_eq!(f.state_at(0), CellState::Accepted);
    for i in 1..27 {
        assert_eq!(f.state_at(i), CellState::Far);
        assert_eq!(f.cost_at(i), UNREACHED);
    }
}

#[test]
fn march_offers_each_neighbour_of_each_accepted_cell() {
    let n = 2;
    let mut f = Fmm::new(n, 0, 0);
    let seen = std::cell::RefCell::new(Vec::new());
    f.march(0, |u| {
        seen.borrow_mut().push(u.cell);
        Some(10 + u.cell as u64)
    });
    let seen = seen.into_inner();
    // the source's three neighbours first, in -x,+x,-y,+y,-z,+z order
    assert_eq!(&seen[..3], &[1, 2, 4]);
    for i in 0..8 {
        assert_eq!(f.state_at(i), CellState::Accepted);
    }
    assert_eq!(f.cost_at(1), 11);
    assert_eq!(f.cost_at(2), 12);
    assert_eq!(f.cost_at(4), 14);
}

#[test]
fn march_with_upwind_offers_leaves_every_cell_supported() {
    let n = 5;
    let src = cell_index(n, 4, 0, 2);
    let mut f = Fmm::new(n, src, 0);
    // offers never below the least axis key, with varying extra cost
    f.march(src, |u| {
        let best = u.axis_x.min(u.axis_y).min(u.axis_z);
        Some(best + (u.cell as u64 % 3))
    });
    for i in 0..n * n * n {
        assert_eq!(f.state_at(i), CellState::Accepted);
        if i == src {
            continue;
        }
        let (x, y, z) = cell_coords(n, i);
        let mut ok = false;
        for d in 0..6 {
            if let Some((a, b, c)) = face_neighbour(n, x, y, z, d) {
                if f.cost_at(cell_index(n, a, b, c)) <= f.cost_at(i) {
                    ok = true;
                }
            }
        }
        assert!(ok, "cell {} has no upwind neighbour", i);
    }
}
