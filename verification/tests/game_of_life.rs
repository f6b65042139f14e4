use homepage_core::game_of_life::{Field, GridError};

fn all_dead_grid(width: usize, height: usize) -> Field {
    let mut f = Field::new(width, height).unwrap();
    for y in 0..height {
        for x in 0..width {
            f.set_alive(x, y, false).unwrap();
        }
    }
    f
}

#[test]
fn new_all_alive() {
    let f = Field::new(3, 2).unwrap();
    assert_eq!(f.width(), 3);
    assert_eq!(f.height(), 2);
    for y in 0..2 {
        for x in 0..3 {
            assert_eq!(f.is_alive(x, y), Ok(true));
        }
    }
}

#[test]
fn new_zero_dimension_is_rejected() {
    assert_eq!(Field::new(0, 5).err(), Some(GridError::InvalidDimensions));
    assert_eq!(Field::new(5, 0).err(), Some(GridError::InvalidDimensions));
    assert_eq!(Field::new(0, 0).err(), Some(GridError::InvalidDimensions));
    assert_eq!(Field::new_random(0, 7).err(), Some(GridError::InvalidDimensions));
    assert_eq!(Field::new_random(7, 0).err(), Some(GridError::InvalidDimensions));
}

#[test]
fn new_random_has_requested_dimensions() {
    let f = Field::new_random(4, 3).unwrap();
    assert_eq!(f.width(), 4);
    assert_eq!(f.height(), 3);
    for y in 0..3 {
        for x in 0..4 {
            assert!(f.is_alive(x, y).is_ok());
        }
    }
}

#[test]
fn out_of_bounds_reads_are_errors() {
    let f = Field::new(2, 2).unwrap();
    assert_eq!(f.is_alive(2, 0), Err(GridError::OutOfBounds));
    assert_eq!(f.is_alive(0, 2), Err(GridError::OutOfBounds));
    assert_eq!(f.count_alive_neighbors(2, 0), Err(GridError::OutOfBounds));
    assert_eq!(f.count_alive_neighbors(0, 2), Err(GridError::OutOfBounds));
}

#[test]
fn clamped_read_is_zero_off_grid() {
    let f = Field::new(2, 2).unwrap();
    assert_eq!(f.clamped_read(0, 0), 1);
    assert_eq!(f.clamped_read(5, 5), 0);
    assert_eq!(f.clamped_read(2, 0), 0);
    assert_eq!(f.clamped_read(0, 2), 0);
}

#[test]
fn set_alive_touches_only_the_target() {
    let mut f = Field::new(3, 3).unwrap();
    f.set_alive(1, 1, false).unwrap();
    for y in 0..3 {
        for x in 0..3 {
            let expected = !(x == 1 && y == 1);
            assert_eq!(f.is_alive(x, y), Ok(expected));
        }
    }
    assert_eq!(f.set_alive(3, 0, true), Err(GridError::OutOfBounds));
    assert_eq!(f.is_alive(1, 1), Ok(false));
}

#[test]
fn step_preserves_dimensions() {
    let mut f = Field::new_random(7, 4).unwrap();
    f.update();
    assert_eq!(f.width(), 7);
    assert_eq!(f.height(), 4);
    f.update();
    assert_eq!(f.width(), 7);
    assert_eq!(f.height(), 4);
}

#[test]
fn dead_grid_stays_dead() {
    let mut f = all_dead_grid(3, 3);
    for _ in 0..5 {
        f.update();
        for y in 0..3 {
            for x in 0..3 {
                assert_eq!(f.is_alive(x, y), Ok(false));
            }
        }
    }
}

#[test]
fn block_2x2_is_stable() {
    let mut f = Field::new(2, 2).unwrap();
    for y in 0..2 {
        for x in 0..2 {
            assert_eq!(f.count_alive_neighbors(x, y), Ok(3));
        }
    }
    f.update();
    for y in 0..2 {
        for x in 0..2 {
            assert_eq!(f.is_alive(x, y), Ok(true));
        }
    }
}

#[test]
fn lone_cell_dies() {
    let mut f = all_dead_grid(3, 3);
    f.set_alive(1, 1, true).unwrap();
    assert_eq!(f.count_alive_neighbors(1, 1), Ok(0));
    f.update();
    for y in 0..3 {
        for x in 0..3 {
            assert_eq!(f.is_alive(x, y), Ok(false));
        }
    }
}

#[test]
fn diagonal_triomino_collapses_to_center() {
    let mut f = all_dead_grid(5, 5);
    f.set_alive(1, 1, true).unwrap();
    f.set_alive(2, 2, true).unwrap();
    f.set_alive(3, 3, true).unwrap();
    f.update();
    for y in 0..5 {
        for x in 0..5 {
            let expected = x == 2 && y == 2;
            assert_eq!(f.is_alive(x, y), Ok(expected), "cell ({x}, {y})");
        }
    }
    f.update();
    for y in 0..5 {
        for x in 0..5 {
            assert_eq!(f.is_alive(x, y), Ok(false));
        }
    }
}

#[test]
fn corner_of_all_alive_grid_has_three_neighbors() {
    let f = Field::new(4, 4).unwrap();
    assert_eq!(f.count_alive_neighbors(0, 0), Ok(3));
    let g = Field::new(2, 2).unwrap();
    assert_eq!(g.count_alive_neighbors(0, 0), Ok(3));
}

#[test]
fn step_reads_only_the_frozen_snapshot() {
    let mut f = all_dead_grid(6, 6);
    // a glider
    f.set_alive(1, 0, true).unwrap();
    f.set_alive(2, 1, true).unwrap();
    f.set_alive(0, 2, true).unwrap();
    f.set_alive(1, 2, true).unwrap();
    f.set_alive(2, 2, true).unwrap();
    // expected next generation, computed wholly from the pre-step state
    let mut expected = Vec::new();
    for y in 0..6 {
        for x in 0..6 {
            expected.push(f.will_be_alive(x, y));
        }
    }
    f.update();
    for y in 0..6 {
        for x in 0..6 {
            assert_eq!(f.is_alive(x, y), Ok(expected[y * 6 + x]), "cell ({x}, {y})");
        }
    }
}

#[test]
fn one_by_one_grid_dies() {
    let mut f = Field::new(1, 1).unwrap();
    assert_eq!(f.count_alive_neighbors(0, 0), Ok(0));
    f.update();
    assert_eq!(f.is_alive(0, 0), Ok(false));
}
