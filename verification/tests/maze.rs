use pythia_kernels::maze::{bfs, validate, ValidationError};

fn grid(rows: &[&[u8]]) -> Vec<Vec<u8>> {
    rows.iter().map(|r| r.to_vec()).collect()
}

#[test]
fn detour_around_a_wall_row() {
    // The only gap in the middle row is in its last column: four moves lead
    // to the cell below the gap, and two more back to the first column.
    let g = grid(&[&[0, 0, 0], &[1, 1, 0], &[0, 0, 0]]);
    assert_eq!(validate(&g, (0, 0), (2, 0)), Ok(()));
    assert_eq!(bfs(&g, (0, 0), (1, 2)), Some(3));
    assert_eq!(bfs(&g, (0, 0), (2, 2)), Some(4));
    assert_eq!(bfs(&g, (0, 0), (2, 1)), Some(5));
    assert_eq!(bfs(&g, (0, 0), (2, 0)), Some(6));
    assert_eq!(bfs(&g, (2, 0), (0, 0)), Some(6));
}

#[test]
fn diagonal_neighbours_are_not_joined() {
    let g = grid(&[&[0, 1], &[1, 0]]);
    assert_eq!(validate(&g, (0, 0), (1, 1)), Ok(()));
    assert_eq!(bfs(&g, (0, 0), (1, 1)), None);
}

#[test]
fn start_equal_to_goal_takes_no_move() {
    let g = grid(&[&[0, 1], &[1, 0]]);
    assert_eq!(bfs(&g, (0, 0), (0, 0)), Some(0));
    assert_eq!(bfs(&g, (1, 1), (1, 1)), Some(0));
    let one = grid(&[&[0]]);
    assert_eq!(bfs(&one, (0, 0), (0, 0)), Some(0));
}

#[test]
fn start_out_of_bounds_in_a_two_by_two_grid() {
    let g = grid(&[&[0, 0], &[0, 0]]);
    assert_eq!(validate(&g, (2, 0), (1, 1)), Err(ValidationError::StartOutOfBounds));
    assert_eq!(validate(&g, (0, 2), (1, 1)), Err(ValidationError::StartOutOfBounds));
    assert_eq!(validate(&g, (usize::MAX, usize::MAX), (1, 1)), Err(ValidationError::StartOutOfBounds));
    assert_eq!(bfs(&g, (2, 0), (1, 1)), None);
    assert_eq!(bfs(&g, (0, 2), (1, 1)), None);
}

#[test]
fn goal_out_of_bounds() {
    let g = grid(&[&[0, 0], &[0, 0]]);
    assert_eq!(validate(&g, (0, 0), (2, 1)), Err(ValidationError::GoalOutOfBounds));
    assert_eq!(validate(&g, (0, 0), (1, 2)), Err(ValidationError::GoalOutOfBounds));
    assert_eq!(bfs(&g, (0, 0), (2, 1)), None);
}

#[test]
fn start_on_a_wall() {
    let g = grid(&[&[1, 0], &[0, 0]]);
    assert_eq!(validate(&g, (0, 0), (1, 1)), Err(ValidationError::StartIsWall));
    assert_eq!(bfs(&g, (0, 0), (1, 1)), None);
    assert_eq!(bfs(&g, (0, 0), (0, 0)), None);
}

#[test]
fn goal_on_a_wall() {
    let g = grid(&[&[0, 0], &[0, 1]]);
    assert_eq!(validate(&g, (0, 0), (1, 1)), Err(ValidationError::GoalIsWall));
    assert_eq!(bfs(&g, (0, 0), (1, 1)), None);
}

#[test]
fn empty_grid() {
    let g: Vec<Vec<u8>> = Vec::new();
    assert_eq!(validate(&g, (0, 0), (0, 0)), Err(ValidationError::EmptyGrid));
    assert_eq!(bfs(&g, (0, 0), (0, 0)), None);
}

#[test]
fn zero_width() {
    let g = grid(&[&[], &[]]);
    assert_eq!(validate(&g, (0, 0), (0, 0)), Err(ValidationError::ZeroWidth));
    assert_eq!(bfs(&g, (0, 0), (0, 0)), None);
}

#[test]
fn rules_are_checked_in_order() {
    let walls = grid(&[&[1, 1], &[1, 1]]);
    assert_eq!(validate(&walls, (5, 5), (7, 7)), Err(ValidationError::StartOutOfBounds));
    assert_eq!(validate(&walls, (0, 0), (7, 7)), Err(ValidationError::GoalOutOfBounds));
    assert_eq!(validate(&walls, (0, 0), (1, 1)), Err(ValidationError::StartIsWall));
    let empty: Vec<Vec<u8>> = Vec::new();
    assert_eq!(validate(&empty, (5, 5), (7, 7)), Err(ValidationError::EmptyGrid));
    let flat = grid(&[&[]]);
    assert_eq!(validate(&flat, (5, 5), (7, 7)), Err(ValidationError::ZeroWidth));
}

#[test]
fn any_value_but_zero_is_a_wall() {
    let g = grid(&[&[0, 2, 0]]);
    assert_eq!(bfs(&g, (0, 0), (0, 2)), None);
    let h = grid(&[&[0, 255, 0], &[0, 0, 0]]);
    assert_eq!(bfs(&h, (0, 0), (0, 2)), Some(4));
    assert_eq!(validate(&h, (0, 1), (0, 2)), Err(ValidationError::StartIsWall));
}

#[test]
fn open_grid_takes_the_manhattan_distance() {
    let g = vec![vec![0u8; 7]; 5];
    for r in 0..5 {
        for c in 0..7 {
            assert_eq!(bfs(&g, (0, 0), (r, c)), Some(r + c));
            assert_eq!(bfs(&g, (r, c), (0, 0)), Some(r + c));
            assert_eq!(bfs(&g, (4, 6), (r, c)), Some(4 - r + 6 - c));
        }
    }
}

#[test]
fn single_row_and_single_column() {
    let row = grid(&[&[0, 0, 0, 0, 0]]);
    assert_eq!(bfs(&row, (0, 0), (0, 4)), Some(4));
    assert_eq!(bfs(&row, (0, 4), (0, 1)), Some(3));
    let column = grid(&[&[0], &[0], &[0], &[0]]);
    assert_eq!(bfs(&column, (0, 0), (3, 0)), Some(3));
    assert_eq!(bfs(&column, (3, 0), (1, 0)), Some(2));
}

#[test]
fn winding_corridor() {
    let g = grid(&[
        &[0, 1, 0, 0, 0],
        &[0, 1, 0, 1, 0],
        &[0, 1, 0, 1, 0],
        &[0, 0, 0, 1, 0],
    ]);
    assert_eq!(bfs(&g, (0, 0), (0, 4)), Some(10));
    assert_eq!(bfs(&g, (0, 4), (0, 0)), Some(10));
    assert_eq!(bfs(&g, (0, 0), (3, 4)), Some(13));
    assert_eq!(bfs(&g, (0, 0), (3, 2)), Some(5));
}

#[test]
fn the_shorter_of_two_ways_is_taken() {
    let g = grid(&[
        &[0, 0, 0, 0],
        &[0, 1, 1, 0],
        &[0, 1, 1, 0],
        &[0, 0, 0, 0],
        &[1, 1, 1, 0],
    ]);
    assert_eq!(bfs(&g, (0, 0), (3, 3)), Some(6));
    assert_eq!(bfs(&g, (1, 0), (1, 3)), Some(5));
    assert_eq!(bfs(&g, (2, 0), (2, 3)), Some(5));
    assert_eq!(bfs(&g, (0, 0), (4, 3)), Some(7));
}

#[test]
fn enclosed_goal_is_out_of_reach() {
    let g = grid(&[
        &[0, 0, 0, 0],
        &[0, 1, 1, 1],
        &[0, 1, 0, 1],
        &[0, 1, 1, 1],
    ]);
    assert_eq!(validate(&g, (0, 0), (2, 2)), Ok(()));
    assert_eq!(bfs(&g, (0, 0), (2, 2)), None);
    assert_eq!(bfs(&g, (2, 2), (0, 0)), None);
    assert_eq!(bfs(&g, (2, 2), (2, 2)), Some(0));
}

#[test]
fn width_is_that_of_the_first_row() {
    let longer = grid(&[&[0, 0], &[0, 0, 0]]);
    assert_eq!(validate(&longer, (0, 0), (1, 2)), Err(ValidationError::GoalOutOfBounds));
    assert_eq!(bfs(&longer, (0, 0), (1, 1)), Some(2));
}

#[test]
fn a_position_that_a_short_row_lacks_is_a_wall() {
    let shorter = grid(&[&[0, 0, 0], &[0], &[0, 0, 0]]);
    assert_eq!(validate(&shorter, (1, 1), (0, 0)), Err(ValidationError::StartIsWall));
    assert_eq!(validate(&shorter, (0, 0), (1, 2)), Err(ValidationError::GoalIsWall));
    assert_eq!(bfs(&shorter, (0, 0), (0, 2)), Some(2));
    assert_eq!(bfs(&shorter, (0, 2), (2, 2)), Some(6));
    let cut = grid(&[&[0, 0], &[], &[0, 0]]);
    assert_eq!(bfs(&cut, (0, 0), (2, 0)), None);
}

#[test]
fn same_request_same_answer() {
    let g = grid(&[&[0, 0, 0], &[1, 1, 0], &[0, 0, 0]]);
    let first = bfs(&g, (0, 0), (2, 0));
    for _ in 0..10 {
        assert_eq!(bfs(&g, (0, 0), (2, 0)), first);
    }
}

#[test]
fn large_open_grid() {
    let g = vec![vec![0u8; 200]; 200];
    assert_eq!(bfs(&g, (0, 0), (199, 199)), Some(398));
}
