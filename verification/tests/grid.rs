use snake::direction::Direction;
use snake::grid::{count_free, covers, nth_free, step_from};
use std::collections::VecDeque;

fn body_of(cells: &[(u8, u8)]) -> VecDeque<(u8, u8)> {
    cells.iter().copied().collect()
}

#[test]
fn neighbours_inside_the_board() {
    assert_eq!(step_from((8, 8), (4, 4), Direction::Up), Some((4, 3)));
    assert_eq!(step_from((8, 8), (4, 4), Direction::Down), Some((4, 5)));
    assert_eq!(step_from((8, 8), (4, 4), Direction::Left), Some((3, 4)));
    assert_eq!(step_from((8, 8), (4, 4), Direction::Right), Some((5, 4)));
}

#[test]
fn no_neighbour_past_an_edge() {
    assert_eq!(step_from((8, 8), (4, 0), Direction::Up), None);
    assert_eq!(step_from((8, 8), (4, 7), Direction::Down), None);
    assert_eq!(step_from((8, 8), (0, 4), Direction::Left), None);
    assert_eq!(step_from((8, 8), (7, 4), Direction::Right), None);
}

#[test]
fn no_neighbour_without_a_heading() {
    assert_eq!(step_from((8, 8), (4, 4), Direction::Still), None);
}

#[test]
fn neighbours_at_the_largest_board() {
    assert_eq!(step_from((255, 255), (254, 254), Direction::Right), None);
    assert_eq!(step_from((255, 255), (254, 254), Direction::Down), None);
    assert_eq!(step_from((255, 255), (253, 254), Direction::Right), Some((254, 254)));
    assert_eq!(step_from((255, 255), (255, 255), Direction::Right), None);
    assert_eq!(step_from((255, 255), (255, 255), Direction::Down), None);
}

#[test]
fn covers_finds_each_cell_of_the_body() {
    let body = body_of(&[(1, 1), (2, 1), (2, 2)]);
    assert!(covers(&body, (1, 1)));
    assert!(covers(&body, (2, 1)));
    assert!(covers(&body, (2, 2)));
    assert!(!covers(&body, (1, 2)));
    assert!(!covers(&body, (0, 0)));
    assert!(!covers(&VecDeque::new(), (0, 0)));
}

#[test]
fn free_cells_are_counted() {
    assert_eq!(count_free((3, 2), &VecDeque::new()), 6);
    assert_eq!(count_free((3, 2), &body_of(&[(0, 0), (2, 1)])), 4);
    assert_eq!(count_free((1, 1), &body_of(&[(0, 0)])), 0);
    assert_eq!(count_free((0, 5), &VecDeque::new()), 0);
    assert_eq!(count_free((255, 255), &body_of(&[(0, 0)])), 255 * 255 - 1);
}

#[test]
fn cells_off_the_board_free_nothing() {
    assert_eq!(count_free((2, 2), &body_of(&[(5, 5)])), 4);
}

#[test]
fn free_cells_come_column_by_column() {
    let body = body_of(&[(0, 1), (1, 0)]);
    // A board of 3 columns and 2 rows: (0,0) (0,1) (1,0) (1,1) (2,0) (2,1).
    assert_eq!(nth_free((3, 2), &body, 0), Some((0, 0)));
    assert_eq!(nth_free((3, 2), &body, 1), Some((1, 1)));
    assert_eq!(nth_free((3, 2), &body, 2), Some((2, 0)));
    assert_eq!(nth_free((3, 2), &body, 3), Some((2, 1)));
    assert_eq!(nth_free((3, 2), &body, 4), None);
    assert_eq!(nth_free((3, 2), &body, usize::MAX), None);
}

#[test]
fn every_free_cell_is_listed_once() {
    let body = body_of(&[(3, 3), (3, 4), (4, 4), (5, 4)]);
    let n = count_free((8, 8), &body);
    assert_eq!(n, 60);
    let mut seen = Vec::new();
    for k in 0..n {
        let cell = nth_free((8, 8), &body, k).unwrap();
        assert!(cell.0 < 8 && cell.1 < 8);
        assert!(!covers(&body, cell));
        assert!(!seen.contains(&cell));
        seen.push(cell);
    }
    assert_eq!(nth_free((8, 8), &body, n), None);
}
