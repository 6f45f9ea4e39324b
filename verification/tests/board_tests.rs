use life::Around;
use life::Board;
use life::Position;

/// A board seeded with the given live cells.
fn board_of(cells: &[(i32, i32)]) -> Board {
    let mut b = Board::new();
    for &(x, y) in cells {
        b.set_alive(Position::new(x, y));
    }
    b
}

/// Asserts that within the box `x0..=x1` by `y0..=y1` exactly the cells in
/// `live` are live on `b`.
fn assert_exact_in_box(b: &Board, live: &[(i32, i32)], x0: i32, x1: i32, y0: i32, y1: i32) {
    for x in x0..=x1 {
        for y in y0..=y1 {
            let expected = live.contains(&(x, y));
            assert_eq!(
                b.contains(&Position::new(x, y)),
                expected,
                "cell ({}, {}) should be {}",
                x,
                y,
                if expected { "live" } else { "dead" }
            );
        }
    }
}

#[test]
fn empty_board_stays_empty() {
    let mut b = Board::new();
    assert_eq!(b.len(), 0);
    b.advance();
    assert_eq!(b.len(), 0);
    assert_exact_in_box(&b, &[], -5, 5, -5, 5);
}

#[test]
fn lone_cell_has_zero_neighbours() {
    let b = board_of(&[(7, -3)]);
    assert_eq!(b.neighbours(&Position::new(7, -3)), 0);
}

#[test]
fn lone_cell_dies() {
    let mut b = board_of(&[(7, -3)]);
    b.advance();
    assert_eq!(b.len(), 0);
    assert_exact_in_box(&b, &[], 4, 10, -6, 0);
}

#[test]
fn block_3x3_transition() {
    let mut b = board_of(&[
        (0, 0),
        (1, 0),
        (2, 0),
        (0, 1),
        (1, 1),
        (2, 1),
        (0, 2),
        (1, 2),
        (2, 2),
    ]);
    b.advance();
    let expected = [
        (0, 0),
        (2, 0),
        (0, 2),
        (2, 2),
        (1, -1),
        (-1, 1),
        (3, 1),
        (1, 3),
    ];
    assert_eq!(b.len(), expected.len());
    assert_exact_in_box(&b, &expected, -4, 6, -4, 6);
}

#[test]
fn glider_period_four_translation() {
    let seed = [(10, 11), (11, 12), (12, 12), (12, 11), (12, 10)];
    let mut b = board_of(&seed);
    for _ in 0..4 {
        b.advance();
    }
    let expected: Vec<(i32, i32)> = seed.iter().map(|&(x, y)| (x + 1, y + 1)).collect();
    assert_eq!(b.len(), 5);
    assert_exact_in_box(&b, &expected, 5, 18, 5, 18);
}

#[test]
fn set_alive_is_idempotent() {
    let mut b = Board::new();
    let p = Position::new(3, 4);
    b.set_alive(p);
    assert!(b.contains(&p));
    assert_eq!(b.len(), 1);
    b.set_alive(p);
    assert!(b.contains(&p));
    assert_eq!(b.len(), 1);
    assert_exact_in_box(&b, &[(3, 4)], 0, 7, 0, 7);
}

#[test]
fn separated_clusters_step_independently() {
    let blinker = [(0, 0), (1, 0), (2, 0)];
    let block = [(50, 50), (51, 50), (50, 51), (51, 51)];
    let mut together: Board = board_of(&[&blinker[..], &block[..]].concat());
    let mut blinker_alone = board_of(&blinker);
    let mut block_alone = board_of(&block);
    together.advance();
    blinker_alone.advance();
    block_alone.advance();
    for x in -3..6 {
        for y in -3..6 {
            let p = Position::new(x, y);
            assert_eq!(together.contains(&p), blinker_alone.contains(&p));
        }
    }
    for x in 47..55 {
        for y in 47..55 {
            let p = Position::new(x, y);
            assert_eq!(together.contains(&p), block_alone.contains(&p));
        }
    }
    assert_eq!(
        together.len(),
        blinker_alone.len() + block_alone.len()
    );
}

#[test]
fn lone_distant_cell_does_not_disturb_a_cluster() {
    let block = [(0, 0), (1, 0), (0, 1), (1, 1)];
    let mut with_loner: Board = board_of(&[&block[..], &[(100, -100)][..]].concat());
    let mut block_alone = board_of(&block);
    with_loner.advance();
    block_alone.advance();
    assert_exact_in_box(&with_loner, &block, -3, 4, -3, 4);
    assert_exact_in_box(&block_alone, &block, -3, 4, -3, 4);
    assert!(!with_loner.contains(&Position::new(100, -100)));
    assert_eq!(with_loner.len(), 4);
}

#[test]
fn around_yields_the_eight_moore_neighbours() {
    let p = Position::new(4, -2);
    let nbrs = p.around();
    let got: Vec<(i32, i32)> = nbrs.iter().map(|n| (n.x, n.y)).collect();
    let expected = vec![
        (3, -3),
        (4, -3),
        (5, -3),
        (3, -2),
        (5, -2),
        (3, -1),
        (4, -1),
        (5, -1),
    ];
    assert_eq!(got, expected);
}

#[test]
fn neighbour_counts_across_a_full_block() {
    let b = board_of(&[
        (0, 0),
        (1, 0),
        (2, 0),
        (0, 1),
        (1, 1),
        (2, 1),
        (0, 2),
        (1, 2),
        (2, 2),
    ]);
    assert_eq!(b.neighbours(&Position::new(1, 1)), 8);
    assert_eq!(b.neighbours(&Position::new(0, 0)), 3);
    assert_eq!(b.neighbours(&Position::new(1, 0)), 5);
    assert_eq!(b.neighbours(&Position::new(1, -1)), 3);
    assert_eq!(b.neighbours(&Position::new(-1, -1)), 1);
    assert_eq!(b.neighbours(&Position::new(5, 5)), 0);
}

#[test]
fn neighbour_count_works_at_coordinate_extremes() {
    let empty = Board::new();
    assert_eq!(empty.neighbours(&Position::new(i32::MAX, i32::MIN)), 0);
    let b = board_of(&[(i32::MAX - 1, i32::MIN + 1)]);
    assert_eq!(b.neighbours(&Position::new(i32::MAX, i32::MIN)), 1);
    assert!(b.contains(&Position::new(i32::MAX - 1, i32::MIN + 1)));
    assert!(!b.contains(&Position::new(i32::MAX, i32::MIN)));
}

#[test]
fn blinker_oscillates_with_period_two() {
    let horizontal = [(0, 0), (1, 0), (2, 0)];
    let vertical = [(1, -1), (1, 0), (1, 1)];
    let mut b = board_of(&horizontal);
    b.advance();
    assert_eq!(b.len(), 3);
    assert_exact_in_box(&b, &vertical, -3, 5, -3, 5);
    b.advance();
    assert_exact_in_box(&b, &horizontal, -3, 5, -3, 5);
}
