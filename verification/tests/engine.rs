use twenty48::{Board, Core, Direction};

#[test]
fn test_shift() {
    let core = Core::new();
    let mut board = Board::new(
        4,
        Some(vec![
            1, 0, 0, 0,
            1, 0, 1, 1,
            1, 0, 1, 2,
            0, 0, 0, 0,
        ]),
        0,
    );

    core.shift(&mut board, &Direction::Right);
    assert_eq!(
        board.tiles,
        [
            [0, 0, 0, 1],
            [0, 0, 1, 2],
            [0, 0, 0, 3],
            [0, 0, 0, 0],
        ]
        .concat()
    );

    core.shift(&mut board, &Direction::Down);
    assert_eq!(
        board.tiles,
        [
            [0, 0, 0, 0],
            [0, 0, 0, 1],
            [0, 0, 0, 2],
            [0, 0, 1, 3],
        ]
        .concat()
    );
}

#[test]
fn test_game_over() {
    let core = Core::new();
    let board = Board::new(
        4,
        Some(vec![
            1, 2, 3, 4,
            4, 3, 2, 1,
            1, 2, 3, 4,
            4, 3, 2, 1,
        ]),
        0,
    );
    assert_eq!(core.is_game_over(&board), true);

    let board = Board::new(
        4,
        Some(vec![
            1, 2, 3, 4,
            4, 3, 2, 1,
            1, 2, 3, 4,
            4, 3, 2, 4,
        ]),
        0,
    );
    assert_eq!(core.is_game_over(&board), false);
}

#[test]
fn shift_right_scores_both_merges() {
    // Two merges of 1-tiles (worth 2^2 each) and one cascading merge into
    // the stored 2 (worth 2^3): the score gains 16.
    let core = Core::new();
    let mut board = Board::new(
        4,
        Some(vec![
            1, 0, 0, 0,
            1, 0, 1, 1,
            1, 0, 1, 2,
            0, 0, 0, 0,
        ]),
        0,
    );
    let traces = core.shift(&mut board, &Direction::Right);
    assert_eq!(board.score, 16);
    assert!(!traces.is_empty());
}

#[test]
fn shift_conserves_displayed_sum() {
    let core = Core::new();
    let tiles = vec![
        1, 0, 0, 0,
        1, 0, 1, 1,
        1, 0, 1, 2,
        0, 0, 0, 0,
    ];
    let displayed = |cells: &Vec<i32>| -> u64 {
        cells.iter().map(|&v| if v > 0 { 1u64 << v } else { 0 }).sum()
    };
    let mut board = Board::new(4, Some(tiles), 0);
    let before = displayed(&board.tiles);
    core.shift(&mut board, &Direction::Right);
    assert_eq!(displayed(&board.tiles), before);
}

#[test]
fn shift_left_coalesces_slides_into_one_trace() {
    let core = Core::new();
    let mut board = Board::new(
        4,
        Some(vec![
            0, 0, 0, 2,
            0, 0, 0, 0,
            0, 0, 0, 0,
            0, 0, 0, 0,
        ]),
        0,
    );
    let traces = core.shift(&mut board, &Direction::Left);
    assert_eq!(
        board.tiles,
        vec![
            2, 0, 0, 0,
            0, 0, 0, 0,
            0, 0, 0, 0,
            0, 0, 0, 0,
        ]
    );
    assert_eq!(traces, vec![((0, 3), (0, 0))]);
    assert_eq!(board.score, 0);
}

#[test]
fn shift_right_merges_from_the_right_edge_first() {
    let core = Core::new();
    let mut board = Board::new(
        4,
        Some(vec![
            1, 1, 1, 0,
            0, 0, 0, 0,
            0, 0, 0, 0,
            0, 0, 0, 0,
        ]),
        0,
    );
    core.shift(&mut board, &Direction::Right);
    assert_eq!(
        board.tiles,
        vec![
            0, 0, 1, 2,
            0, 0, 0, 0,
            0, 0, 0, 0,
            0, 0, 0, 0,
        ]
    );
    assert_eq!(board.score, 4);
}

#[test]
fn noop_shift_returns_no_traces_and_changes_nothing() {
    let core = Core::new();
    let tiles = vec![
        0, 0, 0, 1,
        0, 0, 0, 2,
        0, 0, 0, 1,
        0, 0, 0, 2,
    ];
    let mut board = Board::new(4, Some(tiles.clone()), 7);
    let traces = core.shift(&mut board, &Direction::Right);
    assert!(traces.is_empty());
    assert_eq!(board.tiles, tiles);
    assert_eq!(board.score, 7);
}

#[test]
fn shift_keeps_cells_nonnegative_and_score_nondecreasing() {
    let core = Core::new();
    let mut board = Board::new(
        4,
        Some(vec![
            1, 1, 2, 2,
            3, 3, 4, 4,
            1, 2, 1, 2,
            5, 5, 6, 6,
        ]),
        100,
    );
    let mut last_score = board.score;
    for dir in [Direction::Left, Direction::Up, Direction::Right, Direction::Down] {
        core.shift(&mut board, &dir);
        assert!(board.tiles.iter().all(|&v| v >= 0));
        assert!(board.score >= last_score);
        last_score = board.score;
    }
}

#[test]
fn get_and_set_and_neighbours() {
    let mut board = Board::new(3, None, 0);
    assert_eq!(board.get(&(0, 0)), Some(0));
    assert_eq!(board.get(&(3, 0)), None);
    assert_eq!(board.get(&(0, 3)), None);
    board.set(&(1, 2), 5);
    assert_eq!(board.get(&(1, 2)), Some(5));

    assert_eq!(board.next(&(0, 0), &Direction::Up), None);
    assert_eq!(board.next(&(0, 0), &Direction::Left), None);
    assert_eq!(board.next(&(0, 0), &Direction::Right), Some((0, 1)));
    assert_eq!(board.next(&(0, 0), &Direction::Down), Some((1, 0)));
    assert_eq!(board.next(&(2, 2), &Direction::Down), None);
    assert_eq!(board.next(&(2, 2), &Direction::Right), None);
}

#[test]
fn place_if_empty_only_fills_empty_cells() {
    let mut board = Board::new(2, Some(vec![0, 3, 0, 0]), 0);
    assert!(!board.place_if_empty(&(0, 1), 1));
    assert_eq!(board.get(&(0, 1)), Some(3));
    assert!(board.place_if_empty(&(1, 0), 2));
    assert_eq!(board.get(&(1, 0)), Some(2));
}

#[test]
fn game_over_sees_empty_cells_everywhere() {
    let core = Core::new();
    // An empty cell far from the top-left corner must still be found.
    let board = Board::new(
        3,
        Some(vec![
            1, 2, 3,
            4, 5, 6,
            7, 8, 0,
        ]),
        0,
    );
    assert_eq!(core.is_game_over(&board), false);
}
