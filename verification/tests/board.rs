use xo::PlacementErrorKind;
use xo::components::Board;
use xo::components::Player;

fn place_all(board: &mut Board, player: Player, cells: &[u8]) {
    for &c in cells {
        assert!(board.place_move(c, player).is_ok());
    }
}

#[test]
fn new_board_is_empty_and_undecided() {
    let board = Board::new();
    assert_eq!(board.positions.len(), 9);
    assert_eq!(board.available_positions.len(), 9);
    for i in 0..9u8 {
        assert_eq!(board.positions[i as usize], Player::Empty(i + 1));
        assert_eq!(board.available_positions[i as usize], i + 1);
    }
    assert_eq!(board.evaluate(), Player::Empty(0));
}

#[test]
fn place_shrinks_empty_set_by_exactly_one() {
    let mut board = Board::new();
    let mut expected: usize = 9;
    for c in [5u8, 1, 9, 3] {
        assert!(board.place_move(c, Player::Human).is_ok());
        expected -= 1;
        assert_eq!(board.available_positions.len(), expected);
        assert!(!board.available_positions.contains(&c));
    }
}

#[test]
fn empty_cells_lists_open_indices_ascending() {
    let mut board = Board::new();
    assert_eq!(board.empty_cells(), vec![1u8, 2, 3, 4, 5, 6, 7, 8, 9]);
    assert!(board.place_move(5, Player::Computer).is_ok());
    assert!(board.place_move(1, Player::Human).is_ok());
    assert_eq!(board.empty_cells(), vec![2u8, 3, 4, 6, 7, 8, 9]);
}

#[test]
fn place_rejects_out_of_range_and_leaves_board_unchanged() {
    let mut board = Board::new();
    assert!(board.place_move(2, Player::Computer).is_ok());
    let positions_before = board.positions.clone();
    let available_before = board.available_positions.clone();
    for bad in [0u8, 10, 255] {
        let err = board.place_move(bad, Player::Human).unwrap_err();
        assert_eq!(err.kind, PlacementErrorKind::InvalidPosition);
        assert_eq!(board.positions, positions_before);
        assert_eq!(board.available_positions, available_before);
    }
}

#[test]
fn place_on_occupied_cell_fails_and_leaves_board_identical() {
    let mut board = Board::new();
    assert!(board.place_move(5, Player::Computer).is_ok());
    let positions_before = board.positions.clone();
    let available_before = board.available_positions.clone();
    let err = board.place_move(5, Player::Human).unwrap_err();
    assert_eq!(err.kind, PlacementErrorKind::CellOccupied);
    assert_eq!(board.positions, positions_before);
    assert_eq!(board.available_positions, available_before);
    let err = board.place_move(5, Player::Computer).unwrap_err();
    assert_eq!(err.kind, PlacementErrorKind::CellOccupied);
    assert_eq!(board.positions, positions_before);
    assert_eq!(board.available_positions, available_before);
}

#[test]
fn evaluate_detects_every_line() {
    let lines: [[u8; 3]; 8] = [
        [1, 4, 7],
        [2, 5, 8],
        [3, 6, 9],
        [1, 2, 3],
        [4, 5, 6],
        [7, 8, 9],
        [1, 5, 9],
        [3, 5, 7],
    ];
    for line in lines {
        let mut board = Board::new();
        place_all(&mut board, Player::Computer, &line);
        assert_eq!(board.evaluate(), Player::Computer);

        let mut board = Board::new();
        place_all(&mut board, Player::Human, &line);
        assert_eq!(board.evaluate(), Player::Human);
    }
}

#[test]
fn evaluate_needs_all_three_cells_of_a_line() {
    let mut board = Board::new();
    // two computer marks in a row, third cell human: no winner
    place_all(&mut board, Player::Computer, &[1, 2]);
    place_all(&mut board, Player::Human, &[3]);
    assert_eq!(board.evaluate(), Player::Empty(0));

    // two in a row with the third still empty is not a win either
    let mut board = Board::new();
    place_all(&mut board, Player::Human, &[4, 5]);
    assert_eq!(board.evaluate(), Player::Empty(0));
}

#[test]
fn evaluate_full_board_draw_is_undecided() {
    let mut board = Board::new();
    // x o x / x o o / o x x: a classic drawn board
    place_all(&mut board, Player::Computer, &[1, 3, 4, 8, 9]);
    place_all(&mut board, Player::Human, &[2, 5, 6, 7]);
    assert_eq!(board.available_positions.len(), 0);
    assert_eq!(board.evaluate(), Player::Empty(0));
}

#[test]
fn snapshot_restore_roundtrip() {
    let mut board = Board::new();
    place_all(&mut board, Player::Computer, &[5, 1]);
    place_all(&mut board, Player::Human, &[9, 3]);
    let codes = board.snapshot();
    assert_eq!(codes, vec![2u8, 0, 1, 0, 2, 0, 0, 0, 1]);
    let rebuilt = Board::restore(&codes).unwrap();
    assert_eq!(rebuilt.positions, board.positions);
    assert_eq!(rebuilt.available_positions, board.available_positions);
    assert_eq!(rebuilt.evaluate(), board.evaluate());
}

#[test]
fn restore_rejects_malformed_codes() {
    assert!(Board::restore(&vec![0u8; 8]).is_none());
    assert!(Board::restore(&vec![0u8; 10]).is_none());
    let mut codes = vec![0u8; 9];
    codes[4] = 3;
    assert!(Board::restore(&codes).is_none());
}
