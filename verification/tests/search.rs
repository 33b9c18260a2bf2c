use xo::algorithms::minimax;
use xo::algorithms::minimax_alpha_beta;
use xo::components::Board;
use xo::components::Player;

fn board_with(computer: &[u8], human: &[u8]) -> Board {
    let mut board = Board::new();
    for &c in computer {
        assert!(board.place_move(c, Player::Computer).is_ok());
    }
    for &h in human {
        assert!(board.place_move(h, Player::Human).is_ok());
    }
    board
}

fn remaining(board: &Board) -> i8 {
    board.available_positions.len() as i8
}

#[test]
fn depth_zero_returns_leaf_evaluation() {
    let board = Board::new();
    let m = minimax(&board, 0, Player::Computer);
    assert_eq!(m.position, -1);
    assert_eq!(m.score, 0);
}

#[test]
fn decided_board_returns_leaf_score() {
    let board = board_with(&[1, 2, 3], &[4, 5]);
    assert_eq!(board.evaluate(), Player::Computer);
    let m = minimax(&board, remaining(&board), Player::Human);
    assert_eq!(m.position, -1);
    assert_eq!(m.score, 1);

    let board = board_with(&[4, 5], &[1, 2, 3]);
    assert_eq!(board.evaluate(), Player::Human);
    let m = minimax(&board, remaining(&board), Player::Computer);
    assert_eq!(m.position, -1);
    assert_eq!(m.score, -1);
}

#[test]
fn computer_takes_immediate_win() {
    // computer holds 1 and 2 with 3 open; the human threat at 6 does not matter
    let board = board_with(&[1, 2], &[4, 5]);
    let m = minimax(&board, remaining(&board), Player::Computer);
    assert_eq!(m.position, 3);
    assert_eq!(m.score, 1);
    let p = minimax_alpha_beta(&board, remaining(&board), Player::Computer, -50, 50);
    assert_eq!(p.position, 3);
    assert_eq!(p.score, 1);
}

#[test]
fn computer_blocks_forced_human_win() {
    // the human holds 1 and 2; every computer move but 3 loses next turn
    let board = board_with(&[5], &[1, 2]);
    let m = minimax(&board, remaining(&board), Player::Computer);
    assert_eq!(m.position, 3);
    assert!(m.score >= 0);
    let p = minimax_alpha_beta(&board, remaining(&board), Player::Computer, -50, 50);
    assert_eq!(p.position, 3);
    assert_eq!(p.score, m.score);
}

#[test]
fn optimal_play_from_empty_board_is_a_draw() {
    let board = Board::new();
    let p = minimax_alpha_beta(&board, 9, Player::Computer, -50, 50);
    assert_eq!(p.score, 0);
    assert_eq!(p.position, 1);
    let q = minimax_alpha_beta(&board, 9, Player::Human, -50, 50);
    assert_eq!(q.score, 0);
    assert_eq!(q.position, 1);
}

#[test]
fn ties_break_towards_the_lowest_index() {
    // at depth 2 every continuation of the empty board scores 0
    let board = Board::new();
    let m = minimax(&board, 2, Player::Computer);
    assert_eq!(m.position, 1);
    assert_eq!(m.score, 0);
    let p = minimax_alpha_beta(&board, 2, Player::Computer, -50, 50);
    assert_eq!(p.position, 1);
    assert_eq!(p.score, 0);
}

#[test]
fn pruning_never_changes_the_outcome() {
    let boards = [
        board_with(&[], &[]),
        board_with(&[5], &[1]),
        board_with(&[5, 9], &[1, 3]),
        board_with(&[1, 2], &[4, 5]),
        board_with(&[5], &[1, 2]),
        board_with(&[2, 4], &[5, 7]),
    ];
    for board in boards {
        let depth = if remaining(&board) < 6 { remaining(&board) } else { 6 };
        for mover in [Player::Computer, Player::Human] {
            let plain = minimax(&board, depth, mover);
            let pruned = minimax_alpha_beta(&board, depth, mover, -50, 50);
            assert_eq!(plain.position, pruned.position);
            assert_eq!(plain.score, pruned.score);
        }
    }
}

#[test]
fn narrowed_window_reports_the_correct_side() {
    // the human to move wins here, so the value is -1: a window kept
    // above it must come back at or below its lower bound
    let board = board_with(&[5], &[1, 2]);
    let p = minimax_alpha_beta(&board, remaining(&board), Player::Human, 0, 50);
    assert!(p.score <= 0);

    // the computer to move wins here, value +1: a window kept below it
    // must come back at or above its upper bound
    let board = board_with(&[1, 2], &[4, 5]);
    let p = minimax_alpha_beta(&board, remaining(&board), Player::Computer, -50, 0);
    assert!(p.score >= 0);
}
