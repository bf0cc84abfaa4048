use tictactoe::game::{Board, Player};
use tictactoe::minimax::{find_best_move, minimax};

#[test]
fn check_minimax() {
    let mut board = Board::new(Player::O);
    board.fields = [
        [Some(Player::X),    None,              Some(Player::O)],
        [Some(Player::X),    None,              None],
        [Some(Player::O),    Some(Player::X),   None]
    ];

    assert_eq!(find_best_move(board, board.next_player), (1, 1));
}

#[test]
fn best_move_takes_the_center() {
    let mut board = Board::new(Player::O);
    board.fields = [
        [None,              Some(Player::X),     Some(Player::O)],
        [Some(Player::X),   None,                Some(Player::X)],
        [Some(Player::O),   Some(Player::X),     None]
    ];
    assert_eq!(find_best_move(board, Player::O), (1, 1));
}

#[test]
fn finished_games_score_from_the_perspective() {
    let mut board = Board::new(Player::O);
    board.fields = [
        [None,              Some(Player::X),     Some(Player::O)],
        [Some(Player::X),   Some(Player::X),     Some(Player::X)],
        [Some(Player::O),   Some(Player::O),     None]
    ];
    assert_eq!(minimax(board, Player::O, 0, Player::O), -10);
    assert_eq!(minimax(board, Player::X, 3, Player::X), 10);
    board.fields = [
        [Some(Player::O),   Some(Player::X),     Some(Player::O)],
        [Some(Player::X),   Some(Player::O),     Some(Player::X)],
        [Some(Player::X),   Some(Player::O),     Some(Player::X)]
    ];
    assert_eq!(minimax(board, Player::O, 0, Player::O), 0);
}

#[test]
fn open_position_scores_best_play() {
    // O to move can complete the middle column.
    let mut board = Board::new(Player::O);
    board.fields = [
        [Some(Player::X),   Some(Player::O),     Some(Player::X)],
        [None,              Some(Player::O),     None],
        [Some(Player::X),   None,                None]
    ];
    assert_eq!(minimax(board, Player::O, 0, Player::O), 10);
    // (1,0) comes first and also wins: it threatens (1,2) and (2,1) at once.
    assert_eq!(find_best_move(board, Player::O), (1, 0));
    // With X to move, X completes the left column.
    board.next_player = Player::X;
    assert_eq!(minimax(board, Player::X, 0, Player::X), 10);
    assert_eq!(find_best_move(board, Player::X), (1, 0));
}

#[test]
fn depth_does_not_change_the_score() {
    let mut board = Board::new(Player::X);
    board.fields = [
        [Some(Player::X),   None,                None],
        [None,              Some(Player::O),     None],
        [None,              None,                None]
    ];
    let a = minimax(board, Player::X, 0, Player::X);
    let b = minimax(board, Player::X, i32::MAX, Player::X);
    assert_eq!(a, b);
    assert_eq!(a, 0);
}

#[test]
fn the_only_drawing_move_beats_a_losing_one() {
    let mut board = Board::new(Player::X);
    board.fields = [
        [Some(Player::X),   Some(Player::O),     Some(Player::X)],
        [Some(Player::X),   Some(Player::O),     Some(Player::O)],
        [Some(Player::O),   None,                None]
    ];
    // (2,1) blocks the middle column and draws; (2,2) lets O complete it.
    assert_eq!(find_best_move(board, Player::X), (2, 1));
    board.perform_action((2, 2));
    assert_eq!(minimax(board, Player::O, 1, Player::X), -10);
}

#[test]
fn slower_win_ties_with_immediate_win() {
    let mut board = Board::new(Player::X);
    board.fields = [
        [Some(Player::O),   None,                Some(Player::X)],
        [Some(Player::X),   Some(Player::X),     None],
        [None,              Some(Player::O),     None]
    ];
    // (1,2) and (2,0) win at once; (0,1) wins a move later by a double
    // threat. Scores do not depend on depth, so the first of them is chosen.
    assert_eq!(find_best_move(board, Player::X), (0, 1));
}

#[test]
fn search_works_for_either_mark() {
    // X to move wins at once on the top row.
    let mut board = Board::new(Player::X);
    board.fields = [
        [Some(Player::X),   Some(Player::X),     None],
        [Some(Player::O),   Some(Player::O),     None],
        [None,              None,                None]
    ];
    assert_eq!(find_best_move(board, Player::X), (0, 2));
    // For O, (0,2) blocks X and threatens (1,2) and (2,0) at once; it comes
    // before the immediate win at (1,2).
    board.next_player = Player::O;
    assert_eq!(find_best_move(board, Player::O), (0, 2));
}
