use mcts::connect_four::Coordinate;
use mcts::connect_four::GameBoard;
use mcts::connect_four::GameMove;
use mcts::connect_four::GameResult;
use mcts::connect_four::GameState;
use mcts::connect_four::InvalidMove;
use mcts::connect_four::Player;

fn cell(board: &GameBoard, y: usize, x: usize) -> Option<Player> {
    board.get_field(Coordinate { y, x })
}

fn column_count(board: &GameBoard, x: usize) -> usize {
    (0..6).filter(|&y| cell(board, y, x).is_some()).count()
}

/// The owner of each cell in a completely filled, drawn board: rows 0, 1,
/// 4 and 5 give even columns to Player1, rows 2 and 3 give them the odd
/// columns, so no line of four ever forms.
fn drawn_pattern_owner(y: usize, x: usize) -> Player {
    let player1_on_even = matches!(y, 0 | 1 | 4 | 5);
    if (x % 2 == 0) == player1_on_even {
        Player::Player1
    } else {
        Player::Player2
    }
}

fn filled_drawn_board() -> GameBoard {
    let mut board = GameBoard::new();
    for x in 0..7 {
        for y in 0..6 {
            let r = board.drop_stone(drawn_pattern_owner(y, x), GameMove::new(x));
            assert_eq!(r, Ok(false));
        }
    }
    board
}

#[test]
fn new_board_is_empty_and_ongoing() {
    let board = GameBoard::new();
    assert_eq!(board.get_game_state(), GameState::Ongoing);
    assert_eq!(board.get_dimensions(), (6, 7));
    for y in 0..6 {
        for x in 0..7 {
            assert_eq!(cell(&board, y, x), None);
        }
    }
}

#[test]
fn default_same_as_new() {
    let board = GameBoard::default();
    assert_eq!(board.get_game_state(), GameState::Ongoing);
    assert_eq!(cell(&board, 0, 0), None);
}

#[test]
fn legal_moves_on_empty_board_are_all_columns_ascending() {
    let board = GameBoard::new();
    let moves = board.get_possible_moves();
    let expected: Vec<GameMove> = (0..7).map(GameMove::new).collect();
    assert_eq!(moves, expected);
}

#[test]
fn legal_moves_skip_full_column_and_apply_grows_column_by_one() {
    let mut board = GameBoard::new();
    for y in 0..6 {
        let player = if y % 2 == 0 { Player::Player1 } else { Player::Player2 };
        let before = column_count(&board, 2);
        assert_eq!(board.drop_stone(player, GameMove::new(2)), Ok(false));
        assert_eq!(column_count(&board, 2), before + 1);
    }
    let moves = board.get_possible_moves();
    let expected: Vec<GameMove> = [0usize, 1, 3, 4, 5, 6].iter().map(|&x| GameMove::new(x)).collect();
    assert_eq!(moves, expected);
    assert!(cell(&board, 5, 2).is_some());
}

#[test]
fn stones_fall_to_the_lowest_empty_cell() {
    let mut board = GameBoard::new();
    assert_eq!(board.drop_stone(Player::Player1, GameMove::new(4)), Ok(false));
    assert_eq!(board.drop_stone(Player::Player2, GameMove::new(4)), Ok(false));
    assert_eq!(cell(&board, 0, 4), Some(Player::Player1));
    assert_eq!(cell(&board, 1, 4), Some(Player::Player2));
    assert_eq!(cell(&board, 2, 4), None);
}

#[test]
fn out_of_range_column_is_an_invalid_move() {
    let mut board = GameBoard::new();
    assert_eq!(board.drop_stone(Player::Player1, GameMove::new(7)), Err(InvalidMove));
    assert_eq!(board.drop_stone(Player::Player1, GameMove::new(100)), Err(InvalidMove));
    assert_eq!(board.get_game_state(), GameState::Ongoing);
    assert_eq!(cell(&board, 0, 0), None);
}

#[test]
fn full_column_is_an_invalid_move() {
    let mut board = GameBoard::new();
    for y in 0..6 {
        let player = if y % 2 == 0 { Player::Player1 } else { Player::Player2 };
        assert_eq!(board.drop_stone(player, GameMove::new(0)), Ok(false));
    }
    assert_eq!(board.drop_stone(Player::Player1, GameMove::new(0)), Err(InvalidMove));
}

#[test]
fn vertical_win_detected_on_fourth_drop_in_column_three() {
    let mut board = GameBoard::new();
    for _ in 0..3 {
        assert_eq!(board.drop_stone(Player::Player1, GameMove::new(3)), Ok(false));
        assert_eq!(board.get_game_state(), GameState::Ongoing);
    }
    assert_eq!(board.drop_stone(Player::Player1, GameMove::new(3)), Ok(true));
    assert_eq!(
        board.get_game_state(),
        GameState::GameResult(GameResult::Win(Player::Player1))
    );
    assert!(board.check_win(Player::Player1, Coordinate { y: 3, x: 3 }));
}

#[test]
fn horizontal_win_detected_and_three_in_a_row_is_not_a_win() {
    let mut board = GameBoard::new();
    for x in 0..3 {
        assert_eq!(board.drop_stone(Player::Player1, GameMove::new(x)), Ok(false));
    }
    assert!(!board.check_win(Player::Player1, Coordinate { y: 0, x: 2 }));
    assert_eq!(board.drop_stone(Player::Player1, GameMove::new(3)), Ok(true));
    assert!(board.check_win(Player::Player1, Coordinate { y: 0, x: 3 }));
    assert!(board.check_win(Player::Player1, Coordinate { y: 0, x: 0 }));
}

#[test]
fn rising_diagonal_win_detected() {
    let mut board = GameBoard::new();
    // A staircase: Player1 on the rising diagonal (0,0)..(3,3), Player2
    // stones only as filler below it.
    assert_eq!(board.drop_stone(Player::Player1, GameMove::new(0)), Ok(false));
    assert_eq!(board.drop_stone(Player::Player2, GameMove::new(1)), Ok(false));
    assert_eq!(board.drop_stone(Player::Player1, GameMove::new(1)), Ok(false));
    assert_eq!(board.drop_stone(Player::Player2, GameMove::new(2)), Ok(false));
    assert_eq!(board.drop_stone(Player::Player2, GameMove::new(2)), Ok(false));
    assert_eq!(board.drop_stone(Player::Player1, GameMove::new(2)), Ok(false));
    assert_eq!(board.drop_stone(Player::Player2, GameMove::new(3)), Ok(false));
    assert_eq!(board.drop_stone(Player::Player2, GameMove::new(3)), Ok(false));
    assert_eq!(board.drop_stone(Player::Player2, GameMove::new(3)), Ok(false));
    assert!(!board.check_win(Player::Player1, Coordinate { y: 2, x: 2 }));
    assert_eq!(board.drop_stone(Player::Player1, GameMove::new(3)), Ok(true));
    assert!(board.check_win(Player::Player1, Coordinate { y: 3, x: 3 }));
    assert_eq!(
        board.get_game_state(),
        GameState::GameResult(GameResult::Win(Player::Player1))
    );
}

#[test]
fn falling_diagonal_win_detected() {
    let mut board = GameBoard::new();
    // Player1 on the falling diagonal (3,0)..(0,3).
    assert_eq!(board.drop_stone(Player::Player2, GameMove::new(0)), Ok(false));
    assert_eq!(board.drop_stone(Player::Player2, GameMove::new(0)), Ok(false));
    assert_eq!(board.drop_stone(Player::Player2, GameMove::new(0)), Ok(false));
    assert_eq!(board.drop_stone(Player::Player1, GameMove::new(0)), Ok(false));
    assert_eq!(board.drop_stone(Player::Player2, GameMove::new(1)), Ok(false));
    assert_eq!(board.drop_stone(Player::Player2, GameMove::new(1)), Ok(false));
    assert_eq!(board.drop_stone(Player::Player1, GameMove::new(1)), Ok(false));
    assert_eq!(board.drop_stone(Player::Player2, GameMove::new(2)), Ok(false));
    assert_eq!(board.drop_stone(Player::Player1, GameMove::new(2)), Ok(false));
    assert_eq!(board.drop_stone(Player::Player1, GameMove::new(3)), Ok(true));
    assert!(board.check_win(Player::Player1, Coordinate { y: 0, x: 3 }));
}

#[test]
fn draw_iff_no_legal_moves() {
    let empty = GameBoard::new();
    assert!(!empty.is_draw());
    assert!(!empty.get_possible_moves().is_empty());

    let full = filled_drawn_board();
    assert!(full.is_draw());
    assert!(full.get_possible_moves().is_empty());
}

#[test]
fn filling_the_board_without_a_win_ends_in_a_draw() {
    let board = filled_drawn_board();
    assert_eq!(board.get_game_state(), GameState::GameResult(GameResult::Draw));
    assert!(board.is_draw());
    assert!(board.get_possible_moves().is_empty());
}

#[test]
fn random_simulation_returns_cached_result_on_a_decided_board() {
    let mut board = GameBoard::new();
    for _ in 0..3 {
        assert_eq!(board.drop_stone(Player::Player2, GameMove::new(5)), Ok(false));
    }
    assert_eq!(board.drop_stone(Player::Player2, GameMove::new(5)), Ok(true));
    assert_eq!(
        board.random_simulation(Player::Player1),
        GameResult::Win(Player::Player2)
    );

    let drawn = filled_drawn_board();
    assert_eq!(drawn.random_simulation(Player::Player1), GameResult::Draw);
}

#[test]
fn random_simulation_on_an_ongoing_board_reaches_a_verdict() {
    let board = GameBoard::new();
    for _ in 0..5 {
        match board.random_simulation(Player::Player1) {
            GameResult::Draw => {}
            GameResult::Win(_) => {}
        }
        // The board itself is untouched by the playout.
        assert_eq!(board.get_game_state(), GameState::Ongoing);
    }
}

#[test]
fn game_move_wraps_the_column_index() {
    let m = GameMove::new(5);
    assert_eq!(m, GameMove::new(5));
    assert_ne!(m, GameMove::new(4));
}
