use mcts::connect_four::Coordinate;
use mcts::connect_four::GameBoard;
use mcts::connect_four::GameMove;
use mcts::connect_four::GameResult;
use mcts::connect_four::GameState;
use mcts::connect_four::Player;
use mcts::mcts::Node;
use mcts::mcts::calculate_uct;

fn fresh_root() -> Node {
    Node::new(GameBoard::new(), Player::Player1)
}

fn child_visits_sum(node: &Node) -> u64 {
    (0..node.child_count()).map(|i| node.child_visit_count(i)).sum()
}

#[test]
fn fresh_root_has_no_statistics() {
    let root = fresh_root();
    assert_eq!(root.visit_count(), 0);
    assert_eq!(root.weight(), 0);
    assert_eq!(root.child_count(), 0);
    assert_eq!(root.get_board().get_game_state(), GameState::Ongoing);
}

#[test]
fn second_simulation_expands_one_child_per_legal_move() {
    let mut root = fresh_root();
    root.mcts();
    assert_eq!(root.visit_count(), 1);
    assert_eq!(root.child_count(), 0);
    root.mcts();
    assert_eq!(root.visit_count(), 2);
    // Expansion creates the children in one batch, one per legal move,
    // and routes the running simulation into the first one only.
    assert_eq!(root.child_count(), 7);
    assert_eq!(root.child_visit_count(0), 1);
    for i in 1..7 {
        assert_eq!(root.child_visit_count(i), 0);
    }
    for i in 0..7 {
        assert_eq!(root.child_move(i), Some(GameMove::new(i)));
    }
}

#[test]
fn backpropagation_accounts_every_simulation_to_a_child() {
    let mut root = fresh_root();
    for _ in 0..10 {
        root.mcts();
    }
    assert_eq!(root.visit_count(), 10);
    // The root itself absorbed exactly one simulation as a leaf rollout;
    // every later one went through exactly one child.
    assert_eq!(child_visits_sum(&root), 9);
    assert!(root.weight() <= root.visit_count());
}

#[test]
fn every_child_is_visited_once_before_any_is_revisited() {
    let mut root = fresh_root();
    for _ in 0..9 {
        root.mcts();
    }
    // 1 rollout at the root + 8 simulations through the 7 children: had a
    // visited child been re-selected while an unvisited one remained, some
    // child would still stand at zero.
    for i in 0..root.child_count() {
        assert!(root.child_visit_count(i) >= 1);
        assert!(root.child_visit_count(i) <= 2);
    }
    assert_eq!(child_visits_sum(&root), 8);
}

#[test]
fn terminal_node_returns_the_known_outcome_without_expanding() {
    let mut board = GameBoard::new();
    for _ in 0..3 {
        assert_eq!(board.drop_stone(Player::Player1, GameMove::new(6)), Ok(false));
    }
    assert_eq!(board.drop_stone(Player::Player1, GameMove::new(6)), Ok(true));
    let mut node = Node::new(board, Player::Player2);
    for _ in 0..5 {
        assert_eq!(node.mcts(), GameResult::Win(Player::Player1));
    }
    assert_eq!(node.visit_count(), 5);
    assert_eq!(node.child_count(), 0);
    // Every simulation ended in a win against this node's mover.
    assert_eq!(node.weight(), 5);
}

#[test]
fn uct_of_a_never_visited_child_is_unbounded() {
    assert_eq!(calculate_uct(0, 0, 5), None);
    assert_eq!(calculate_uct(0, 0, 0), None);
}

#[test]
fn uct_exact_values() {
    // Win rate only: ln(1) = 0 leaves no exploration bonus.
    assert_eq!(calculate_uct(0, 1, 1), Some(0));
    assert_eq!(calculate_uct(3, 3, 3), Some(120098));
    // Pure exploration at one visit under a twice-visited parent:
    // sqrt(2 ln 2) in fixed point, which is about 1.1774 * 65536.
    assert_eq!(calculate_uct(0, 1, 2), Some(77162));
    assert_eq!(calculate_uct(1, 2, 4), Some(109930));
    assert_eq!(calculate_uct(2, 4, 10), Some(102321));
}

#[test]
fn make_move_returns_the_matching_child_subtree() {
    let root = fresh_root();
    let child = root.make_move(GameMove::new(3));
    let child = child.expect("a legal move must yield a child");
    let board = child.get_board();
    assert_eq!(board.get_field(Coordinate { y: 0, x: 3 }), Some(Player::Player1));
    assert_eq!(board.get_game_state(), GameState::Ongoing);
}

#[test]
fn make_move_rejects_an_illegal_column() {
    let root = fresh_root();
    assert!(root.make_move(GameMove::new(7)).is_none());
}

#[test]
fn make_move_rejects_a_full_column() {
    let mut board = GameBoard::new();
    for y in 0..6 {
        let player = if y % 2 == 0 { Player::Player1 } else { Player::Player2 };
        assert_eq!(board.drop_stone(player, GameMove::new(1)), Ok(false));
    }
    let root = Node::new(board, Player::Player1);
    assert!(root.make_move(GameMove::new(1)).is_none());
    let other = Node::new(GameBoard::new(), Player::Player1)
        .make_move(GameMove::new(1));
    assert!(other.is_some());
}

#[test]
fn make_move_rejects_moves_on_a_decided_game() {
    let mut board = GameBoard::new();
    for _ in 0..3 {
        assert_eq!(board.drop_stone(Player::Player2, GameMove::new(0)), Ok(false));
    }
    assert_eq!(board.drop_stone(Player::Player2, GameMove::new(0)), Ok(true));
    let root = Node::new(board, Player::Player1);
    assert!(root.make_move(GameMove::new(3)).is_none());
}

#[test]
fn make_move_preserves_the_chosen_branch_statistics() {
    let mut root = fresh_root();
    for _ in 0..30 {
        root.mcts();
    }
    let picked = root.child_visit_count(2);
    let child = root.make_move(GameMove::new(2)).expect("legal");
    // The two extra simulations run by make_move may add visits, never
    // remove any.
    assert!(child.visit_count() >= picked);
}

#[test]
fn best_move_is_the_most_visited_child() {
    let mut root = fresh_root();
    for _ in 0..60 {
        root.mcts();
    }
    let best = root.best_move();
    assert!(best.x < 7);
    let mut best_index = None;
    for i in 0..root.child_count() {
        if root.child_move(i) == Some(best) {
            best_index = Some(i);
        }
    }
    let best_index = best_index.expect("the move names a child");
    for i in 0..root.child_count() {
        assert!(root.child_visit_count(i) <= root.child_visit_count(best_index));
    }
}

#[test]
fn search_prefers_the_immediate_winning_move() {
    // Player1 already holds three stones in column 4; the winning drop is
    // by far the most often confirmed branch.
    let mut board = GameBoard::new();
    for _ in 0..3 {
        assert_eq!(board.drop_stone(Player::Player1, GameMove::new(4)), Ok(false));
        assert_eq!(board.drop_stone(Player::Player2, GameMove::new(0)), Ok(false));
    }
    assert_eq!(board.drop_stone(Player::Player2, GameMove::new(1)), Ok(false));
    let mut root = Node::new(board, Player::Player1);
    for _ in 0..2000 {
        root.mcts();
    }
    assert_eq!(root.best_move(), GameMove::new(4));
}

#[test]
fn win_rate_estimate_in_thousandths() {
    let root = fresh_root();
    assert_eq!(root.win_rate_estimate(), 0);

    let mut board = GameBoard::new();
    for _ in 0..3 {
        assert_eq!(board.drop_stone(Player::Player1, GameMove::new(2)), Ok(false));
    }
    assert_eq!(board.drop_stone(Player::Player1, GameMove::new(2)), Ok(true));
    let mut node = Node::new(board, Player::Player2);
    for _ in 0..5 {
        node.mcts();
    }
    // Every simulation was a win against this node's mover.
    assert_eq!(node.win_rate_estimate(), 1000);

    let mut searched = fresh_root();
    for _ in 0..20 {
        searched.mcts();
    }
    assert!(searched.win_rate_estimate() <= 1000);
}
