use std::collections::hash_map::DefaultHasher;
use std::hash::{Hash, Hasher};

use minimax::game::{GameNode, GameState, Position, Value};
use minimax::search::Node;

fn calculate_hash<T: Hash>(t: &T) -> u64 {
    let mut s = DefaultHasher::new();
    t.hash(&mut s);
    s.finish()
}

#[test]
fn new_game() {
    let game = GameState::new();
    assert_eq!(game.score(), 0);
    assert_eq!(game.is_terminal(), false);
    assert_eq!(game.to_play, Value::O);
}

#[test]
fn one_move() {
    let game = GameState::new().next_state(&Position { row: 1, col: 1 });
    assert_eq!(game.score(), 0);
    assert_eq!(game.is_terminal(), false);
}

#[test]
fn x_wins_row() {
    let game = GameState::new()
        .next_state(&Position { row: 1, col: 1 })
        .next_state(&Position { row: 2, col: 1 })
        .next_state(&Position { row: 1, col: 2 })
        .next_state(&Position { row: 2, col: 2 })
        .next_state(&Position { row: 1, col: 3 });
    assert_eq!(game.score(), 10);
    assert_eq!(game.is_terminal(), true);
}

#[test]
fn x_wins_diag_from_top_left() {
    let game = GameState::new()
        .next_state(&Position { row: 1, col: 1 })
        .next_state(&Position { row: 1, col: 2 })
        .next_state(&Position { row: 2, col: 2 })
        .next_state(&Position { row: 2, col: 3 })
        .next_state(&Position { row: 3, col: 3 });
    assert_eq!(game.score(), 10);
    assert_eq!(game.is_terminal(), true);
}

#[test]
fn x_wins_diag_from_bottom_left() {
    let game = GameState::new()
        .next_state(&Position { row: 3, col: 1 })
        .next_state(&Position { row: 1, col: 2 })
        .next_state(&Position { row: 2, col: 2 })
        .next_state(&Position { row: 2, col: 3 })
        .next_state(&Position { row: 1, col: 3 });
    assert_eq!(game.score(), 10);
    assert_eq!(game.is_terminal(), true);
}

#[test]
fn test_o_is_maximising() {
    let game = GameState::new();
    let node = GameNode { state: game };
    assert!(node.is_maximising());
}

#[test]
fn test_x_is_maximising_move_2() {
    let game = GameState::new().next_state(&Position { row: 1, col: 1 });
    let node = GameNode { state: game };
    assert!(!node.is_maximising());
}

#[test]
fn test_next_moves() {
    let game = GameState::new().next_state(&Position { row: 1, col: 1 });
    let next_moves = game.next_moves();
    let next_move = next_moves.iter().take(1).last().unwrap();
    assert_eq!(*next_move, Position { row: 1, col: 2 });
}

#[test]
fn test_game_state_hash() {
    let game1 = GameState::new().next_state(&Position { row: 1, col: 1 });
    let game2 = GameState::new().next_state(&Position { row: 1, col: 1 });
    assert_eq!(calculate_hash(&game1), calculate_hash(&game2));
}

#[test]
fn content_key_encodes_position() {
    assert_eq!(GameState::new().key(), 0);
    let game = GameState::new().next_state(&Position { row: 1, col: 1 });
    assert_eq!(game.key(), 1);
    let game = game.next_state(&Position { row: 2, col: 2 });
    assert_eq!(game.key(), 1 + 2 * 81);
}

#[test]
fn content_key_ignores_move_order() {
    let game1 = GameState::new()
        .next_state(&Position { row: 1, col: 1 })
        .next_state(&Position { row: 2, col: 2 })
        .next_state(&Position { row: 1, col: 2 });
    let game2 = GameState::new()
        .next_state(&Position { row: 1, col: 2 })
        .next_state(&Position { row: 2, col: 2 })
        .next_state(&Position { row: 1, col: 1 });
    assert_eq!(game1, game2);
    assert_eq!(game1.key(), game2.key());
    let other = game1.next_state(&Position { row: 3, col: 1 });
    assert_ne!(game1.key(), other.key());
}

#[test]
fn next_moves_lists_empty_cells_in_order() {
    let game = GameState::new();
    assert_eq!(game.next_moves().len(), 9);
    let game = game
        .next_state(&Position { row: 1, col: 1 })
        .next_state(&Position { row: 2, col: 2 });
    let moves = game.next_moves();
    assert_eq!(moves.len(), 7);
    assert_eq!(moves[0], Position { row: 1, col: 2 });
    assert_eq!(moves[1], Position { row: 1, col: 3 });
    assert_eq!(moves[2], Position { row: 2, col: 1 });
    assert_eq!(moves[3], Position { row: 2, col: 3 });
    assert_eq!(moves[4], Position { row: 3, col: 1 });
    assert_eq!(moves[5], Position { row: 3, col: 2 });
    assert_eq!(moves[6], Position { row: 3, col: 3 });
}

#[test]
fn node_score_is_ply_adjusted() {
    let won = GameState::new()
        .next_state(&Position { row: 1, col: 1 })
        .next_state(&Position { row: 2, col: 1 })
        .next_state(&Position { row: 1, col: 2 })
        .next_state(&Position { row: 2, col: 2 })
        .next_state(&Position { row: 1, col: 3 });
    assert_eq!(won.score(), 10);
    let node = GameNode { state: won };
    assert_eq!(node.score(), 10 - 5);
}

#[test]
fn column_win_for_x() {
    let game = GameState::new()
        .next_state(&Position { row: 1, col: 1 })
        .next_state(&Position { row: 1, col: 3 })
        .next_state(&Position { row: 2, col: 2 })
        .next_state(&Position { row: 2, col: 3 })
        .next_state(&Position { row: 3, col: 1 })
        .next_state(&Position { row: 3, col: 3 });
    assert_eq!(game.score(), -10);
    assert!(game.is_terminal());
    let node = GameNode { state: game };
    assert_eq!(node.score(), -10 + 6);
}
