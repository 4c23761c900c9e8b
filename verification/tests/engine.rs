use minimax::game::{GameNode, GameState, Position, Value};
use minimax::player::{AutoPlayer, Player};
use minimax::search::{Node, Search, VALUE_BOUND};

fn state_after(moves: &[(usize, usize)]) -> GameState {
    let mut g = GameState::new();
    for &(row, col) in moves {
        g = g.next_state(&Position { row, col });
    }
    g
}

fn brute_minimax(node: &GameNode) -> i32 {
    if node.is_terminal() {
        return node.score();
    }
    let mut best = if node.is_maximising() { -VALUE_BOUND } else { VALUE_BOUND };
    for child in node.children() {
        let v = brute_minimax(&child);
        if node.is_maximising() {
            if v > best {
                best = v;
            }
        } else {
            if v < best {
                best = v;
            }
        }
    }
    best
}

#[test]
fn perfect_play_is_a_draw() {
    let root = GameNode { state: GameState::new() };
    let mut search = Search::new();
    assert_eq!(search.alphabeta(&root, -10, 10), 0);
}

#[test]
fn pruning_matches_brute_force() {
    let mut positions = vec![GameState::new()];
    for m in GameState::new().next_moves() {
        positions.push(GameState::new().next_state(&m));
    }
    positions.push(state_after(&[(2, 2), (1, 1), (3, 1), (1, 3)]));
    for g in positions {
        let node = GameNode { state: g };
        let expected = brute_minimax(&node);
        let mut engine: Search<GameNode> = Search::new();
        let cold = engine.alphabeta(&node, -VALUE_BOUND, VALUE_BOUND);
        let warm = engine.alphabeta(&node, -VALUE_BOUND, VALUE_BOUND);
        assert_eq!(cold, expected);
        assert_eq!(warm, expected);
    }
}

#[test]
fn transpositions_share_one_score() {
    let g1 = state_after(&[(1, 1), (2, 2), (1, 2)]);
    let g2 = state_after(&[(1, 2), (2, 2), (1, 1)]);
    assert_eq!(g1, g2);
    assert_eq!(g1.key(), g2.key());
    let n1 = GameNode { state: g1 };
    let n2 = GameNode { state: g2 };
    let mut warm: Search<GameNode> = Search::new();
    let first = warm.alphabeta(&n1, -VALUE_BOUND, VALUE_BOUND);
    let second = warm.alphabeta(&n2, -VALUE_BOUND, VALUE_BOUND);
    let mut cold: Search<GameNode> = Search::new();
    let fresh = cold.alphabeta(&n2, -VALUE_BOUND, VALUE_BOUND);
    assert_eq!(first, second);
    assert_eq!(second, fresh);
}

#[test]
fn evaluation_is_idempotent() {
    let node = GameNode { state: state_after(&[(1, 1), (2, 2)]) };
    let mut search: Search<GameNode> = Search::new();
    let first = search.alphabeta(&node, -VALUE_BOUND, VALUE_BOUND);
    let second = search.alphabeta(&node, -VALUE_BOUND, VALUE_BOUND);
    assert_eq!(first, second);
    let narrow_first = search.alphabeta(&node, -10, 10);
    let narrow_second = search.alphabeta(&node, -10, 10);
    assert_eq!(narrow_first, narrow_second);
    assert_eq!(first, narrow_first);
}

#[test]
fn terminal_iff_childless() {
    let fresh = GameNode { state: GameState::new() };
    assert!(!fresh.is_terminal());
    assert_eq!(fresh.children().len(), 9);

    let won = GameNode {
        state: state_after(&[(1, 1), (2, 1), (1, 2), (2, 2), (1, 3)]),
    };
    assert!(won.is_terminal());
    assert!(won.children().is_empty());

    let drawn = GameNode {
        state: state_after(&[
            (1, 2),
            (1, 1),
            (2, 1),
            (1, 3),
            (2, 2),
            (2, 3),
            (3, 1),
            (3, 2),
            (3, 3),
        ]),
    };
    assert_eq!(drawn.state.score(), 0);
    assert!(drawn.is_terminal());
    assert!(drawn.children().is_empty());

    let open_board = GameNode { state: state_after(&[(1, 1), (2, 2)]) };
    assert!(!open_board.is_terminal());
    assert!(!open_board.children().is_empty());
}

#[test]
fn immediate_win_is_taken() {
    // X threatens to complete row 1 and it is X's move.
    let g = state_after(&[(2, 1), (1, 1), (2, 2), (1, 2), (3, 3)]);
    assert_eq!(g.to_play, Value::X);
    let mut player = AutoPlayer::new();
    let best = player.next_move(&g);
    assert_eq!(best, Position { row: 1, col: 3 });
    let won = g.next_state(&best);
    assert_eq!(won.score(), -10);
    assert!(won.is_terminal());
}

#[test]
fn forced_block() {
    // X threatens row 1 at (1,3); O must block there, not play elsewhere.
    let g = state_after(&[(2, 1), (1, 1), (3, 2), (1, 2)]);
    assert_eq!(g.to_play, Value::O);
    let mut player = AutoPlayer::new();
    let chosen = player.next_move(&g);
    assert_eq!(chosen, Position { row: 1, col: 3 });
}

#[test]
fn quicker_win_preferred() {
    // O may win at once at (1,3) or force a longer win starting elsewhere.
    let g = state_after(&[(1, 1), (2, 2), (1, 2), (3, 3)]);
    assert_eq!(g.to_play, Value::O);
    let mut player = AutoPlayer::new();
    let chosen = player.best_move(&g);
    assert_eq!(chosen, Position { row: 1, col: 3 });

    let quick = GameNode { state: g.next_state(&Position { row: 1, col: 3 }) };
    let slow = GameNode { state: g.next_state(&Position { row: 3, col: 1 }) };
    let mut search: Search<GameNode> = Search::new();
    let quick_value = search.alphabeta(&quick, -VALUE_BOUND, VALUE_BOUND);
    let slow_value = search.alphabeta(&slow, -VALUE_BOUND, VALUE_BOUND);
    assert_eq!(quick_value, 10 - 5);
    assert!(quick_value > slow_value);
    // the position's own value is the adjusted score of its fastest
    // forced win: one more ply, for a win at ply depth 5
    let here = GameNode { state: g };
    assert_eq!(search.alphabeta(&here, -VALUE_BOUND, VALUE_BOUND), 10 - 5);
}

#[test]
fn first_best_move_is_kept() {
    // From the empty board every reply leads to a draw under perfect play,
    // so the engine keeps the first move it enumerates: (1,1).
    let g = GameState::new();
    let mut player = AutoPlayer::new();
    let chosen = player.best_move(&g);
    assert_eq!(chosen, Position { row: 1, col: 1 });
}
