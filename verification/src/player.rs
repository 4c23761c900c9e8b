//! Players for a game harness: the automated player picks its move by
//! evaluating every child of the current position with the search engine.

use crate::game::{
    cell_index, in_range, s_next_moves, s_next_state, GameNode, GameState, Position, Value,
};
use crate::game::{lemma_filled_bounds, lemma_moves_legal, lemma_moves_len};
use crate::search::{
    fold_best, game_value, lemma_fold_best_element, lemma_fold_best_step,
    lemma_game_value_bounds, Node, Search, VALUE_BOUND,
};
use vstd::prelude::*;

verus! {

/// The children of `game` wrapped as search nodes, in move order: the
/// position after each legal move of `game`.
pub open spec fn root_children(game: GameState) -> Seq<GameNode> {
    (GameNode { state: game }).s_children()
}

/// `m` is the engine's choice at `game`, witnessed at move index `j`: the
/// child reached by `m` attains the best game value for the side to move,
/// and every earlier child is strictly worse — the first best is retained,
/// later equally good moves never displace it.
pub open spec fn is_first_best_move(game: GameState, m: Position, j: int) -> bool {
    let ms = s_next_moves(game.board());
    let cs = root_children(game);
    let maxi = game.to_play == Value::O;
    &&& 0 <= j < ms.len()
    &&& m == ms[j]
    &&& game_value(cs[j]) == fold_best(cs, maxi)
    &&& forall|i: int|
        0 <= i < j ==> if maxi {
            game_value(#[trigger] cs[i]) < game_value(cs[j])
        } else {
            game_value(#[trigger] cs[i]) > game_value(cs[j])
        }
}

/// A first-best move concedes nothing: if any legal move lets the
/// maximizer force a win by ply depth `d`, so does the chosen one — in
/// particular the engine starts a fastest forced win when one exists.
pub proof fn lemma_best_move_keeps_win(game: GameState, m: Position, j: int, d: int)
    requires
        game.wf(),
        !game.s_terminal(),
        game.to_play == Value::O,
        is_first_best_move(game, m, j),
        0 <= d <= 9,
        exists|i: int|
            0 <= i < root_children(game).len() && crate::game::o_forces_win_by(
                #[trigger] root_children(game)[i],
                d,
            ),
    ensures
        crate::game::o_forces_win_by(root_children(game)[j], d),
{
    let cs = root_children(game);
    let root = GameNode { state: game };
    root.lemma_node_wf();
    let i = choose|i: int|
        0 <= i < cs.len() && crate::game::o_forces_win_by(#[trigger] cs[i], d);
    crate::game::lemma_forced_win_value(cs[i], d);
    lemma_fold_best_element(cs, true, i);
    crate::game::lemma_forced_win_value(cs[j], d);
}

/// A player chooses the next move at a non-terminal position. Whatever the
/// strategy, the chosen move is legal: it addresses an in-range, empty cell.
pub trait Player {
    /// Chooses the next move to play at `game`.
    fn next_move(&mut self, game: &GameState) -> (m: Position)
        requires
            game.wf(),
            !game.s_terminal(),
        ensures
            in_range(m.row as int, m.col as int),
            game.board()[cell_index(m.row as int, m.col as int)] == Value::N,
    ;
}

/// The automated player: asks one owned search engine for the score of
/// every child of the current position and plays the first best one.
pub struct AutoPlayer {
    search: Search<GameNode>,
}

impl AutoPlayer {
    #[verifier::type_invariant]
    spec fn engine_wf(&self) -> bool {
        self.search.wf()
    }

    /// The scores this player's engine currently caches, by content key.
    /// The engine is owned by this one player: independent players can
    /// never interfere through a shared score table.
    pub closed spec fn cache(&self) -> Map<u64, i32> {
        self.search.cache()
    }

    /// Constructs an automated player with a fresh engine whose
    /// transposition cache is empty.
    pub fn new() -> (p: AutoPlayer)
        ensures
            p.cache() == Map::<u64, i32>::empty(),
    {
        AutoPlayer { search: Search::new() }
    }

    /// Evaluates every child of `game` over the full window and returns the
    /// move leading to the first child whose game value is best for the
    /// side to move at `game`.
    pub fn best_move(&mut self, game: &GameState) -> (m: Position)
        requires
            game.wf(),
            !game.s_terminal(),
        ensures
            in_range(m.row as int, m.col as int),
            game.board()[cell_index(m.row as int, m.col as int)] == Value::N,
            exists|j: int| is_first_best_move(*game, m, j),
    {
        proof {
            use_type_invariant(&*self);
        }
        let root = GameNode { state: *game };
        let ghost cs = root_children(*game);
        let maxi = root.is_maximising();
        let moves = game.next_moves();
        proof {
            lemma_moves_legal(game.board());
            lemma_moves_len(game.board());
            lemma_filled_bounds(game.board(), 9);
            root.lemma_node_wf();
        }
        let mut engine = Search::new();
        std::mem::swap(&mut engine, &mut self.search);
        let mut best_i: usize = 0;
        let mut best_score: i32 = if maxi {
            -VALUE_BOUND
        } else {
            VALUE_BOUND
        };
        let mut have = false;
        let mut j: usize = 0;
        while j < moves.len()
            invariant
                engine.wf(),
                game.wf(),
                !game.s_terminal(),
                maxi == (game.to_play == Value::O),
                moves@ == s_next_moves(game.board()),
                cs == root_children(*game),
                cs.len() == moves@.len(),
                forall|i: int|
                    0 <= i < cs.len() ==> (#[trigger] cs[i]).inv() && cs[i] == (GameNode {
                        state: s_next_state(*game, moves@[i]),
                    }),
                forall|i: int|
                    0 <= i < moves@.len() ==> {
                        let m = #[trigger] moves@[i];
                        &&& in_range(m.row as int, m.col as int)
                        &&& game.board()[cell_index(m.row as int, m.col as int)] == Value::N
                    },
                j <= moves@.len(),
                !have ==> j == 0,
                have ==> best_i < j,
                have ==> best_score as int == game_value(cs[best_i as int]),
                best_score as int == fold_best(cs.take(j as int), maxi),
                forall|i: int|
                    have && 0 <= i < best_i ==> if maxi {
                        game_value(#[trigger] cs[i]) < best_score as int
                    } else {
                        game_value(#[trigger] cs[i]) > best_score as int
                    },
            decreases moves@.len() - j,
        {
            let child_state = game.next_state(&moves[j]);
            let child = GameNode { state: child_state };
            proof {
                assert(child == cs[j as int]);
            }
            let v = engine.alphabeta(&child, -VALUE_BOUND, VALUE_BOUND);
            proof {
                lemma_game_value_bounds(child);
                lemma_fold_best_step(cs, maxi, j as int);
                if maxi && v > best_score {
                    assert forall|i: int| 0 <= i < j implies game_value(#[trigger] cs[i]) < v
                        as int by {
                        assert(cs.take(j as int)[i] == cs[i]);
                        lemma_fold_best_element(cs.take(j as int), maxi, i);
                    }
                }
                if !maxi && v < best_score {
                    assert forall|i: int| 0 <= i < j implies game_value(#[trigger] cs[i]) > v
                        as int by {
                        assert(cs.take(j as int)[i] == cs[i]);
                        lemma_fold_best_element(cs.take(j as int), maxi, i);
                    }
                }
            }
            if maxi {
                if v > best_score {
                    best_score = v;
                    best_i = j;
                    have = true;
                }
            } else {
                if v < best_score {
                    best_score = v;
                    best_i = j;
                    have = true;
                }
            }
            j = j + 1;
        }
        std::mem::swap(&mut engine, &mut self.search);
        proof {
            assert(moves@.len() > 0);
            assert(cs.take(j as int) =~= cs);
            assert(is_first_best_move(*game, moves@[best_i as int], best_i as int));
        }
        moves[best_i]
    }
}

impl Player for AutoPlayer {
    /// Plays the engine's choice: the move to the first child whose game
    /// value is best for the side to move.
    fn next_move(&mut self, game: &GameState) -> (m: Position)
        ensures
            exists|j: int| is_first_best_move(*game, m, j),
    {
        self.best_move(game)
    }
}

} // verus!
