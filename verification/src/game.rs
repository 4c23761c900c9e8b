//! The 3x3 tic-tac-toe game: board states, move generation, scoring, and the
//! structural content key used by the transposition cache.

use crate::search::Node;
use vstd::prelude::*;

verus! {

/// The score of a won game for the maximizing side; the losing side scores
/// its negation, a draw scores zero.
pub const MAX_SCORE: i32 = 10;

/// A board coordinate; rows and columns run from 1 to 3.
#[derive(PartialEq, Eq, Structural, Hash, Debug, Clone, Copy)]
pub struct Position {
    pub row: usize,
    pub col: usize,
}

/// The content of one cell: a mark of either player, or `N` for an empty cell.
#[derive(PartialEq, Eq, Structural, Hash, Debug, Clone, Copy)]
pub enum Value {
    X,
    O,
    N,
}

/// True iff `row` and `col` both lie in 1..=3.
pub open spec fn in_range(row: int, col: int) -> bool {
    1 <= row <= 3 && 1 <= col <= 3
}

/// The row-major board index of a coordinate, from 0 to 8.
pub open spec fn cell_index(row: int, col: int) -> int {
    (row - 1) * 3 + (col - 1)
}

/// The coordinate whose row-major board index is `i`.
pub open spec fn position_at(i: int) -> Position {
    Position { row: (i / 3 + 1) as usize, col: (i % 3 + 1) as usize }
}

/// The mark of the player who moves after `p`.
pub open spec fn other_player(p: Value) -> Value {
    match p {
        Value::X => Value::O,
        Value::O => Value::X,
        Value::N => Value::N,
    }
}

/// The player to move after `depth` plies: `O` opens the game.
pub open spec fn player_of(depth: int) -> Value {
    if depth % 2 == 0 {
        Value::O
    } else {
        Value::X
    }
}

/// True iff player `p` holds one of the eight complete lines of board `b`.
pub open spec fn s_wins(b: Seq<Value>, p: Value) -> bool {
    ||| (b[0] == p && b[1] == p && b[2] == p)
    ||| (b[3] == p && b[4] == p && b[5] == p)
    ||| (b[6] == p && b[7] == p && b[8] == p)
    ||| (b[0] == p && b[3] == p && b[6] == p)
    ||| (b[1] == p && b[4] == p && b[7] == p)
    ||| (b[2] == p && b[5] == p && b[8] == p)
    ||| (b[0] == p && b[4] == p && b[8] == p)
    ||| (b[6] == p && b[4] == p && b[2] == p)
}

/// The raw score of board `b`: the winning score for a completed `O` line,
/// its negation for a completed `X` line (with `O` checked first), else zero.
pub open spec fn score_of(b: Seq<Value>) -> int {
    if s_wins(b, Value::O) {
        MAX_SCORE as int
    } else if s_wins(b, Value::X) {
        -(MAX_SCORE as int)
    } else {
        0
    }
}

/// How many of the first `i` cells of board `b` carry a mark.
pub open spec fn filled_prefix(b: Seq<Value>, i: int) -> int
    decreases i,
{
    if i <= 0 {
        0
    } else {
        filled_prefix(b, i - 1) + if b[i - 1] == Value::N {
            0int
        } else {
            1int
        }
    }
}

/// How many cells of board `b` carry a mark.
pub open spec fn filled(b: Seq<Value>) -> int {
    filled_prefix(b, 9)
}

/// The legal moves offered by the first `i` cells of board `b`, in row-major
/// order: one coordinate for each empty cell.
pub open spec fn moves_prefix(b: Seq<Value>, i: int) -> Seq<Position>
    decreases i,
{
    if i <= 0 {
        Seq::empty()
    } else {
        moves_prefix(b, i - 1) + if b[i - 1] == Value::N {
            seq![position_at(i - 1)]
        } else {
            Seq::empty()
        }
    }
}

/// All legal moves of board `b`, in row-major order.
pub open spec fn s_next_moves(b: Seq<Value>) -> Seq<Position> {
    moves_prefix(b, 9)
}

/// A tic-tac-toe position: nine cells, the number of plies already played,
/// and whose turn it is.
#[derive(PartialEq, Eq, Structural, Hash, Debug, Clone, Copy)]
pub struct GameState {
    pub c0: Value,
    pub c1: Value,
    pub c2: Value,
    pub c3: Value,
    pub c4: Value,
    pub c5: Value,
    pub c6: Value,
    pub c7: Value,
    pub c8: Value,
    pub depth: usize,
    pub to_play: Value,
}

impl GameState {
    /// The board as a row-major sequence of nine cells.
    pub open spec fn board(&self) -> Seq<Value> {
        seq![self.c0, self.c1, self.c2, self.c3, self.c4, self.c5, self.c6, self.c7, self.c8]
    }

    /// Well-formedness: the ply count equals the number of marks on the
    /// board, and the player to move alternates from `O` at the empty board.
    pub open spec fn wf(&self) -> bool {
        &&& self.depth == filled(self.board())
        &&& self.to_play == player_of(self.depth as int)
    }

    /// A position is terminal when the board is full or either player has
    /// completed a line.
    pub open spec fn s_terminal(&self) -> bool {
        self.depth == 9 || score_of(self.board()) != 0
    }

    /// Constructs the empty starting position, with `O` to move.
    pub fn new() -> (g: GameState)
        ensures
            g.wf(),
            g.depth == 0,
            g.to_play == Value::O,
            g.board() =~= seq![Value::N; 9],
    {
        let g = GameState {
            c0: Value::N,
            c1: Value::N,
            c2: Value::N,
            c3: Value::N,
            c4: Value::N,
            c5: Value::N,
            c6: Value::N,
            c7: Value::N,
            c8: Value::N,
            depth: 0,
            to_play: Value::O,
        };
        proof {
            reveal_with_fuel(filled_prefix, 10);
        }
        g
    }

    /// The cell at row-major index `i`.
    pub fn cell_at(&self, i: usize) -> (v: Value)
        requires
            i < 9,
        ensures
            v == self.board()[i as int],
    {
        if i == 0 {
            self.c0
        } else if i == 1 {
            self.c1
        } else if i == 2 {
            self.c2
        } else if i == 3 {
            self.c3
        } else if i == 4 {
            self.c4
        } else if i == 5 {
            self.c5
        } else if i == 6 {
            self.c6
        } else if i == 7 {
            self.c7
        } else {
            self.c8
        }
    }

    fn wins(&self, p: Value) -> (r: bool)
        ensures
            r == s_wins(self.board(), p),
    {
        (self.c0 == p && self.c1 == p && self.c2 == p)
            || (self.c3 == p && self.c4 == p && self.c5 == p)
            || (self.c6 == p && self.c7 == p && self.c8 == p)
            || (self.c0 == p && self.c3 == p && self.c6 == p)
            || (self.c1 == p && self.c4 == p && self.c7 == p)
            || (self.c2 == p && self.c5 == p && self.c8 == p)
            || (self.c0 == p && self.c4 == p && self.c8 == p)
            || (self.c6 == p && self.c4 == p && self.c2 == p)
    }

    /// The raw score of the position: `MAX_SCORE` for a completed `O` line,
    /// `-MAX_SCORE` for a completed `X` line, zero otherwise.
    pub fn score(&self) -> (s: i32)
        ensures
            s as int == score_of(self.board()),
    {
        if self.wins(Value::O) {
            MAX_SCORE
        } else if self.wins(Value::X) {
            -MAX_SCORE
        } else {
            0
        }
    }

    /// True when no further move is legal: the board is full or won.
    pub fn is_terminal(&self) -> (r: bool)
        ensures
            r == self.s_terminal(),
    {
        self.depth == 9 || self.score() != 0
    }

    fn next_player(&self) -> (p: Value)
        requires
            self.to_play != Value::N,
        ensures
            p == other_player(self.to_play),
    {
        match self.to_play {
            Value::X => Value::O,
            Value::O => Value::X,
            Value::N => Value::N,
        }
    }

    /// Applies one move: marks the addressed empty cell for the player to
    /// move and hands the turn over. The parent position is untouched.
    pub fn next_state(&self, addr: &Position) -> (r: GameState)
        requires
            self.wf(),
            in_range(addr.row as int, addr.col as int),
            self.board()[cell_index(addr.row as int, addr.col as int)] == Value::N,
        ensures
            r == s_next_state(*self, *addr),
            r.wf(),
            r.depth == self.depth + 1,
            r.to_play == other_player(self.to_play),
            r.board() =~= self.board().update(
                cell_index(addr.row as int, addr.col as int),
                self.to_play,
            ),
    {
        proof {
            lemma_filled_bounds(self.board(), 9);
            lemma_next_state_props(*self, *addr);
        }
        let i = (addr.row - 1) * 3 + (addr.col - 1);
        let p = self.to_play;
        GameState {
            c0: if i == 0 { p } else { self.c0 },
            c1: if i == 1 { p } else { self.c1 },
            c2: if i == 2 { p } else { self.c2 },
            c3: if i == 3 { p } else { self.c3 },
            c4: if i == 4 { p } else { self.c4 },
            c5: if i == 5 { p } else { self.c5 },
            c6: if i == 6 { p } else { self.c6 },
            c7: if i == 7 { p } else { self.c7 },
            c8: if i == 8 { p } else { self.c8 },
            depth: self.depth + 1,
            to_play: self.next_player(),
        }
    }

    /// The structural content key of the position: the nine cells read as
    /// base-3 digits. Documented injective on well-formed positions by
    /// `lemma_key_injective`.
    #[verifier::rlimit(50)]
    pub fn key(&self) -> (k: u64)
        ensures
            k as int == key_of(self.board()),
            k < 19683,
    {
        let k8: u64 = digit_exec(self.c8);
        let k7: u64 = digit_exec(self.c7) + 3 * k8;
        let k6: u64 = digit_exec(self.c6) + 3 * k7;
        let k5: u64 = digit_exec(self.c5) + 3 * k6;
        let k4: u64 = digit_exec(self.c4) + 3 * k5;
        let k3: u64 = digit_exec(self.c3) + 3 * k4;
        let k2: u64 = digit_exec(self.c2) + 3 * k3;
        let k1: u64 = digit_exec(self.c1) + 3 * k2;
        let k0: u64 = digit_exec(self.c0) + 3 * k1;
        proof {
            let b = self.board();
            assert(key_suffix(b, 9) == 0);
            assert(k8 as int == key_suffix(b, 8));
            assert(k7 as int == key_suffix(b, 7));
            assert(k6 as int == key_suffix(b, 6));
            assert(k5 as int == key_suffix(b, 5));
            assert(k4 as int == key_suffix(b, 4));
            assert(k3 as int == key_suffix(b, 3));
            assert(k2 as int == key_suffix(b, 2));
            assert(k1 as int == key_suffix(b, 1));
            assert(k0 as int == key_suffix(b, 0));
        }
        k0
    }

    /// Lists the coordinates of all empty cells, in row-major order.
    pub fn next_moves(&self) -> (v: Vec<Position>)
        ensures
            v@ == s_next_moves(self.board()),
    {
        let mut v: Vec<Position> = Vec::new();
        let mut i: usize = 0;
        while i < 9
            invariant
                i <= 9,
                v@ =~= moves_prefix(self.board(), i as int),
            decreases 9 - i,
        {
            if self.cell_at(i) == Value::N {
                v.push(Position { row: i / 3 + 1, col: i % 3 + 1 });
            }
            i = i + 1;
        }
        v
    }
}

/// The position that results from marking the cell addressed by `m` for the
/// player to move in `s`, with the turn handed over and one more ply played.
pub open spec fn s_next_state(s: GameState, m: Position) -> GameState {
    let i = cell_index(m.row as int, m.col as int);
    let p = s.to_play;
    GameState {
        c0: if i == 0 { p } else { s.c0 },
        c1: if i == 1 { p } else { s.c1 },
        c2: if i == 2 { p } else { s.c2 },
        c3: if i == 3 { p } else { s.c3 },
        c4: if i == 4 { p } else { s.c4 },
        c5: if i == 5 { p } else { s.c5 },
        c6: if i == 6 { p } else { s.c6 },
        c7: if i == 7 { p } else { s.c7 },
        c8: if i == 8 { p } else { s.c8 },
        depth: (s.depth + 1) as usize,
        to_play: other_player(s.to_play),
    }
}

/// The count of marks among the first `i` cells never exceeds `i`.
pub proof fn lemma_filled_bounds(b: Seq<Value>, i: int)
    requires
        0 <= i,
    ensures
        0 <= filled_prefix(b, i) <= i,
    decreases i,
{
    if i > 0 {
        lemma_filled_bounds(b, i - 1);
    }
}

/// Marking one empty cell raises the count of marks among the first `i`
/// cells by one if the cell lies among them, else leaves it unchanged.
proof fn lemma_filled_update(b: Seq<Value>, j: int, p: Value, i: int)
    requires
        0 <= j < b.len(),
        b[j] == Value::N,
        p != Value::N,
        0 <= i <= b.len(),
    ensures
        filled_prefix(b.update(j, p), i) == filled_prefix(b, i) + if j < i {
            1int
        } else {
            0int
        },
    decreases i,
{
    if i > 0 {
        lemma_filled_update(b, j, p, i - 1);
    }
}

/// Applying a legal move to a well-formed position yields a well-formed
/// position: one more mark, one more ply, the other player to move.
pub proof fn lemma_next_state_props(s: GameState, m: Position)
    requires
        s.wf(),
        in_range(m.row as int, m.col as int),
        s.board()[cell_index(m.row as int, m.col as int)] == Value::N,
    ensures
        s_next_state(s, m).wf(),
        s_next_state(s, m).depth == s.depth + 1,
        s_next_state(s, m).to_play == other_player(s.to_play),
        s_next_state(s, m).board() =~= s.board().update(
            cell_index(m.row as int, m.col as int),
            s.to_play,
        ),
{
    let i = cell_index(m.row as int, m.col as int);
    let b = s.board();
    let r = s_next_state(s, m);
    lemma_filled_bounds(b, 9);
    assert(r.board() =~= b.update(i, s.to_play));
    lemma_filled_update(b, i, s.to_play, 9);
}

/// Every move listed among the first `i` cells addresses an in-range, empty
/// cell of `b`.
proof fn lemma_moves_prefix_legal(b: Seq<Value>, i: int)
    requires
        0 <= i <= 9,
    ensures
        forall|j: int| 0 <= j < moves_prefix(b, i).len() ==> {
            let m = #[trigger] moves_prefix(b, i)[j];
            &&& in_range(m.row as int, m.col as int)
            &&& cell_index(m.row as int, m.col as int) < i
            &&& b[cell_index(m.row as int, m.col as int)] == Value::N
        },
    decreases i,
{
    if i > 0 {
        lemma_moves_prefix_legal(b, i - 1);
        if b[i - 1] == Value::N {
            let m = position_at(i - 1);
            assert(cell_index(m.row as int, m.col as int) == i - 1);
        }
    }
}

/// Every legal move of board `b` addresses an in-range, empty cell.
pub proof fn lemma_moves_legal(b: Seq<Value>)
    ensures
        forall|j: int| 0 <= j < s_next_moves(b).len() ==> {
            let m = #[trigger] s_next_moves(b)[j];
            &&& in_range(m.row as int, m.col as int)
            &&& b[cell_index(m.row as int, m.col as int)] == Value::N
        },
{
    lemma_moves_prefix_legal(b, 9);
}

proof fn lemma_moves_prefix_len(b: Seq<Value>, i: int)
    requires
        0 <= i <= 9,
    ensures
        moves_prefix(b, i).len() == i - filled_prefix(b, i),
    decreases i,
{
    if i > 0 {
        lemma_moves_prefix_len(b, i - 1);
    }
}

/// A board offers one legal move for each unmarked cell.
pub proof fn lemma_moves_len(b: Seq<Value>)
    ensures
        s_next_moves(b).len() == 9 - filled(b),
{
    lemma_moves_prefix_len(b, 9);
}

fn digit_exec(v: Value) -> (d: u64)
    ensures
        d as int == digit(v),
        d <= 2,
{
    match v {
        Value::N => 0,
        Value::O => 1,
        Value::X => 2,
    }
}

/// The base-3 digit encoding a cell's content.
pub open spec fn digit(v: Value) -> int {
    match v {
        Value::N => 0,
        Value::O => 1,
        Value::X => 2,
    }
}

/// The cells of board `b` from index `i` on, read as base-3 digits, least
/// significant first.
pub open spec fn key_suffix(b: Seq<Value>, i: int) -> int
    decreases 9 - i,
{
    if i < 0 || i >= 9 {
        0
    } else {
        digit(b[i]) + 3 * key_suffix(b, i + 1)
    }
}

/// The content key of board `b`: the nine cells read as base-3 digits. The
/// key covers the position only — never any accumulated move history — so
/// transpositions (one position reached along different move orders) share
/// one key.
pub open spec fn key_of(b: Seq<Value>) -> int {
    key_suffix(b, 0)
}

/// Equal key suffixes mean equal cells from `i` on: base-3 digits are
/// recovered one at a time from the low end.
proof fn lemma_key_suffix_injective(b1: Seq<Value>, b2: Seq<Value>, i: int)
    requires
        0 <= i <= 9,
        key_suffix(b1, i) == key_suffix(b2, i),
    ensures
        forall|j: int| i <= j < 9 ==> b1[j] == b2[j],
    decreases 9 - i,
{
    if i < 9 {
        lemma_digit_peel(digit(b1[i]), key_suffix(b1, i + 1), digit(b2[i]), key_suffix(b2, i + 1));
        lemma_digit_injective(b1[i], b2[i]);
        lemma_key_suffix_injective(b1, b2, i + 1);
    }
}

/// Equal keys on well-formed positions mean equal positions: the encoding is
/// injective on the board, and a well-formed position carries no data beyond
/// its board (ply count and turn are determined by the marks).
pub proof fn lemma_key_injective(s1: GameState, s2: GameState)
    requires
        s1.wf(),
        s2.wf(),
        key_of(s1.board()) == key_of(s2.board()),
    ensures
        s1 == s2,
{
    let b1 = s1.board();
    let b2 = s2.board();
    lemma_key_suffix_injective(b1, b2, 0);
    assert(b1 =~= b2);
    reveal_with_fuel(filled_prefix, 10);
}

/// Powers of three, the place values of the content key.
spec fn pow3(n: nat) -> int
    decreases n,
{
    if n == 0 {
        1
    } else {
        3 * pow3((n - 1) as nat)
    }
}

proof fn lemma_key_suffix_bounds(b: Seq<Value>, i: int)
    requires
        0 <= i <= 9,
    ensures
        0 <= key_suffix(b, i) < pow3((9 - i) as nat),
    decreases 9 - i,
{
    if i < 9 {
        lemma_key_suffix_bounds(b, i + 1);
    }
}

/// The content key always lies below 3^9.
pub proof fn lemma_key_bounds(b: Seq<Value>)
    ensures
        0 <= key_of(b) < 19683,
{
    lemma_key_suffix_bounds(b, 0);
    reveal_with_fuel(pow3, 10);
    assert(pow3(9) == 19683);
}

/// Distinct cell contents have distinct base-3 digits.
proof fn lemma_digit_injective(v: Value, w: Value)
    requires
        digit(v) == digit(w),
    ensures
        v == w,
{
}

/// Base-3 uniqueness for one digit: if `d1 + 3*r1 == d2 + 3*r2` with both
/// digits below 3, the digits agree, and so do the remainders.
proof fn lemma_digit_peel(d1: int, r1: int, d2: int, r2: int)
    requires
        0 <= d1 < 3,
        0 <= d2 < 3,
        d1 + 3 * r1 == d2 + 3 * r2,
    ensures
        d1 == d2,
        r1 == r2,
{
    assert(d1 - d2 == 3 * (r2 - r1));
}

/// The ply-adjusted score of a position: a win is worth less the more plies
/// it took and a loss costs less the longer it was staved off, so the
/// search prefers the quickest win and the slowest loss.
pub open spec fn s_adjusted_score(s: GameState) -> int {
    let raw = score_of(s.board());
    if raw < 0 {
        raw + s.depth
    } else if raw > 0 {
        raw - s.depth
    } else {
        0
    }
}

/// A searchable game position: the state wrapped as a node of the game
/// tree. Node identity for caching is the position's content key alone.
#[derive(PartialEq, Eq, Structural, Hash, Debug, Clone, Copy)]
pub struct GameNode {
    pub state: GameState,
}

impl Node for GameNode {
    open spec fn inv(&self) -> bool {
        self.state.wf()
    }

    open spec fn s_terminal(&self) -> bool {
        self.state.s_terminal()
    }

    open spec fn s_max(&self) -> bool {
        self.state.to_play == Value::O
    }

    open spec fn s_score(&self) -> int {
        s_adjusted_score(self.state)
    }

    open spec fn s_key(&self) -> u64 {
        key_of(self.state.board()) as u64
    }

    open spec fn s_children(&self) -> Seq<GameNode> {
        if self.state.s_terminal() {
            Seq::empty()
        } else {
            s_next_moves(self.state.board()).map(
                |i: int, m: Position| GameNode { state: s_next_state(self.state, m) },
            )
        }
    }

    open spec fn height(&self) -> nat {
        if self.state.depth <= 9 {
            (9 - self.state.depth) as nat
        } else {
            0
        }
    }

    open spec fn s_depth(&self) -> nat {
        self.state.depth as nat
    }

    fn depth(&self) -> (d: usize) {
        self.state.depth
    }

    fn children(&self) -> (cs: Vec<GameNode>) {
        if self.state.is_terminal() {
            Vec::new()
        } else {
            proof {
                lemma_moves_legal(self.state.board());
            }
            let moves = self.state.next_moves();
            let mut out: Vec<GameNode> = Vec::new();
            let mut j: usize = 0;
            while j < moves.len()
                invariant
                    self.state.wf(),
                    !self.state.s_terminal(),
                    moves@ == s_next_moves(self.state.board()),
                    j <= moves@.len(),
                    out@ =~= self.s_children().take(j as int),
                    forall|i: int| 0 <= i < moves@.len() ==> {
                        let m = #[trigger] moves@[i];
                        &&& in_range(m.row as int, m.col as int)
                        &&& self.state.board()[cell_index(m.row as int, m.col as int)]
                            == Value::N
                    },
                decreases moves@.len() - j,
            {
                let st = self.state.next_state(&moves[j]);
                out.push(GameNode { state: st });
                j = j + 1;
            }
            out
        }
    }

    fn is_terminal(&self) -> (r: bool) {
        self.state.is_terminal()
    }

    fn score(&self) -> (s: i32) {
        proof {
            lemma_filled_bounds(self.state.board(), 9);
        }
        let raw = self.state.score();
        let d = self.state.depth as i32;
        if raw < 0 {
            raw + d
        } else if raw > 0 {
            raw - d
        } else {
            0
        }
    }

    fn is_maximising(&self) -> (r: bool) {
        self.state.to_play == Value::O
    }

    fn key(&self) -> (k: u64) {
        self.state.key()
    }

    proof fn lemma_node_wf(&self) {
        let s = self.state;
        let b = s.board();
        lemma_filled_bounds(b, 9);
        lemma_moves_len(b);
        let ms = s_next_moves(b);
        lemma_moves_legal(b);
        if !s.s_terminal() {
            assert(self.s_children().len() == ms.len());
            assert forall|i: int| 0 <= i < self.s_children().len() implies {
                let c = #[trigger] self.s_children()[i];
                c.inv() && c.height() < self.height()
            } by {
                let m = ms[i];
                lemma_next_state_props(s, m);
                assert(self.s_children()[i] == GameNode { state: s_next_state(s, m) });
            }
        }
    }

    proof fn lemma_key_congruent(a: &Self, b: &Self) {
        lemma_key_bounds(a.state.board());
        lemma_key_bounds(b.state.board());
        lemma_key_injective(a.state, b.state);
    }
}

/// Depth preference, winning side: of two positions already won for the
/// maximizer, the one reached in fewer plies carries the strictly higher
/// game value. A search that picks the child of best value therefore
/// prefers the quicker of two attainable wins.
pub proof fn lemma_prefer_quicker_win(n1: GameNode, n2: GameNode)
    requires
        n1.inv(),
        n2.inv(),
        n1.s_terminal(),
        n2.s_terminal(),
        score_of(n1.state.board()) == MAX_SCORE as int,
        score_of(n2.state.board()) == MAX_SCORE as int,
        n1.state.depth < n2.state.depth,
    ensures
        crate::search::game_value(n1) > crate::search::game_value(n2),
{
}

/// Depth preference, losing side: of two positions already lost for the
/// maximizer, the one reached in more plies carries the strictly higher
/// game value — the maximizer prefers the longer of two losses.
pub proof fn lemma_prefer_longer_loss(n1: GameNode, n2: GameNode)
    requires
        n1.inv(),
        n2.inv(),
        n1.s_terminal(),
        n2.s_terminal(),
        score_of(n1.state.board()) == -(MAX_SCORE as int),
        score_of(n2.state.board()) == -(MAX_SCORE as int),
        n1.state.depth < n2.state.depth,
    ensures
        crate::search::game_value(n2) > crate::search::game_value(n1),
{
}

/// Whether the maximizing side can force the game from `n` into a
/// position it has won by ply depth `d`, looking at most `fuel` plies
/// ahead: at a terminal node the game must already be won at depth `d` or
/// less; where the maximizer moves, some child must keep the forced win;
/// where the minimizer moves, every child must.
pub open spec fn o_wins_within(n: GameNode, d: int, fuel: nat) -> bool
    decreases fuel,
{
    if n.s_terminal() || fuel == 0 {
        n.s_terminal() && score_of(n.state.board()) == MAX_SCORE as int && n.state.depth <= d
    } else if n.s_max() {
        exists|i: int|
            0 <= i < n.s_children().len() && o_wins_within(
                #[trigger] n.s_children()[i],
                d,
                (fuel - 1) as nat,
            )
    } else {
        forall|i: int|
            0 <= i < n.s_children().len() ==> o_wins_within(
                #[trigger] n.s_children()[i],
                d,
                (fuel - 1) as nat,
            )
    }
}

/// Whether the maximizing side can force a win by total ply depth `d`
/// from `n`.
pub open spec fn o_forces_win_by(n: GameNode, d: int) -> bool {
    o_wins_within(n, d, n.height())
}

proof fn lemma_owins_value_lb(n: GameNode, d: int, fuel: nat)
    requires
        n.inv(),
        fuel >= n.height(),
        o_wins_within(n, d, fuel),
    ensures
        crate::search::game_value(n) >= MAX_SCORE - d,
    decreases fuel,
{
    n.lemma_node_wf();
    if n.s_terminal() || fuel == 0 {
        assert(crate::search::game_value(n) == n.s_score());
    } else {
        crate::search::lemma_game_value_unfold(n);
        let cs = n.s_children();
        if n.s_max() {
            let i = choose|i: int|
                0 <= i < cs.len() && o_wins_within(#[trigger] cs[i], d, (fuel - 1) as nat);
            lemma_owins_value_lb(cs[i], d, (fuel - 1) as nat);
            crate::search::lemma_fold_best_element(cs, true, i);
        } else {
            crate::search::lemma_fold_best_attained(cs, false);
            let j = choose|j: int|
                0 <= j < cs.len() && crate::search::fold_best(cs, false)
                    == crate::search::game_value(#[trigger] cs[j]);
            lemma_owins_value_lb(cs[j], d, (fuel - 1) as nat);
        }
    }
}

proof fn lemma_owins_value_ub(n: GameNode, d: int, fuel: nat)
    requires
        n.inv(),
        fuel >= n.height(),
        0 <= d <= 9,
        crate::search::game_value(n) >= MAX_SCORE - d,
    ensures
        o_wins_within(n, d, fuel),
    decreases fuel,
{
    n.lemma_node_wf();
    lemma_filled_bounds(n.state.board(), 9);
    if n.s_terminal() {
        assert(crate::search::game_value(n) == n.s_score());
    } else {
        let cs = n.s_children();
        assert(cs[0].height() < n.height());
        crate::search::lemma_game_value_unfold(n);
        if n.s_max() {
            crate::search::lemma_fold_best_attained(cs, true);
            let j = choose|j: int|
                0 <= j < cs.len() && crate::search::fold_best(cs, true)
                    == crate::search::game_value(#[trigger] cs[j]);
            lemma_owins_value_ub(cs[j], d, (fuel - 1) as nat);
        } else {
            assert forall|i: int| 0 <= i < cs.len() implies o_wins_within(
                #[trigger] cs[i],
                d,
                (fuel - 1) as nat,
            ) by {
                crate::search::lemma_fold_best_element(cs, false, i);
                lemma_owins_value_ub(cs[i], d, (fuel - 1) as nat);
            }
        }
    }
}

/// Depth preference in full: the maximizer can force a win by ply depth
/// `d` exactly when the game value reaches the depth-adjusted score of
/// such a win. Together with `lemma_fastest_win_value` this pins the
/// value of every winnable position to its fastest forced win.
pub proof fn lemma_forced_win_value(n: GameNode, d: int)
    requires
        n.inv(),
        0 <= d <= 9,
    ensures
        o_forces_win_by(n, d) <==> crate::search::game_value(n) >= MAX_SCORE - d,
{
    if o_forces_win_by(n, d) {
        lemma_owins_value_lb(n, d, n.height());
    }
    if crate::search::game_value(n) >= MAX_SCORE - d {
        lemma_owins_value_ub(n, d, n.height());
    }
}

/// The game value of a position whose fastest forced win for the
/// maximizer takes exactly `d` plies is the depth-adjusted score of that
/// win: of two attainable winning lines, the shorter one determines the
/// value.
pub proof fn lemma_fastest_win_value(n: GameNode, d: int)
    requires
        n.inv(),
        1 <= d <= 9,
        o_forces_win_by(n, d),
        !o_forces_win_by(n, d - 1),
    ensures
        crate::search::game_value(n) == MAX_SCORE - d,
{
    lemma_forced_win_value(n, d);
    lemma_forced_win_value(n, d - 1);
}

/// The count of marks among the first `i` cells stays below `i` when one
/// of those cells is unmarked.
proof fn lemma_filled_missing(b: Seq<Value>, j: int, i: int)
    requires
        0 <= j < i,
        b[j] == Value::N,
    ensures
        filled_prefix(b, i) < i,
    decreases i,
{
    lemma_filled_bounds(b, i);
    if j < i - 1 {
        lemma_filled_missing(b, j, i - 1);
    } else {
        lemma_filled_bounds(b, i - 1);
    }
}

/// A well-formed position with an unmarked cell and no completed line is
/// not terminal: at least one legal move remains.
pub proof fn lemma_not_terminal(s: GameState, i: int)
    requires
        s.wf(),
        0 <= i < 9,
        s.board()[i] == Value::N,
        score_of(s.board()) == 0,
    ensures
        !s.s_terminal(),
{
    lemma_filled_missing(s.board(), i, 9);
}

} // verus!

