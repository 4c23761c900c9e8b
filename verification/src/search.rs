//! Minimax search with alpha-beta pruning over a generic game-node
//! abstraction, and a transposition cache that stores only exact scores.

use std::collections::HashMap;
use vstd::prelude::*;

verus! {

/// A strict bound on the score of every node: the search seeds its running
/// best with the sentinels `-VALUE_BOUND` and `VALUE_BOUND`, which no real
/// line of play can reach.
pub const VALUE_BOUND: i32 = 100;

/// The capability contract a game state must satisfy to be searchable.
///
/// A node is an opaque position of some finite, two-player, zero-sum,
/// perfect-information game. All capabilities are promised only on
/// well-formed nodes (`inv`), and the two laws at the end carry the
/// guarantees the search engine rests on: terminal nodes are exactly the
/// childless ones, scores stay strictly inside the sentinels, recursion
/// makes progress (`height` drops on every child), and the content key
/// identifies positions as far as their game value is concerned.
pub trait Node: Sized + Clone {
    /// Well-formedness of a node.
    spec fn inv(&self) -> bool;

    /// Whether the game is over at this node.
    spec fn s_terminal(&self) -> bool;

    /// Whether the player to move at this node is the maximizing side.
    spec fn s_max(&self) -> bool;

    /// The node's own evaluation: ground truth at terminal nodes, a
    /// placeholder the search never trusts elsewhere.
    spec fn s_score(&self) -> int;

    /// The structural content key: covers the position only, never any
    /// accumulated move history, so transpositions share one key.
    spec fn s_key(&self) -> u64;

    /// All positions reachable by one legal move, in the node's own
    /// enumeration order; empty exactly at terminal nodes.
    spec fn s_children(&self) -> Seq<Self>;

    /// An upper bound on the number of plies still to play; every child
    /// ranks strictly lower, which bounds the recursion.
    spec fn height(&self) -> nat;

    /// The number of plies already played.
    spec fn s_depth(&self) -> nat;

    /// The number of plies already played.
    fn depth(&self) -> (d: usize)
        requires
            self.inv(),
        ensures
            d as nat == self.s_depth(),
    ;

    /// Produces all direct successor positions.
    fn children(&self) -> (cs: Vec<Self>)
        requires
            self.inv(),
        ensures
            cs@ == self.s_children(),
    ;

    /// Whether the game is over at this node.
    fn is_terminal(&self) -> (r: bool)
        requires
            self.inv(),
        ensures
            r == self.s_terminal(),
    ;

    /// The node's own evaluation.
    fn score(&self) -> (s: i32)
        requires
            self.inv(),
        ensures
            s as int == self.s_score(),
    ;

    /// Whether the player to move is the maximizing side.
    fn is_maximising(&self) -> (r: bool)
        requires
            self.inv(),
        ensures
            r == self.s_max(),
    ;

    /// The structural content key.
    fn key(&self) -> (k: u64)
        requires
            self.inv(),
        ensures
            k == self.s_key(),
    ;

    /// The structural laws of a well-formed node: a node is terminal exactly
    /// when it has no children, its score lies strictly inside the
    /// sentinels, and its children are well-formed with strictly smaller
    /// height.
    proof fn lemma_node_wf(&self)
        requires
            self.inv(),
        ensures
            self.s_terminal() <==> self.s_children().len() == 0,
            -(VALUE_BOUND as int) < self.s_score() < VALUE_BOUND as int,
            forall|i: int|
                0 <= i < self.s_children().len() ==> {
                    let c = #[trigger] self.s_children()[i];
                    c.inv() && c.height() < self.height()
                },
    ;

    /// Key congruence: two well-formed nodes with one key agree on
    /// everything the game value is built from — terminality, side to move,
    /// score, and the keys of their children, pairwise in order.
    proof fn lemma_key_congruent(a: &Self, b: &Self)
        requires
            a.inv(),
            b.inv(),
            a.s_key() == b.s_key(),
        ensures
            a.s_terminal() == b.s_terminal(),
            a.s_max() == b.s_max(),
            a.s_score() == b.s_score(),
            a.s_children().len() == b.s_children().len(),
            forall|i: int|
                0 <= i < a.s_children().len() ==> (#[trigger] a.s_children()[i]).s_key()
                    == b.s_children()[i].s_key(),
    ;
}

/// The better of two values for the given side: the maximum when
/// maximizing, the minimum when minimizing.
pub open spec fn better(maxi: bool, v: int, w: int) -> int {
    if maxi {
        if v > w {
            v
        } else {
            w
        }
    } else {
        if v < w {
            v
        } else {
            w
        }
    }
}

/// The neutral element the search starts from: the sentinel every real
/// value beats for the given side.
pub open spec fn sentinel(maxi: bool) -> int {
    if maxi {
        -(VALUE_BOUND as int)
    } else {
        VALUE_BOUND as int
    }
}

/// Exhaustive minimax with explicit recursion fuel: the score at terminal
/// (or fuel-starved) nodes, else the best child value for the side to move.
/// With fuel at least `height`, the fuel never runs out
/// (`lemma_mm_fuel_stable`), so `game_value` is the true minimax value.
pub open spec fn mm<T: Node>(n: T, fuel: nat) -> int
    decreases fuel, 0nat,
{
    if n.s_terminal() || fuel == 0 {
        n.s_score()
    } else {
        mm_seq(n.s_children(), n.s_max(), (fuel - 1) as nat)
    }
}

/// The best of the minimax values of `cs` for the given side, folded left
/// to right from the sentinel.
pub open spec fn mm_seq<T: Node>(cs: Seq<T>, maxi: bool, fuel: nat) -> int
    decreases fuel, cs.len() + 1,
{
    if cs.len() == 0 {
        sentinel(maxi)
    } else {
        better(maxi, mm_seq(cs.drop_last(), maxi, fuel), mm(cs.last(), fuel))
    }
}

/// The game-theoretic value of a node: exhaustive minimax run to the
/// node's full height, with no pruning and no cache.
pub open spec fn game_value<T: Node>(n: T) -> int {
    mm(n, n.height())
}

/// Minimax values of well-formed nodes lie strictly inside the sentinels.
pub proof fn lemma_mm_bounds<T: Node>(n: T, fuel: nat)
    requires
        n.inv(),
    ensures
        -(VALUE_BOUND as int) < mm(n, fuel) < VALUE_BOUND as int,
    decreases fuel, 0nat,
{
    n.lemma_node_wf();
    if !(n.s_terminal() || fuel == 0) {
        lemma_mm_seq_bounds(n.s_children(), n.s_max(), (fuel - 1) as nat);
    }
}

proof fn lemma_mm_seq_bounds<T: Node>(cs: Seq<T>, maxi: bool, fuel: nat)
    requires
        cs.len() > 0,
        forall|i: int| 0 <= i < cs.len() ==> (#[trigger] cs[i]).inv(),
    ensures
        -(VALUE_BOUND as int) < mm_seq(cs, maxi, fuel) < VALUE_BOUND as int,
    decreases fuel, cs.len() + 1,
{
    lemma_mm_bounds(cs.last(), fuel);
    if cs.len() > 1 {
        lemma_mm_seq_bounds(cs.drop_last(), maxi, fuel);
    } else {
        assert(cs.drop_last().len() == 0);
        assert(mm_seq(cs.drop_last(), maxi, fuel) == sentinel(maxi));
    }
}

/// The game value of a well-formed node lies strictly inside the
/// sentinels; in particular the full window always pins the search result.
pub proof fn lemma_game_value_bounds<T: Node>(n: T)
    requires
        n.inv(),
    ensures
        -(VALUE_BOUND as int) < game_value(n) < VALUE_BOUND as int,
{
    lemma_mm_bounds(n, n.height());
}

/// Fuel beyond a node's height changes nothing: minimax with any such fuel
/// equals minimax at exactly the height, the node's game value.
pub proof fn lemma_mm_fuel_stable<T: Node>(n: T, fuel: nat)
    requires
        n.inv(),
        fuel >= n.height(),
    ensures
        mm(n, fuel) == game_value(n),
    decreases n.height() + 1, 0nat,
{
    n.lemma_node_wf();
    if !n.s_terminal() {
        let cs = n.s_children();
        assert(cs.len() > 0);
        assert(cs[0].height() < n.height());
        assert(n.height() >= 1);
        lemma_mm_seq_fuel_stable(cs, n.s_max(), (fuel - 1) as nat, (n.height() - 1) as nat, n.height());
    }
}

proof fn lemma_mm_seq_fuel_stable<T: Node>(cs: Seq<T>, maxi: bool, f1: nat, f2: nat, hb: nat)
    requires
        forall|i: int| 0 <= i < cs.len() ==> (#[trigger] cs[i]).inv(),
        forall|i: int| 0 <= i < cs.len() ==> (#[trigger] cs[i]).height() < hb,
        f1 >= hb - 1,
        f2 >= hb - 1,
    ensures
        mm_seq(cs, maxi, f1) == mm_seq(cs, maxi, f2),
    decreases hb, cs.len(),
{
    if cs.len() > 0 {
        lemma_mm_seq_fuel_stable(cs.drop_last(), maxi, f1, f2, hb);
        lemma_mm_fuel_stable(cs.last(), f1);
        lemma_mm_fuel_stable(cs.last(), f2);
    }
}

/// Two well-formed nodes with one content key have one minimax value at
/// every fuel: the value is a function of what the key pins down.
pub proof fn lemma_mm_key<T: Node>(a: T, b: T, fuel: nat)
    requires
        a.inv(),
        b.inv(),
        a.s_key() == b.s_key(),
    ensures
        mm(a, fuel) == mm(b, fuel),
    decreases fuel, 0nat,
{
    T::lemma_key_congruent(&a, &b);
    a.lemma_node_wf();
    b.lemma_node_wf();
    if !(a.s_terminal() || fuel == 0) {
        lemma_mm_seq_key(a.s_children(), b.s_children(), a.s_max(), (fuel - 1) as nat);
    }
}

proof fn lemma_mm_seq_key<T: Node>(cs: Seq<T>, ds: Seq<T>, maxi: bool, fuel: nat)
    requires
        cs.len() == ds.len(),
        forall|i: int| 0 <= i < cs.len() ==> (#[trigger] cs[i]).inv(),
        forall|i: int| 0 <= i < ds.len() ==> (#[trigger] ds[i]).inv(),
        forall|i: int| 0 <= i < cs.len() ==> (#[trigger] cs[i]).s_key() == ds[i].s_key(),
    ensures
        mm_seq(cs, maxi, fuel) == mm_seq(ds, maxi, fuel),
    decreases fuel, cs.len() + 1,
{
    if cs.len() > 0 {
        assert(cs.drop_last() =~= cs.take(cs.len() - 1));
        assert(ds.drop_last() =~= ds.take(ds.len() - 1));
        lemma_mm_seq_key(cs.drop_last(), ds.drop_last(), maxi, fuel);
        lemma_mm_key(cs.last(), ds.last(), fuel);
    }
}

/// Transpositions collapse: two well-formed nodes with one content key —
/// one position reached along different move orders — have one game value.
pub proof fn lemma_game_value_key<T: Node>(a: T, b: T)
    requires
        a.inv(),
        b.inv(),
        a.s_key() == b.s_key(),
    ensures
        game_value(a) == game_value(b),
{
    let f = a.height() + b.height();
    lemma_mm_fuel_stable(a, f);
    lemma_mm_fuel_stable(b, f);
    lemma_mm_key(a, b, f);
}

/// Pruning never changes the returned value, only the nodes visited: any
/// result that meets `alphabeta`'s fail-soft contract for the sentinel
/// window is the exhaustive minimax value itself, because every game value
/// lies strictly inside the sentinels.
pub proof fn lemma_full_window_exact<T: Node>(n: T, r: int)
    requires
        n.inv(),
        r <= -(VALUE_BOUND as int) ==> game_value(n) <= r,
        r >= VALUE_BOUND as int ==> game_value(n) >= r,
        -(VALUE_BOUND as int) < r < VALUE_BOUND as int ==> r == game_value(n),
    ensures
        r == game_value(n),
{
    lemma_game_value_bounds(n);
}

/// Idempotence of evaluation: any two results that meet `alphabeta`'s
/// fail-soft contract under windows enclosing the node's game value are
/// both that game value, so repeating the evaluation — with a cold or a
/// warm cache, under the same or another such window — returns one score.
pub proof fn lemma_eval_idempotent<T: Node>(
    n: T,
    a1: int,
    b1: int,
    r1: int,
    a2: int,
    b2: int,
    r2: int,
)
    requires
        n.inv(),
        a1 < game_value(n) < b1,
        a2 < game_value(n) < b2,
        r1 <= a1 ==> game_value(n) <= r1,
        r1 >= b1 ==> game_value(n) >= r1,
        a1 < r1 < b1 ==> r1 == game_value(n),
        r2 <= a2 ==> game_value(n) <= r2,
        r2 >= b2 ==> game_value(n) >= r2,
        a2 < r2 < b2 ==> r2 == game_value(n),
    ensures
        r1 == r2,
        r1 == game_value(n),
{
}

/// Transposition consistency: two well-formed nodes with one content key
/// are one position as far as evaluation goes, so any two results that
/// meet `alphabeta`'s fail-soft contract for them — on one engine or two,
/// cold cache or warm — are one score whenever each window encloses the
/// (shared) game value, as the sentinel window always does.
pub proof fn lemma_transposition_consistent<T: Node>(
    n1: T,
    n2: T,
    a1: int,
    b1: int,
    r1: int,
    a2: int,
    b2: int,
    r2: int,
)
    requires
        n1.inv(),
        n2.inv(),
        n1.s_key() == n2.s_key(),
        a1 < game_value(n1) < b1,
        a2 < game_value(n2) < b2,
        r1 <= a1 ==> game_value(n1) <= r1,
        r1 >= b1 ==> game_value(n1) >= r1,
        a1 < r1 < b1 ==> r1 == game_value(n1),
        r2 <= a2 ==> game_value(n2) <= r2,
        r2 >= b2 ==> game_value(n2) >= r2,
        a2 < r2 < b2 ==> r2 == game_value(n2),
    ensures
        r1 == r2,
        r1 == game_value(n1),
{
    lemma_game_value_key(n1, n2);
}

/// The best game value among `cs` for the given side, folded left to right
/// from the sentinel: what an inner node is worth to the side to move.
pub open spec fn fold_best<T: Node>(cs: Seq<T>, maxi: bool) -> int
    decreases cs.len(),
{
    if cs.len() == 0 {
        sentinel(maxi)
    } else {
        better(maxi, fold_best(cs.drop_last(), maxi), game_value(cs.last()))
    }
}

/// An inner node's game value is the best of its children's game values
/// for the side to move at the node.
pub proof fn lemma_game_value_unfold<T: Node>(n: T)
    requires
        n.inv(),
        !n.s_terminal(),
    ensures
        game_value(n) == fold_best(n.s_children(), n.s_max()),
{
    n.lemma_node_wf();
    let cs = n.s_children();
    assert(cs[0].height() < n.height());
    lemma_mm_seq_fold(cs, n.s_max(), (n.height() - 1) as nat);
}

proof fn lemma_mm_seq_fold<T: Node>(cs: Seq<T>, maxi: bool, fuel: nat)
    requires
        forall|i: int| 0 <= i < cs.len() ==> (#[trigger] cs[i]).inv(),
        forall|i: int| 0 <= i < cs.len() ==> (#[trigger] cs[i]).height() <= fuel,
    ensures
        mm_seq(cs, maxi, fuel) == fold_best(cs, maxi),
    decreases cs.len(),
{
    if cs.len() > 0 {
        assert(cs.drop_last() =~= cs.take(cs.len() - 1));
        lemma_mm_seq_fold(cs.drop_last(), maxi, fuel);
        lemma_mm_fuel_stable(cs.last(), fuel);
    }
}

/// Extending a prefix by one child folds that child's game value in.
pub proof fn lemma_fold_best_step<T: Node>(cs: Seq<T>, maxi: bool, i: int)
    requires
        0 <= i < cs.len(),
    ensures
        fold_best(cs.take(i + 1), maxi) == better(
            maxi,
            fold_best(cs.take(i), maxi),
            game_value(cs[i]),
        ),
{
    assert(cs.take(i + 1).drop_last() =~= cs.take(i));
    assert(cs.take(i + 1).last() == cs[i]);
}

/// The folded best dominates the game value of every child it covers.
pub proof fn lemma_fold_best_element<T: Node>(cs: Seq<T>, maxi: bool, j: int)
    requires
        0 <= j < cs.len(),
    ensures
        maxi ==> game_value(cs[j]) <= fold_best(cs, maxi),
        !maxi ==> game_value(cs[j]) >= fold_best(cs, maxi),
    decreases cs.len(),
{
    if j < cs.len() - 1 {
        assert(cs.drop_last()[j] == cs[j]);
        lemma_fold_best_element(cs.drop_last(), maxi, j);
    }
}

/// A nonempty fold is attained: the folded best equals the game value of
/// one of the children.
pub proof fn lemma_fold_best_attained<T: Node>(cs: Seq<T>, maxi: bool)
    requires
        cs.len() > 0,
        forall|j: int| 0 <= j < cs.len() ==> (#[trigger] cs[j]).inv(),
    ensures
        exists|j: int|
            0 <= j < cs.len() && fold_best(cs, maxi) == game_value(#[trigger] cs[j]),
    decreases cs.len(),
{
    lemma_game_value_bounds(cs.last());
    if cs.len() == 1 {
        assert(fold_best(cs.drop_last(), maxi) == sentinel(maxi));
        assert(fold_best(cs, maxi) == game_value(cs[0]));
    } else {
        lemma_fold_best_attained(cs.drop_last(), maxi);
        let j0 = choose|j: int|
            0 <= j < cs.drop_last().len() && fold_best(cs.drop_last(), maxi) == game_value(
                #[trigger] cs.drop_last()[j],
            );
        assert(cs.drop_last()[j0] == cs[j0]);
        if fold_best(cs, maxi) == game_value(cs.last()) {
            assert(fold_best(cs, maxi) == game_value(cs[cs.len() - 1]));
        } else {
            assert(fold_best(cs, maxi) == game_value(cs[j0]));
        }
    }
}

/// A minimax search engine: alpha-beta pruning plus a transposition cache
/// owned by this one instance and live for its lifetime.
///
/// The cache maps the structural content key of a position to a score, and
/// stores a score only when it is exact — computed strictly inside the
/// window it was searched under, never a cutoff bound — so reusing it under
/// any other window stays sound.
pub struct Search<T: Node> {
    scores: HashMap<u64, i32>,
    cached: Ghost<Map<u64, T>>,
}

impl<T: Node> Search<T> {
    /// The cache invariant: every stored score is the exact game value of
    /// some well-formed node carrying that key. By key congruence, any node
    /// that looks the score up again receives its own game value.
    pub closed spec fn wf(&self) -> bool {
        forall|k: u64| #[trigger] self.scores@.contains_key(k) ==> {
            &&& self.cached@.contains_key(k)
            &&& self.cached@[k].inv()
            &&& self.cached@[k].s_key() == k
            &&& self.scores@[k] as int == game_value(self.cached@[k])
        }
    }

    /// The scores the cache currently holds, by content key.
    pub closed spec fn cache(&self) -> Map<u64, i32> {
        self.scores@
    }

    /// Constructs an engine with an empty transposition cache.
    pub fn new() -> (s: Search<T>)
        ensures
            s.wf(),
            s.cache() == Map::<u64, i32>::empty(),
    {
        Search { scores: HashMap::new(), cached: Ghost(Map::empty()) }
    }

    /// Alpha-beta minimax evaluation of `node` under the window `(a, b)`.
    ///
    /// The result is fail-soft: a result strictly inside the window is the
    /// node's exact game value — so pruning and caching never change the
    /// returned value, only the nodes visited — while a result at or
    /// outside a window edge is a sound bound on the game value from that
    /// side. Whenever the true game value lies strictly inside the window
    /// (the full window always qualifies), the exact value is returned,
    /// whether or not the cache is warm. A terminal node always returns
    /// its own score — the only place ground truth enters the computation.
    /// Cached scores are never dropped or changed, and after any
    /// evaluation whose exact value is known (a terminal node, or a game
    /// value inside the window) the cache holds that value under the
    /// node's key.
    pub fn alphabeta(&mut self, node: &T, a: i32, b: i32) -> (r: i32)
        requires
            old(self).wf(),
            node.inv(),
            -(VALUE_BOUND as int) <= a as int,
            (a as int) < b as int,
            b as int <= VALUE_BOUND as int,
        ensures
            final(self).wf(),
            forall|k2: u64| #[trigger] old(self).cache().contains_key(k2)
                ==> final(self).cache().contains_key(k2) && final(self).cache()[k2]
                == old(self).cache()[k2],
            -(VALUE_BOUND as int) <= r as int <= VALUE_BOUND as int,
            r as int <= a as int ==> game_value(*node) <= r as int,
            r as int >= b as int ==> game_value(*node) >= r as int,
            (a as int) < (r as int) < b as int ==> r as int == game_value(*node),
            (a as int) < game_value(*node) < b as int ==> r as int == game_value(*node),
            node.s_terminal() ==> r as int == node.s_score(),
            node.s_terminal() || ((a as int) < game_value(*node) < b as int) ==> {
                &&& final(self).cache().contains_key(node.s_key())
                &&& final(self).cache()[node.s_key()] as int == game_value(*node)
            },
        decreases node.height(),
    {
        let k = node.key();
        match self.scores.get(&k) {
            Some(v) => {
                proof {
                    lemma_game_value_key(self.cached@[k], *node);
                    lemma_game_value_bounds(*node);
                }
                return *v;
            },
            None => {},
        }
        if node.is_terminal() {
            let s = node.score();
            proof {
                node.lemma_node_wf();
            }
            self.scores.insert(k, s);
            proof {
                self.cached@ = self.cached@.insert(k, *node);
            }
            return s;
        }
        let maxi = node.is_maximising();
        let cs = node.children();
        proof {
            node.lemma_node_wf();
            lemma_game_value_unfold(*node);
        }
        let mut best: i32 = if maxi {
            -VALUE_BOUND
        } else {
            VALUE_BOUND
        };
        let mut al = a;
        let mut be = b;
        let mut i: usize = 0;
        let mut cut = false;
        while i < cs.len() && !cut
            invariant
                self.wf(),
                node.inv(),
                !node.s_terminal(),
                cs@ == node.s_children(),
                maxi == node.s_max(),
                k == node.s_key(),
                i <= cs@.len(),
                forall|k2: u64| #[trigger] old(self).cache().contains_key(k2)
                    ==> self.cache().contains_key(k2) && self.cache()[k2] == old(
                    self,
                ).cache()[k2],
                -(VALUE_BOUND as int) <= a as int,
                (a as int) < b as int,
                b as int <= VALUE_BOUND as int,
                -(VALUE_BOUND as int) <= best as int <= VALUE_BOUND as int,
                maxi ==> be == b,
                !maxi ==> al == a,
                maxi && !cut ==> al as int == if best as int > a as int {
                    best as int
                } else {
                    a as int
                },
                !maxi && !cut ==> be as int == if (best as int) < b as int {
                    best as int
                } else {
                    b as int
                },
                maxi && !cut ==> (best as int) < b as int,
                !maxi && !cut ==> best as int > a as int,
                maxi && !cut ==> fold_best(cs@.take(i as int), true) <= best as int,
                !maxi && !cut ==> fold_best(cs@.take(i as int), false) >= best as int,
                maxi && !cut && best as int > a as int ==> best as int <= fold_best(
                    cs@.take(i as int),
                    true,
                ),
                !maxi && !cut && (best as int) < b as int ==> best as int >= fold_best(
                    cs@.take(i as int),
                    false,
                ),
                cut ==> if maxi {
                    best as int >= b as int && fold_best(cs@, true) >= best as int
                } else {
                    best as int <= a as int && fold_best(cs@, false) <= best as int
                },
            decreases cs@.len() - i,
        {
            proof {
                node.lemma_node_wf();
                assert(cs@[i as int].height() < node.height());
            }
            let child = &cs[i];
            let v = self.alphabeta(child, al, be);
            proof {
                lemma_fold_best_step(cs@, maxi, i as int);
            }
            i = i + 1;
            if maxi {
                if v > best {
                    best = v;
                }
                if best >= be {
                    cut = true;
                    proof {
                        lemma_fold_best_element(cs@, true, i as int - 1);
                    }
                } else {
                    if best > al {
                        al = best;
                    }
                }
            } else {
                if v < best {
                    best = v;
                }
                if best <= al {
                    cut = true;
                    proof {
                        lemma_fold_best_element(cs@, false, i as int - 1);
                    }
                } else {
                    if best < be {
                        be = best;
                    }
                }
            }
        }
        proof {
            lemma_game_value_unfold(*node);
            if !cut {
                assert(cs@.take(i as int) =~= cs@);
            }
        }
        if a < best && best < b {
            proof {
                if self.scores@.contains_key(k) {
                    lemma_game_value_key(self.cached@[k], *node);
                }
            }
            self.scores.insert(k, best);
            proof {
                self.cached@ = self.cached@.insert(k, *node);
            }
        }
        best
    }
}

} // verus!
