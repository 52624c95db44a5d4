//! Minimax search with alpha-beta pruning.
use vstd::prelude::*;

use crate::bits::{
    has_sq, popcount, popcount_u64, count_where, lemma_count_below_bound, lemma_count_below_where,
    lemma_count_where_none, lemma_count_where_all, lemma_count_below_subset, lemma_has_sq_and,
};
use crate::othello::{Game, Play, Player};
use crate::othello::laws::lemma_plays_are_valid;
use crate::agents::Agent;
use crate::rng::{choose_play, thread_rng};

verus! {

/// The four corner squares.
pub open spec fn corners_mask() -> u64 {
    0x8100000000000081u64
}

/// The edge squares other than the corners.
pub open spec fn edges_mask() -> u64 {
    0b01111110_10000001_10000001_10000001_10000001_10000001_10000001_01111110u64
}

/// The heuristic value of a position for Black (higher is better for Black):
/// a finished game scores a million per piece of difference, a tie zero, and
/// a game in progress weighs pieces, corners (10) and edges (2).
pub open spec fn spec_evaluate(g: Game) -> int {
    let b = popcount(g.black_pieces.0) as int;
    let w = popcount(g.white_pieces.0) as int;
    let state = g.spec_game_state();
    if state == Player::Black || state == Player::White {
        1_000_000 * (b - w)
    } else if state == Player::Tie {
        0
    } else {
        let bc = popcount(g.black_pieces.0 & corners_mask()) as int;
        let wc = popcount(g.white_pieces.0 & corners_mask()) as int;
        let be = popcount(g.black_pieces.0 & edges_mask()) as int;
        let we = popcount(g.white_pieces.0 & edges_mask()) as int;
        (b - w) + 10 * (bc - wc) + 2 * (be - we)
    }
}

/// No score reaches this far from zero.
pub open spec fn score_bound() -> int {
    64_000_000
}

/// Black keeps the larger value, White the smaller.
pub open spec fn pick(black: bool, a: int, b: int) -> int {
    if black {
        if a >= b {
            a
        } else {
            b
        }
    } else {
        if a <= b {
            a
        } else {
            b
        }
    }
}

/// The value of the position reached by `p`, searched one level shallower.
pub open spec fn child_value(g: Game, depth: nat, p: Play) -> int
    decreases depth, 0int, 0int,
{
    if depth == 0 {
        0
    } else {
        minimax_value(g.spec_make_play(p), (depth - 1) as nat)
    }
}

/// The minimax value of `g` searched `depth` moves deep: the heuristic at
/// depth zero and at the end of the game, otherwise the best value for the
/// side to move over all its moves.
pub open spec fn minimax_value(g: Game, depth: nat) -> int
    decreases depth, 2int, 0int,
{
    if depth == 0 || g.spec_game_state() != Player::InProgress {
        spec_evaluate(g)
    } else {
        best_value(g, depth, g.spec_plays().len() as int)
    }
}

/// The best value for the side to move over its first `n` moves.
pub open spec fn best_value(g: Game, depth: nat, n: int) -> int
    decreases depth, 1int, n,
{
    if depth == 0 || n <= 0 {
        0
    } else if n == 1 {
        child_value(g, depth, g.spec_plays()[0])
    } else {
        pick(
            g.black_to_move(),
            best_value(g, depth, n - 1),
            child_value(g, depth, g.spec_plays()[n - 1]),
        )
    }
}

/// The first move at or after index `i` whose value is `v`.
pub open spec fn first_with_value(g: Game, depth: nat, v: int, i: int) -> int
    decreases g.spec_plays().len() - i,
{
    if i < 0 || i >= g.spec_plays().len() {
        g.spec_plays().len() as int
    } else if child_value(g, depth, g.spec_plays()[i]) == v {
        i
    } else {
        first_with_value(g, depth, v, i + 1)
    }
}

/// The move minimax picks: the first of the moves that reach the minimax
/// value, or `Play(0)` where nothing is searched.
pub open spec fn minimax_play(g: Game, depth: nat) -> Play {
    if depth == 0 || g.spec_game_state() != Player::InProgress {
        Play(0)
    } else {
        g.spec_plays()[first_with_value(g, depth, minimax_value(g, depth), 0)]
    }
}

/// The best of the first `n` moves is at least (Black) or at most (White)
/// each of them.
proof fn lemma_best_value_bounds(g: Game, depth: nat, n: int, j: int)
    requires
        depth > 0,
        0 <= j < n,
    ensures
        g.black_to_move() ==> best_value(g, depth, n) >= child_value(g, depth, g.spec_plays()[j]),
        !g.black_to_move() ==> best_value(g, depth, n) <= child_value(g, depth, g.spec_plays()[j]),
    decreases n,
{
    if n > 1 && j < n - 1 {
        lemma_best_value_bounds(g, depth, n - 1, j);
    }
}

/// The best of the first `n` moves is the value of one of them.
proof fn lemma_best_value_attained(g: Game, depth: nat, n: int) -> (j: int)
    requires
        depth > 0,
        1 <= n <= g.spec_plays().len(),
    ensures
        0 <= j < n,
        best_value(g, depth, n) == child_value(g, depth, g.spec_plays()[j]),
    decreases n,
{
    if n == 1 {
        0
    } else {
        let j = lemma_best_value_attained(g, depth, n - 1);
        if best_value(g, depth, n) == best_value(g, depth, n - 1) {
            j
        } else {
            n - 1
        }
    }
}

/// The first index of a value comes no later than any index holding it.
proof fn lemma_first_with_value_upto(g: Game, depth: nat, v: int, i: int, k: int)
    requires
        0 <= i <= k < g.spec_plays().len(),
        child_value(g, depth, g.spec_plays()[k]) == v,
    ensures
        i <= first_with_value(g, depth, v, i) <= k,
    decreases k - i,
{
    if i < k && child_value(g, depth, g.spec_plays()[i]) != v {
        lemma_first_with_value_upto(g, depth, v, i + 1, k);
    }
}

/// Where minimax searches, the move it picks is one of the position's moves.
pub proof fn lemma_minimax_play_is_a_move(g: Game, depth: nat)
    requires
        depth > 0,
        g.spec_game_state() == Player::InProgress,
    ensures
        g.spec_plays().contains(minimax_play(g, depth)),
{
    lemma_plays_are_valid(g);
    let n = g.spec_plays().len() as int;
    let j = lemma_best_value_attained(g, depth, n);
    lemma_first_with_value_upto(g, depth, minimax_value(g, depth), 0, j);
}

/// The first index of a value, when every earlier move has another value.
proof fn lemma_first_with_value(g: Game, depth: nat, v: int, i: int, k: int)
    requires
        0 <= i <= k < g.spec_plays().len(),
        child_value(g, depth, g.spec_plays()[k]) == v,
        forall|j: int| i <= j < k ==> child_value(g, depth, #[trigger] g.spec_plays()[j]) != v,
    ensures
        first_with_value(g, depth, v, i) == k,
    decreases k - i,
{
    if i < k {
        lemma_first_with_value(g, depth, v, i + 1, k);
    }
}

proof fn lemma_evaluate_bound(g: Game)
    ensures
        -score_bound() <= spec_evaluate(g) <= score_bound(),
{
    lemma_count_below_bound(g.black_pieces.0, 64);
    lemma_count_below_bound(g.white_pieces.0, 64);
    lemma_count_below_bound(g.black_pieces.0 & corners_mask(), 64);
    lemma_count_below_bound(g.white_pieces.0 & corners_mask(), 64);
    lemma_count_below_bound(g.black_pieces.0 & edges_mask(), 64);
    lemma_count_below_bound(g.white_pieces.0 & edges_mask(), 64);
}

/// Scores a position for Black (see `spec_evaluate`).
pub fn evaluate_game(game: &Game) -> (r: i32)
    ensures
        r == spec_evaluate(*game),
{
    let state = game.game_state();
    if state == Player::Black || state == Player::White {
        let black_count = popcount_u64(game.black_pieces.0) as i32;
        let white_count = popcount_u64(game.white_pieces.0) as i32;
        1_000_000 * (black_count - white_count)
    } else if state == Player::Tie {
        0
    } else {
        let black_count = popcount_u64(game.black_pieces.0) as i32;
        let white_count = popcount_u64(game.white_pieces.0) as i32;
        // Count corners and edges for better evaluation
        let corners = 0x8100000000000081u64;
        let edges = 0b01111110_10000001_10000001_10000001_10000001_10000001_10000001_01111110u64;
        let black_corners = popcount_u64(game.black_pieces.0 & corners) as i32;
        let white_corners = popcount_u64(game.white_pieces.0 & corners) as i32;
        let black_edges = popcount_u64(game.black_pieces.0 & edges) as i32;
        let white_edges = popcount_u64(game.white_pieces.0 & edges) as i32;
        (black_count - white_count) + 10 * (black_corners - white_corners) + 2 * (black_edges
            - white_edges)
    }
}

/// Alpha-beta search (fail-soft). A score strictly inside the window
/// `(alpha, beta)` is the exact minimax value, with the move minimax picks;
/// a score at or below `alpha` bounds the value from above, and a score at
/// or above `beta` bounds it from below.
fn alphabeta(game: Game, depth: u32, alpha: i32, beta: i32) -> (r: (Play, i32))
    requires
        alpha < beta,
    ensures
        -score_bound() <= r.1 <= score_bound(),
        r.1 <= alpha ==> minimax_value(game, depth as nat) <= r.1,
        r.1 >= beta ==> minimax_value(game, depth as nat) >= r.1,
        alpha < r.1 < beta ==> r.1 == minimax_value(game, depth as nat) && r.0 == minimax_play(
            game,
            depth as nat,
        ),
        (depth == 0 || game.spec_game_state() != Player::InProgress) ==> r.0 == Play(0) && r.1
            == spec_evaluate(game),
    decreases depth,
{
    if depth == 0 || game.game_state() != Player::InProgress {
        let score = evaluate_game(&game);
        proof {
            lemma_evaluate_bound(game);
        }
        return (Play(0), score);
    }
    let ghost d = depth as nat;
    let plays = game.generate_plays();
    proof {
        lemma_plays_are_valid(game);
    }
    let mut best_play = Play(0);
    let mut best_score: i32;
    let ghost mut best_k: int = 0;
    if game.player_to_move == Player::Black {
        best_score = i32::MIN;
        let mut a = alpha;
        let mut i: usize = 0;
        while i < plays.len()
            invariant
                plays@ == game.spec_plays(),
                plays.len() >= 1,
                d == depth,
                depth > 0,
                game.black_to_move(),
                game.spec_game_state() == Player::InProgress,
                alpha < beta,
                i <= plays.len(),
                a == (if alpha >= best_score { alpha } else { best_score }),
                a < beta,
                i == 0 ==> best_score == i32::MIN,
                i > 0 ==> -score_bound() <= best_score <= score_bound(),
                i > 0 ==> best_value(game, d, i as int) <= best_score,
                best_score > alpha ==> {
                    &&& i > 0
                    &&& best_value(game, d, i as int) == best_score
                    &&& 0 <= best_k < i
                    &&& best_play == plays@[best_k]
                    &&& child_value(game, d, plays@[best_k]) == best_score
                    &&& forall|j: int|
                        0 <= j < best_k ==> child_value(game, d, #[trigger] plays@[j]) < best_score
                },
            decreases plays.len() - i,
        {
            let play = plays[i];
            let mut next_game = game;
            next_game.make_play(play);
            let (_child_play, score) = alphabeta(next_game, depth - 1, a, beta);
            let ghost old_best = best_score;
            if score > best_score {
                best_score = score;
                best_play = play;
                proof {
                    best_k = i as int;
                }
            }
            proof {
                assert(child_value(game, d, plays@[i as int]) == minimax_value(
                    next_game,
                    (depth - 1) as nat,
                ));
                if score > old_best {
                    assert forall|j: int| 0 <= j < i implies child_value(
                        game,
                        d,
                        #[trigger] plays@[j],
                    ) < best_score by {
                        lemma_best_value_bounds(game, d, i as int, j);
                    }
                }
            }
            a = if a >= best_score { a } else { best_score };
            if beta <= a {
                proof {
                    lemma_best_value_bounds(game, d, plays.len() as int, i as int);
                }
                return (best_play, best_score);
            }
            i = i + 1;
        }
        proof {
            if alpha < best_score < beta {
                lemma_first_with_value(game, d, best_score as int, 0, best_k);
            }
        }
    } else {
        best_score = i32::MAX;
        let mut b = beta;
        let mut i: usize = 0;
        while i < plays.len()
            invariant
                plays@ == game.spec_plays(),
                plays.len() >= 1,
                d == depth,
                depth > 0,
                !game.black_to_move(),
                game.spec_game_state() == Player::InProgress,
                alpha < beta,
                i <= plays.len(),
                b == (if beta <= best_score { beta } else { best_score }),
                alpha < b,
                i == 0 ==> best_score == i32::MAX,
                i > 0 ==> -score_bound() <= best_score <= score_bound(),
                i > 0 ==> best_value(game, d, i as int) >= best_score,
                best_score < beta ==> {
                    &&& i > 0
                    &&& best_value(game, d, i as int) == best_score
                    &&& 0 <= best_k < i
                    &&& best_play == plays@[best_k]
                    &&& child_value(game, d, plays@[best_k]) == best_score
                    &&& forall|j: int|
                        0 <= j < best_k ==> child_value(game, d, #[trigger] plays@[j]) > best_score
                },
            decreases plays.len() - i,
        {
            let play = plays[i];
            let mut next_game = game;
            next_game.make_play(play);
            let (_child_play, score) = alphabeta(next_game, depth - 1, alpha, b);
            let ghost old_best = best_score;
            if score < best_score {
                best_score = score;
                best_play = play;
                proof {
                    best_k = i as int;
                }
            }
            proof {
                assert(child_value(game, d, plays@[i as int]) == minimax_value(
                    next_game,
                    (depth - 1) as nat,
                ));
                if score < old_best {
                    assert forall|j: int| 0 <= j < i implies child_value(
                        game,
                        d,
                        #[trigger] plays@[j],
                    ) > best_score by {
                        lemma_best_value_bounds(game, d, i as int, j);
                    }
                }
            }
            b = if b <= best_score { b } else { best_score };
            if b <= alpha {
                proof {
                    lemma_best_value_bounds(game, d, plays.len() as int, i as int);
                }
                return (best_play, best_score);
            }
            i = i + 1;
        }
        proof {
            if alpha < best_score < beta {
                lemma_first_with_value(game, d, best_score as int, 0, best_k);
            }
        }
    }
    (best_play, best_score)
}

/// Runs minimax with alpha-beta pruning to `depth` moves: returns the move
/// minimax picks and the exact minimax value of the position.
pub fn minimax(game: Game, depth: u32) -> (r: (Play, i32))
    ensures
        r.1 == minimax_value(game, depth as nat),
        r.0 == minimax_play(game, depth as nat),
        -score_bound() <= r.1 <= score_bound(),
{
    alphabeta(game, depth, i32::MIN, i32::MAX)
}

#[derive(Clone, Copy)]
pub struct MinimaxAgent {
    pub max_depth: u32,
}

/// Minimax looks ahead: a positive depth in a game still in progress.
pub open spec fn searched(g: Game, depth: nat) -> bool {
    depth > 0 && g.spec_game_state() == Player::InProgress
}

/// Fewer than eight pieces on the board: the opening, where the agent plays at random.
pub open spec fn in_opening(g: Game) -> bool {
    popcount(g.black_pieces.0) + popcount(g.white_pieces.0) < 8
}

impl Agent for MinimaxAgent {
    fn best_move(&self, game: Game) -> (p: Play)
        ensures
            game.spec_plays().contains(p),
            !in_opening(game) && searched(game, self.max_depth as nat) ==> p == minimax_play(
                game,
                self.max_depth as nat,
            ),
            !in_opening(game) && !searched(game, self.max_depth as nat) ==> p == game.spec_plays()[0],
    {
        // If we have less than 8 pieces on the board, just pick a random move.
        // This is so that we don't get the same games over and over again since minimax is
        // deterministic.
        let black = popcount_u64(game.black_pieces.0);
        let white = popcount_u64(game.white_pieces.0);
        if black + white < 8 {
            let plays = game.generate_plays();
            let mut rng = thread_rng();
            proof {
                lemma_plays_are_valid(game);
            }
            choose_play(&plays, &mut rng).unwrap()
        } else if self.max_depth == 0 || game.game_state() != Player::InProgress {
            // No look-ahead: the first of the moves.
            let plays = game.generate_plays();
            proof {
                lemma_plays_are_valid(game);
            }
            plays[0]
        } else {
            proof {
                lemma_minimax_play_is_a_move(game, self.max_depth as nat);
            }
            minimax(game, self.max_depth).0
        }
    }

    fn best_move_with_time_budget(&self, game: Game, _time_budget_ms: u64) -> (p: Play)
        ensures
            game.spec_plays().contains(p),
            !in_opening(game) && searched(game, self.max_depth as nat) ==> p == minimax_play(
                game,
                self.max_depth as nat,
            ),
            !in_opening(game) && !searched(game, self.max_depth as nat) ==> p == game.spec_plays()[0],
    {
        // For simplicity, we ignore the time budget in this implementation.
        self.best_move(game)
    }
}

/// The position with the colours exchanged: each side's pieces go to the
/// other, and the other side is to move.
pub open spec fn swap_colours(g: Game) -> Game {
    Game {
        black_pieces: g.white_pieces,
        white_pieces: g.black_pieces,
        player_to_move: if g.player_to_move == Player::Black {
            Player::White
        } else if g.player_to_move == Player::White {
            Player::Black
        } else {
            g.player_to_move
        },
        previous_move: g.previous_move,
    }
}

/// An outcome with the colours exchanged.
pub open spec fn swap_outcome(p: Player) -> Player {
    if p == Player::Black {
        Player::White
    } else if p == Player::White {
        Player::Black
    } else {
        p
    }
}

pub open spec fn has_side_to_move(g: Game) -> bool {
    g.player_to_move == Player::Black || g.player_to_move == Player::White
}

/// Exchanging the colours keeps the moves and mirrors the outcome, the
/// evaluation and every move's result.
proof fn lemma_swap_basics(g: Game)
    requires
        has_side_to_move(g),
    ensures
        swap_colours(g).mover() == g.mover(),
        swap_colours(g).opponent() == g.opponent(),
        swap_colours(g).black_to_move() == !g.black_to_move(),
        has_side_to_move(swap_colours(g)),
        swap_colours(g).spec_plays() == g.spec_plays(),
        swap_colours(g).spec_game_state() == swap_outcome(g.spec_game_state()),
        spec_evaluate(swap_colours(g)) == -spec_evaluate(g),
        forall|p: Play| #[trigger] swap_colours(g).spec_make_play(p) == swap_colours(g.spec_make_play(p))
            && has_side_to_move(g.spec_make_play(p)),
{
}

/// The first index of a value stays where it is when all values are negated.
proof fn lemma_swap_first_with_value(g: Game, depth: nat, v: int, i: int)
    requires
        has_side_to_move(g),
        depth > 0,
        forall|j: int| 0 <= j < g.spec_plays().len() ==> child_value(swap_colours(g), depth, #[trigger] g.spec_plays()[j])
            == -child_value(g, depth, g.spec_plays()[j]),
    ensures
        first_with_value(swap_colours(g), depth, -v, i) == first_with_value(g, depth, v, i),
    decreases g.spec_plays().len() - i,
{
    lemma_swap_basics(g);
    if 0 <= i < g.spec_plays().len() {
        lemma_swap_first_with_value(g, depth, v, i + 1);
    }
}

/// The best value over the first `n` moves is negated by exchanging the colours.
proof fn lemma_swap_best_value(g: Game, depth: nat, n: int)
    requires
        has_side_to_move(g),
        depth > 0,
        n <= g.spec_plays().len(),
    ensures
        best_value(swap_colours(g), depth, n) == -best_value(g, depth, n),
        forall|j: int| 0 <= j < n ==> child_value(swap_colours(g), depth, #[trigger] g.spec_plays()[j])
            == -child_value(g, depth, g.spec_plays()[j]),
    decreases depth, 0int, n,
{
    lemma_swap_basics(g);
    if n >= 1 {
        lemma_swap_best_value(g, depth, n - 1);
        let p = g.spec_plays()[n - 1];
        let sg = swap_colours(g);
        lemma_minimax_colour_symmetry(g.spec_make_play(p), (depth - 1) as nat);
        assert(sg.spec_make_play(p) == swap_colours(g.spec_make_play(p)));
        assert(child_value(sg, depth, p) == -child_value(g, depth, p));
        assert(sg.spec_plays()[n - 1] == p);
        if n > 1 {
            assert(sg.spec_plays()[0] == g.spec_plays()[0]);
        }
    }
}

/// Minimax is colour-blind: exchanging the colours negates the minimax
/// value and keeps the move it picks.
pub proof fn lemma_minimax_colour_symmetry(g: Game, depth: nat)
    requires
        has_side_to_move(g),
    ensures
        minimax_value(swap_colours(g), depth) == -minimax_value(g, depth),
        minimax_play(swap_colours(g), depth) == minimax_play(g, depth),
    decreases depth, 1int, 0int,
{
    lemma_swap_basics(g);
    if depth > 0 && g.spec_game_state() == Player::InProgress {
        let n = g.spec_plays().len() as int;
        lemma_swap_best_value(g, depth, n);
        lemma_swap_first_with_value(g, depth, minimax_value(g, depth), 0);
    }
}

/// The corners: a1, h1, a8, h8.
pub open spec fn is_corner(t: int) -> bool {
    t == 0 || t == 7 || t == 56 || t == 63
}

/// The edge squares other than the corners.
pub open spec fn is_edge(t: int) -> bool {
    ||| 1 <= t <= 6
    ||| 57 <= t <= 62
    ||| (t % 8 == 0 && 8 <= t <= 48)
    ||| (t % 8 == 7 && 15 <= t <= 55)
}

proof fn corner_bit(k: u64)
    requires
        k < 64,
    ensures
        ((corners_mask() >> k) & 1u64 == 1u64) <==> (k == 0 || k == 7 || k == 56 || k == 63),
{
    assert(((0x8100000000000081u64 >> k) & 1u64 == 1u64) <==> (k == 0 || k == 7 || k == 56 || k
        == 63)) by (bit_vector)
        requires
            k < 64,
    ;
}

proof fn edge_bit(k: u64)
    requires
        k < 64,
    ensures
        ((edges_mask() >> k) & 1u64 == 1u64) <==> ((1 <= k && k <= 6) || (57 <= k && k <= 62) || (k
            % 8 == 0 && 8 <= k && k <= 48) || (k % 8 == 7 && 15 <= k && k <= 55)),
{
    assert(((0b01111110_10000001_10000001_10000001_10000001_10000001_10000001_01111110u64 >> k)
        & 1u64 == 1u64) <==> ((1 <= k && k <= 6) || (57 <= k && k <= 62) || (k % 8 == 0 && 8 <= k
        && k <= 48) || (k % 8 == 7 && 15 <= k && k <= 55))) by (bit_vector)
        requires
            k < 64,
    ;
}

/// There are four corners.
proof fn lemma_corner_count()
    ensures
        popcount(corners_mask()) == 4,
{
    let p = |t: int| is_corner(t);
    assert forall|t: int| 0 <= t < 64 implies has_sq(corners_mask(), t) == p(t) by {
        corner_bit(t as u64);
    }
    lemma_count_below_where(corners_mask(), p, 64);
    lemma_count_where_all(p, 0, 1);
    lemma_count_where_none(p, 1, 7);
    lemma_count_where_all(p, 7, 8);
    lemma_count_where_none(p, 8, 56);
    lemma_count_where_all(p, 56, 57);
    lemma_count_where_none(p, 57, 63);
    lemma_count_where_all(p, 63, 64);
}

proof fn lemma_edge_rows(k: int)
    requires
        1 <= k <= 7,
    ensures
        count_where(|t: int| is_edge(t), 8 * k) == 6 + 2 * (k - 1),
    decreases k,
{
    let p = |t: int| is_edge(t);
    if k == 1 {
        lemma_count_where_none(p, 0, 1);
        lemma_count_where_all(p, 1, 7);
        lemma_count_where_none(p, 7, 8);
    } else {
        let r = k - 1;
        lemma_edge_rows(r);
        lemma_count_where_all(p, 8 * r, 8 * r + 1);
        lemma_count_where_none(p, 8 * r + 1, 8 * r + 7);
        lemma_count_where_all(p, 8 * r + 7, 8 * r + 8);
    }
}

/// There are twenty-four edge squares besides the corners.
proof fn lemma_edge_count()
    ensures
        popcount(edges_mask()) == 24,
{
    let p = |t: int| is_edge(t);
    assert forall|t: int| 0 <= t < 64 implies has_sq(edges_mask(), t) == p(t) by {
        edge_bit(t as u64);
    }
    lemma_count_below_where(edges_mask(), p, 64);
    lemma_edge_rows(7);
    lemma_count_where_none(p, 56, 57);
    lemma_count_where_all(p, 57, 63);
    lemma_count_where_none(p, 63, 64);
}

/// Squares of `x` within `mask` count no more than the mask.
proof fn lemma_masked_count(x: u64, mask: u64)
    ensures
        popcount(x & mask) <= popcount(mask),
{
    lemma_has_sq_and(x, mask);
    lemma_count_below_subset(x & mask, mask, 64);
}

/// A finished game outranks every game in progress: a win scores at least a
/// million for the winner, a tie zero, and a game in progress at most 152
/// either way (64 for the pieces, 10 per corner, 2 per edge square).
pub proof fn lemma_evaluate_ranks_outcomes(g: Game)
    ensures
        g.spec_game_state() == Player::Black ==> spec_evaluate(g) >= 1_000_000,
        g.spec_game_state() == Player::White ==> spec_evaluate(g) <= -1_000_000,
        g.spec_game_state() == Player::Tie ==> spec_evaluate(g) == 0,
        g.spec_game_state() == Player::InProgress ==> -152 <= spec_evaluate(g) <= 152,
{
    lemma_count_below_bound(g.black_pieces.0, 64);
    lemma_count_below_bound(g.white_pieces.0, 64);
    lemma_corner_count();
    lemma_edge_count();
    lemma_masked_count(g.black_pieces.0, corners_mask());
    lemma_masked_count(g.white_pieces.0, corners_mask());
    lemma_masked_count(g.black_pieces.0, edges_mask());
    lemma_masked_count(g.white_pieces.0, edges_mask());
}

/// The squares of `x` within a mask whose squares are those satisfying
/// `p` are counted by `p`.
proof fn lemma_masked_count_where(x: u64, mask: u64, p: spec_fn(int) -> bool)
    requires
        forall|t: int| 0 <= t < 64 ==> #[trigger] has_sq(mask, t) == p(t),
    ensures
        popcount(x & mask) == count_where(|t: int| has_sq(x, t) && p(t), 64),
{
    lemma_has_sq_and(x, mask);
    let q = |t: int| has_sq(x, t) && p(t);
    assert forall|t: int| 0 <= t < 64 implies #[trigger] has_sq(x & mask, t) == q(t) by {
        assert(has_sq(mask, t) == p(t));
    }
    lemma_count_below_where(x & mask, q, 64);
}

/// The score of a game in progress, square by square: each side's pieces
/// count one, its corners ten more and its other edge squares two more,
/// Black's for and White's against.
pub proof fn lemma_evaluate_in_progress(g: Game)
    requires
        g.spec_game_state() == Player::InProgress,
    ensures
        spec_evaluate(g) == (popcount(g.black_pieces.0) as int - popcount(g.white_pieces.0) as int)
            + 10 * (count_where(|t: int| has_sq(g.black_pieces.0, t) && is_corner(t), 64) as int
            - count_where(|t: int| has_sq(g.white_pieces.0, t) && is_corner(t), 64) as int) + 2 * (
        count_where(|t: int| has_sq(g.black_pieces.0, t) && is_edge(t), 64) as int - count_where(
            |t: int| has_sq(g.white_pieces.0, t) && is_edge(t),
            64,
        ) as int),
{
    let pc = |t: int| is_corner(t);
    let pe = |t: int| is_edge(t);
    assert forall|t: int| 0 <= t < 64 implies #[trigger] has_sq(corners_mask(), t) == pc(t) by {
        corner_bit(t as u64);
    }
    assert forall|t: int| 0 <= t < 64 implies #[trigger] has_sq(edges_mask(), t) == pe(t) by {
        edge_bit(t as u64);
    }
    lemma_masked_count_where(g.black_pieces.0, corners_mask(), pc);
    lemma_masked_count_where(g.white_pieces.0, corners_mask(), pc);
    lemma_masked_count_where(g.black_pieces.0, edges_mask(), pe);
    lemma_masked_count_where(g.white_pieces.0, edges_mask(), pe);
    assert((|t: int| has_sq(g.black_pieces.0, t) && pc(t)) =~= (|t: int| has_sq(g.black_pieces.0, t) && is_corner(t)));
    assert((|t: int| has_sq(g.white_pieces.0, t) && pc(t)) =~= (|t: int| has_sq(g.white_pieces.0, t) && is_corner(t)));
    assert((|t: int| has_sq(g.black_pieces.0, t) && pe(t)) =~= (|t: int| has_sq(g.black_pieces.0, t) && is_edge(t)));
    assert((|t: int| has_sq(g.white_pieces.0, t) && pe(t)) =~= (|t: int| has_sq(g.white_pieces.0, t) && is_edge(t)));
}

} // verus!
