//! Properties of the rules that span several operations.
use vstd::prelude::*;

use crate::bits::{
    has_sq, popcount, count_below, lemma_has_sq_or, lemma_has_sq_and, lemma_has_sq_not,
    lemma_has_sq_single, lemma_set_mask, lemma_count_below_split, lemma_count_below_remove,
    lemma_count_below_bound,
};
use super::play::Play;
use super::rules::{
    flip_mask, flipped, flips_in_dir, closes_at, captures_in_dir, legal, ray_on, ray_sq, plays_upto,
    lemma_plays_upto, lemma_any_legal_iff_plays,
};
use super::{Game, Player};

verus! {

/// Every square turned over belonged to the opponent.
pub proof fn lemma_flipped_was_opponent(m: u64, o: u64, s: int, t: int)
    requires
        flipped(m, o, s, t),
    ensures
        has_sq(o, t),
{
    let d = choose|d: int| 0 <= d < 8 && #[trigger] flips_in_dir(m, o, s / 8, s % 8, d, t);
    let (j, k) = choose|j: int, k: int|
        #![trigger closes_at(m, o, s / 8, s % 8, d, k), ray_sq(s / 8, s % 8, d, j)]
        1 <= j < k && closes_at(m, o, s / 8, s % 8, d, k) && t == ray_sq(s / 8, s % 8, d, j);
    assert(ray_on(s / 8, s % 8, d, j) && has_sq(o, ray_sq(s / 8, s % 8, d, j)));
}

/// The squares of the flip mask are exactly the flipped ones, all of them
/// the opponent's; a legal placement flips at least one.
pub proof fn lemma_flip_mask(m: u64, o: u64, s: int)
    ensures
        forall|t: int| #[trigger] has_sq(flip_mask(m, o, s), t) <==> (0 <= t < 64 && flipped(m, o, s, t)),
        forall|t: int| #[trigger] has_sq(flip_mask(m, o, s), t) ==> has_sq(o, t),
        legal(m, o, s) ==> exists|t: int| #[trigger] has_sq(flip_mask(m, o, s), t),
{
    let f = |t: int| flipped(m, o, s, t);
    lemma_set_mask(f, 64);
    assert forall|t: int| #[trigger] has_sq(flip_mask(m, o, s), t) implies has_sq(o, t) by {
        lemma_flipped_was_opponent(m, o, s, t);
    }
    if legal(m, o, s) {
        let d = choose|d: int| 0 <= d < 8 && #[trigger] captures_in_dir(m, o, s / 8, s % 8, d);
        let k = choose|k: int| #[trigger] closes_at(m, o, s / 8, s % 8, d, k);
        let t = ray_sq(s / 8, s % 8, d, 1);
        assert(ray_on(s / 8, s % 8, d, 1));
        assert(flips_in_dir(m, o, s / 8, s % 8, d, t));
        assert(flipped(m, o, s, t));
        assert(has_sq(flip_mask(m, o, s), t));
    }
}

/// A set square makes the count positive.
proof fn lemma_count_positive(x: u64, t: int)
    requires
        has_sq(x, t),
    ensures
        popcount(x) >= 1,
{
    let y = x & !(1u64 << (t as u64));
    lemma_has_sq_and(x, !(1u64 << (t as u64)));
    lemma_has_sq_not(1u64 << (t as u64));
    lemma_has_sq_single(t as u64);
    lemma_count_below_remove(x, y, t, 64);
}

/// The moves handed out are exactly the valid ones, and there is always one.
pub proof fn lemma_plays_are_valid(g: Game)
    ensures
        g.spec_plays().len() >= 1,
        forall|i: int| 0 <= i < g.spec_plays().len() ==> g.spec_is_valid_play(#[trigger] g.spec_plays()[i]),
        forall|p: Play| g.spec_is_valid_play(p) ==> #[trigger] g.spec_plays().contains(p),
{
    let m = g.mover();
    let o = g.opponent();
    lemma_plays_upto(m, o, 64);
    lemma_any_legal_iff_plays(m, o);
    let q = plays_upto(m, o, 64);
    assert forall|p: Play| g.spec_is_valid_play(p) implies #[trigger] g.spec_plays().contains(p) by {
        if p.0 == 64 {
            assert(g.spec_plays()[0] == p);
        } else {
            assert(legal(m, o, p.0 as int));
            assert(q.contains(Play(p.0 as int as u8)));
        }
    }
    assert forall|i: int| 0 <= i < g.spec_plays().len() implies g.spec_is_valid_play(
        #[trigger] g.spec_plays()[i],
    ) by {
        if q.len() > 0 {
            assert(legal(m, o, q[i].0 as int));
        }
    }
}

/// The board after a placement at `s`: the mover gains `s` and the flipped
/// squares, the opponent loses the flipped squares.
pub proof fn lemma_placement_squares(g: Game, play: Play)
    requires
        play.0 < 64,
    ensures
        ({
            let n = g.spec_make_play(play);
            let f = flip_mask(g.mover(), g.opponent(), play.0 as int);
            &&& n.opponent() == g.mover() | f | (1u64 << play.0)
            &&& n.mover() == g.opponent() & !f
            &&& forall|t: int| #[trigger] has_sq(n.opponent(), t)
                <==> (has_sq(g.mover(), t) || t == play.0 || has_sq(f, t))
            &&& forall|t: int| #[trigger] has_sq(n.mover(), t) <==> (has_sq(g.opponent(), t) && !has_sq(f, t))
        }),
{
    let m = g.mover();
    let o = g.opponent();
    let f = flip_mask(m, o, play.0 as int);
    lemma_has_sq_or(m, f);
    lemma_has_sq_or(m | f, 1u64 << play.0);
    lemma_has_sq_single(play.0 as u64);
    lemma_has_sq_and(o, !f);
    lemma_has_sq_not(f);
}

/// A valid move keeps the position well formed.
pub proof fn lemma_make_play_wf(g: Game, play: Play)
    requires
        g.wf(),
        g.spec_is_valid_play(play),
    ensures
        g.spec_make_play(play).wf(),
{
    if play.0 < 64 {
        lemma_placement_squares(g, play);
        lemma_flip_mask(g.mover(), g.opponent(), play.0 as int);
        let n = g.spec_make_play(play);
        assert forall|s: int| !(#[trigger] has_sq(n.black_pieces.0, s) && has_sq(n.white_pieces.0, s)) by {
            assert(!(has_sq(g.black_pieces.0, s) && has_sq(g.white_pieces.0, s)));
            assert(has_sq(n.opponent(), s) == (has_sq(g.mover(), s) || s == play.0 || has_sq(flip_mask(g.mover(), g.opponent(), play.0 as int), s)));
        }
    }
}

/// Piece counts after a legal placement: the mover gains the placed piece
/// and every flipped one, the opponent loses the flipped ones, and at least
/// one piece is flipped.
pub proof fn lemma_make_play_counts(g: Game, play: Play)
    requires
        g.wf(),
        play.0 < 64,
        g.spec_is_valid_play(play),
    ensures
        ({
            let n = g.spec_make_play(play);
            let f = flip_mask(g.mover(), g.opponent(), play.0 as int);
            &&& popcount(f) >= 1
            &&& popcount(n.opponent()) == popcount(g.mover()) + 1 + popcount(f)
            &&& popcount(n.mover()) + popcount(f) == popcount(g.opponent())
            &&& popcount(n.black_pieces.0) + popcount(n.white_pieces.0)
                == popcount(g.black_pieces.0) + popcount(g.white_pieces.0) + 1
        }),
{
    let m = g.mover();
    let o = g.opponent();
    let s = play.0 as int;
    let f = flip_mask(m, o, s);
    let n = g.spec_make_play(play);
    lemma_placement_squares(g, play);
    lemma_flip_mask(m, o, s);
    let t = choose|t: int| #[trigger] has_sq(f, t);
    lemma_count_positive(f, t);
    lemma_has_sq_or(m, f);
    lemma_has_sq_single(play.0 as u64);
    assert forall|t: int| 0 <= t < 64 implies !(has_sq(m, t) && has_sq(f, t)) by {
        assert(!(has_sq(g.black_pieces.0, t) && has_sq(g.white_pieces.0, t)));
    }
    lemma_count_below_split(m, f, m | f, 64);
    assert(legal(m, o, s));
    assert forall|t: int| 0 <= t < 64 implies !(has_sq(m | f, t) && has_sq(1u64 << play.0, t)) by {
        if t == s {
            assert(!has_sq(o, s));
        }
    }
    lemma_count_below_split(m | f, 1u64 << play.0, n.opponent(), 64);
    lemma_count_single(play.0 as u64);
    lemma_count_below_split(n.mover(), f, o, 64);
}

/// A board with one square counts one.
proof fn lemma_count_single(j: u64)
    requires
        j < 64,
    ensures
        popcount(1u64 << j) == 1,
{
    lemma_has_sq_single(j);
    crate::bits::lemma_has_sq_zero();
    crate::bits::lemma_count_below_zero(64);
    lemma_count_below_remove(1u64 << j, 0u64, j as int, 64);
}

/// The opening position is well formed, Black has a move (d3), the game is
/// in progress and each side has two pieces.
pub proof fn lemma_initial_position()
    ensures
        ({
            let g = super::initial_game();
            &&& g.wf()
            &&& legal(g.mover(), g.opponent(), 19)
            &&& g.can_move()
            &&& g.spec_game_state() == Player::InProgress
            &&& popcount(g.black_pieces.0) == 2
            &&& popcount(g.white_pieces.0) == 2
        }),
{
    let g = super::initial_game();
    lemma_initial_position_of(g);
}

proof fn lemma_initial_position_of(g: Game)
    requires
        g == super::initial_game(),
    ensures
        g.wf(),
        legal(g.mover(), g.opponent(), 19),
        g.can_move(),
        g.spec_game_state() == Player::InProgress,
        popcount(g.black_pieces.0) == 2,
        popcount(g.white_pieces.0) == 2,
{
    let b = g.black_pieces.0;
    let w = g.white_pieces.0;
    lemma_has_sq_single(28);
    lemma_has_sq_single(35);
    lemma_has_sq_single(27);
    lemma_has_sq_single(36);
    lemma_has_sq_or(1u64 << 28u64, 1u64 << 35u64);
    lemma_has_sq_or(1u64 << 27u64, 1u64 << 36u64);
    assert(closes_at(b, w, 2, 3, 6, 2));
    assert(captures_in_dir(b, w, 19int / 8, 19int % 8, 6));
    assert(legal(b, w, 19));
    lemma_count_single(28);
    lemma_count_single(35);
    lemma_count_single(27);
    lemma_count_single(36);
    lemma_count_below_split(1u64 << 28u64, 1u64 << 35u64, b, 64);
    lemma_count_below_split(1u64 << 27u64, 1u64 << 36u64, w, 64);
}

/// The position reached from `g` by playing `line` in order.
pub open spec fn play_line(g: Game, line: Seq<Play>) -> Game
    decreases line.len(),
{
    if line.len() == 0 {
        g
    } else {
        play_line(g, line.drop_last()).spec_make_play(line.last())
    }
}

/// Every move of `line` is valid where it is played, in a game still in progress.
pub open spec fn valid_line(g: Game, line: Seq<Play>) -> bool
    decreases line.len(),
{
    if line.len() == 0 {
        true
    } else {
        let before = play_line(g, line.drop_last());
        &&& valid_line(g, line.drop_last())
        &&& before.spec_game_state() == Player::InProgress
        &&& before.spec_is_valid_play(line.last())
    }
}

/// An upper bound on the moves left: two per empty square, plus one while
/// the side to move must pass.
pub open spec fn moves_left_bound(g: Game) -> nat {
    2 * popcount(!(g.black_pieces.0 | g.white_pieces.0)) + if g.can_move() {
        0nat
    } else {
        1nat
    }
}

/// Every valid move in a game in progress lowers the bound: games end.
pub proof fn lemma_move_progress(g: Game, play: Play)
    requires
        g.spec_game_state() == Player::InProgress,
        g.spec_is_valid_play(play),
    ensures
        moves_left_bound(g.spec_make_play(play)) < moves_left_bound(g),
{
    let n = g.spec_make_play(play);
    let ub = g.black_pieces.0 | g.white_pieces.0;
    let nb = n.black_pieces.0 | n.white_pieces.0;
    if play.0 < 64 {
        let s = play.0 as int;
        lemma_placement_squares(g, play);
        lemma_flip_mask(g.mover(), g.opponent(), s);
        lemma_has_sq_or(g.black_pieces.0, g.white_pieces.0);
        lemma_has_sq_or(n.black_pieces.0, n.white_pieces.0);
        lemma_has_sq_not(ub);
        lemma_has_sq_not(nb);
        assert forall|t: int| 0 <= t < 64 implies has_sq(!nb, t) == (has_sq(!ub, t) && t != s) by {
            assert(has_sq(nb, t) == (has_sq(ub, t) || t == s));
        }
        lemma_count_below_remove(!ub, !nb, s, 64);
    } else {
        lemma_count_below_bound(!ub, 64);
        assert(n.mover() == g.opponent());
        assert(n.opponent() == g.mover());
    }
}

/// The game goes on exactly while some square is a legal placement for one
/// side or the other; once neither side can place a piece, the side with
/// more pieces has won, and equal counts are a tie.
pub proof fn lemma_game_state_outcome(g: Game)
    ensures
        (g.spec_game_state() == Player::InProgress) <==> exists|s: int|
            legal(g.mover(), g.opponent(), s) || legal(g.opponent(), g.mover(), s),
        (g.spec_game_state() == Player::Black) <==> (!(exists|s: int|
            legal(g.mover(), g.opponent(), s) || legal(g.opponent(), g.mover(), s)) && popcount(
            g.black_pieces.0,
        ) > popcount(g.white_pieces.0)),
        (g.spec_game_state() == Player::White) <==> (!(exists|s: int|
            legal(g.mover(), g.opponent(), s) || legal(g.opponent(), g.mover(), s)) && popcount(
            g.black_pieces.0,
        ) < popcount(g.white_pieces.0)),
        (g.spec_game_state() == Player::Tie) <==> (!(exists|s: int|
            legal(g.mover(), g.opponent(), s) || legal(g.opponent(), g.mover(), s)) && popcount(
            g.black_pieces.0,
        ) == popcount(g.white_pieces.0)),
{
    let m = g.mover();
    let o = g.opponent();
    if exists|s: int| legal(m, o, s) || legal(o, m, s) {
        let s = choose|s: int| legal(m, o, s) || legal(o, m, s);
        if legal(m, o, s) {
            assert(crate::othello::rules::any_legal(m, o));
        } else {
            assert(crate::othello::rules::any_legal(o, m));
        }
    }
    if crate::othello::rules::any_legal(m, o) {
        let s = choose|s: int| #[trigger] legal(m, o, s);
        assert(legal(m, o, s) || legal(o, m, s));
    }
    if crate::othello::rules::any_legal(o, m) {
        let s = choose|s: int| #[trigger] legal(o, m, s);
        assert(legal(m, o, s) || legal(o, m, s));
    }
}

} // verus!
