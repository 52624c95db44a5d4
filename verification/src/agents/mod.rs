//! Game-playing agents, and matches between two of them.
pub mod mcts;
pub mod minimax;
pub mod random;

use vstd::prelude::*;

use crate::othello::{Game, Play, Player, initial_game};
use crate::othello::laws::{moves_left_bound, lemma_move_progress, play_line, valid_line};

verus! {

pub trait Agent {
    /// Returns the best move for the current player given the current game state.
    ///
    /// This method should always complete in some reasonable finite amount of time.
    /// By default it answers what `best_move_with_time_budget` answers with an unlimited budget.
    fn best_move(&self, game: Game) -> (p: Play)
        default_ensures
            call_ensures(Self::best_move_with_time_budget, (self, game, u64::MAX), p),
    {
        self.best_move_with_time_budget(game, u64::MAX)
    }

    /// Returns the best move for the current player given the current game state and a time budget in milliseconds.
    ///
    /// This method should always complete in less than `time_budget_ms` milliseconds.
    /// It can run for less time if it finds a good enough move before the time budget is exhausted.
    fn best_move_with_time_budget(&self, game: Game, time_budget_ms: u64) -> Play;
}

/// An agent answered a move that the rules do not allow.
#[derive(Debug, Clone, Copy, PartialEq, Eq, Structural)]
pub struct InvalidPlay {
    /// The move the agent answered.
    pub play: Play,
    /// The side it played for.
    pub player: Player,
    /// The position it was asked about.
    pub game: Game,
}

/// `p` is an answer `agent` may give to `best_move` on `game`.
pub open spec fn answer_of<A: Agent + ?Sized>(agent: &A, game: Game, p: Play) -> bool {
    call_ensures(A::best_move, (agent, game), p)
}

/// `p` is an answer `agent` may give to `best_move_with_time_budget` on
/// `game` with `time_budget_ms`.
pub open spec fn answer_within<A: Agent + ?Sized>(agent: &A, game: Game, time_budget_ms: u64, p: Play) -> bool {
    call_ensures(A::best_move_with_time_budget, (agent, game, time_budget_ms), p)
}

/// Every move of `line`, played from `start`, is an answer of `black` where
/// Black is to move and of `white` where White is (each given as what the
/// agent may answer on a position).
pub open spec fn answered_line(
    black: spec_fn(Game, Play) -> bool,
    white: spec_fn(Game, Play) -> bool,
    start: Game,
    line: Seq<Play>,
) -> bool
    decreases line.len(),
{
    if line.len() == 0 {
        true
    } else {
        let before = play_line(start, line.drop_last());
        &&& answered_line(black, white, start, line.drop_last())
        &&& if before.player_to_move == Player::Black {
            black(before, line.last())
        } else {
            white(before, line.last())
        }
    }
}

fn ask(agent: &Box<dyn Agent>, game: Game) -> (p: Play)
    ensures
        answer_of(&**agent, game, p),
{
    agent.best_move(game)
}

fn ask_within(agent: &Box<dyn Agent>, game: Game, time_budget_ms: u64) -> (p: Play)
    ensures
        answer_within(&**agent, game, time_budget_ms, p),
{
    agent.best_move_with_time_budget(game, time_budget_ms)
}

pub struct Matchup {
    pub agent_black: Box<dyn Agent>,
    pub agent_white: Box<dyn Agent>,
}

impl Matchup {
    /// A match with `agent_black` playing Black and `agent_white` playing White.
    pub fn new(agent_black: impl Agent + 'static, agent_white: impl Agent + 'static) -> (r: Self)
        ensures
            ({
                let b: Box<dyn Agent> = Box::new(agent_black);
                r.agent_black == b
            }),
            ({
                let w: Box<dyn Agent> = Box::new(agent_white);
                r.agent_white == w
            }),
    {
        Self { agent_black: Box::new(agent_black), agent_white: Box::new(agent_white) }
    }

    /// Plays a game between the two agents from the opening position and
    /// returns the winner; an agent's invalid move ends the match with an error.
    /// Black's agent answers for Black and White's agent for White.
    pub fn play(&mut self) -> (r: Result<Player, InvalidPlay>)
        ensures
            *final(self) == *old(self),
            r matches Ok(p) ==> p != Player::InProgress && exists|line: Seq<Play>|
                valid_line(initial_game(), line) && answered_line(
                    |g: Game, p: Play| answer_of(&*old(self).agent_black, g, p),
                    |g: Game, p: Play| answer_of(&*old(self).agent_white, g, p),
                    initial_game(),
                    line,
                ) && #[trigger] play_line(initial_game(), line).spec_game_state() == p,
            r matches Err(e) ==> !e.game.spec_is_valid_play(e.play) && e.player == e.game.player_to_move
                && e.game.spec_game_state() == Player::InProgress && (if e.player == Player::Black {
                answer_of(&*old(self).agent_black, e.game, e.play)
            } else {
                answer_of(&*old(self).agent_white, e.game, e.play)
            }) && exists|line: Seq<Play>|
                valid_line(initial_game(), line) && answered_line(
                    |g: Game, p: Play| answer_of(&*old(self).agent_black, g, p),
                    |g: Game, p: Play| answer_of(&*old(self).agent_white, g, p),
                    initial_game(),
                    line,
                ) && #[trigger] play_line(initial_game(), line) == e.game,
    {
        let mut game = Game::new();
        let ghost mut line: Seq<Play> = Seq::empty();
        while game.game_state() == Player::InProgress
            invariant
                *self == *old(self),
                valid_line(initial_game(), line),
                answered_line(
                    |g: Game, p: Play| answer_of(&*self.agent_black, g, p),
                    |g: Game, p: Play| answer_of(&*self.agent_white, g, p),
                    initial_game(),
                    line,
                ),
                game == play_line(initial_game(), line),
            decreases moves_left_bound(game),
        {
            let play = if game.player_to_move == Player::Black {
                ask(&self.agent_black, game)
            } else {
                ask(&self.agent_white, game)
            };
            if !game.is_valid_play(play) {
                return Err(InvalidPlay { play, player: game.player_to_move, game });
            }
            proof {
                lemma_move_progress(game, play);
                let next_line = line.push(play);
                assert(next_line.drop_last() =~= line);
                line = next_line;
            }
            game.make_play(play);
        }
        Ok(game.game_state())
    }

    /// Like `play`, asking each agent for its move within `time_budget_ms`.
    /// An answer that is not a valid move ends the match with an error: an
    /// invalid answer (such as a pass while a placement is legal) need not
    /// bring the game closer to its end, and the match must end.
    pub fn play_with_time_budget(&mut self, time_budget_ms: u64) -> (r: Result<Player, InvalidPlay>)
        ensures
            *final(self) == *old(self),
            r matches Ok(p) ==> p != Player::InProgress && exists|line: Seq<Play>|
                valid_line(initial_game(), line) && answered_line(
                    |g: Game, p: Play| answer_within(&*old(self).agent_black, g, time_budget_ms, p),
                    |g: Game, p: Play| answer_within(&*old(self).agent_white, g, time_budget_ms, p),
                    initial_game(),
                    line,
                ) && #[trigger] play_line(initial_game(), line).spec_game_state() == p,
            r matches Err(e) ==> !e.game.spec_is_valid_play(e.play) && e.player == e.game.player_to_move
                && e.game.spec_game_state() == Player::InProgress && (if e.player == Player::Black {
                answer_within(&*old(self).agent_black, e.game, time_budget_ms, e.play)
            } else {
                answer_within(&*old(self).agent_white, e.game, time_budget_ms, e.play)
            }) && exists|line: Seq<Play>|
                valid_line(initial_game(), line) && answered_line(
                    |g: Game, p: Play| answer_within(&*old(self).agent_black, g, time_budget_ms, p),
                    |g: Game, p: Play| answer_within(&*old(self).agent_white, g, time_budget_ms, p),
                    initial_game(),
                    line,
                ) && #[trigger] play_line(initial_game(), line) == e.game,
    {
        let mut game = Game::new();
        let ghost mut line: Seq<Play> = Seq::empty();
        while game.game_state() == Player::InProgress
            invariant
                *self == *old(self),
                valid_line(initial_game(), line),
                answered_line(
                    |g: Game, p: Play| answer_within(&*self.agent_black, g, time_budget_ms, p),
                    |g: Game, p: Play| answer_within(&*self.agent_white, g, time_budget_ms, p),
                    initial_game(),
                    line,
                ),
                game == play_line(initial_game(), line),
            decreases moves_left_bound(game),
        {
            let play = if game.player_to_move == Player::Black {
                ask_within(&self.agent_black, game, time_budget_ms)
            } else {
                ask_within(&self.agent_white, game, time_budget_ms)
            };
            if !game.is_valid_play(play) {
                return Err(InvalidPlay { play, player: game.player_to_move, game });
            }
            proof {
                lemma_move_progress(game, play);
                let next_line = line.push(play);
                assert(next_line.drop_last() =~= line);
                line = next_line;
            }
            game.make_play(play);
        }
        Ok(game.game_state())
    }
}

} // verus!
