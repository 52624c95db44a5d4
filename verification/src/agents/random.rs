//! An agent that plays a random valid move.
use vstd::prelude::*;

use crate::agents::Agent;
use crate::othello::{Game, Play};
use crate::othello::laws::lemma_plays_are_valid;
use crate::rng::{choose_play, thread_rng};

verus! {

#[derive(Clone, Copy)]
pub struct RandomAgent;

impl Agent for RandomAgent {
    fn best_move_with_time_budget(&self, game: Game, _time_budget_ms: u64) -> (p: Play)
        ensures
            game.spec_plays().contains(p),
            game.spec_is_valid_play(p),
    {
        let plays = game.generate_plays();
        let mut rng = thread_rng();
        proof {
            lemma_plays_are_valid(game);
        }
        let p = choose_play(&plays, &mut rng).unwrap();
        proof {
            let i = choose|i: int| 0 <= i < plays@.len() && plays@[i] == p;
            assert(game.spec_is_valid_play(game.spec_plays()[i]));
        }
        p
    }
}

} // verus!
