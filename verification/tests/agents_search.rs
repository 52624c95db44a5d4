use othello::agents::mcts::{iterations_continue, search_continues, Mcts, Node};
use othello::agents::minimax::{evaluate_game, minimax, MinimaxAgent};
use othello::agents::random::RandomAgent;
use othello::agents::{Agent, Matchup};
use othello::othello::{Bitboard, Game, Play, Player};

fn sq(row: u8, col: u8) -> u64 {
    1u64 << (row * 8 + col)
}

/// Plain minimax without pruning, to check the pruned search against.
fn plain_minimax(game: Game, depth: u32) -> i32 {
    if depth == 0 || game.game_state() != Player::InProgress {
        return evaluate_game(&game);
    }
    let plays = game.generate_plays();
    let values = plays.iter().map(|p| {
        let mut g = game;
        g.make_play(*p);
        plain_minimax(g, depth - 1)
    });
    if game.player_to_move == Player::Black {
        values.max().unwrap()
    } else {
        values.min().unwrap()
    }
}

fn first_best_play(game: Game, depth: u32) -> Play {
    let target = plain_minimax(game, depth);
    for p in game.generate_plays() {
        let mut g = game;
        g.make_play(p);
        if plain_minimax(g, depth - 1) == target {
            return p;
        }
    }
    unreachable!()
}

#[test]
fn evaluate_game_formula() {
    let start = Game::new();
    assert_eq!(evaluate_game(&start), 0);
    let mut g = start;
    g.make_play(Play(19));
    // 4 black, 1 white, no corners or edges
    assert_eq!(evaluate_game(&g), 3);
    // In progress with corners and edges: black a1 (corner) and b1 (edge), white c1 (edge).
    let g = Game {
        black_pieces: Bitboard(sq(0, 0) | sq(0, 1)),
        white_pieces: Bitboard(sq(0, 2) | sq(3, 3)),
        player_to_move: Player::White,
        previous_move: Play(64),
    };
    assert_eq!(g.game_state(), Player::InProgress);
    // pieces 2-2, corners 1-0, edges (b1 vs c1) 1-1
    assert_eq!(evaluate_game(&g), 10);
}

#[test]
fn evaluate_finished_games() {
    let won = Game {
        black_pieces: Bitboard(sq(0, 0) | sq(7, 7)),
        white_pieces: Bitboard(0),
        player_to_move: Player::Black,
        previous_move: Play(64),
    };
    assert_eq!(won.game_state(), Player::Black);
    assert_eq!(evaluate_game(&won), 2_000_000);
    let lost = Game {
        black_pieces: Bitboard(0),
        white_pieces: Bitboard(sq(4, 4)),
        player_to_move: Player::Black,
        previous_move: Play(64),
    };
    assert_eq!(evaluate_game(&lost), -1_000_000);
    let tie = Game {
        black_pieces: Bitboard(sq(0, 0)),
        white_pieces: Bitboard(sq(7, 7)),
        player_to_move: Player::Black,
        previous_move: Play(64),
    };
    assert_eq!(evaluate_game(&tie), 0);
}

#[test]
fn minimax_depth_zero_and_one() {
    let g = Game::new();
    assert_eq!(minimax(g, 0), (Play(0), 0));
    assert_eq!(minimax(g, 1), (Play(19), 3));
}

#[test]
fn minimax_agrees_with_plain_minimax() {
    let mut g = Game::new();
    for depth in 1..=4 {
        let (play, score) = minimax(g, depth);
        assert_eq!(score, plain_minimax(g, depth));
        assert_eq!(play, first_best_play(g, depth));
    }
    g.make_play(Play(19));
    g.make_play(Play(18));
    for depth in 1..=4 {
        let (play, score) = minimax(g, depth);
        assert_eq!(score, plain_minimax(g, depth));
        assert_eq!(play, first_best_play(g, depth));
    }
}

#[test]
fn minimax_on_finished_game() {
    let won = Game {
        black_pieces: Bitboard(sq(0, 0)),
        white_pieces: Bitboard(0),
        player_to_move: Player::White,
        previous_move: Play(64),
    };
    assert_eq!(minimax(won, 5), (Play(0), 1_000_000));
}

#[test]
fn random_agent_plays_valid_moves() {
    let agent = RandomAgent;
    let g = Game::new();
    for _ in 0..20 {
        let p = agent.best_move(g);
        assert!(g.is_valid_play(p));
        let q = agent.best_move_with_time_budget(g, 5);
        assert!(g.generate_plays().contains(&q));
    }
}

#[test]
fn minimax_agent_random_in_opening_then_minimax() {
    let agent = MinimaxAgent { max_depth: 3 };
    let g = Game::new();
    assert!(g.is_valid_play(agent.best_move(g)));
    let mut h = g;
    for _ in 0..4 {
        let p = h.generate_plays()[0];
        assert!(h.is_valid_play(p));
        h.make_play(p);
    }
    assert!(h.black_pieces.0.count_ones() + h.white_pieces.0.count_ones() >= 8);
    assert_eq!(agent.best_move(h), minimax(h, 3).0);
    assert_eq!(agent.best_move_with_time_budget(h, 1), minimax(h, 3).0);
}

#[test]
fn matchup_random_agents_finish() {
    let mut m = Matchup::new(RandomAgent, RandomAgent);
    let r = m.play();
    assert!(matches!(r, Ok(p) if p != Player::InProgress));
    let r = m.play_with_time_budget(10);
    assert!(matches!(r, Ok(p) if p != Player::InProgress));
}

#[test]
fn matchup_minimax_against_random_finishes() {
    let mut m = Matchup::new(MinimaxAgent { max_depth: 2 }, RandomAgent);
    assert!(matches!(m.play(), Ok(p) if p != Player::InProgress));
}

struct Cheater;

impl Agent for Cheater {
    fn best_move_with_time_budget(&self, _game: Game, _time_budget_ms: u64) -> Play {
        Play(0)
    }
}

#[test]
fn matchup_reports_invalid_move() {
    let mut m = Matchup::new(Cheater, RandomAgent);
    match m.play() {
        Err(e) => {
            assert_eq!(e.play, Play(0));
            assert_eq!(e.player, Player::Black);
            assert_eq!(e.game, Game::new());
        }
        Ok(_) => panic!("invalid move accepted"),
    }
}

#[test]
fn node_new_holds_all_moves() {
    let g = Game::new();
    let n = Node::new(g, Some(3));
    assert_eq!(n.parent, Some(3));
    assert!(n.children.is_empty());
    assert_eq!(n.wins, 0);
    assert_eq!(n.visits, 0);
    assert_eq!(n.state, g);
    let mut moves = n.unexpanded_moves.clone();
    moves.sort_by_key(|p| p.0);
    assert_eq!(moves, g.generate_plays());
    assert!(!n.is_terminal());
    assert!(!n.is_fully_expanded());
}

#[test]
fn mcts_iterations_expand_then_simulate() {
    let g = Game::new();
    let mut mcts = Mcts::new(g, 100);
    assert_eq!(mcts.max_iterations(), 100);
    let root = mcts.root_node_index();
    assert_eq!(root, 0);
    for i in 0..4u32 {
        mcts.iterate_from(root);
        assert_eq!(mcts.get_node(root).visits, i + 1);
        assert_eq!(mcts.get_node(root).children.len(), (i + 1) as usize);
    }
    assert!(mcts.get_node(root).is_fully_expanded());
    // Each child was visited once, so the first child's move is the best.
    let first_child = mcts.get_node(root).children[0];
    let expected = mcts.get_node(first_child).state.previous_move;
    assert_eq!(mcts.best_play(), expected);
    assert!(g.is_valid_play(mcts.best_play()));
    for child in mcts.get_node(root).children.clone() {
        let node = mcts.get_node(child);
        assert_eq!(node.parent, Some(root));
        assert_eq!(node.visits, 1);
        assert!(node.wins <= 1);
    }
    // A fully expanded root is simulated and counted itself.
    mcts.iterate_from(root);
    assert_eq!(mcts.get_node(root).visits, 5);
    assert_eq!(mcts.get_node(root).children.len(), 4);
}

#[test]
fn mcts_backpropagates_along_the_path() {
    let g = Game::new();
    let mut mcts = Mcts::new(g, 100);
    mcts.iterate_from(0);
    let child = mcts.get_node(0).children[0];
    mcts.iterate_from(child);
    assert_eq!(mcts.get_node(0).visits, 2);
    assert_eq!(mcts.get_node(child).visits, 2);
    let grandchild = mcts.get_node(child).children[0];
    assert_eq!(mcts.get_node(grandchild).visits, 1);
    assert_eq!(mcts.get_node(grandchild).parent, Some(child));
}

#[test]
fn mcts_on_finished_game() {
    // A root with no moves left to expand and no children.
    let done = Game {
        black_pieces: Bitboard(sq(0, 0)),
        white_pieces: Bitboard(0),
        player_to_move: Player::Black,
        previous_move: Play(64),
    };
    let mut mcts = Mcts::new(done, 10);
    // The only move of a finished game is the pass; expanding it gives one child.
    mcts.iterate_from(0);
    assert_eq!(mcts.get_node(0).children.len(), 1);
    assert_eq!(mcts.best_play(), Play(64));
}

#[test]
fn node_new_shuffles_moves() {
    let g = Game::new();
    let first = Node::new(g, None).unexpanded_moves;
    let mut differs = false;
    for _ in 0..60 {
        if Node::new(g, None).unexpanded_moves != first {
            differs = true;
            break;
        }
    }
    assert!(differs);
}

#[test]
fn random_agent_varies() {
    let g = Game::new();
    let first = RandomAgent.best_move(g);
    let mut differs = false;
    for _ in 0..60 {
        if RandomAgent.best_move(g) != first {
            differs = true;
            break;
        }
    }
    assert!(differs);
}

#[test]
fn mcts_many_iterations_keep_counts() {
    let g = Game::new();
    let mut mcts = Mcts::new(g, 200);
    for i in 0..200u32 {
        // Walk down through fully expanded nodes to one with moves left, as selection would.
        let mut index = mcts.root_node_index();
        while mcts.get_node(index).is_fully_expanded() && !mcts.get_node(index).is_terminal() {
            let children = mcts.get_node(index).children.clone();
            index = children[(i as usize) % children.len()];
        }
        mcts.iterate_from(index);
        assert_eq!(mcts.get_node(0).visits, i + 1);
    }
    let root = mcts.get_node(0);
    let child_visits: u32 = root.children.iter().map(|c| mcts.get_node(*c).visits).sum();
    assert!(child_visits <= root.visits);
    for c in &root.children {
        let n = mcts.get_node(*c);
        assert!(n.wins <= n.visits);
        assert!(g.is_valid_play(n.state.previous_move));
    }
    assert!(g.is_valid_play(mcts.best_play()));
}

#[test]
fn minimax_agent_depth_zero_plays_first_move() {
    let agent = MinimaxAgent { max_depth: 0 };
    let mut h = Game::new();
    for _ in 0..4 {
        let p = h.generate_plays()[0];
        h.make_play(p);
    }
    assert!(h.black_pieces.0.count_ones() + h.white_pieces.0.count_ones() >= 8);
    assert_eq!(agent.best_move(h), h.generate_plays()[0]);
    assert!(h.is_valid_play(agent.best_move(h)));
    assert_ne!(agent.best_move(h), Play(0));
}

#[test]
fn minimax_agent_finished_game_passes() {
    let agent = MinimaxAgent { max_depth: 3 };
    let done = Game {
        black_pieces: Bitboard(0xFF),
        white_pieces: Bitboard(0),
        player_to_move: Player::White,
        previous_move: Play(64),
    };
    assert_eq!(done.game_state(), Player::Black);
    assert_eq!(agent.best_move(done), Play(64));
}

#[test]
fn search_continues_rule() {
    assert!(search_continues(0, 0, 100, 10));
    assert!(search_continues(9, 100, 100, 10));
    assert!(!search_continues(10, 5, 100, 10));
    assert!(!search_continues(3, 101, 100, 10));
}

fn swap_colours(g: Game) -> Game {
    Game {
        black_pieces: g.white_pieces,
        white_pieces: g.black_pieces,
        player_to_move: match g.player_to_move {
            Player::Black => Player::White,
            Player::White => Player::Black,
            p => p,
        },
        previous_move: g.previous_move,
    }
}

#[test]
fn minimax_colour_symmetry() {
    let mut g = Game::new();
    for _ in 0..5 {
        for depth in 0..=3 {
            let (p, v) = minimax(g, depth);
            let (q, w) = minimax(swap_colours(g), depth);
            assert_eq!(w, -v);
            assert_eq!(q, p);
        }
        let p = g.generate_plays()[0];
        g.make_play(p);
    }
}

#[test]
fn mcts_credits_the_playout_winner() {
    let done = Game {
        black_pieces: Bitboard(sq(0, 0)),
        white_pieces: Bitboard(0),
        player_to_move: Player::Black,
        previous_move: Play(64),
    };
    let mut mcts = Mcts::new(done, 10);
    mcts.iterate_from(0);
    let child = mcts.get_node(0).children[0];
    // Black wins: the root (Black to move) gets no win, the child (White to move) one.
    assert_eq!(mcts.get_node(0).wins, 0);
    assert_eq!(mcts.get_node(child).wins, 1);
    assert_eq!(mcts.get_node(child).visits, 1);
}

#[test]
fn mcts_children_and_moves_left_are_the_moves() {
    let g = Game::new();
    let mut mcts = Mcts::new(g, 50);
    for i in 0..50usize {
        let mut index = mcts.root_node_index();
        while mcts.get_node(index).is_fully_expanded() && !mcts.get_node(index).is_terminal() {
            let children = mcts.get_node(index).children.clone();
            index = children[i % children.len()];
        }
        mcts.iterate_from(index);
    }
    let mut stack = vec![0usize];
    while let Some(i) = stack.pop() {
        let node = mcts.get_node(i);
        let mut moves: Vec<Play> = node
            .children
            .iter()
            .map(|c| mcts.get_node(*c).state.previous_move)
            .chain(node.unexpanded_moves.iter().copied())
            .collect();
        moves.sort_by_key(|p| p.0);
        assert_eq!(moves, node.state.generate_plays());
        stack.extend(node.children.iter().copied());
    }
}

#[test]
fn iterations_continue_rule() {
    assert!(iterations_continue(0, 1));
    assert!(iterations_continue(14999, 15000));
    assert!(!iterations_continue(15000, 15000));
    assert!(!iterations_continue(1, 0));
}

#[test]
fn evaluation_ranks_finished_games_first() {
    for seed in 0..20usize {
        let mut g = Game::new();
        while g.game_state() == Player::InProgress {
            let v = evaluate_game(&g);
            assert!(-152 <= v && v <= 152);
            let plays = g.generate_plays();
            let p = plays[(seed * 7 + plays.len()) % plays.len()];
            g.make_play(p);
        }
        let v = evaluate_game(&g);
        match g.game_state() {
            Player::Black => assert!(v >= 1_000_000),
            Player::White => assert!(v <= -1_000_000),
            Player::Tie => assert_eq!(v, 0),
            Player::InProgress => unreachable!(),
        }
    }
}
