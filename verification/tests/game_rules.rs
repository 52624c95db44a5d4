use othello::bits::popcount_u64;
use othello::othello::{Bitboard, Cell, Game, Play, Player};

fn sq(row: u8, col: u8) -> u64 {
    1u64 << (row * 8 + col)
}

fn game_with(black: u64, white: u64, to_move: Player) -> Game {
    Game {
        black_pieces: Bitboard(black),
        white_pieces: Bitboard(white),
        player_to_move: to_move,
        previous_move: Play(64),
    }
}

#[test]
fn play_new_and_coords() {
    let p = Play::new(2, 3);
    assert_eq!(p, Play(19));
    assert_eq!(p.coords(), Some((2, 3)));
    assert_eq!(Play::new(7, 7), Play(63));
    assert_eq!(Play(63).coords(), Some((7, 7)));
    assert_eq!(Play(64).coords(), None);
    assert_eq!(Play(200).coords(), None);
}

#[test]
fn play_coords_roundtrip_all_squares() {
    for row in 0..8u8 {
        for col in 0..8u8 {
            assert_eq!(Play::new(row, col).coords(), Some((row, col)));
        }
    }
}

#[test]
fn play_to_string() {
    assert_eq!(Play(0).to_string(), "1a");
    assert_eq!(Play::new(2, 3).to_string(), "3d");
    assert_eq!(Play::new(7, 7).to_string(), "8h");
    assert_eq!(Play::new(4, 1).to_string(), "5b");
    assert_eq!(Play(64).to_string(), "pass");
    assert_eq!(Play(99).to_string(), "pass");
}

#[test]
fn popcount_matches_count_ones() {
    for x in [0u64, 1, 0x8100000000000081, u64::MAX, 0x1234_5678_9abc_def0, 1 << 63] {
        assert_eq!(popcount_u64(x), x.count_ones());
    }
}

#[test]
fn initial_position() {
    let g = Game::new();
    assert_eq!(g.player_to_move, Player::Black);
    assert_eq!(g.cell_state(3, 3), Cell::White);
    assert_eq!(g.cell_state(4, 4), Cell::White);
    assert_eq!(g.cell_state(3, 4), Cell::Black);
    assert_eq!(g.cell_state(4, 3), Cell::Black);
    assert_eq!(g.cell_state(0, 0), Cell::Empty);
    assert_eq!(g.cell_state(2, 3), Cell::Empty);
    assert_eq!(g.black_pieces.0.count_ones(), 2);
    assert_eq!(g.white_pieces.0.count_ones(), 2);
    assert_eq!(g.game_state(), Player::InProgress);
}

#[test]
fn initial_moves_in_square_order() {
    let g = Game::new();
    assert_eq!(g.generate_plays(), vec![Play(19), Play(26), Play(37), Play(44)]);
    for p in g.generate_plays() {
        assert!(g.is_valid_play(p));
    }
    assert!(!g.is_valid_play(Play(0)));
    assert!(!g.is_valid_play(Play(27)));
    assert!(!g.is_valid_play(Play(64)));
    assert!(!g.is_valid_play(Play(65)));
}

#[test]
fn generate_plays_in_buf_appends() {
    let g = Game::new();
    let mut buf = vec![Play(7)];
    g.generate_plays_in_buf(&mut buf);
    assert_eq!(buf, vec![Play(7), Play(19), Play(26), Play(37), Play(44)]);
}

#[test]
fn make_play_flips_and_switches() {
    let mut g = Game::new();
    g.make_play(Play::new(2, 3));
    assert_eq!(g.player_to_move, Player::White);
    assert_eq!(g.previous_move, Play(19));
    assert_eq!(g.cell_state(2, 3), Cell::Black);
    assert_eq!(g.cell_state(3, 3), Cell::Black);
    assert_eq!(g.cell_state(4, 4), Cell::White);
    assert_eq!(g.black_pieces.0.count_ones(), 4);
    assert_eq!(g.white_pieces.0.count_ones(), 1);
    assert_eq!(g.black_pieces.0 & g.white_pieces.0, 0);
    // White's replies to d3
    assert_eq!(g.generate_plays(), vec![Play(18), Play(20), Play(34)]);
}

#[test]
fn capture_in_two_directions() {
    // Black to play at (2,2): captures (2,3) towards (2,4) and (3,2) towards (4,2).
    let black = sq(2, 4) | sq(4, 2);
    let white = sq(2, 3) | sq(3, 2);
    let mut g = game_with(black, white, Player::Black);
    assert!(g.is_valid_play(Play::new(2, 2)));
    g.make_play(Play::new(2, 2));
    assert_eq!(g.white_pieces.0, 0);
    assert_eq!(g.black_pieces.0, black | white | sq(2, 2));
    assert_eq!(g.player_to_move, Player::White);
}

#[test]
fn no_capture_without_closing_piece() {
    // White run ends at the board edge: no capture.
    let black = sq(0, 0);
    let white = sq(0, 1) | sq(0, 2) | sq(0, 3) | sq(0, 4) | sq(0, 5) | sq(0, 6) | sq(0, 7);
    let g = game_with(black, white, Player::White);
    // White cannot capture (black piece in the corner has no flanking square).
    assert_eq!(g.generate_plays(), vec![Play(64)]);
    assert!(g.is_valid_play(Play(64)));
}

#[test]
fn pass_when_no_move_but_game_goes_on() {
    // Black has no legal placement; White can capture at (0,0)?
    // Row 0: white at (0,7)... Build: white (0,0), black (0,1), empty (0,2).
    let black = sq(0, 1);
    let white = sq(0, 0);
    let g = game_with(black, white, Player::Black);
    assert_eq!(g.generate_plays(), vec![Play(64)]);
    assert!(g.is_valid_play(Play(64)));
    assert_eq!(g.game_state(), Player::InProgress);
    let mut h = g;
    h.make_play(Play(64));
    assert_eq!(h.player_to_move, Player::White);
    assert_eq!(h.black_pieces, g.black_pieces);
    assert_eq!(h.white_pieces, g.white_pieces);
    assert_eq!(h.generate_plays(), vec![Play(2)]);
    h.make_play(Play(2));
    assert_eq!(h.black_pieces.0, 0);
    assert_eq!(h.white_pieces.0, sq(0, 0) | sq(0, 1) | sq(0, 2));
    assert_eq!(h.game_state(), Player::White);
}

#[test]
fn game_over_outcomes() {
    assert_eq!(game_with(sq(0, 0), 0, Player::Black).game_state(), Player::Black);
    assert_eq!(game_with(0, sq(5, 5), Player::Black).game_state(), Player::White);
    assert_eq!(game_with(sq(0, 0), sq(7, 7), Player::White).game_state(), Player::Tie);
    assert_eq!(game_with(0, 0, Player::White).game_state(), Player::Tie);
}

#[test]
fn full_random_game_keeps_rules() {
    // Always play the first move: the game ends and pieces never overlap.
    let mut g = Game::new();
    let mut moves = 0;
    while g.game_state() == Player::InProgress {
        let plays = g.generate_plays();
        assert!(!plays.is_empty());
        let p = plays[plays.len() / 2];
        assert!(g.is_valid_play(p));
        let before = g.black_pieces.0.count_ones() + g.white_pieces.0.count_ones();
        g.make_play(p);
        let after = g.black_pieces.0.count_ones() + g.white_pieces.0.count_ones();
        if p.0 < 64 {
            assert_eq!(after, before + 1);
        } else {
            assert_eq!(after, before);
        }
        assert_eq!(g.black_pieces.0 & g.white_pieces.0, 0);
        moves += 1;
        assert!(moves <= 128);
    }
    let b = g.black_pieces.0.count_ones();
    let w = g.white_pieces.0.count_ones();
    let expected = if b > w {
        Player::Black
    } else if w > b {
        Player::White
    } else {
        Player::Tie
    };
    assert_eq!(g.game_state(), expected);
}
