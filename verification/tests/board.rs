use wasmthello::Game;
use wasmthello::GameError;
use wasmthello::Player;
use wasmthello::Pos;

fn disc_counts(game: &Game) -> (usize, usize) {
    let bytes = game.serialize();
    let white = bytes.iter().filter(|&&b| b == 1).count();
    let black = bytes.iter().filter(|&&b| b == 2).count();
    (white, black)
}

#[test]
fn new_rejects_odd_edge() {
    assert!(matches!(Game::new(7), Err(GameError::InvalidConfiguration)));
    assert!(matches!(Game::new(3), Err(GameError::InvalidConfiguration)));
    assert!(matches!(Game::new(0), Err(GameError::InvalidConfiguration)));
}

#[test]
fn new_rejects_oversized_edge() {
    // Offsets are one byte, so edges beyond 16 have no wire encoding.
    assert!(matches!(Game::new(18), Err(GameError::InvalidConfiguration)));
}

#[test]
fn new_places_four_center_discs_on_every_even_edge() {
    for n in [2usize, 4, 6, 8, 10, 12, 14, 16] {
        let game = Game::new(n).unwrap();
        let bytes = game.serialize();
        assert_eq!(bytes.len(), n * n);
        let h = n / 2;
        // Cell (x, y) sits at its wire offset x + y*n.
        assert_eq!(bytes[(h - 1) + (h - 1) * n], 1);
        assert_eq!(bytes[h + (h - 1) * n], 2);
        assert_eq!(bytes[(h - 1) + h * n], 2);
        assert_eq!(bytes[h + h * n], 1);
        let occupied = bytes.iter().filter(|&&b| b != 0).count();
        assert_eq!(occupied, 4);
    }
}

#[test]
fn new_game_starts_with_dark_seat() {
    let game = Game::new(8).unwrap();
    assert_eq!(game.current_player(), Player::Black);
    assert!(game.move_list().is_empty());
    assert!(!game.is_misplay());
}

#[test]
fn player_codes_and_flip() {
    assert_eq!(Player::White.serialize(), 1);
    assert_eq!(Player::Black.serialize(), 2);
    assert_eq!(Player::White.flip(), Player::Black);
    assert_eq!(Player::Black.flip(), Player::White);
}

#[test]
fn offsets_round_trip_for_every_valid_pos() {
    for n in [2usize, 8, 12, 16] {
        for x in 0..n {
            for y in 0..n {
                let pos = Pos(x, y);
                let off = pos.to_offset(n);
                assert_eq!(off as usize, x + y * n);
                assert_eq!(Pos::from_offset(off, n), pos);
            }
        }
    }
}

#[test]
fn legal_moves_never_include_occupied_cells() {
    let mut game = Game::new(8).unwrap();
    // Walk a few plies and check the property at every state.
    for _ in 0..8 {
        if game.game_over() {
            break;
        }
        let player = game.current_player();
        let moves = game.legal_moves(player);
        let bytes = game.serialize();
        for pos in &moves {
            assert_eq!(bytes[pos.0 + pos.1 * 8], 0);
        }
        if moves.is_empty() {
            game.skip();
        } else {
            game.play(moves[0]);
        }
    }
}

#[test]
fn serialize_places_each_cell_at_its_wire_offset() {
    // After the dark seat plays (0, 1) on a 4-board, the byte at that
    // cell's wire offset 0 + 1*4 = 4 holds the dark code, and so does
    // the flipped disc at (1, 1).
    let mut game = Game::new(4).unwrap();
    let moves = game.legal_moves(Player::Black);
    assert!(moves.contains(&Pos(0, 1)));
    game.play(Pos(0, 1));
    let bytes = game.serialize();
    assert_eq!(bytes[0 + 1 * 4], 2);
    assert_eq!(bytes[1 + 1 * 4], 2);
}

#[test]
fn opening_position_has_four_legal_moves() {
    let game = Game::new(8).unwrap();
    let moves = game.legal_moves(Player::Black);
    assert_eq!(moves.len(), 4);
}

#[test]
fn play_grows_mover_discs_by_one_plus_flipped() {
    let mut game = Game::new(8).unwrap();
    let (white_before, black_before) = disc_counts(&game);
    let moves = game.legal_moves(Player::Black);
    let pos = moves[0];
    game.play(pos);
    let (white_after, black_after) = disc_counts(&game);

    // Occupancy grows by exactly the placed disc.
    assert_eq!(white_after + black_after, white_before + black_before + 1);
    // The mover gains the placed disc plus every flipped one; the
    // opponent loses exactly the flipped ones.
    let flipped = white_before - white_after;
    assert!(flipped >= 1);
    assert_eq!(black_after, black_before + 1 + flipped);
    // The opening move flips exactly one disc.
    assert_eq!(flipped, 1);
    // The move log holds the move's wire offset.
    assert_eq!(game.move_list().as_slice(), &[pos.to_offset(8)]);
    assert_eq!(game.current_player(), Player::White);
}

#[test]
fn two_by_two_board_is_over_at_once_and_tied() {
    let game = Game::new(2).unwrap();
    assert!(game.game_over());
    // Two discs each: equal counts mean no winner.
    assert_eq!(game.winner(), None);
}

#[test]
fn misplay_ends_game_with_opponent_as_winner() {
    let mut game = Game::new(8).unwrap();
    game.misplay(Player::Black);
    assert!(game.game_over());
    assert!(game.is_misplay());
    assert_eq!(game.winner(), Some(Player::White));
}
