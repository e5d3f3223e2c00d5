use wasmthello::FirstMovePlayer;
use wasmthello::play_game;

#[test]
fn first_legal_move_game_on_eight_board() {
    // Scenario: both seats always pick the first legal move in scan
    // order on an 8x8 board.
    let mut white = FirstMovePlayer {};
    let mut black = FirstMovePlayer {};
    let game = play_game(&mut white, &mut black, 8);
    assert!(game.game_over());
    assert!(!game.is_misplay());
    // At most 60 placements fit on the 60 initially free cells.
    assert!(game.move_list().len() <= 60);
    // This deterministic game finishes with a winner, and the disc
    // totals can never exceed the number of cells.
    assert!(game.winner().is_some());
    let occupied = game.serialize().iter().filter(|&&b| b != 0).count();
    assert!(occupied <= 64);
}

#[test]
fn first_legal_move_game_is_deterministic() {
    let mut w1 = FirstMovePlayer {};
    let mut b1 = FirstMovePlayer {};
    let g1 = play_game(&mut w1, &mut b1, 8);
    let mut w2 = FirstMovePlayer {};
    let mut b2 = FirstMovePlayer {};
    let g2 = play_game(&mut w2, &mut b2, 8);
    assert_eq!(g1.move_list(), g2.move_list());
    assert_eq!(g1.winner(), g2.winner());
}
