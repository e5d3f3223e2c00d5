use wasmthello::BotRecord;
use wasmthello::BotTable;
use wasmthello::MatchResult;
use wasmthello::MatchWinner;
use wasmthello::Player;
use wasmthello::RegisterError;
use wasmthello::SandboxError;
use wasmthello::WasmPlayer;
use wasmthello::apply_scores;
use wasmthello::new_bot_db;
use wasmthello::new_match_db;
use wasmthello::play_game;
use wasmthello::register_bot;
use wasmthello::run_tournament;
use wasmthello::tournament_board_sizes;

/// A guest that plays the first offered legal move: `answer` reads the
/// first byte of the legal-move list.
const FIRST_MOVE_BOT: &str = r#"
(module
  (memory (export "memory") 2)
  (func (export "alloc_wasm_memory") (param i32) (result i32) (i32.const 1024))
  (func (export "answer") (param i32 i32 i32 i32 i32) (result i32)
    (i32.load8_u (local.get 2))))
"#;

/// A guest that always answers offset 255, which is never legal.
const OFFSET_255_BOT: &str = r#"
(module
  (memory (export "memory") 2)
  (func (export "alloc_wasm_memory") (param i32) (result i32) (i32.const 1024))
  (func (export "answer") (param i32 i32 i32 i32 i32) (result i32) (i32.const 255)))
"#;

fn bot_bytes(wat: &str) -> Vec<u8> {
    wat.as_bytes().to_vec()
}

#[test]
fn sandboxed_game_between_two_guests_finishes_cleanly() {
    let mut white = WasmPlayer::new(&bot_bytes(FIRST_MOVE_BOT), 8).unwrap();
    let mut black = WasmPlayer::new(&bot_bytes(FIRST_MOVE_BOT), 8).unwrap();
    let game = play_game(&mut white, &mut black, 8);
    assert!(game.game_over());
    assert!(!game.is_misplay());
    assert!(game.winner().is_some() || game.winner().is_none());
    assert!(!game.move_list().is_empty());
}

#[test]
fn guest_answering_255_forfeits_at_once() {
    // Scenario: a sandboxed guest that always returns offset 255 causes
    // the match driver to end the game immediately with the misplay
    // flag set and the opponent as winner.
    let mut white = WasmPlayer::new(&bot_bytes(FIRST_MOVE_BOT), 8).unwrap();
    let mut black = WasmPlayer::new(&bot_bytes(OFFSET_255_BOT), 8).unwrap();
    let game = play_game(&mut white, &mut black, 8);
    assert!(game.game_over());
    assert!(game.is_misplay());
    assert_eq!(game.winner(), Some(Player::White));
    // The dark seat moves first and misplays at once: nothing is placed.
    assert!(game.move_list().is_empty());
}

/// A guest whose decision entry point always traps.
const TRAP_BOT: &str = r#"
(module
  (memory (export "memory") 2)
  (func (export "alloc_wasm_memory") (param i32) (result i32) (i32.const 1024))
  (func (export "answer") (param i32 i32 i32 i32 i32) (result i32) (unreachable)))
"#;

#[test]
fn invalid_payload_is_rejected_by_the_sandbox() {
    assert!(WasmPlayer::new(b"not a module", 8).is_err());
    // A valid module without the required entry points is rejected too.
    assert!(WasmPlayer::new(b"(module)", 8).is_err());
}

#[test]
fn unusable_board_edge_is_rejected_as_configuration() {
    let r = WasmPlayer::new(&bot_bytes(FIRST_MOVE_BOT), 7);
    assert!(matches!(r, Err(SandboxError::InvalidConfiguration)));
    let r = WasmPlayer::new(&bot_bytes(FIRST_MOVE_BOT), 18);
    assert!(matches!(r, Err(SandboxError::InvalidConfiguration)));
}

#[test]
fn guest_trap_forfeits_without_crashing_the_host() {
    let mut white = WasmPlayer::new(&bot_bytes(FIRST_MOVE_BOT), 8).unwrap();
    let mut black = WasmPlayer::new(&bot_bytes(TRAP_BOT), 8).unwrap();
    let game = play_game(&mut white, &mut black, 8);
    assert!(game.game_over());
    assert!(game.is_misplay());
    assert_eq!(game.winner(), Some(Player::White));
}

#[test]
fn registration_rejects_duplicates_and_bad_payloads() {
    let bots = new_bot_db();
    let first = register_bot(
        &bots,
        "alpha".to_string(),
        "ada".to_string(),
        bot_bytes(FIRST_MOVE_BOT),
    );
    assert!(first.unwrap().is_empty());
    let dup = register_bot(
        &bots,
        "alpha".to_string(),
        "bob".to_string(),
        bot_bytes(FIRST_MOVE_BOT),
    );
    assert_eq!(dup.unwrap_err(), RegisterError::DuplicateName);
    let bad = register_bot(
        &bots,
        "beta".to_string(),
        "bob".to_string(),
        b"garbage".to_vec(),
    );
    assert_eq!(bad.unwrap_err(), RegisterError::InvalidPayload);
}

#[test]
fn third_registration_battles_the_two_earlier_bots() {
    // Scenario: registering bots A, B, then C yields a C-tournament run
    // with exactly 2 x |{A, B}| results per board size, and C's
    // wins+losses+ties equal to that count afterward.
    let bots = new_bot_db();
    let matches = new_match_db();
    register_bot(&bots, "A".to_string(), "ada".to_string(), bot_bytes(FIRST_MOVE_BOT)).unwrap();
    register_bot(&bots, "B".to_string(), "bob".to_string(), bot_bytes(OFFSET_255_BOT)).unwrap();
    let snapshot =
        register_bot(&bots, "C".to_string(), "cyd".to_string(), bot_bytes(FIRST_MOVE_BOT))
            .unwrap();
    let snapshot_names: Vec<String> = snapshot.iter().map(|p| p.0.clone()).collect();
    assert_eq!(snapshot_names, vec!["A".to_string(), "B".to_string()]);

    let wasm = bot_bytes(FIRST_MOVE_BOT);
    let results = run_tournament(&bots, &matches, &"C".to_string(), &wasm, &snapshot, 8);
    assert_eq!(results.len(), 2 * snapshot.len());
    for r in &results {
        assert_eq!(r.board_size, 8);
        assert!(r.white_player == "C" || r.black_player == "C");
    }

    // Every result was stored.
    let read = matches.acquire_read();
    let stored = read.borrow().len();
    read.release_read();
    assert_eq!(stored, 4);

    // C fought four matches, so its counters total four.
    let read = bots.acquire_read();
    let (c_total, c_wins, b_losses) = {
        let table = read.borrow();
        let c = table.get(&"C".to_string()).unwrap();
        let b = table.get(&"B".to_string()).unwrap();
        (c.wins + c.losses + c.ties, c.wins, b.losses)
    };
    read.release_read();
    assert_eq!(c_total as usize, 2 * snapshot.len());
    // B forfeits both games against C (it always answers 255), so C
    // holds at least those two wins.
    assert!(c_wins >= 2);
    assert!(b_losses >= 2);
}

#[test]
fn stored_results_are_retrievable_by_identifier() {
    let bots = new_bot_db();
    let matches = new_match_db();
    register_bot(&bots, "A".to_string(), "ada".to_string(), bot_bytes(FIRST_MOVE_BOT)).unwrap();
    let snapshot =
        register_bot(&bots, "B".to_string(), "bob".to_string(), bot_bytes(FIRST_MOVE_BOT))
            .unwrap();
    let wasm = bot_bytes(FIRST_MOVE_BOT);
    let results = run_tournament(&bots, &matches, &"B".to_string(), &wasm, &snapshot, 8);
    assert_eq!(results.len(), 2);

    let read = matches.acquire_read();
    {
        let table = read.borrow();
        for r in &results {
            let stored = table.get(r.id).expect("stored result");
            assert_eq!(stored.id, r.id);
        }
        assert!(table.get(0xdead_beef_dead_beef_dead_beef_dead_beefu128).is_none());
        // The ordered snapshot covers everything stored.
        let summaries = table.list();
        assert_eq!(summaries.len(), results.len());
        for s in &summaries {
            assert_eq!(s.board_size, 8);
        }
    }
    read.release_read();
}

#[test]
fn tournaments_run_at_three_board_sizes() {
    assert_eq!(tournament_board_sizes(), vec![8usize, 12, 16]);
}

fn record(name: &str) -> BotRecord {
    BotRecord {
        name: name.to_string(),
        creator: "t".to_string(),
        wasm: Vec::new(),
        wins: 0,
        losses: 0,
        ties: 0,
    }
}

fn result_won_by(white: &str, black: &str, winner: &str) -> MatchResult {
    MatchResult {
        id: 0,
        white_player: white.to_string(),
        black_player: black.to_string(),
        winner: MatchWinner::Named(winner.to_string()),
        board_size: 8,
        moves: Vec::new(),
        misplay: false,
    }
}

#[test]
fn score_deltas_from_disjoint_runs_sum_to_final_tallies() {
    // Two scheduler runs against disjoint opponent pairs: summing the
    // win/loss/tie deltas of both runs gives the registry's final
    // tallies exactly — no update is lost.
    let mut table = BotTable::new();
    for name in ["A", "B", "C", "D"] {
        table.insert(record(name));
    }
    // Run 1: contender C against opponent A, one win and one loss.
    let run1 = vec![result_won_by("C", "A", "C"), result_won_by("A", "C", "A")];
    // Run 2: contender D against opponent B, a win and a tie.
    let mut run2 = vec![result_won_by("D", "B", "D")];
    let mut tie = result_won_by("B", "D", "B");
    tie.winner = MatchWinner::Tie;
    run2.push(tie);

    apply_scores(&mut table, &"C".to_string(), &run1);
    apply_scores(&mut table, &"D".to_string(), &run2);

    let c = table.get(&"C".to_string()).unwrap();
    assert_eq!((c.wins, c.losses, c.ties), (1, 1, 0));
    let a = table.get(&"A".to_string()).unwrap();
    assert_eq!((a.wins, a.losses, a.ties), (1, 1, 0));
    let d = table.get(&"D".to_string()).unwrap();
    assert_eq!((d.wins, d.losses, d.ties), (1, 0, 1));
    let b = table.get(&"B".to_string()).unwrap();
    assert_eq!((b.wins, b.losses, b.ties), (0, 1, 1));
    // Total volume equals two counter increments per result.
    let total = [a, b, c, d]
        .iter()
        .map(|r| (r.wins + r.losses + r.ties) as usize)
        .sum::<usize>();
    assert_eq!(total, 2 * (run1.len() + run2.len()));
}
