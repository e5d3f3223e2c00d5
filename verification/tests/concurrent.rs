use std::sync::Arc;

use wasmthello::new_bot_db;
use wasmthello::new_match_db;
use wasmthello::register_bot;
use wasmthello::run_tournament;

const FIRST_MOVE_BOT: &str = r#"
(module
  (memory (export "memory") 2)
  (func (export "alloc_wasm_memory") (param i32) (result i32) (i32.const 1024))
  (func (export "answer") (param i32 i32 i32 i32 i32) (result i32)
    (i32.load8_u (local.get 2))))
"#;

#[test]
fn disjoint_opponent_runs_lose_no_updates() {
    // Two tournament-scheduler runs, one after the other, over the same
    // shared registries against disjoint opponent pairs; summing the
    // win/loss/tie deltas of both runs gives the registries' final
    // tallies exactly.
    let bots = Arc::new(new_bot_db());
    let matches = Arc::new(new_match_db());
    let wasm = FIRST_MOVE_BOT.as_bytes().to_vec();
    for name in ["A", "B", "C", "D"] {
        register_bot(&bots, name.to_string(), "t".to_string(), wasm.clone()).unwrap();
    }

    run_tournament(
        &bots,
        &matches,
        &"C".to_string(),
        &wasm,
        &vec![("A".to_string(), wasm.clone())],
        8,
    );
    run_tournament(
        &bots,
        &matches,
        &"D".to_string(),
        &wasm,
        &vec![("B".to_string(), wasm.clone())],
        8,
    );

    let read = matches.acquire_read();
    let stored = read.borrow().len();
    read.release_read();
    assert_eq!(stored, 4);

    let read = bots.acquire_read();
    let sums: Vec<(String, u32)> = {
        let table = read.borrow();
        table
            .list()
            .iter()
            .map(|r| (r.name.clone(), r.wins + r.losses + r.ties))
            .collect()
    };
    read.release_read();
    // Run 1 touched exactly A and C, run 2 exactly B and D: two results
    // each, one counter increment per participant per result.
    let total: u32 = sums.iter().map(|(_, s)| *s).sum();
    assert_eq!(total, 8);
    let sum_of = |name: &str| sums.iter().find(|(n, _)| n == name).unwrap().1;
    assert_eq!(sum_of("A") + sum_of("C"), 4);
    assert_eq!(sum_of("B") + sum_of("D"), 4);
    assert_eq!(sum_of("C"), 2);
    assert_eq!(sum_of("D"), 2);
}
