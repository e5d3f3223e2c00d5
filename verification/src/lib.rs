//! A small tournament server library for a two-player disc-flipping board
//! game: the board rules engine, a sandboxed-bot adapter, a match driver,
//! and a tournament scheduler over lock-protected registries.

use vstd::prelude::*;

mod game;
mod playercontroller;
mod registry;
mod tournament;
mod wasmplayer;

pub use crate::game::Dir;
pub use crate::game::Game;
pub use crate::game::GameError;
pub use crate::game::Player;
pub use crate::game::Pos;
pub use crate::game::lemma_legal_move_unoccupied;
pub use crate::game::lemma_offset_round_trip;
pub use crate::game::valid_edge;
pub use crate::playercontroller::ControllerError;
pub use crate::playercontroller::FirstMovePlayer;
pub use crate::playercontroller::PlayerController;
pub use crate::registry::BotRecord;
pub use crate::registry::BotTable;
pub use crate::registry::MatchResult;
pub use crate::registry::MatchTable;
pub use crate::registry::MatchWinner;
pub use crate::tournament::BotDb;
pub use crate::tournament::MatchDb;
pub use crate::registry::clone_result;
pub use crate::tournament::apply_scores;
pub use crate::tournament::contender_match;
pub use crate::tournament::lemma_score_all_contender_total;
pub use crate::tournament::lemma_score_all_total_volume;
pub use crate::tournament::opponent_of;
pub use crate::tournament::score_all;
pub use crate::tournament::score_one;
pub use crate::tournament::score_sum;
pub use crate::tournament::total_volume;
pub use crate::tournament::winner_names_participant;
pub use crate::tournament::RegisterError;
pub use crate::tournament::new_bot_db;
pub use crate::tournament::new_match_db;
pub use crate::tournament::play_round;
pub use crate::tournament::register_bot;
pub use crate::tournament::run_tournament;
pub use crate::tournament::tournament_board_sizes;
pub use crate::wasmplayer::SandboxError;
pub use crate::wasmplayer::WasmPlayer;

verus! {

/// Runs one full match between two controllers on a fresh `n` by `n`
/// board and returns the finished game. Each round the driver skips the
/// seat to move when it has no legal move, then asks its controller for
/// a move; a controller failure or an illegal answer ends the game at
/// once as a misplay with that seat recorded as the loser.
pub fn play_game<W: PlayerController, B: PlayerController>(
    white_player: &mut W,
    black_player: &mut B,
    n: usize,
) -> (g: Game)
    requires
        crate::game::valid_edge(n as int),
    ensures
        g.wf(),
        g.edge() == n,
        g.spec_game_over(),
        g.occupied_count() == 4 + g.move_log().len(),
        g.move_log().len() + 4 <= n * n,
{
    let mut game = Game::new(n).unwrap();
    loop
        invariant_except_break
            game.wf(),
            game.edge() == n,
            game.occupied_count() == 4 + game.move_log().len(),
        ensures
            game.wf(),
            game.edge() == n,
            game.spec_game_over(),
            game.occupied_count() == 4 + game.move_log().len(),
        decreases (n as int) * (n as int) - game.occupied_count(),
    {
        if game.game_over() {
            break;
        }
        let moves_now = game.legal_moves(game.current_player());
        if moves_now.len() == 0 {
            proof {
                if game.has_legal_move(game.whose_turn()) {
                    let pos = choose|pos: Pos| game.spec_is_legal(pos, game.whose_turn());
                    assert(moves_now@.contains(pos));
                }
            }
            game.skip();
        } else {
            proof {
                assert(moves_now@.contains(moves_now@[0]));
            }
        }
        let cur = game.current_player();
        let play_res = if cur == Player::White {
            white_player.make_play(&game)
        } else {
            black_player.make_play(&game)
        };
        match play_res {
            Ok(pos) => {
                if game.is_legal_move(pos, cur) {
                    game.play(pos);
                } else {
                    game.misplay(cur);
                    break;
                }
            },
            Err(_) => {
                game.misplay(cur);
                break;
            },
        }
        proof {
            game.lemma_occupied_le();
        }
    }
    proof {
        game.lemma_occupied_le();
    }
    game
}

} // verus!
