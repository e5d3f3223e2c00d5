//! The move-supplying capability a seat exposes to the match driver, and
//! a deterministic built-in controller.

use vstd::prelude::*;
use crate::game::Game;
use crate::game::Pos;

verus! {

/// Why a controller failed to supply a move.
#[derive(Debug, Copy, Clone, PartialEq, Eq, Structural)]
pub enum ControllerError {
    /// The controller faulted or aborted while choosing a move.
    Trap,
}

/// A source of moves for one seat: propose a move or fail. The returned
/// position is untrusted — the match driver validates it against the
/// legal-move set and forfeits the seat on any violation, so the
/// contract promises nothing about the result.
pub trait PlayerController {
    fn make_play(&mut self, game: &Game) -> (r: Result<Pos, ControllerError>)
        requires
            game.wf(),
            !game.spec_game_over(),
            game.has_legal_move(game.whose_turn()),
    ;
}

/// A controller that always picks the first legal move in scan order.
pub struct FirstMovePlayer {
}

impl PlayerController for FirstMovePlayer {
    /// Always answers the legal move that comes first in scan order.
    fn make_play(&mut self, game: &Game) -> (r: Result<Pos, ControllerError>)
        ensures
            r matches Ok(p) && game.spec_is_legal(p, game.whose_turn()) && (forall|q: Pos|
                game.spec_is_legal(q, game.whose_turn()) ==> game.scan_index(p)
                    <= game.scan_index(q)),
    {
        let moves = game.legal_moves(game.current_player());
        proof {
            let pos = choose|pos: Pos| game.spec_is_legal(pos, game.whose_turn());
            assert(moves@.contains(pos));
        }
        let first = moves[0];
        proof {
            assert(moves@.contains(moves@[0]));
            assert forall|q: Pos| game.spec_is_legal(q, game.whose_turn()) implies game.scan_index(
                first,
            ) <= game.scan_index(q) by {
                assert(moves@.contains(q));
                let i = choose|i: int| 0 <= i < moves@.len() && moves@[i] == q;
                if i > 0 {
                    assert(game.scan_index(moves@[0]) < game.scan_index(moves@[i]));
                }
            }
        }
        Ok(first)
    }
}

} // verus!
