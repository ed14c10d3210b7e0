//! The random baseline policy: a uniformly drawn legal placement, then a
//! uniformly drawn piece to hand over, skipping the hand-over after a
//! placement that wins at once or when the pool is exhausted.
use vstd::prelude::*;

use crate::piece::Piece;
use crate::rng::random_usize;
use crate::state::{State, board_wins, num_empty};

verus! {

/// Picks a uniformly random legal placement (except on the first turn, when
/// there is nothing to place) and a uniformly random piece to hand over. No
/// piece is handed over when the chosen placement completes a winning line
/// (the game ends there) or when the pool is empty.
pub fn random_action(state: &State) -> (r: (Option<(usize, usize)>, Option<Piece>))
    requires
        state.wf(),
        state.turn != 0 ==> state.selected_piece is Some && num_empty(state.board@) > 0,
    ensures
        (r.0 is Some) == (state.turn != 0),
        r.0 is Some ==> (r.0->0).0 < 4 && (r.0->0).1 < 4 && state.board@[4 * (r.0->0).0 + (
        r.0->0).1] is None,
        r.1 is Some ==> state.unused_pieces@.contains(r.1->0),
        (r.1 is None) == ((r.0 is Some && board_wins(
            state.board@.update(4 * (r.0->0).0 + (r.0->0).1, state.selected_piece),
        )) || state.unused_pieces@.len() == 0),
{
    let mut put: Option<(usize, usize)> = None;
    let mut wins_now = false;
    if !state.is_first_turn() {
        let actions = state.legal_placements();
        let i = random_usize() % actions.len();
        let (h, w) = actions[i];
        wins_now = state.can_put_then_win(h, w);
        put = Some((h, w));
    }
    let mut select: Option<Piece> = None;
    if !wins_now && state.unused_pieces.len() > 0 {
        let pieces = state.legal_pieces();
        let j = random_usize() % pieces.len();
        select = Some(pieces[j]);
        proof {
            assert(state.unused_pieces@.contains(state.unused_pieces@[j as int]));
        }
    }
    (put, select)
}

} // verus!
