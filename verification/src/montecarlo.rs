//! The rollout policy and the flat Monte Carlo selector. Values are scored
//! in half-points: 2 is a win for the player who just moved, 1 a draw, 0 a
//! loss, always from the perspective of the player about to act in the
//! state at hand; the score is inverted once per ply.
use vstd::prelude::*;

use crate::piece::Piece;
use crate::rng::random_usize;
use crate::state::{State, WinningStatus, board_wins, num_empty, num_placed, same_config};

verus! {

/// Placing the pending piece at `(h, w)` is legal and wins at once.
pub open spec fn winning_place(s: State, h: usize, w: usize) -> bool {
    h < 4 && w < 4 && s.board@[4 * h + w] is None && board_wins(
        s.board@.update(4 * h + w, s.selected_piece),
    )
}

/// There is an empty cell where placing the pending piece wins at once.
pub open spec fn has_winning_place(s: State) -> bool {
    exists|h: usize, w: usize| #[trigger] winning_place(s, h, w)
}

/// `(h, w)` is the first cell, in row-major order, where placing the
/// pending piece wins at once.
pub open spec fn first_winning_place(s: State, h: usize, w: usize) -> bool {
    winning_place(s, h, w) && forall|h2: usize, w2: usize|
        #[trigger] winning_place(s, h2, w2) ==> 4 * h + w <= 4 * h2 + w2
}

/// The first empty cell, in row-major order, where placing the pending
/// piece completes a winning line; nothing when no such cell exists.
pub fn find_winning_place(state: &State) -> (r: Option<(usize, usize)>)
    requires
        state.wf(),
        state.selected_piece is Some,
    ensures
        r is Some ==> first_winning_place(*state, (r->0).0, (r->0).1),
        (r is Some) == has_winning_place(*state),
{
    let places = state.legal_placements();
    let mut i: usize = 0;
    while i < places.len()
        invariant
            state.wf(),
            state.selected_piece is Some,
            i <= places@.len(),
            forall|t: int|
                0 <= t < places@.len() ==> (#[trigger] places@[t]).0 < 4 && places@[t].1 < 4
                    && state.board@[4 * places@[t].0 + places@[t].1] is None,
            forall|h: usize, w: usize|
                h < 4 && w < 4 && state.board@[4 * h + w] is None ==> #[trigger] places@.contains(
                    (h, w),
                ),
            forall|t1: int, t2: int|
                0 <= t1 < t2 < places@.len() ==> 4 * places@[t1].0 + places@[t1].1 < 4
                    * places@[t2].0 + places@[t2].1,
            forall|t: int|
                0 <= t < i ==> !winning_place(
                    *state,
                    (#[trigger] places@[t]).0,
                    places@[t].1,
                ),
        decreases places@.len() - i,
    {
        let (h, w) = places[i];
        if state.can_put_then_win(h, w) {
            proof {
                assert(winning_place(*state, h, w));
                assert forall|hh: usize, ww: usize| #[trigger]
                    winning_place(*state, hh, ww) implies 4 * h + w <= 4 * hh + ww by {
                    if 4 * hh + ww < 4 * h + w {
                        assert(places@.contains((hh, ww)));
                        let t = choose|t: int|
                            0 <= t < places@.len() && places@[t] == (hh, ww);
                        assert(t < i) by {
                            if t > i as int {
                                assert(4 * places@[i as int].0 + places@[i as int].1 < 4
                                    * places@[t].0 + places@[t].1);
                            }
                        }
                    }
                }
            }
            return Some((h, w));
        }
        i = i + 1;
    }
    proof {
        assert forall|h: usize, w: usize| !#[trigger] winning_place(*state, h, w) by {
            if winning_place(*state, h, w) {
                assert(places@.contains((h, w)));
                let t = choose|t: int| 0 <= t < places@.len() && places@[t] == (h, w);
                assert(!winning_place(*state, places@[t].0, places@[t].1));
            }
        }
    }
    None
}

/// One playout: repeatedly place (taking the first immediately winning
/// placement when one exists, else a random one) and hand over a random
/// piece, until the game ends. The state is driven to a terminal one; the
/// returned score reflects its outcome, inverted once per ply walked (one
/// ply per selection, and the turn counter counts the selections): a final
/// winning board scores 2 after an even number of plies and 0 after an odd
/// number, a draw scores 1 either way. An already-terminal state is left
/// untouched.
pub fn playout(state: &mut State) -> (v: u64)
    requires
        old(state).wf(),
        !old(state).is_done_spec() ==> old(state).selected_piece is Some,
    ensures
        final(state).wf(),
        v <= 2,
        final(state).is_done_spec(),
        old(state).is_done_spec() ==> same_config(*old(state), *final(state)),
        board_wins(final(state).board@) ==> v == (if (final(state).turn - old(state).turn) % 2
            == 0 {
            2int
        } else {
            0int
        }),
        !board_wins(final(state).board@) ==> v == 1 && final(state).unused_pieces@.len() == 0,
        !old(state).is_done_spec() && has_winning_place(*old(state)) ==> final(state).turn == old(
            state,
        ).turn && final(state).selected_piece is None && (exists|h: usize, w: usize|
            #[trigger] first_winning_place(*old(state), h, w) && final(state).board@ == old(
                state,
            ).board@.update(4 * h + w, old(state).selected_piece)),
{
    let status = state.get_winning_status();
    if status == WinningStatus::WIN {
        return 2;
    }
    if status == WinningStatus::DRAW {
        return 1;
    }
    if let Some((h, w)) = find_winning_place(state) {
        state.put_piece(h, w);
        return 2;
    }
    let mut flip = false;
    loop
        invariant
            state.wf(),
            !state.is_done_spec() ==> state.selected_piece is Some,
            !old(state).is_done_spec(),
            !has_winning_place(*old(state)),
            state.turn >= old(state).turn,
            flip == (((state.turn - old(state).turn) % 2) == 1),
        decreases state.unused_pieces@.len(),
    {
        let status = state.get_winning_status();
        if status == WinningStatus::WIN {
            return if flip {
                0
            } else {
                2
            };
        }
        if status == WinningStatus::DRAW {
            // A draw is worth one half-point from either perspective.
            return 1;
        }
        if let Some((h, w)) = find_winning_place(state) {
            state.put_piece(h, w);
            return if flip {
                0
            } else {
                2
            };
        }
        let places = state.legal_placements();
        proof {
            assert(num_empty(state.board@) > 0) by {
                assert(num_placed(state.board@) == 16 - state.unused_pieces@.len()
                    - state.sel_count());
            }
        }
        let i = random_usize() % places.len();
        let (h, w) = places[i];
        state.put_piece(h, w);
        let status = state.get_winning_status();
        if status == WinningStatus::WIN {
            return if flip {
                0
            } else {
                2
            };
        }
        if status == WinningStatus::DRAW {
            // A draw is worth one half-point from either perspective.
            return 1;
        }
        let pieces = state.legal_pieces();
        let j = random_usize() % pieces.len();
        let piece = pieces[j];
        proof {
            assert(state.unused_pieces@.contains(state.unused_pieces@[j as int]));
        }
        state.select_piece(piece);
        flip = !flip;
    }
}

/// Evaluates every legal (placement, hand-over) pair with a round-robin
/// share of the playout budget and returns the pair with the best mean
/// score; the placement half is empty on the first turn and the hand-over
/// half on the last.
pub fn primitive_monte_carlo_action(state: &State, playout_number: usize) -> (r: (
    Option<(usize, usize)>,
    Option<Piece>,
))
    requires
        state.wf(),
        1 <= playout_number <= 0x4000_0000,
        state.turn != 0 ==> state.selected_piece is Some && num_empty(state.board@) > 0,
    ensures
        (r.0 is Some) == (state.turn != 0),
        r.0 is Some ==> (r.0->0).0 < 4 && (r.0->0).1 < 4 && state.board@[4 * (r.0->0).0 + (
        r.0->0).1] is None,
        (r.1 is Some) == (state.unused_pieces@.len() > 0),
        r.1 is Some ==> state.unused_pieces@.contains(r.1->0),
{
    let mut legal_places: Vec<(usize, usize)> = Vec::new();
    if !state.is_first_turn() {
        legal_places = state.legal_placements();
    }
    let mut legal_pieces: Vec<Piece> = Vec::new();
    if !state.is_last_turn() {
        legal_pieces = state.legal_pieces();
    }
    proof {
        crate::state::lemma_num_placed_bounds(state.board@);
    }
    let np: usize = if legal_places.len() == 0 {
        1
    } else {
        legal_places.len()
    };
    let nq: usize = if legal_pieces.len() == 0 {
        1
    } else {
        legal_pieces.len()
    };
    proof {
        assert(np <= 16 && nq <= 16);
        assert(1 <= np * nq <= 256) by (nonlinear_arith)
            requires
                1 <= np <= 16,
                1 <= nq <= 16,
        ;
    }
    let total = np * nq;
    let mut values: Vec<u64> = Vec::new();
    let mut cnts: Vec<u64> = Vec::new();
    let mut z: usize = 0;
    while z < total
        invariant
            z <= total,
            values@.len() == z,
            cnts@.len() == z,
            forall|t: int| 0 <= t < z ==> values@[t] == 0 && cnts@[t] == 0,
        decreases total - z,
    {
        values.push(0);
        cnts.push(0);
        z = z + 1;
    }
    let mut cnt: usize = 0;
    while cnt < playout_number
        invariant
            state.wf(),
            state.turn != 0 ==> state.selected_piece is Some && num_empty(state.board@) > 0,
            playout_number <= 0x4000_0000,
            1 <= np <= 16,
            1 <= nq <= 16,
            total == np * nq,
            values@.len() == total,
            cnts@.len() == total,
            (legal_places@.len() == 0) == (state.turn == 0),
            legal_places@.len() > 0 ==> np == legal_places@.len(),
            (legal_pieces@.len() == 0) == (state.unused_pieces@.len() == 0),
            legal_pieces@.len() > 0 ==> nq == legal_pieces@.len() && legal_pieces@
                == state.unused_pieces@,
            forall|t: int|
                0 <= t < legal_places@.len() ==> (#[trigger] legal_places@[t]).0 < 4
                    && legal_places@[t].1 < 4 && state.board@[4 * legal_places@[t].0
                    + legal_places@[t].1] is None,
            cnt <= playout_number,
            forall|t: int|
                0 <= t < total ==> #[trigger] cnts@[t] <= cnt && values@[t] <= 2 * cnts@[t],
            cnt > 0 ==> cnts@[0] >= 1,
        decreases playout_number - cnt,
    {
        let pi = cnt % np;
        let qi = cnt % nq;
        let mut next_state = state.duplicate();
        proof {
            assert(next_state.wf());
        }
        if legal_places.len() > 0 {
            let (h, w) = legal_places[pi];
            next_state.put_piece(h, w);
        }
        if legal_pieces.len() > 0 {
            let piece = legal_pieces[qi];
            proof {
                assert(legal_pieces@.contains(legal_pieces@[qi as int]));
                crate::state::lemma_num_placed_bounds(next_state.board@);
            }
            next_state.select_piece(piece);
        }
        let score = 2 - playout(&mut next_state);
        proof {
            assert(pi * nq + qi < total) by (nonlinear_arith)
                requires
                    pi < np,
                    qi < nq,
                    nq >= 1,
                    total == np * nq,
            ;
        }
        let idx = pi * nq + qi;
        let v0 = values[idx];
        let c0 = cnts[idx];
        values[idx] = v0 + score;
        cnts[idx] = c0 + 1;
        proof {
            if cnt == 0 {
                assert(pi == 0 && qi == 0 && idx == 0) by (nonlinear_arith)
                    requires
                        np >= 1,
                        nq >= 1,
                        pi == 0int % (np as int),
                        qi == 0int % (nq as int),
                        idx == pi * nq + qi,
                ;
            }
        }
        cnt = cnt + 1;
    }
    let mut best_pi: usize = 0;
    let mut best_qi: usize = 0;
    let mut best_v: u64 = 0;
    let mut best_c: u64 = 0;
    let mut have = false;
    let mut t: usize = 0;
    while t < total
        invariant
            1 <= np <= 16,
            1 <= nq <= 16,
            total >= 1,
            total == np * nq,
            values@.len() == total,
            cnts@.len() == total,
            playout_number <= 0x4000_0000,
            forall|u: int|
                0 <= u < total ==> #[trigger] cnts@[u] <= playout_number && values@[u] <= 2
                    * cnts@[u],
            cnts@[0] >= 1,
            t <= total,
            t > 0 ==> have,
            best_c <= playout_number,
            best_v <= 2 * playout_number,
            have ==> best_pi < np && best_qi < nq && best_c >= 1,
        decreases total - t,
    {
        let c = cnts[t];
        if c > 0 {
            let v = values[t];
            proof {
                assert(v * best_c <= 0x2000_0000_0000_0000 && best_v * c
                    <= 0x2000_0000_0000_0000) by (nonlinear_arith)
                    requires
                        v <= 2 * playout_number,
                        best_v <= 2 * playout_number,
                        c <= playout_number,
                        best_c <= playout_number,
                        playout_number <= 0x4000_0000,
                ;
            }
            let better = if !have {
                true
            } else {
                v * best_c > best_v * c
            };
            if better {
                have = true;
                proof {
                    assert(t / nq < np && t % nq < nq) by (nonlinear_arith)
                        requires
                            t < total,
                            total == np * nq,
                            nq >= 1,
                    ;
                }
                best_pi = t / nq;
                best_qi = t % nq;
                best_v = v;
                best_c = c;
            }
        }
        proof {
            if t == 0 {
                assert(cnts@[0] > 0);
            }
        }
        t = t + 1;
    }
    let place: Option<(usize, usize)> = if legal_places.len() == 0 {
        None
    } else {
        Some(legal_places[best_pi])
    };
    let piece: Option<Piece> = if legal_pieces.len() == 0 {
        None
    } else {
        proof {
            assert(legal_pieces@.contains(legal_pieces@[best_qi as int]));
        }
        Some(legal_pieces[best_qi])
    };
    (place, piece)
}

} // verus!
