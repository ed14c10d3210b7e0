use quarto::mcts::{mcts_action, mcts_search, most_visited_action, ucb_score, Node};
use quarto::montecarlo::{find_winning_place, playout, primitive_monte_carlo_action};
use quarto::numeric::{isqrt, log2_floor_u64};
use quarto::piece::Piece;
use quarto::random::random_action;
use quarto::state::State;

/// Two selections and one placement in: 15 empty cells, 14 pieces left.
fn mid_game_state() -> State {
    let mut s = State::new();
    s.select_piece(Piece::from_index(0));
    s.put_piece(0, 0);
    s.select_piece(Piece::from_index(5));
    s
}

/// Fifteen placements done, pool empty, the last piece in hand and exactly
/// cell (3, 3) free.
fn last_turn_state() -> State {
    let mut s = State::new();
    for i in 0..15 {
        s.select_piece(Piece::from_index(i));
        s.put_piece(i / 4, i % 4);
    }
    s.select_piece(Piece::from_index(15));
    s
}

/// Three black pieces in row 0 and a black piece in hand: placing it at
/// (0, 3) wins at once.
fn forced_win_state() -> State {
    let mut s = State::new();
    for i in 0..3 {
        s.select_piece(Piece::from_index(i));
        s.put_piece(0, i);
    }
    s.select_piece(Piece::from_index(3));
    s
}

#[test]
fn primitive_mc_returns_legal_pair_with_minimal_budget() {
    let s = mid_game_state();
    let pairs = s.legal_placements().len() * s.legal_pieces().len();
    let (place, piece) = primitive_monte_carlo_action(&s, pairs);
    let (h, w) = place.expect("a placement is owed after the first turn");
    assert!(s.legal_placements().contains(&(h, w)));
    let piece = piece.expect("a piece is owed before the last turn");
    assert!(s.legal_pieces().contains(&piece));
}

#[test]
fn primitive_mc_with_budget_one() {
    let s = mid_game_state();
    let (place, piece) = primitive_monte_carlo_action(&s, 1);
    assert!(s.legal_placements().contains(&place.unwrap()));
    assert!(s.legal_pieces().contains(&piece.unwrap()));
}

#[test]
fn primitive_mc_on_last_turn_forces_the_cell() {
    let s = last_turn_state();
    let (place, piece) = primitive_monte_carlo_action(&s, 8);
    assert_eq!(place, Some((3, 3)));
    assert_eq!(piece, None);
}

#[test]
fn mcts_on_first_turn_hands_over_a_piece() {
    let s = State::new();
    let (place, piece) = mcts_action(&s, 100);
    assert_eq!(place, None);
    let piece = piece.expect("the first action is a selection");
    assert!(s.legal_pieces().contains(&piece));
    assert_eq!(s.legal_pieces().len(), 16);
}

#[test]
fn mcts_on_last_turn_forces_the_cell() {
    let s = last_turn_state();
    let (place, piece) = mcts_action(&s, 100);
    assert_eq!(place, Some((3, 3)));
    assert_eq!(piece, None);
}

#[test]
fn mcts_mid_game_returns_legal_pair() {
    let s = mid_game_state();
    let (place, piece) = mcts_action(&s, 300);
    assert!(s.legal_placements().contains(&place.unwrap()));
    assert!(s.legal_pieces().contains(&piece.unwrap()));
}

#[test]
fn mcts_root_expands_to_the_full_action_grid() {
    let s = mid_game_state();
    let expected = s.legal_placements().len() * s.legal_pieces().len();
    assert_eq!(expected, 15 * 14);
    let root = mcts_search(&s, expected);
    assert_eq!(root.child_nodes.len(), expected);
    for child in &root.child_nodes {
        assert!(child.trials >= 1, "budget covers every child once");
        let (h, w) = child.put_place.expect("every child records its placement");
        assert!(s.legal_placements().contains(&(h, w)));
        let piece = child.selected_piece.expect("every child records its hand-over");
        assert!(s.legal_pieces().contains(&piece));
    }
}

#[test]
fn most_visited_action_picks_the_first_maximum() {
    let s = mid_game_state();
    let root = mcts_search(&s, 50);
    let (place, piece) = most_visited_action(&root);
    let max = root.child_nodes.iter().map(|c| c.trials).max().unwrap();
    let idx = root.child_nodes.iter().position(|c| c.trials == max).unwrap();
    assert_eq!(place, root.child_nodes[idx].put_place);
    assert_eq!(piece, root.child_nodes[idx].selected_piece);
}

#[test]
fn expand_on_empty_pool_gives_one_child_per_cell() {
    let s = last_turn_state();
    let mut node = Node::new(s);
    node.expand();
    assert_eq!(node.child_nodes.len(), 1);
    assert_eq!(node.child_nodes[0].put_place, Some((3, 3)));
    assert_eq!(node.child_nodes[0].selected_piece, None);
}

#[test]
fn evaluate_scores_a_won_state_zero_for_the_mover_to_come() {
    let mut s = State::new();
    for i in 0..4 {
        s.select_piece(Piece::from_index(i));
        s.put_piece(0, i);
    }
    let mut node = Node::new(s);
    assert_eq!(node.evaluate(), 0);
    assert_eq!(node.trials, 1);
    assert_eq!(node.cumulative_value, 0);
    assert_eq!(node.child_nodes.len(), 0);
}

#[test]
fn find_winning_place_takes_the_forced_win() {
    let s = forced_win_state();
    assert_eq!(find_winning_place(&s), Some((0, 3)));
    assert!(s.can_put_then_win(0, 3));
}

#[test]
fn playout_takes_an_immediate_win_deterministically() {
    for _ in 0..20 {
        let mut s = forced_win_state();
        assert_eq!(playout(&mut s), 2);
        assert!(s.can_win());
    }
}

#[test]
fn playout_scores_terminal_states() {
    let mut won = State::new();
    for i in 0..4 {
        won.select_piece(Piece::from_index(i));
        won.put_piece(0, i);
    }
    assert_eq!(playout(&mut won), 2);
}

#[test]
fn random_action_is_legal() {
    for _ in 0..20 {
        let s = mid_game_state();
        let (place, piece) = random_action(&s);
        let (h, w) = place.expect("a placement is owed after the first turn");
        assert!(s.legal_placements().contains(&(h, w)));
        if let Some(p) = piece {
            assert!(s.legal_pieces().contains(&p));
        } else {
            // The hand-over is skipped only for an immediately winning placement.
            assert!(s.can_put_then_win(h, w));
        }
    }
}

#[test]
fn random_action_on_first_turn_selects_only() {
    let s = State::new();
    let (place, piece) = random_action(&s);
    assert_eq!(place, None);
    assert!(s.legal_pieces().contains(&piece.unwrap()));
}

#[test]
fn fixed_point_helpers_exact_values() {
    assert_eq!(isqrt(0), 0);
    assert_eq!(isqrt(15), 3);
    assert_eq!(isqrt(16), 4);
    assert_eq!(isqrt(1386294000000), 1177409);
    assert_eq!(log2_floor_u64(1), 0);
    assert_eq!(log2_floor_u64(2), 1);
    assert_eq!(log2_floor_u64(3), 1);
    assert_eq!(log2_floor_u64(1024), 10);
}

#[test]
fn ucb_score_exact_values() {
    // One visit, one total trial: exploitation only, ln term zero.
    assert_eq!(ucb_score(1, 1, 1), 500_000);
    // Unrewarded child under two total trials: full exploitation term plus
    // sqrt(2 ln 2) in millionths, the logarithm at floor(log2) precision.
    assert_eq!(ucb_score(0, 1, 2), 1_000_000 + 1_177_409);
}
