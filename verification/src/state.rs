//! The board and game state machine: a 4x4 grid of optional pieces, the pool
//! of unused pieces, the piece pending placement, and win detection over the
//! ten lines (four rows, four columns, two diagonals).
use vstd::prelude::*;

use crate::piece::{Color, Height, Piece, Shape, Top, lemma_piece_index_of_index, piece_of_index};

verus! {

/// Number of board cells that hold a piece.
pub open spec fn num_placed(board: Seq<Option<Piece>>) -> int
    decreases board.len(),
{
    if board.len() == 0 {
        0
    } else {
        num_placed(board.drop_last()) + if board.last() is Some {
            1int
        } else {
            0int
        }
    }
}

/// Number of empty board cells.
pub open spec fn num_empty(board: Seq<Option<Piece>>) -> int {
    board.len() - num_placed(board)
}

pub proof fn lemma_num_placed_take_step(board: Seq<Option<Piece>>, n: int)
    requires
        0 <= n < board.len(),
    ensures
        num_placed(board.take(n + 1)) == num_placed(board.take(n)) + if board[n] is Some {
            1int
        } else {
            0int
        },
{
    let t = board.take(n + 1);
    assert(t.drop_last() =~= board.take(n));
    assert(t.last() == board[n]);
}

pub proof fn lemma_num_placed_bounds(board: Seq<Option<Piece>>)
    ensures
        0 <= num_placed(board) <= board.len(),
    decreases board.len(),
{
    if board.len() > 0 {
        lemma_num_placed_bounds(board.drop_last());
    }
}

/// Filling one empty cell raises the placed count by exactly one.
pub proof fn lemma_num_placed_update(board: Seq<Option<Piece>>, i: int, p: Piece)
    requires
        0 <= i < board.len(),
        board[i] is None,
    ensures
        num_placed(board.update(i, Some(p))) == num_placed(board) + 1,
    decreases board.len(),
{
    let u = board.update(i, Some(p));
    if i == board.len() - 1 {
        assert(u.drop_last() =~= board.drop_last());
    } else {
        assert(u.drop_last() =~= board.drop_last().update(i, Some(p)));
        lemma_num_placed_update(board.drop_last(), i, p);
    }
}

/// The coordinates (row, column) of cell `j` of winning line `k`.
/// Lines 0..4 are the rows, 4..8 the columns, 8 and 9 the two diagonals.
pub open spec fn line_cell(k: int, j: int) -> (int, int) {
    if k < 4 {
        (k, j)
    } else if k < 8 {
        (j, k - 4)
    } else if k == 8 {
        (j, j)
    } else {
        (j, 3 - j)
    }
}

/// Row-major board index of cell `j` of line `k`.
pub open spec fn line_idx(k: int, j: int) -> int {
    4 * line_cell(k, j).0 + line_cell(k, j).1
}

/// Four pieces agree on at least one attribute.
pub open spec fn four_share_attribute(a: Piece, b: Piece, c: Piece, d: Piece) -> bool {
    ||| (a.color == b.color && b.color == c.color && c.color == d.color)
    ||| (a.shape == b.shape && b.shape == c.shape && c.shape == d.shape)
    ||| (a.height == b.height && b.height == c.height && c.height == d.height)
    ||| (a.top == b.top && b.top == c.top && c.top == d.top)
}

/// Four cells win: all occupied and their pieces share an attribute.
pub open spec fn quad_wins(a: Option<Piece>, b: Option<Piece>, c: Option<Piece>, d: Option<
    Piece,
>) -> bool {
    &&& a is Some
    &&& b is Some
    &&& c is Some
    &&& d is Some
    &&& four_share_attribute(a->0, b->0, c->0, d->0)
}

pub open spec fn line_wins(board: Seq<Option<Piece>>, k: int) -> bool {
    quad_wins(
        board[line_idx(k, 0)],
        board[line_idx(k, 1)],
        board[line_idx(k, 2)],
        board[line_idx(k, 3)],
    )
}

/// Some of the ten lines is a winning line.
pub open spec fn board_wins(board: Seq<Option<Piece>>) -> bool {
    exists|k: int| 0 <= k < 10 && #[trigger] line_wins(board, k)
}

/// `(h, w)` is the `k`-th empty cell of the board in row-major order.
pub open spec fn is_kth_empty_cell(board: Seq<Option<Piece>>, k: int, h: usize, w: usize) -> bool {
    &&& h < 4
    &&& w < 4
    &&& board[4 * h + w] is None
    &&& num_empty(board.take(4 * h + w)) == k
}

/// Two states hold exactly the same configuration.
pub open spec fn same_config(a: State, b: State) -> bool {
    &&& a.turn == b.turn
    &&& a.unused_pieces@ == b.unused_pieces@
    &&& a.board@ == b.board@
    &&& a.active_player == b.active_player
    &&& a.selected_piece == b.selected_piece
}

/// A winning board survives any placement: a filled cell is never cleared,
/// so the cells of an existing winning line are untouched by a write into
/// an empty cell. This is the board half of "a terminal state is never
/// un-terminated"; the pool half is that the pool never grows.
pub proof fn lemma_win_survives_placement(board: Seq<Option<Piece>>, i: int, p: Piece)
    requires
        board.len() == 16,
        0 <= i < 16,
        board[i] is None,
        board_wins(board),
    ensures
        board_wins(board.update(i, Some(p))),
{
    let u = board.update(i, Some(p));
    let k = choose|k: int| 0 <= k < 10 && #[trigger] line_wins(board, k);
    assert(line_wins(u, k)) by {
        assert(forall|j: int| 0 <= j < 4 ==> board[#[trigger] line_idx(k, j)] is Some);
        assert(forall|j: int| 0 <= j < 4 ==> u[#[trigger] line_idx(k, j)] == board[line_idx(k, j)]);
    }
}

/// `post` arises from `pre` by one placement: the pending piece written
/// into an empty cell, the pool untouched. `put_piece` ensures this of its
/// pre- and post-state.
pub open spec fn placement_step(pre: State, post: State) -> bool {
    exists|h: usize, w: usize|
        h < 4 && w < 4 && #[trigger] pre.board@[4 * h + w] is None
            && pre.selected_piece is Some && post.board@ == pre.board@.update(
            4 * h + w,
            pre.selected_piece,
        ) && post.unused_pieces@ == pre.unused_pieces@
}

/// `post` arises from `pre` by one selection: the board untouched, the
/// pool not grown. `select_piece` ensures this of its pre- and post-state.
pub open spec fn selection_step(pre: State, post: State) -> bool {
    post.board@ == pre.board@ && post.unused_pieces@.len() <= pre.unused_pieces@.len()
}

/// A terminal state is never un-terminated: one placement or one selection
/// applied to a done state yields a done state, so by induction a done
/// state stays done under every allowed sequence of operations.
pub proof fn lemma_done_is_monotonic(pre: State, post: State)
    requires
        pre.board@.len() == 16,
        pre.is_done_spec(),
        placement_step(pre, post) || selection_step(pre, post),
    ensures
        post.is_done_spec(),
{
    if placement_step(pre, post) {
        if board_wins(pre.board@) {
            let (h, w) = choose|h: usize, w: usize|
                h < 4 && w < 4 && #[trigger] pre.board@[4 * h + w] is None
                    && pre.selected_piece is Some && post.board@ == pre.board@.update(
                    4 * h + w,
                    pre.selected_piece,
                ) && post.unused_pieces@ == pre.unused_pieces@;
            lemma_win_survives_placement(pre.board@, 4 * h + w, pre.selected_piece->0);
        }
    }
}

/// A line with any empty cell never wins, whatever the pieces on it share.
pub proof fn lemma_incomplete_line_never_wins(board: Seq<Option<Piece>>, k: int, j: int)
    requires
        board.len() == 16,
        0 <= k < 10,
        0 <= j < 4,
        board[line_idx(k, j)] is None,
    ensures
        !line_wins(board, k),
{
}

/// A complete line whose pieces all share one attribute value is a winning line.
pub proof fn lemma_shared_attribute_wins(a: Piece, b: Piece, c: Piece, d: Piece)
    requires
        (a.color == b.color && b.color == c.color && c.color == d.color) || (a.shape == b.shape
            && b.shape == c.shape && c.shape == d.shape) || (a.height == b.height && b.height
            == c.height && c.height == d.height) || (a.top == b.top && b.top == c.top && c.top
            == d.top),
    ensures
        quad_wins(Some(a), Some(b), Some(c), Some(d)),
{
}

#[derive(Clone, Copy, PartialEq, Eq, Structural, Debug)]
pub enum WinningStatus {
    WIN,
    LOSE,
    DRAW,
    NONE,
}

pub struct State {
    /// Number of piece selections performed so far.
    pub turn: usize,
    /// Pieces neither placed nor pending placement, each listed once.
    pub unused_pieces: Vec<Piece>,
    /// The 16 cells in row-major order; a filled cell is never cleared.
    pub board: Vec<Option<Piece>>,
    /// 0 or 1; toggled by each selection.
    pub active_player: usize,
    /// The piece handed over by the previous player, awaiting placement.
    pub selected_piece: Option<Piece>,
}

impl State {
    pub open spec fn sel_count(&self) -> int {
        if self.selected_piece is Some {
            1int
        } else {
            0int
        }
    }

    /// All sixteen pieces are accounted for: pool + board + pending piece.
    pub open spec fn piece_conservation(&self) -> bool {
        self.unused_pieces@.len() + num_placed(self.board@) + self.sel_count() == 16
    }

    pub open spec fn wf(&self) -> bool {
        &&& self.board@.len() == 16
        &&& self.piece_conservation()
        &&& self.turn == 16 - self.unused_pieces@.len()
        &&& self.active_player == self.turn % 2
        &&& self.unused_pieces@.no_duplicates()
    }

    pub open spec fn is_done_spec(&self) -> bool {
        self.unused_pieces@.len() == 0 || board_wins(self.board@)
    }

    /// The initial state: empty board, full pool, no pending piece.
    pub fn new() -> (s: State)
        ensures
            s.wf(),
            s.turn == 0,
            s.active_player == 0,
            s.selected_piece is None,
            s.unused_pieces@.len() == 16,
            forall|k: int| 0 <= k < 16 ==> s.unused_pieces@[k] == piece_of_index(k),
            forall|i: int| 0 <= i < 16 ==> s.board@[i] is None,
    {
        let mut board: Vec<Option<Piece>> = Vec::new();
        let mut i: usize = 0;
        while i < 16
            invariant
                i <= 16,
                board@.len() == i,
                forall|t: int| 0 <= t < i ==> board@[t] is None,
            decreases 16 - i,
        {
            board.push(None);
            i = i + 1;
        }
        let mut unused_pieces: Vec<Piece> = Vec::new();
        let mut j: usize = 0;
        while j < 16
            invariant
                j <= 16,
                unused_pieces@.len() == j,
                forall|k: int| 0 <= k < j ==> unused_pieces@[k] == piece_of_index(k),
            decreases 16 - j,
        {
            unused_pieces.push(Piece::from_index(j));
            j = j + 1;
        }
        proof {
            assert(num_placed(board@) == 0) by {
                lemma_all_empty_num_placed(board@);
            }
            assert(unused_pieces@.no_duplicates()) by {
                assert forall|a: int, b: int|
                    0 <= a < b < unused_pieces@.len() implies unused_pieces@[a]
                    != unused_pieces@[b] by {
                    lemma_piece_index_of_index(a);
                    lemma_piece_index_of_index(b);
                }
            }
        }
        State { turn: 0, unused_pieces, board, active_player: 0, selected_piece: None }
    }

    /// All currently empty cells, in row-major order.
    pub fn legal_placements(&self) -> (r: Vec<(usize, usize)>)
        requires
            self.wf(),
        ensures
            r@.len() == num_empty(self.board@),
            forall|t: int|
                0 <= t < r@.len() ==> (#[trigger] r@[t]).0 < 4 && r@[t].1 < 4 && self.board@[4
                    * r@[t].0 + r@[t].1] is None,
            forall|h: usize, w: usize|
                h < 4 && w < 4 && self.board@[4 * h + w] is None ==> r@.contains((h, w)),
            forall|t1: int, t2: int|
                0 <= t1 < t2 < r@.len() ==> 4 * r@[t1].0 + r@[t1].1 < 4 * r@[t2].0 + r@[t2].1,
            forall|t: int|
                0 <= t < r@.len() ==> is_kth_empty_cell(
                    self.board@,
                    t,
                    (#[trigger] r@[t]).0,
                    r@[t].1,
                ),
    {
        let mut r: Vec<(usize, usize)> = Vec::new();
        let mut idx: usize = 0;
        while idx < 16
            invariant
                self.wf(),
                idx <= 16,
                r@.len() == num_empty(self.board@.take(idx as int)),
                forall|t: int|
                    0 <= t < r@.len() ==> (#[trigger] r@[t]).0 < 4 && r@[t].1 < 4 && self.board@[4
                        * r@[t].0 + r@[t].1] is None,
                forall|h: usize, w: usize|
                    h < 4 && w < 4 && 4 * h + w < idx && self.board@[4 * h + w] is None
                        ==> #[trigger] r@.contains((h, w)),
                forall|t1: int, t2: int|
                    0 <= t1 < t2 < r@.len() ==> 4 * r@[t1].0 + r@[t1].1 < 4 * r@[t2].0 + r@[t2].1,
                forall|t: int| 0 <= t < r@.len() ==> 4 * (#[trigger] r@[t]).0 + r@[t].1 < idx,
                forall|t: int|
                    0 <= t < r@.len() ==> is_kth_empty_cell(
                        self.board@,
                        t,
                        (#[trigger] r@[t]).0,
                        r@[t].1,
                    ),
            decreases 16 - idx,
        {
            proof {
                lemma_num_placed_take_step(self.board@, idx as int);
            }
            let h = idx / 4;
            let w = idx % 4;
            let ghost old_r = r@;
            if self.board[idx].is_none() {
                r.push((h, w));
            }
            proof {
                assert forall|hh: usize, ww: usize|
                    hh < 4 && ww < 4 && 4 * hh + ww < idx + 1 && self.board@[4 * hh
                        + ww] is None implies r@.contains((hh, ww)) by {
                    if 4 * hh + ww < idx {
                        assert(old_r.contains((hh, ww)));
                        let t = choose|t: int|
                            0 <= t < old_r.len() && old_r[t] == (hh, ww);
                        assert(r@[t] == (hh, ww));
                        assert(r@.contains((hh, ww)));
                    } else {
                        assert(hh == h && ww == w);
                        assert(r@[r@.len() - 1] == (h, w));
                    }
                }
            }
            idx = idx + 1;
        }
        proof {
            assert(self.board@.take(16) =~= self.board@);
        }
        r
    }

    /// True before any selection has happened: nothing to place yet.
    pub fn is_first_turn(&self) -> (r: bool)
        ensures
            r == (self.turn == 0),
    {
        self.turn == 0
    }

    /// True when no piece is left to hand over: the pending placement,
    /// if any, is the game's final action.
    pub fn is_last_turn(&self) -> (r: bool)
        ensures
            r == (self.unused_pieces@.len() == 0),
    {
        self.unused_pieces.len() == 0
    }

    pub fn is_first_player(&self) -> (r: bool)
        ensures
            r == (self.active_player == 0),
    {
        self.active_player == 0
    }

    /// The current pool, in its fixed order.
    pub fn legal_pieces(&self) -> (r: Vec<Piece>)
        ensures
            r@ == self.unused_pieces@,
    {
        let mut r: Vec<Piece> = Vec::new();
        let mut i: usize = 0;
        while i < self.unused_pieces.len()
            invariant
                i <= self.unused_pieces@.len(),
                r@ == self.unused_pieces@.take(i as int),
            decreases self.unused_pieces@.len() - i,
        {
            let ghost old_r = r@;
            r.push(self.unused_pieces[i]);
            proof {
                assert(r@ =~= self.unused_pieces@.take(i + 1));
            }
            i = i + 1;
        }
        proof {
            assert(self.unused_pieces@.take(self.unused_pieces@.len() as int)
                =~= self.unused_pieces@);
        }
        r
    }

    /// An independent copy of the state, for hypothetical exploration.
    pub fn duplicate(&self) -> (r: State)
        ensures
            r.turn == self.turn,
            r.unused_pieces@ == self.unused_pieces@,
            r.board@ == self.board@,
            r.active_player == self.active_player,
            r.selected_piece == self.selected_piece,
    {
        let mut board: Vec<Option<Piece>> = Vec::new();
        let mut i: usize = 0;
        while i < self.board.len()
            invariant
                i <= self.board@.len(),
                board@ == self.board@.take(i as int),
            decreases self.board@.len() - i,
        {
            board.push(self.board[i]);
            proof {
                assert(board@ =~= self.board@.take(i + 1));
            }
            i = i + 1;
        }
        let unused_pieces = self.legal_pieces();
        proof {
            assert(self.board@.take(self.board@.len() as int) =~= self.board@);
        }
        State {
            turn: self.turn,
            unused_pieces,
            board,
            active_player: self.active_player,
            selected_piece: self.selected_piece,
        }
    }

    /// Writes the pending piece into an empty cell and clears the pending slot.
    /// A done state stays done: filled cells are never cleared, so an existing
    /// winning line survives every later placement.
    pub fn put_piece(&mut self, h: usize, w: usize)
        requires
            old(self).wf(),
            h < 4,
            w < 4,
            old(self).board@[4 * h + w] is None,
            old(self).selected_piece is Some,
        ensures
            final(self).wf(),
            final(self).board@ == old(self).board@.update(4 * h + w, old(self).selected_piece),
            final(self).selected_piece is None,
            final(self).turn == old(self).turn,
            final(self).active_player == old(self).active_player,
            final(self).unused_pieces@ == old(self).unused_pieces@,
            old(self).is_done_spec() ==> final(self).is_done_spec(),
    {
        let idx = 4 * h + w;
        let sel = self.selected_piece;
        self.board[idx] = sel;
        self.selected_piece = None;
        proof {
            let ob = old(self).board@;
            let p = old(self).selected_piece->0;
            assert(self.board@ =~= ob.update(idx as int, Some(p)));
            lemma_num_placed_update(ob, idx as int, p);
            if board_wins(ob) {
                lemma_win_survives_placement(ob, idx as int, p);
            }
        }
    }

    /// Removes `piece` from the pool, makes it the pending piece, advances the
    /// turn counter and hands the move to the other player. A done state stays
    /// done: the board is untouched and the pool only shrinks.
    pub fn select_piece(&mut self, piece: Piece)
        requires
            old(self).wf(),
            old(self).unused_pieces@.contains(piece),
            old(self).selected_piece is None,
        ensures
            final(self).wf(),
            final(self).board@ == old(self).board@,
            final(self).selected_piece == Some(piece),
            final(self).turn == old(self).turn + 1,
            final(self).active_player == 1 - old(self).active_player,
            final(self).unused_pieces@.len() == old(self).unused_pieces@.len() - 1,
            final(self).unused_pieces@ == old(self).unused_pieces@.remove_value(piece),
            forall|q: Piece|
                final(self).unused_pieces@.contains(q) <==> (old(
                    self,
                ).unused_pieces@.contains(q) && q != piece),
            old(self).is_done_spec() ==> final(self).is_done_spec(),
    {
        let mut i: usize = 0;
        let n = self.unused_pieces.len();
        while i < n && !(self.unused_pieces[i] == piece)
            invariant
                n == self.unused_pieces@.len(),
                i <= n,
                forall|t: int| 0 <= t < i ==> self.unused_pieces@[t] != piece,
                self == old(self),
            decreases n - i,
        {
            i = i + 1;
        }
        proof {
            assert(self.unused_pieces@.contains(piece));
            let w = choose|w: int| 0 <= w < self.unused_pieces@.len() && self.unused_pieces@[w]
                == piece;
            assert(i < n) by {
                if i == n {
                    assert(self.unused_pieces@[w] != piece);
                }
            }
        }
        let ghost before = self.unused_pieces@;
        self.unused_pieces.remove(i);
        self.selected_piece = Some(piece);
        self.turn = self.turn + 1;
        self.active_player = 1 - self.active_player;
        proof {
            before.remove_ensures(i as int);
            lemma_remove_contains(before, i as int);
            lemma_remove_no_duplicates(before, i as int);
            assert(before[i as int] == piece);
            before.index_of_first_ensures(piece);
            assert(before.index_of_first(piece) == Some(i as int)) by {
                let i0 = before.index_of_first(piece)->0;
                if i0 < i {
                    assert(before[i0] != piece);
                } else if i0 > i {
                    assert(before[i as int] != piece);
                }
            }
            assert forall|q: Piece| #[trigger]
                self.unused_pieces@.contains(q) <==> (before.contains(q) && q != piece) by {
                if before.contains(q) && q != piece {
                    let t = choose|t: int| 0 <= t < before.len() && before[t] == q;
                    if t < i {
                        assert(self.unused_pieces@[t] == q);
                    } else {
                        assert(t != i);
                        assert(self.unused_pieces@[t - 1] == q);
                    }
                    assert(self.unused_pieces@.contains(q));
                }
            }
        }
    }

    /// Four cells win exactly when all four are occupied and share an
    /// attribute.
    pub fn have_common_attribute(a: Option<Piece>, b: Option<Piece>, c: Option<Piece>, d: Option<
        Piece,
    >) -> (r: bool)
        ensures
            r == quad_wins(a, b, c, d),
    {
        match (a, b, c, d) {
            (Some(a), Some(b), Some(c), Some(d)) => {
                let color = a.color == b.color && b.color == c.color && c.color == d.color;
                let shape = a.shape == b.shape && b.shape == c.shape && c.shape == d.shape;
                let height = a.height == b.height && b.height == c.height && c.height == d.height;
                let top = a.top == b.top && b.top == c.top && c.top == d.top;
                color || shape || height || top
            },
            _ => false,
        }
    }

    /// Whether a winning line exists on the board right now.
    pub fn can_win(&self) -> (r: bool)
        requires
            self.wf(),
        ensures
            r == board_wins(self.board@),
    {
        let b = &self.board;
        if Self::have_common_attribute(b[0], b[1], b[2], b[3]) {
            proof {
                assert(line_wins(self.board@, 0));
            }
            return true;
        }
        if Self::have_common_attribute(b[4], b[5], b[6], b[7]) {
            proof {
                assert(line_wins(self.board@, 1));
            }
            return true;
        }
        if Self::have_common_attribute(b[8], b[9], b[10], b[11]) {
            proof {
                assert(line_wins(self.board@, 2));
            }
            return true;
        }
        if Self::have_common_attribute(b[12], b[13], b[14], b[15]) {
            proof {
                assert(line_wins(self.board@, 3));
            }
            return true;
        }
        if Self::have_common_attribute(b[0], b[4], b[8], b[12]) {
            proof {
                assert(line_wins(self.board@, 4));
            }
            return true;
        }
        if Self::have_common_attribute(b[1], b[5], b[9], b[13]) {
            proof {
                assert(line_wins(self.board@, 5));
            }
            return true;
        }
        if Self::have_common_attribute(b[2], b[6], b[10], b[14]) {
            proof {
                assert(line_wins(self.board@, 6));
            }
            return true;
        }
        if Self::have_common_attribute(b[3], b[7], b[11], b[15]) {
            proof {
                assert(line_wins(self.board@, 7));
            }
            return true;
        }
        if Self::have_common_attribute(b[0], b[5], b[10], b[15]) {
            proof {
                assert(line_wins(self.board@, 8));
            }
            return true;
        }
        if Self::have_common_attribute(b[3], b[6], b[9], b[12]) {
            proof {
                assert(line_wins(self.board@, 9));
            }
            return true;
        }
        proof {
            assert forall|k: int| 0 <= k < 10 implies !#[trigger] line_wins(self.board@, k) by {
                if k == 0 {
                    assert(!line_wins(self.board@, 0));
                } else if k == 1 {
                    assert(!line_wins(self.board@, 1));
                } else if k == 2 {
                    assert(!line_wins(self.board@, 2));
                } else if k == 3 {
                    assert(!line_wins(self.board@, 3));
                } else if k == 4 {
                    assert(!line_wins(self.board@, 4));
                } else if k == 5 {
                    assert(!line_wins(self.board@, 5));
                } else if k == 6 {
                    assert(!line_wins(self.board@, 6));
                } else if k == 7 {
                    assert(!line_wins(self.board@, 7));
                } else if k == 8 {
                    assert(!line_wins(self.board@, 8));
                } else {
                    assert(!line_wins(self.board@, 9));
                }
            }
        }
        false
    }

    /// Whether placing the pending piece at `(h, w)` completes a winning
    /// line; the state itself is not touched.
    pub fn can_put_then_win(&self, h: usize, w: usize) -> (r: bool)
        requires
            self.wf(),
            h < 4,
            w < 4,
            self.board@[4 * h + w] is None,
            self.selected_piece is Some,
        ensures
            r == board_wins(self.board@.update(4 * h + w, self.selected_piece)),
    {
        let mut probe = self.duplicate();
        proof {
            assert(probe.wf());
        }
        probe.put_piece(h, w);
        probe.can_win()
    }

    /// The game is over once the pool is empty or a winning line exists.
    pub fn is_done(&self) -> (r: bool)
        requires
            self.wf(),
        ensures
            r == self.is_done_spec(),
    {
        self.unused_pieces.len() == 0 || self.can_win()
    }

    /// WIN iff a winning line exists; else DRAW iff the pool is empty;
    /// else NONE. LOSE is never produced.
    pub fn get_winning_status(&self) -> (r: WinningStatus)
        requires
            self.wf(),
        ensures
            (r == WinningStatus::WIN) == board_wins(self.board@),
            (r == WinningStatus::DRAW) == (!board_wins(self.board@) && self.unused_pieces@.len()
                == 0),
            (r == WinningStatus::NONE) == !self.is_done_spec(),
            r != WinningStatus::LOSE,
    {
        if !self.is_done() {
            return WinningStatus::NONE;
        }
        if self.can_win() {
            return WinningStatus::WIN;
        }
        WinningStatus::DRAW
    }
}

/// Piece conservation: every well-formed state accounts for all sixteen
/// pieces across the pool, the board and the pending slot.
pub proof fn lemma_piece_conservation(s: State)
    requires
        s.wf(),
    ensures
        s.unused_pieces@.len() + num_placed(s.board@) + s.sel_count() == 16,
{
}

proof fn lemma_all_empty_num_placed(board: Seq<Option<Piece>>)
    requires
        forall|i: int| 0 <= i < board.len() ==> board[i] is None,
    ensures
        num_placed(board) == 0,
    decreases board.len(),
{
    if board.len() > 0 {
        lemma_all_empty_num_placed(board.drop_last());
    }
}

/// Removing position `i` from a duplicate-free sequence removes exactly the
/// element at `i` from the membership of the sequence.
proof fn lemma_remove_contains(s: Seq<Piece>, i: int)
    requires
        0 <= i < s.len(),
        s.no_duplicates(),
    ensures
        forall|q: Piece| #[trigger] s.remove(i).contains(q) ==> s.contains(q) && q != s[i],
{
    s.remove_ensures(i);
    assert forall|q: Piece| #[trigger] s.remove(i).contains(q) implies s.contains(q) && q
        != s[i] by {
        let t = choose|t: int| 0 <= t < s.remove(i).len() && s.remove(i)[t] == q;
        if t < i {
            assert(s[t] == q);
        } else {
            assert(s[t + 1] == q);
        }
    }
}

proof fn lemma_remove_no_duplicates(s: Seq<Piece>, i: int)
    requires
        0 <= i < s.len(),
        s.no_duplicates(),
    ensures
        s.remove(i).no_duplicates(),
{
    s.remove_ensures(i);
    let r = s.remove(i);
    assert forall|a: int, b: int| 0 <= a < b < r.len() implies r[a] != r[b] by {
        let sa: int = if a < i {
            a
        } else {
            a + 1
        };
        let sb: int = if b < i {
            b
        } else {
            b + 1
        };
        assert(r[a] == s[sa]);
        assert(r[b] == s[sb]);
    }
}

} // verus!
