//! Monte Carlo tree search over the combined (placement, hand-over) action
//! space: UCB1 child selection in fixed-point arithmetic, lazy expansion
//! after a visit threshold, and backpropagation of alternating-perspective
//! values in half-points (2 win, 1 draw, 0 loss).
use vstd::prelude::*;

use crate::montecarlo::playout;
use crate::numeric::{log2_floor, sqrt_floor, isqrt, log2_floor_u64};
use crate::piece::Piece;
use crate::rng::random_usize;
use crate::state::{
    State, WinningStatus, lemma_num_placed_bounds, lemma_num_placed_update, num_empty,
    num_placed,
};

verus! {

/// A node is expanded once its own visit count reaches this threshold.
pub const EXPAND_THRESHOLD: u64 = 10;

/// One node of the search tree: a hypothetical state, its visit statistics,
/// its expanded children, and the action that produced it from its parent.
pub struct Node {
    pub state: State,
    pub child_nodes: Vec<Node>,
    pub trials: u64,
    pub cumulative_value: u64,
    pub put_place: Option<(usize, usize)>,
    pub selected_piece: Option<Piece>,
}

/// Total visits over a sibling list.
pub open spec fn sum_trials(nodes: Seq<Node>) -> int
    decreases nodes.len(),
{
    if nodes.len() == 0 {
        0
    } else {
        sum_trials(nodes.drop_last()) + nodes.last().trials
    }
}

/// Number of never-visited nodes in a sibling list.
pub open spec fn num_unvisited(nodes: Seq<Node>) -> int
    decreases nodes.len(),
{
    if nodes.len() == 0 {
        0
    } else {
        num_unvisited(nodes.drop_last()) + if nodes.last().trials == 0 {
            1int
        } else {
            0int
        }
    }
}

proof fn lemma_sum_trials_take_step(nodes: Seq<Node>, n: int)
    requires
        0 <= n < nodes.len(),
    ensures
        sum_trials(nodes.take(n + 1)) == sum_trials(nodes.take(n)) + nodes[n].trials,
{
    assert(nodes.take(n + 1).drop_last() =~= nodes.take(n));
    assert(nodes.take(n + 1).last() == nodes[n]);
}

proof fn lemma_sum_trials_element_bound(nodes: Seq<Node>, i: int)
    requires
        0 <= i < nodes.len(),
    ensures
        nodes[i].trials <= sum_trials(nodes),
    decreases nodes.len(),
{
    if i == nodes.len() - 1 {
        lemma_sum_trials_nonneg(nodes.drop_last());
    } else {
        lemma_sum_trials_element_bound(nodes.drop_last(), i);
    }
}

proof fn lemma_sum_trials_nonneg(nodes: Seq<Node>)
    ensures
        sum_trials(nodes) >= 0,
    decreases nodes.len(),
{
    if nodes.len() > 0 {
        lemma_sum_trials_nonneg(nodes.drop_last());
    }
}

/// One tree walk touched exactly the sibling at `j`: its visit count rose by
/// one and every other sibling is unchanged.
pub open spec fn one_visit_step(pre: Seq<Node>, post: Seq<Node>, j: int) -> bool {
    &&& 0 <= j < pre.len()
    &&& post.len() == pre.len()
    &&& post[j].trials == pre[j].trials + 1
    &&& post[j].put_place == pre[j].put_place
    &&& post[j].selected_piece == pre[j].selected_piece
    &&& forall|i: int| 0 <= i < pre.len() && i != j ==> post[i] == pre[i]
}

proof fn lemma_one_visit_step_unvisited(pre: Seq<Node>, post: Seq<Node>, j: int)
    requires
        one_visit_step(pre, post, j),
    ensures
        num_unvisited(post) == num_unvisited(pre) - if pre[j].trials == 0 {
            1int
        } else {
            0int
        },
    decreases pre.len(),
{
    if pre.len() > 0 {
        if j == pre.len() - 1 {
            assert(post.drop_last() =~= pre.drop_last());
        } else {
            assert(post.last() == pre.last());
            lemma_one_visit_step_unvisited(pre.drop_last(), post.drop_last(), j);
        }
    }
}

proof fn lemma_num_unvisited_bounds(nodes: Seq<Node>)
    ensures
        0 <= num_unvisited(nodes) <= nodes.len(),
    decreases nodes.len(),
{
    if nodes.len() > 0 {
        lemma_num_unvisited_bounds(nodes.drop_last());
    }
}

proof fn lemma_all_visited(nodes: Seq<Node>)
    requires
        num_unvisited(nodes) == 0,
    ensures
        forall|i: int| 0 <= i < nodes.len() ==> (#[trigger] nodes[i]).trials >= 1,
    decreases nodes.len(),
{
    if nodes.len() > 0 {
        lemma_num_unvisited_bounds(nodes.drop_last());
        lemma_all_visited(nodes.drop_last());
        assert forall|i: int| 0 <= i < nodes.len() implies (#[trigger] nodes[i]).trials >= 1 by {
            if i < nodes.len() - 1 {
                assert(nodes[i] == nodes.drop_last()[i]);
                assert(nodes.drop_last()[i].trials >= 1);
            } else {
                assert(nodes[i] == nodes.last());
            }
        }
    }
}

/// The fixed-point UCB1 score, in millionths: the exploitation term
/// `1 - mean` (the child stores its value one ply deeper, hence inverted)
/// plus the exploration term `sqrt(2 ln(total) / trials)` with the fixed
/// exploration constant 1 and the logarithm taken at floor(log2) precision.
pub open spec fn ucb_score_spec(cum: int, trials: int, total: int) -> int
    recommends
        1 <= trials,
        trials <= total,
{
    (1000000 - cum * 1000000 / (2 * trials)) + sqrt_floor(
        2 * 693147 * log2_floor(total) * 1000000 / trials,
    )
}

/// The UCB1 score of a visited child, computed exactly per its spec.
pub fn ucb_score(cum: u64, trials: u64, total: u64) -> (r: u64)
    requires
        1 <= trials <= 0x8000_0000,
        cum <= 2 * trials,
        trials <= total <= 0x1_0000_0000_0000,
    ensures
        r == ucb_score_spec(cum as int, trials as int, total as int),
{
    proof {
        assert(cum * 1000000 <= 2 * trials * 1000000) by (nonlinear_arith)
            requires
                cum <= 2 * trials,
        ;
        assert(cum * 1000000 / (2 * trials) <= 1000000) by (nonlinear_arith)
            requires
                trials >= 1,
                cum * 1000000 <= 2 * trials * 1000000,
        ;
    }
    let exploit = 1000000 - cum * 1000000 / (2 * trials);
    let lg = log2_floor_u64(total);
    proof {
        assert(2 * 693147 * (lg as int) <= 87336522 && 2 * 693147 * (lg as int) * 1000000
            <= 87336522000000) by (nonlinear_arith)
            requires
                lg <= 63,
        ;
    }
    let scaled = 2 * 693147 * lg * 1000000;
    let arg = scaled / trials;
    proof {
        assert(arg <= scaled) by (nonlinear_arith)
            requires
                trials >= 1,
                scaled >= 0,
                arg == scaled as int / trials as int,
        ;
    }
    let explore = isqrt(arg);
    proof {
        assert(explore <= 0x1_0000_0000) by (nonlinear_arith)
            requires
                explore as int * explore as int <= 0x4000_0000_0000_0000,
        ;
    }
    exploit + explore
}

/// The UCB1 score of the sibling at `i`, under the sibling list's total
/// visit count.
pub open spec fn child_score(s: Seq<Node>, i: int) -> int {
    ucb_score_spec(s[i].cumulative_value as int, s[i].trials as int, sum_trials(s))
}

/// What expansion guarantees of each fresh child of a node whose state is
/// `parent`: fresh statistics, a legal placement, a hand-over drawn from
/// the pool exactly when the pool is not empty, and the child's state
/// being exactly the parent's after applying the recorded pair.
pub open spec fn fresh_child_ok(parent: State, c: Node) -> bool {
    &&& c.trials == 0
    &&& c.cumulative_value == 0
    &&& c.child_nodes@.len() == 0
    &&& c.state.wf()
    &&& (!c.state.is_done_spec() ==> c.state.selected_piece is Some)
    &&& num_empty(c.state.board@) == num_empty(parent.board@) - 1
    &&& c.put_place is Some
    &&& (c.put_place->0).0 < 4 && (c.put_place->0).1 < 4
    &&& parent.board@[4 * (c.put_place->0).0 + (c.put_place->0).1] is None
    &&& c.state.board@ == parent.board@.update(
        4 * (c.put_place->0).0 + (c.put_place->0).1,
        parent.selected_piece,
    )
    &&& (parent.unused_pieces@.len() > 0 ==> {
        &&& c.selected_piece is Some
        &&& parent.unused_pieces@.contains(c.selected_piece->0)
        &&& c.state.unused_pieces@ == parent.unused_pieces@.remove_value(c.selected_piece->0)
        &&& c.state.selected_piece == c.selected_piece
        &&& c.state.turn == parent.turn + 1
        &&& c.state.active_player == 1 - parent.active_player
    })
    &&& (parent.unused_pieces@.len() == 0 ==> {
        &&& c.selected_piece is None
        &&& c.state.unused_pieces@ == parent.unused_pieces@
        &&& c.state.selected_piece is None
        &&& c.state.turn == parent.turn
        &&& c.state.active_player == parent.active_player
    })
}

/// The number of children one placement contributes on expansion: one per
/// pool piece, or a single one when the pool is empty.
pub open spec fn expand_width(parent: State) -> int {
    if parent.unused_pieces@.len() == 0 {
        1int
    } else {
        parent.unused_pieces@.len() as int
    }
}

impl Node {
    /// Well-formedness of the whole subtree: sound statistics at every node
    /// and each child exactly one placement deeper than its parent.
    pub open spec fn wf(&self) -> bool
        decreases *self,
    {
        &&& self.state.wf()
        &&& self.cumulative_value <= 2 * self.trials
        &&& self.trials <= 0x8000_0000
        &&& (!self.state.is_done_spec() ==> self.state.selected_piece is Some)
        &&& self.child_nodes@.len() <= 256
        &&& forall|i: int|
            0 <= i < self.child_nodes@.len() ==> (#[trigger] self.child_nodes@[i]).wf()
                && self.child_nodes@[i].trials <= self.trials && num_empty(
                self.child_nodes@[i].state.board@,
            ) == num_empty(self.state.board@) - 1
    }

    /// A fresh leaf wrapping `state`, with no action recorded.
    pub fn new(state: State) -> (n: Node)
        ensures
            n.state == state,
            n.child_nodes@.len() == 0,
            n.trials == 0,
            n.cumulative_value == 0,
            n.put_place is None,
            n.selected_piece is None,
    {
        Node {
            state,
            child_nodes: Vec::new(),
            trials: 0,
            cumulative_value: 0,
            put_place: None,
            selected_piece: None,
        }
    }

    /// Builds one child per legal (placement, hand-over) pair — or per
    /// legal placement alone when the pool is empty — each wrapping the
    /// state after its pair, with fresh statistics. The node's own
    /// statistics and state are kept.
    pub fn expand(&mut self)
        requires
            old(self).wf(),
            old(self).state.selected_piece is Some,
        ensures
            final(self).wf(),
            final(self).state == old(self).state,
            final(self).trials == old(self).trials,
            final(self).cumulative_value == old(self).cumulative_value,
            final(self).put_place == old(self).put_place,
            final(self).selected_piece == old(self).selected_piece,
            final(self).child_nodes@.len() == if old(self).state.unused_pieces@.len() == 0 {
                num_empty(old(self).state.board@)
            } else {
                num_empty(old(self).state.board@) * old(self).state.unused_pieces@.len()
            },
            forall|i: int|
                0 <= i < final(self).child_nodes@.len() ==> fresh_child_ok(
                    old(self).state,
                    #[trigger] final(self).child_nodes@[i],
                ),
            forall|i: int|
                0 <= i < final(self).child_nodes@.len()
                    ==> crate::state::is_kth_empty_cell(
                    old(self).state.board@,
                    i / expand_width(old(self).state),
                    ((#[trigger] final(self).child_nodes@[i]).put_place->0).0,
                    (final(self).child_nodes@[i].put_place->0).1,
                ),
            old(self).state.unused_pieces@.len() > 0 ==> forall|i: int|
                0 <= i < final(self).child_nodes@.len()
                    ==> (#[trigger] final(self).child_nodes@[i]).selected_piece == Some(
                    old(self).state.unused_pieces@[i % expand_width(old(self).state)],
                ),
            forall|i1: int, i2: int|
                0 <= i1 < i2 < final(self).child_nodes@.len() ==> !((
                #[trigger] final(self).child_nodes@[i1]).put_place == (
                #[trigger] final(self).child_nodes@[i2]).put_place
                    && final(self).child_nodes@[i1].selected_piece
                    == final(self).child_nodes@[i2].selected_piece),
    {
        self.child_nodes = Vec::new();
        let places = self.state.legal_placements();
        let pieces = self.state.legal_pieces();
        let width: usize = if pieces.len() == 0 {
            1
        } else {
            pieces.len()
        };
        let ghost wd: int = width as int;
        proof {
            lemma_num_placed_bounds(self.state.board@);
        }
        let mut pi: usize = 0;
        while pi < places.len()
            invariant
                self.state == old(self).state,
                self.trials == old(self).trials,
                self.cumulative_value == old(self).cumulative_value,
                self.put_place == old(self).put_place,
                self.selected_piece == old(self).selected_piece,
                old(self).wf(),
                old(self).state.selected_piece is Some,
                pi <= places@.len(),
                places@.len() == num_empty(self.state.board@),
                places@.len() <= 16,
                pieces@ == self.state.unused_pieces@,
                pieces@.len() <= 16,
                width == if pieces@.len() == 0 {
                    1int
                } else {
                    pieces@.len() as int
                },
                forall|t: int|
                    0 <= t < places@.len() ==> (#[trigger] places@[t]).0 < 4 && places@[t].1 < 4
                        && self.state.board@[4 * places@[t].0 + places@[t].1] is None,
                forall|t: int|
                    0 <= t < places@.len() ==> crate::state::is_kth_empty_cell(
                        self.state.board@,
                        t,
                        (#[trigger] places@[t]).0,
                        places@[t].1,
                    ),
                forall|t1: int, t2: int|
                    0 <= t1 < t2 < places@.len() ==> 4 * places@[t1].0 + places@[t1].1 < 4
                        * places@[t2].0 + places@[t2].1,
                wd == width,
                wd == expand_width(old(self).state),
                self.child_nodes@.len() == pi * width,
                forall|i: int|
                    0 <= i < self.child_nodes@.len() ==> fresh_child_ok(
                        old(self).state,
                        #[trigger] self.child_nodes@[i],
                    ),
                forall|i: int|
                    0 <= i < self.child_nodes@.len() ==> (
                    #[trigger] self.child_nodes@[i]).put_place == Some(places@[i / wd]),
                pieces@.len() > 0 ==> forall|i: int|
                    0 <= i < self.child_nodes@.len() ==> (
                    #[trigger] self.child_nodes@[i]).selected_piece == Some(pieces@[i % wd]),
            decreases places@.len() - pi,
        {
            let (h, w) = places[pi];
            if pieces.len() == 0 {
                let mut child_state = self.state.duplicate();
                proof {
                    assert(child_state.wf());
                }
                child_state.put_piece(h, w);
                proof {
                    lemma_num_placed_update(
                        self.state.board@,
                        4 * h + w,
                        self.state.selected_piece->0,
                    );
                }
                let mut child = Node::new(child_state);
                child.put_place = Some((h, w));
                self.child_nodes.push(child);
                proof {
                    assert(self.child_nodes@.len() == pi * width + 1);
                    assert((pi + 1) * width == pi * width + 1) by (nonlinear_arith)
                        requires
                            width == 1,
                    ;
                    vstd::arithmetic::div_mod::lemma_fundamental_div_mod_converse(
                        pi as int * wd + 0,
                        wd,
                        pi as int,
                        0,
                    );
                    assert(self.child_nodes@[pi as int].put_place == Some(places@[pi as int]));
                }
            } else {
                let mut qi: usize = 0;
                while qi < pieces.len()
                    invariant
                        self.state == old(self).state,
                        self.trials == old(self).trials,
                        self.cumulative_value == old(self).cumulative_value,
                        self.put_place == old(self).put_place,
                        self.selected_piece == old(self).selected_piece,
                        old(self).wf(),
                        old(self).state.selected_piece is Some,
                        pi < places@.len(),
                        qi <= pieces@.len(),
                        places@.len() == num_empty(self.state.board@),
                        pieces@ == self.state.unused_pieces@,
                        pieces@.len() >= 1,
                        width == pieces@.len(),
                        h == places@[pi as int].0,
                        w == places@[pi as int].1,
                        h < 4,
                        w < 4,
                        self.state.board@[4 * h + w] is None,
                        wd == width,
                        self.child_nodes@.len() == pi * width + qi,
                        forall|i: int|
                            0 <= i < self.child_nodes@.len() ==> fresh_child_ok(
                                old(self).state,
                                #[trigger] self.child_nodes@[i],
                            ),
                        forall|i: int|
                            0 <= i < self.child_nodes@.len() ==> (
                            #[trigger] self.child_nodes@[i]).put_place == Some(places@[i / wd]),
                        forall|i: int|
                            0 <= i < self.child_nodes@.len() ==> (
                            #[trigger] self.child_nodes@[i]).selected_piece == Some(
                                pieces@[i % wd],
                            ),
                    decreases pieces@.len() - qi,
                {
                    let piece = pieces[qi];
                    let mut child_state = self.state.duplicate();
                    proof {
                        assert(child_state.wf());
                        assert(pieces@.contains(pieces@[qi as int]));
                    }
                    child_state.put_piece(h, w);
                    child_state.select_piece(piece);
                    proof {
                        lemma_num_placed_update(
                            self.state.board@,
                            4 * h + w,
                            self.state.selected_piece->0,
                        );
                    }
                    let mut child = Node::new(child_state);
                    child.put_place = Some((h, w));
                    child.selected_piece = Some(piece);
                    self.child_nodes.push(child);
                    proof {
                        vstd::arithmetic::div_mod::lemma_fundamental_div_mod_converse(
                            pi as int * wd + qi as int,
                            wd,
                            pi as int,
                            qi as int,
                        );
                    }
                    qi = qi + 1;
                }
                proof {
                    assert(pi * width + width == (pi + 1) * width) by (nonlinear_arith);
                }
            }
            pi = pi + 1;
        }
        proof {
            if pieces@.len() == 0 {
                assert(places@.len() * 1 == places@.len()) by (nonlinear_arith);
            }
            assert(self.child_nodes@.len() <= 256) by (nonlinear_arith)
                requires
                    self.child_nodes@.len() == places@.len() * width,
                    places@.len() <= 16,
                    width <= 16,
            ;
            assert forall|i: int| 0 <= i < self.child_nodes@.len() implies (
            #[trigger] self.child_nodes@[i]).wf() by {
                assert(fresh_child_ok(old(self).state, self.child_nodes@[i]));
            }
            let n = self.child_nodes@.len() as int;
            let np = places@.len() as int;
            assert forall|i: int| 0 <= i < n implies 0 <= #[trigger] (i / wd) && i / wd < np && 0
                <= i % wd < wd by {
                vstd::arithmetic::div_mod::lemma_fundamental_div_mod(i, wd);
                vstd::arithmetic::div_mod::lemma_mod_bound(i, wd);
                assert(i / wd < np) by (nonlinear_arith)
                    requires
                        wd >= 1,
                        0 <= i < np * wd,
                        i == wd * (i / wd) + i % wd,
                        0 <= i % wd < wd,
                ;
                assert(i / wd >= 0) by (nonlinear_arith)
                    requires
                        wd >= 1,
                        0 <= i,
                        i == wd * (i / wd) + i % wd,
                        0 <= i % wd < wd,
                ;
            }
            assert forall|i1: int, i2: int| 0 <= i1 < i2 < n implies !((
            #[trigger] self.child_nodes@[i1]).put_place == (
            #[trigger] self.child_nodes@[i2]).put_place && self.child_nodes@[i1].selected_piece
                == self.child_nodes@[i2].selected_piece) by {
                let q1 = i1 / wd;
                let r1 = i1 % wd;
                let q2 = i2 / wd;
                let r2 = i2 % wd;
                vstd::arithmetic::div_mod::lemma_fundamental_div_mod(i1, wd);
                vstd::arithmetic::div_mod::lemma_fundamental_div_mod(i2, wd);
                if q1 == q2 {
                    assert(r1 != r2);
                    assert(pieces@.len() > 0) by {
                        if pieces@.len() == 0 {
                            assert(wd == 1);
                            assert(r1 == 0 && r2 == 0);
                        }
                    }
                    assert(old(self).state.unused_pieces@.no_duplicates());
                    assert(pieces@[r1] != pieces@[r2]);
                    assert(self.child_nodes@[i1].selected_piece
                        != self.child_nodes@[i2].selected_piece);
                } else {
                    assert(4 * places@[q1].0 + places@[q1].1 != 4 * places@[q2].0
                        + places@[q2].1);
                    assert(places@[q1] != places@[q2]);
                    assert(self.child_nodes@[i1].put_place != self.child_nodes@[i2].put_place);
                }
            }
        }
    }

    /// The child to descend into: the first never-visited child when one
    /// exists, else the first child with the maximal UCB1 score.
    pub fn next_child_node_idx(&self) -> (idx: usize)
        requires
            self.wf(),
            1 <= self.child_nodes@.len() <= 4096,
        ensures
            idx < self.child_nodes@.len(),
            num_unvisited(self.child_nodes@) > 0 ==> self.child_nodes@[idx as int].trials == 0
                && forall|i: int|
                0 <= i < idx ==> (#[trigger] self.child_nodes@[i]).trials >= 1,
            num_unvisited(self.child_nodes@) == 0 ==> (forall|i: int|
                0 <= i < self.child_nodes@.len() ==> #[trigger] child_score(self.child_nodes@, i)
                    <= child_score(self.child_nodes@, idx as int)) && (forall|i: int|
                0 <= i < idx ==> #[trigger] child_score(self.child_nodes@, i) < child_score(
                    self.child_nodes@,
                    idx as int,
                )),
    {
        let n = self.child_nodes.len();
        let mut i: usize = 0;
        while i < n
            invariant
                self.wf(),
                n == self.child_nodes@.len(),
                i <= n,
                forall|t: int| 0 <= t < i ==> (#[trigger] self.child_nodes@[t]).trials >= 1,
            decreases n - i,
        {
            if self.child_nodes[i].trials == 0 {
                proof {
                    if num_unvisited(self.child_nodes@) == 0 {
                        lemma_all_visited(self.child_nodes@);
                    }
                }
                return i;
            }
            i = i + 1;
        }
        proof {
            lemma_none_unvisited(self.child_nodes@);
        }
        let mut total: u64 = 0;
        let mut t: usize = 0;
        while t < n
            invariant
                self.wf(),
                n == self.child_nodes@.len(),
                n <= 4096,
                t <= n,
                total == sum_trials(self.child_nodes@.take(t as int)),
                total <= t * 0x8000_0000,
            decreases n - t,
        {
            proof {
                lemma_sum_trials_take_step(self.child_nodes@, t as int);
            }
            total = total + self.child_nodes[t].trials;
            t = t + 1;
        }
        proof {
            assert(self.child_nodes@.take(n as int) =~= self.child_nodes@);
            lemma_sum_trials_element_bound(self.child_nodes@, 0);
            lemma_child_stats(self, 0);
        }
        let mut best_idx: usize = 0;
        let mut best_score = ucb_score(
            self.child_nodes[0].cumulative_value,
            self.child_nodes[0].trials,
            total,
        );
        let mut j: usize = 1;
        while j < n
            invariant
                self.wf(),
                n == self.child_nodes@.len(),
                n >= 1,
                total == sum_trials(self.child_nodes@),
                total <= 0x1_0000_0000_0000,
                forall|u: int| 0 <= u < n ==> (#[trigger] self.child_nodes@[u]).trials >= 1,
                1 <= j <= n,
                best_idx < j,
                best_score == child_score(self.child_nodes@, best_idx as int),
                forall|u: int|
                    0 <= u < j ==> #[trigger] child_score(self.child_nodes@, u) <= best_score,
                forall|u: int|
                    0 <= u < best_idx ==> #[trigger] child_score(self.child_nodes@, u)
                        < best_score,
            decreases n - j,
        {
            proof {
                lemma_sum_trials_element_bound(self.child_nodes@, j as int);
                lemma_child_stats(self, j as int);
            }
            let score = ucb_score(
                self.child_nodes[j].cumulative_value,
                self.child_nodes[j].trials,
                total,
            );
            if score > best_score {
                best_idx = j;
                best_score = score;
            }
            j = j + 1;
        }
        best_idx
    }
}

/// The statistics bounds of a child node, read off its own well-formedness.
proof fn lemma_child_stats(parent: &Node, i: int)
    requires
        parent.wf(),
        0 <= i < parent.child_nodes@.len(),
    ensures
        parent.child_nodes@[i].wf(),
        parent.child_nodes@[i].cumulative_value <= 2 * parent.child_nodes@[i].trials,
        parent.child_nodes@[i].trials <= 0x8000_0000,
{
    reveal_with_fuel(Node::wf, 2);
}

proof fn lemma_none_unvisited(nodes: Seq<Node>)
    requires
        forall|i: int| 0 <= i < nodes.len() ==> (#[trigger] nodes[i]).trials >= 1,
    ensures
        num_unvisited(nodes) == 0,
    decreases nodes.len(),
{
    if nodes.len() > 0 {
        assert(forall|i: int|
            0 <= i < nodes.len() - 1 ==> (#[trigger] nodes.drop_last()[i]) == nodes[i]);
        lemma_none_unvisited(nodes.drop_last());
        assert(nodes.last() == nodes[nodes.len() - 1]);
    }
}

/// What a finished search promises of its root: the guarantees of
/// `mcts_search` for a search over `s` with the given budget.
pub open spec fn searched_root_ok(s: State, root: Node, budget: int) -> bool {
    &&& root.wf()
    &&& root.trials == budget
    &&& root.child_nodes@.len() == num_empty(s.board@) * s.unused_pieces@.len()
    &&& root.child_nodes@.len() >= 1
    &&& forall|i: int|
        0 <= i < root.child_nodes@.len() ==> child_action_ok(s, #[trigger] root.child_nodes@[i])
    &&& budget >= root.child_nodes@.len() ==> forall|i: int|
        0 <= i < root.child_nodes@.len() ==> (#[trigger] root.child_nodes@[i]).trials >= 1
}

/// `r` is the recorded action of a most-visited child of `root`, ties
/// broken by the first-encountered index.
pub open spec fn is_most_visited_action(root: Node, r: (Option<(usize, usize)>, Option<Piece>)) -> bool {
    exists|i: int|
        {
            &&& 0 <= i < root.child_nodes@.len()
            &&& r == ((#[trigger] root.child_nodes@[i]).put_place,
            root.child_nodes@[i].selected_piece)
            &&& forall|t: int|
                0 <= t < root.child_nodes@.len() ==> (#[trigger] root.child_nodes@[t]).trials
                    <= root.child_nodes@[i].trials
            &&& forall|t: int|
                0 <= t < i ==> (#[trigger] root.child_nodes@[t]).trials
                    < root.child_nodes@[i].trials
        }
}

/// The final selection criterion of the tree search: the action of the
/// first child with the maximal visit count (not the maximal mean value).
pub fn most_visited_action(root: &Node) -> (r: (Option<(usize, usize)>, Option<Piece>))
    requires
        root.child_nodes@.len() >= 1,
    ensures
        is_most_visited_action(*root, r),
{
    let mut best_idx: usize = 0;
    let mut best_trials = root.child_nodes[0].trials;
    let mut i: usize = 1;
    while i < root.child_nodes.len()
        invariant
            1 <= i <= root.child_nodes@.len(),
            best_idx < i,
            best_trials == root.child_nodes@[best_idx as int].trials,
            forall|t: int|
                0 <= t < i ==> (#[trigger] root.child_nodes@[t]).trials <= best_trials,
            forall|t: int|
                0 <= t < best_idx ==> (#[trigger] root.child_nodes@[t]).trials < best_trials,
        decreases root.child_nodes@.len() - i,
    {
        let t = root.child_nodes[i].trials;
        if t > best_trials {
            best_idx = i;
            best_trials = t;
        }
        i = i + 1;
    }
    let best = &root.child_nodes[best_idx];
    let r = (best.put_place, best.selected_piece);
    proof {
        assert(r == ((root.child_nodes@[best_idx as int]).put_place,
        root.child_nodes@[best_idx as int].selected_piece));
    }
    r
}

/// The action recorded in a root child is legal in the searched state.
pub open spec fn child_action_ok(parent: State, c: Node) -> bool {
    &&& c.put_place is Some
    &&& (c.put_place->0).0 < 4 && (c.put_place->0).1 < 4
    &&& parent.board@[4 * (c.put_place->0).0 + (c.put_place->0).1] is None
    &&& (parent.unused_pieces@.len() > 0 ==> c.selected_piece is Some
        && parent.unused_pieces@.contains(c.selected_piece->0))
    &&& (parent.unused_pieces@.len() == 0 ==> c.selected_piece is None)
}

impl Node {
    /// One search iteration at this node: score a terminal state, or roll
    /// out a leaf (expanding it once its visits reach the threshold), or
    /// descend into the selected child and back the value up, inverted
    /// across the ply boundary.
    pub fn evaluate(&mut self) -> (v: u64)
        requires
            old(self).wf(),
            old(self).trials < 0x8000_0000,
        ensures
            final(self).wf(),
            v <= 2,
            final(self).trials == old(self).trials + 1,
            final(self).cumulative_value == old(self).cumulative_value + v,
            final(self).state == old(self).state,
            final(self).put_place == old(self).put_place,
            final(self).selected_piece == old(self).selected_piece,
            old(self).state.is_done_spec() ==> v == (if crate::state::board_wins(
                old(self).state.board@,
            ) {
                0int
            } else {
                1int
            }) && final(self).child_nodes@ == old(self).child_nodes@,
            old(self).child_nodes@.len() == 0 && !old(self).state.is_done_spec() ==> (if old(
                self,
            ).trials + 1 == EXPAND_THRESHOLD {
                final(self).child_nodes@.len() == num_empty(old(self).state.board@)
                    * expand_width(old(self).state) && (forall|i: int|
                    0 <= i < final(self).child_nodes@.len() ==> fresh_child_ok(
                        old(self).state,
                        #[trigger] final(self).child_nodes@[i],
                    ))
            } else {
                final(self).child_nodes@.len() == 0
            }),
            old(self).child_nodes@.len() > 0 && !old(self).state.is_done_spec() ==> exists|
                j: int,
            |
                #[trigger] one_visit_step(old(self).child_nodes@, final(self).child_nodes@, j)
                    && (num_unvisited(old(self).child_nodes@) > 0 ==> old(
                self,
            ).child_nodes@[j].trials == 0) && final(self).child_nodes@[j].cumulative_value == old(
                self,
            ).child_nodes@[j].cumulative_value + (2 - v) && (num_unvisited(
                old(self).child_nodes@,
            ) == 0 ==> (forall|i: int|
                0 <= i < old(self).child_nodes@.len() ==> #[trigger] child_score(
                    old(self).child_nodes@,
                    i,
                ) <= child_score(old(self).child_nodes@, j)) && (forall|i: int|
                0 <= i < j ==> #[trigger] child_score(old(self).child_nodes@, i) < child_score(
                    old(self).child_nodes@,
                    j,
                ))),
        decreases num_empty(old(self).state.board@),
    {
        if self.state.is_done() {
            let status = self.state.get_winning_status();
            let value: u64 = if status == WinningStatus::WIN {
                0
            } else {
                1
            };
            self.trials = self.trials + 1;
            self.cumulative_value = self.cumulative_value + value;
            return value;
        }
        if self.child_nodes.len() == 0 {
            let mut state_copy = self.state.duplicate();
            proof {
                assert(state_copy.wf());
                assert(!state_copy.is_done_spec() ==> state_copy.selected_piece is Some);
            }
            let value = playout(&mut state_copy);
            self.trials = self.trials + 1;
            self.cumulative_value = self.cumulative_value + value;
            if self.trials == EXPAND_THRESHOLD {
                self.expand();
            }
            return value;
        }
        let idx = self.next_child_node_idx();
        proof {
            lemma_child_stats(self, idx as int);
            if num_unvisited(self.child_nodes@) == 0 {
                lemma_all_visited(self.child_nodes@);
            }
        }
        let ghost pre_children = self.child_nodes@;
        let ghost pre_unvisited = num_unvisited(self.child_nodes@);
        let mut child = self.child_nodes.remove(idx);
        proof {
            pre_children.remove_ensures(idx as int);
            assert(child.state.wf());
            lemma_num_placed_bounds(child.state.board@);
        }
        let cv = child.evaluate();
        let value = 2 - cv;
        self.child_nodes.insert(idx, child);
        self.trials = self.trials + 1;
        self.cumulative_value = self.cumulative_value + value;
        proof {
            assert(self.child_nodes@ =~= pre_children.update(idx as int, self.child_nodes@[idx as int]));
            assert(one_visit_step(pre_children, self.child_nodes@, idx as int));
            if pre_unvisited > 0 {
                assert(pre_children[idx as int].trials == 0);
            }
            assert(self.child_nodes@[idx as int].cumulative_value == pre_children[idx as int].cumulative_value
                + (2 - value));
            assert forall|i: int| 0 <= i < self.child_nodes@.len() implies (
            #[trigger] self.child_nodes@[i]).wf() && self.child_nodes@[i].trials <= self.trials
                && num_empty(self.child_nodes@[i].state.board@) == num_empty(self.state.board@)
                - 1 by {
                if i != idx {
                    assert(self.child_nodes@[i] == pre_children[i]);
                }
            }
        }
        value
    }
}

/// Builds the search tree for `state`: a root over a copy of it, expanded
/// at once into one child per legal (placement, hand-over) pair, then
/// `playout_number` evaluations from the root. Whenever the budget covers
/// the children, every root child is visited at least once.
pub fn mcts_search(state: &State, playout_number: usize) -> (root: Node)
    requires
        state.wf(),
        !state.is_done_spec(),
        state.selected_piece is Some,
        playout_number <= 0x4000_0000,
    ensures
        root.wf(),
        root.trials == playout_number,
        root.child_nodes@.len() == num_empty(state.board@) * state.unused_pieces@.len(),
        root.child_nodes@.len() >= 1,
        forall|i: int|
            0 <= i < root.child_nodes@.len() ==> child_action_ok(
                *state,
                #[trigger] root.child_nodes@[i],
            ),
        playout_number >= root.child_nodes@.len() ==> forall|i: int|
            0 <= i < root.child_nodes@.len() ==> (#[trigger] root.child_nodes@[i]).trials >= 1,
        searched_root_ok(*state, root, playout_number as int),
{
    let mut root = Node::new(state.duplicate());
    proof {
        assert(root.wf());
        lemma_num_placed_bounds(state.board@);
        assert(num_empty(state.board@) >= 1) by {
            assert(num_placed(state.board@) == 16 - state.unused_pieces@.len()
                - state.sel_count());
        }
    }
    root.expand();
    let ghost n = root.child_nodes@.len() as int;
    proof {
        assert(n >= 1) by (nonlinear_arith)
            requires
                n == num_empty(state.board@) * state.unused_pieces@.len(),
                num_empty(state.board@) >= 1,
                state.unused_pieces@.len() >= 1,
        ;
        lemma_num_unvisited_bounds(root.child_nodes@);
    }
    let mut it: usize = 0;
    while it < playout_number
        invariant
            root.wf(),
            root.trials == it,
            it <= playout_number,
            playout_number <= 0x4000_0000,
            state.wf(),
            !state.is_done_spec(),
            root.state.board@ == state.board@,
            root.state.unused_pieces@ == state.unused_pieces@,
            state.unused_pieces@.len() >= 1,
            root.child_nodes@.len() == n,
            n >= 1,
            forall|i: int|
                0 <= i < root.child_nodes@.len() ==> child_action_ok(
                    *state,
                    #[trigger] root.child_nodes@[i],
                ),
            num_unvisited(root.child_nodes@) <= n - it || num_unvisited(root.child_nodes@)
                == 0,
        decreases playout_number - it,
    {
        let ghost pre = root.child_nodes@;
        let _ = root.evaluate();
        proof {
            assert(!root.state.is_done_spec());
            let j = choose|j: int|
                #[trigger] one_visit_step(pre, root.child_nodes@, j) && (num_unvisited(pre) > 0
                    ==> pre[j].trials == 0);
            lemma_one_visit_step_unvisited(pre, root.child_nodes@, j);
            lemma_num_unvisited_bounds(root.child_nodes@);
            assert forall|i: int| 0 <= i < root.child_nodes@.len() implies child_action_ok(
                *state,
                #[trigger] root.child_nodes@[i],
            ) by {
                if i != j {
                    assert(root.child_nodes@[i] == pre[i]);
                } else {
                    assert(root.child_nodes@[j].put_place == pre[j].put_place);
                }
            }
        }
        it = it + 1;
    }
    proof {
        if playout_number >= n {
            lemma_num_unvisited_bounds(root.child_nodes@);
            assert(num_unvisited(root.child_nodes@) == 0);
            lemma_all_visited(root.child_nodes@);
        }
    }
    root
}

/// The tree-search decision. On the first turn a uniformly random piece is
/// handed over with no placement; on the last turn the first legal
/// placement is forced with nothing to hand over; otherwise the search
/// runs and the action of the most-visited root child is returned.
pub fn mcts_action(state: &State, playout_number: usize) -> (r: (
    Option<(usize, usize)>,
    Option<Piece>,
))
    requires
        state.wf(),
        playout_number <= 0x4000_0000,
        state.turn != 0 ==> state.selected_piece is Some && num_empty(state.board@) > 0,
        state.turn != 0 && state.unused_pieces@.len() > 0 ==> !state.is_done_spec(),
    ensures
        (r.0 is None) == (state.turn == 0),
        state.turn == 0 ==> r.1 is Some,
        r.0 is Some ==> (r.0->0).0 < 4 && (r.0->0).1 < 4 && state.board@[4 * (r.0->0).0 + (
        r.0->0).1] is None,
        (r.1 is Some) == (state.unused_pieces@.len() > 0),
        r.1 is Some ==> state.unused_pieces@.contains(r.1->0),
        state.turn != 0 && state.unused_pieces@.len() == 0 ==> forall|h: usize, w: usize|
            h < 4 && w < 4 && 4 * h + w < 4 * (r.0->0).0 + (r.0->0).1 ==> !(#[trigger] state.board@[
                4 * h + w
            ] is None),
        state.turn != 0 && state.unused_pieces@.len() > 0 ==> exists|root: Node|
            #[trigger] searched_root_ok(*state, root, playout_number as int)
                && is_most_visited_action(root, r),
{
    if state.is_first_turn() {
        let legal_select = state.legal_pieces();
        let j = random_usize() % legal_select.len();
        proof {
            assert(state.unused_pieces@.contains(state.unused_pieces@[j as int]));
        }
        return (None, Some(legal_select[j]));
    }
    if state.is_last_turn() {
        let legal_put = state.legal_placements();
        proof {
            lemma_num_placed_bounds(state.board@);
        }
        let first = legal_put[0];
        proof {
            assert forall|h: usize, w: usize|
                h < 4 && w < 4 && 4 * h + w < 4 * first.0 + first.1 implies !(
            #[trigger] state.board@[4 * h + w] is None) by {
                if state.board@[4 * h + w] is None {
                    assert(legal_put@.contains((h, w)));
                    let t = choose|t: int|
                        0 <= t < legal_put@.len() && legal_put@[t] == (h, w);
                    if t > 0 {
                        assert(4 * legal_put@[0].0 + legal_put@[0].1 < 4 * legal_put@[t].0
                            + legal_put@[t].1);
                    }
                }
            }
        }
        return (Some(first), None);
    }
    let root = mcts_search(state, playout_number);
    proof {
        // The consistency check on the expanded root: one child per legal
        // (placement, hand-over) pair.
        assert(root.child_nodes@.len() == num_empty(state.board@)
            * state.unused_pieces@.len());
    }
    let r = most_visited_action(&root);
    proof {
        let i = choose|i: int|
            {
                &&& 0 <= i < root.child_nodes@.len()
                &&& r == ((#[trigger] root.child_nodes@[i]).put_place,
                root.child_nodes@[i].selected_piece)
                &&& forall|t: int|
                    0 <= t < root.child_nodes@.len() ==> (#[trigger] root.child_nodes@[t]).trials
                        <= root.child_nodes@[i].trials
                &&& forall|t: int|
                    0 <= t < i ==> (#[trigger] root.child_nodes@[t]).trials
                        < root.child_nodes@[i].trials
            };
        assert(child_action_ok(*state, root.child_nodes@[i]));
        assert(searched_root_ok(*state, root, playout_number as int) && is_most_visited_action(
            root,
            r,
        ));
    }
    r
}

} // verus!
