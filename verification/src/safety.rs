//! A condition that callers can check once and that every position reachable
//! by the search keeps: small boards, food on or near the board and a food
//! list of moderate length. Under it, every static evaluation the search
//! makes can run.
use vstd::prelude::*;
use crate::types::{Coordinate, Direction, Move, Weights};
use crate::small::{GameView, SnakeView, Status};
use crate::engine::{dist_fits, eval_safe, spec_manhattan};
use crate::rules::{distinct_ids, lemma_apply_wf, lemma_first_with_id, near_board, search_wf, spec_apply, first_with_id};
use crate::search::{
    is_terminal, leaves_safe, lemma_joint_shape, lemma_legal_shape, max_leaves_safe,
    min_leaves_safe, spec_joint_moves,
};
use crate::small::spec_legal_moves;

verus! {

/// Whether both coordinates of `c` lie in `-1..=61`.
pub open spec fn near_small_board(c: Coordinate) -> bool {
    -1 <= c.x <= 61 && -1 <= c.y <= 61
}

/// A searchable position on a board of at most 60 by 60 cells, with the food
/// on or next to the board and at most 10^9 food entries. The weights take
/// no part in it.
pub open spec fn sane(g: GameView, w: Weights) -> bool {
    &&& search_wf(g)
    &&& g.board.width <= 60
    &&& g.board.height <= 60
    &&& forall|i: int| 0 <= i < g.board.food.len() ==> near_small_board(#[trigger] g.board.food[i])
    &&& g.board.food.len() <= 1_000_000_000
}

proof fn lemma_near_dist(a: Coordinate, b: Coordinate)
    requires
        near_small_board(a),
        near_small_board(b),
    ensures
        dist_fits(a, b),
        0 <= spec_manhattan(a, b) <= 124,
{
}

/// On a sane position where `you` is alive the static evaluation can run.
pub proof fn lemma_sane_eval(g: GameView, w: Weights)
    requires
        sane(g, w),
        g.you.status == Status::Alive,
    ensures
        eval_safe(g, w),
{
    let snakes = g.board.snakes;
    lemma_first_with_id(snakes, g.you.id);
    let k = first_with_id(snakes, g.you.id);
    assert forall|i: int| 0 <= i < snakes.len() implies near_small_board(#[trigger] snakes[i].head) by {
        assert(near_board(snakes[i].head, g.board.width, g.board.height));
    }
    assert(snakes[k] == g.you);
    assert(near_small_board(g.you.head));
    assert forall|i: int| 0 <= i < g.board.food.len() implies dist_fits(#[trigger] g.board.food[i], g.you.head) by {
        lemma_near_dist(g.board.food[i], g.you.head);
    }
    assert forall|i: int| 0 <= i < snakes.len() implies dist_fits(#[trigger] snakes[i].head, g.you.head) by {
        lemma_near_dist(snakes[i].head, g.you.head);
    }
    lemma_near_dist(g.you.head, Coordinate { x: 0, y: 0 });
}

/// Every position reachable by the search from a sane position is sane.
pub proof fn lemma_sane_apply(g: GameView, w: Weights, ms: Seq<Move>)
    requires
        sane(g, w),
        distinct_ids(ms),
    ensures
        sane(spec_apply(g, ms), w),
{
    lemma_apply_wf(g, ms);
    let a = spec_apply(g, ms);
    lemma_first_with_id(g.board.snakes, g.you.id);
    lemma_first_with_id(a.board.snakes, a.you.id);
    let k = first_with_id(g.board.snakes, g.you.id);
    assert(g.board.snakes[k] == g.you);
    crate::rules::lemma_first_with_id_same_ids(a.board.snakes, g.board.snakes, g.you.id);
    assert(a.you == a.board.snakes[k]);
    assert(a.you.length == g.you.length);
}

/// From a sane position, every search of any depth evaluates only safe positions.
pub proof fn lemma_sane_leaves(g: GameView, w: Weights, depth: nat, maximizing: bool, ym: Move)
    requires
        sane(g, w),
        !maximizing ==> ym.1 == g.you.id,
    ensures
        leaves_safe(g, w, depth, maximizing, ym),
    decreases depth,
{
    if !is_terminal(g) {
        if depth == 0 {
            lemma_sane_eval(g, w);
        } else if maximizing {
            let ms = spec_legal_moves(g.you, g.board);
            lemma_legal_shape(g.you, g.board);
            assert forall|i: int| 0 <= i < ms.len() implies leaves_safe(g, w, (depth - 1) as nat, false, #[trigger] ms[i]) by {
                lemma_sane_leaves(g, w, (depth - 1) as nat, false, ms[i]);
            }
            assert(max_leaves_safe(g, w, depth, ms));
        } else {
            let js = spec_joint_moves(g, ym);
            lemma_joint_shape(g, ym);
            assert forall|i: int| 0 <= i < js.len() implies leaves_safe(spec_apply(g, #[trigger] js[i]), w, (depth - 1) as nat, true, ym) by {
                lemma_sane_apply(g, w, js[i]);
                lemma_sane_leaves(spec_apply(g, js[i]), w, (depth - 1) as nat, true, ym);
            }
            assert(min_leaves_safe(g, w, depth, ym, js));
        }
    }
}

/// From a sane position the deepening search evaluates only safe positions.
pub proof fn lemma_sane_deepening(g: GameView, w: Weights)
    requires
        sane(g, w),
    ensures
        crate::types::deepening_safe(g, w),
{
    assert forall|d: nat| 1 <= d <= 130 implies #[trigger] leaves_safe(g, w, d, true, (Direction::Up, 40u8)) by {
        lemma_sane_leaves(g, w, d, true, (Direction::Up, 40u8));
    }
}

} // verus!
