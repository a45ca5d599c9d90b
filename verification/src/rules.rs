//! The rules of a turn, as mathematical functions: every snake named in a
//! joint move takes its step, then every snake that ran off the board,
//! starved, ran into a body or lost a head-to-head collision dies.
use vstd::prelude::*;
use crate::types::{steps_fit, Direction, Move};
use crate::small::{
    occurs_in, spec_out_of_bounds, spec_step, BoardView, GameView, SnakeView, Status,
};

verus! {

/// Whether move `m` is addressed to snake `s` and `s` can still move.
pub open spec fn moves_snake(s: SnakeView, m: Move) -> bool {
    s.id == m.1 && s.status == Status::Alive
}

/// Every living snake with the id of `m` takes its step.
pub open spec fn step_matching(snakes: Seq<SnakeView>, m: Move) -> Seq<SnakeView> {
    Seq::new(
        snakes.len(),
        |i: int|
            if moves_snake(snakes[i], m) {
                spec_step(snakes[i], m.0)
            } else {
                snakes[i]
            },
    )
}

/// The moves of `ms`, in order.
pub open spec fn step_all(snakes: Seq<SnakeView>, ms: Seq<Move>) -> Seq<SnakeView>
    decreases ms.len(),
{
    if ms.len() == 0 {
        snakes
    } else {
        step_matching(step_all(snakes, ms.drop_last()), ms.last())
    }
}

/// Whether the living snake `i` dies after the step: its head is off the
/// board, its health is gone, its head is on the body (head excepted) of a
/// living snake, or it met a longer living snake head to head.
pub open spec fn dies(snakes: Seq<SnakeView>, i: int, width: i8, height: i8) -> bool {
    let s = snakes[i];
    &&& s.status == Status::Alive
    &&& {
        ||| spec_out_of_bounds(s.head, width, height)
        ||| s.health == 0
        ||| exists|j: int|
            0 <= j < snakes.len() && (#[trigger] snakes[j]).status == Status::Alive && occurs_in(
                snakes[j].body,
                1,
                snakes[j].body.len() as int,
                s.head,
            )
        ||| exists|j: int|
            0 <= j < snakes.len() && j != i && (#[trigger] snakes[j]).status == Status::Alive
                && s.head == snakes[j].head && s.length < snakes[j].length
    }
}

/// The snake `s` marked dead.
pub open spec fn killed(s: SnakeView) -> SnakeView {
    SnakeView { status: Status::Dead, ..s }
}

/// Every snake that dies is marked dead.
pub open spec fn resolve(snakes: Seq<SnakeView>, width: i8, height: i8) -> Seq<SnakeView> {
    Seq::new(
        snakes.len(),
        |i: int|
            if dies(snakes, i, width, height) {
                killed(snakes[i])
            } else {
                snakes[i]
            },
    )
}

/// The index of the first snake with id `id`, or -1.
pub open spec fn first_with_id(snakes: Seq<SnakeView>, id: u8) -> int
    decreases snakes.len(),
{
    if snakes.len() == 0 {
        -1
    } else {
        let p = first_with_id(snakes.drop_last(), id);
        if p >= 0 {
            p
        } else if snakes.last().id == id {
            snakes.len() - 1
        } else {
            -1
        }
    }
}

/// The position after the joint move `ms`: the snakes step and the dead are
/// marked; `you` follows the first snake with its id.
pub open spec fn spec_apply(g: GameView, ms: Seq<Move>) -> GameView {
    let after = resolve(step_all(g.board.snakes, ms), g.board.width, g.board.height);
    let k = first_with_id(after, g.you.id);
    GameView {
        board: BoardView { snakes: after, ..g.board },
        you: if k >= 0 {
            after[k]
        } else {
            g.you
        },
        ..g
    }
}

/// No two moves of `ms` are addressed to the same id.
pub open spec fn distinct_ids(ms: Seq<Move>) -> bool {
    forall|a: int, b: int| 0 <= a < b < ms.len() ==> ms[a].1 != ms[b].1
}

/// Whether a head lies on the board or one cell off it.
pub open spec fn near_board(h: crate::types::Coordinate, width: i8, height: i8) -> bool {
    -1 <= h.x <= width && -1 <= h.y <= height
}

/// A position on which a turn can be played: dimensions from 1 to 126,
/// bodies of two segments or more, heads on the board or one cell off it,
/// and every living snake on the board with health left.
pub open spec fn wf(g: GameView) -> bool {
    &&& 1 <= g.board.width <= 126
    &&& 1 <= g.board.height <= 126
    &&& forall|i: int|
        0 <= i < g.board.snakes.len() ==> (#[trigger] g.board.snakes[i]).body.len() >= 2
            && near_board(g.board.snakes[i].head, g.board.width, g.board.height)
    &&& forall|i: int|
        0 <= i < g.board.snakes.len() && (#[trigger] g.board.snakes[i]).status == Status::Alive
            ==> g.board.snakes[i].health >= 1 && !spec_out_of_bounds(
            g.board.snakes[i].head,
            g.board.width,
            g.board.height,
        )
}

/// A living snake other than `you`.
pub open spec fn is_rival(s: SnakeView, you_id: u8) -> bool {
    s.id != you_id && s.status == Status::Alive
}

/// No two snakes share an id.
pub open spec fn unique_ids(snakes: Seq<SnakeView>) -> bool {
    forall|i: int, j: int|
        0 <= i < snakes.len() && 0 <= j < snakes.len() && i != j ==> (#[trigger] snakes[i]).id
            != (#[trigger] snakes[j]).id
}

/// A position the search can run on: a turn can be played, ids are unique,
/// `you` is the snake with its id, and at most one rival is alive.
pub open spec fn search_wf(g: GameView) -> bool {
    &&& wf(g)
    &&& unique_ids(g.board.snakes)
    &&& 0 <= first_with_id(g.board.snakes, g.you.id)
    &&& g.board.snakes[first_with_id(g.board.snakes, g.you.id)] == g.you
    &&& forall|i: int, j: int|
        0 <= i < g.board.snakes.len() && 0 <= j < g.board.snakes.len() && is_rival(
            #[trigger] g.board.snakes[i],
            g.you.id,
        ) && is_rival(#[trigger] g.board.snakes[j], g.you.id) ==> i == j
}

/// The random-looking key of a direction.
pub open spec fn dir_key(d: Direction) -> u64 {
    match d {
        Direction::Up => 0x9E37_79B9_7F4A_7C15u64,
        Direction::Down => 0xBF58_476D_1CE4_E5B9u64,
        Direction::Left => 0x94D0_49BB_1331_11EBu64,
        Direction::Right => 0x2545_F491_4F6C_DD1Du64,
    }
}

/// The hash key of one move.
pub open spec fn move_key(m: Move) -> u64 {
    dir_key(m.0) ^ ((m.1 as u64) * 0x100_0000_01B3u64) as u64
}

/// The hash key of a joint move: the exclusive or of its moves' keys.
pub open spec fn joint_key(ms: Seq<Move>) -> u64
    decreases ms.len(),
{
    if ms.len() == 0 {
        0
    } else {
        joint_key(ms.drop_last()) ^ move_key(ms.last())
    }
}

// ---------------------------------------------------------------------------
// Facts about the rules.

pub proof fn lemma_first_with_id(snakes: Seq<SnakeView>, id: u8)
    ensures
        -1 <= first_with_id(snakes, id) < snakes.len(),
        first_with_id(snakes, id) >= 0 ==> snakes[first_with_id(snakes, id)].id == id,
        first_with_id(snakes, id) >= 0 ==> forall|j: int|
            0 <= j < first_with_id(snakes, id) ==> snakes[j].id != id,
        first_with_id(snakes, id) < 0 ==> forall|j: int| 0 <= j < snakes.len() ==> snakes[j].id != id,
    decreases snakes.len(),
{
    if snakes.len() > 0 {
        lemma_first_with_id(snakes.drop_last(), id);
        assert forall|j: int| 0 <= j < snakes.len() - 1 implies snakes.drop_last()[j] == snakes[j] by {}
    }
}

/// `first_with_id` looks only at the ids.
pub proof fn lemma_first_with_id_same_ids(a: Seq<SnakeView>, b: Seq<SnakeView>, id: u8)
    requires
        a.len() == b.len(),
        forall|i: int| 0 <= i < a.len() ==> (#[trigger] a[i]).id == b[i].id,
    ensures
        first_with_id(a, id) == first_with_id(b, id),
    decreases a.len(),
{
    if a.len() > 0 {
        lemma_first_with_id_same_ids(a.drop_last(), b.drop_last(), id);
    }
}

/// A step keeps the id, the status and the number of segments; it moves the
/// head one cell.
pub proof fn lemma_step_all_shape(snakes: Seq<SnakeView>, ms: Seq<Move>)
    ensures
        step_all(snakes, ms).len() == snakes.len(),
        forall|i: int|
            0 <= i < snakes.len() ==> (#[trigger] step_all(snakes, ms)[i]).id == snakes[i].id
                && step_all(snakes, ms)[i].status == snakes[i].status
                && step_all(snakes, ms)[i].length == snakes[i].length
                && step_all(snakes, ms)[i].body.len() == snakes[i].body.len(),
    decreases ms.len(),
{
    if ms.len() > 0 {
        lemma_step_all_shape(snakes, ms.drop_last());
    }
}

/// With distinct ids, each snake takes at most one step: the step of the
/// move addressed to it while it is alive.
pub proof fn lemma_step_all_distinct(snakes: Seq<SnakeView>, ms: Seq<Move>)
    requires
        distinct_ids(ms),
    ensures
        step_all(snakes, ms).len() == snakes.len(),
        forall|i: int, k: int|
            0 <= i < snakes.len() && 0 <= k < ms.len() && moves_snake(snakes[i], ms[k])
                ==> #[trigger] step_all(snakes, ms)[i] == spec_step(snakes[i], (#[trigger] ms[k]).0),
        forall|i: int|
            0 <= i < snakes.len() && (forall|k: int| 0 <= k < ms.len() ==> !moves_snake(snakes[i], #[trigger] ms[k]))
                ==> #[trigger] step_all(snakes, ms)[i] == snakes[i],
    decreases ms.len(),
{
    if ms.len() > 0 {
        let pre = ms.drop_last();
        assert(distinct_ids(pre));
        lemma_step_all_distinct(snakes, pre);
        lemma_step_all_shape(snakes, pre);
        let prev = step_all(snakes, pre);
        let last = ms.last();
        assert forall|i: int, k: int|
            0 <= i < snakes.len() && 0 <= k < ms.len() && moves_snake(snakes[i], ms[k])
            implies #[trigger] step_all(snakes, ms)[i] == spec_step(snakes[i], (#[trigger] ms[k]).0) by {
            if k == ms.len() - 1 {
                assert forall|k2: int| 0 <= k2 < pre.len() implies !moves_snake(snakes[i], #[trigger] pre[k2]) by {
                    assert(ms[k2] == pre[k2]);
                }
                assert(prev[i] == snakes[i]);
            } else {
                assert(pre[k] == ms[k]);
                assert(prev[i] == spec_step(snakes[i], pre[k].0));
                assert(ms[k].1 != last.1);
            }
        }
        assert forall|i: int|
            0 <= i < snakes.len() && (forall|k: int| 0 <= k < ms.len() ==> !moves_snake(snakes[i], #[trigger] ms[k]))
            implies #[trigger] step_all(snakes, ms)[i] == snakes[i] by {
            assert forall|k2: int| 0 <= k2 < pre.len() implies !moves_snake(snakes[i], #[trigger] pre[k2]) by {
                assert(ms[k2] == pre[k2]);
            }
            assert(!moves_snake(snakes[i], ms[ms.len() - 1]));
        }
    }
}

/// Before the `k`-th move of a joint move with distinct ids, the snakes it
/// addresses have not moved yet.
pub proof fn lemma_step_prefix_untouched(snakes: Seq<SnakeView>, ms: Seq<Move>, k: int, i: int)
    requires
        distinct_ids(ms),
        0 <= k < ms.len(),
        0 <= i < snakes.len(),
        snakes[i].id == ms[k].1,
    ensures
        step_all(snakes, ms.take(k))[i] == snakes[i],
{
    let pre = ms.take(k);
    assert(distinct_ids(pre));
    lemma_step_all_distinct(snakes, pre);
    assert forall|k2: int| 0 <= k2 < pre.len() implies !moves_snake(snakes[i], #[trigger] pre[k2]) by {
        assert(pre[k2] == ms[k2]);
    }
}

/// A turn keeps a position playable, and keeps it searchable.
pub proof fn lemma_apply_wf(g: GameView, ms: Seq<Move>)
    requires
        wf(g),
        distinct_ids(ms),
    ensures
        wf(spec_apply(g, ms)),
        spec_apply(g, ms).board.snakes.len() == g.board.snakes.len(),
        forall|i: int|
            0 <= i < g.board.snakes.len() ==> (#[trigger] spec_apply(g, ms).board.snakes[i]).id
                == g.board.snakes[i].id && spec_apply(g, ms).board.snakes[i].length
                == g.board.snakes[i].length,
        forall|i: int|
            0 <= i < g.board.snakes.len() && (#[trigger] spec_apply(g, ms).board.snakes[i]).status
                == Status::Alive ==> g.board.snakes[i].status == Status::Alive,
        search_wf(g) ==> search_wf(spec_apply(g, ms)),
{
    let snakes = g.board.snakes;
    let w = g.board.width;
    let h = g.board.height;
    lemma_step_all_distinct(snakes, ms);
    lemma_step_all_shape(snakes, ms);
    let moved = step_all(snakes, ms);
    let after = resolve(moved, w, h);
    let a = spec_apply(g, ms);
    assert forall|i: int| 0 <= i < snakes.len() implies near_board(#[trigger] moved[i].head, w, h) by {
        if exists|k: int| 0 <= k < ms.len() && moves_snake(snakes[i], #[trigger] ms[k]) {
            let k = choose|k: int| 0 <= k < ms.len() && moves_snake(snakes[i], #[trigger] ms[k]);
            assert(moved[i] == spec_step(snakes[i], ms[k].0));
            assert(snakes[i].status == Status::Alive);
        } else {
            assert(moved[i] == snakes[i]);
        }
    }
    assert(a.board.snakes == after);
    assert forall|i: int| 0 <= i < after.len() implies (#[trigger] after[i]).body.len() >= 2
        && near_board(after[i].head, w, h) by {
        assert(moved[i].body.len() == snakes[i].body.len());
    }
    assert forall|i: int| 0 <= i < after.len() && (#[trigger] after[i]).status == Status::Alive
        implies after[i].health >= 1 && !spec_out_of_bounds(after[i].head, w, h) by {
        assert(!dies(moved, i, w, h));
    }
    assert forall|i: int| 0 <= i < snakes.len() implies (#[trigger] after[i]).id == snakes[i].id
        && after[i].length == snakes[i].length && (after[i].status == Status::Alive ==> snakes[i].status
        == Status::Alive) by {
        assert(moved[i].id == snakes[i].id);
    }
    if search_wf(g) {
        lemma_first_with_id_same_ids(after, snakes, g.you.id);
        lemma_first_with_id(after, g.you.id);
        let k = first_with_id(after, g.you.id);
        assert(a.you == after[k]);
        assert(a.you.id == g.you.id);
        assert forall|i: int, j: int|
            0 <= i < after.len() && 0 <= j < after.len() && is_rival(#[trigger] after[i], a.you.id)
                && is_rival(#[trigger] after[j], a.you.id) implies i == j by {
            assert(after[i].id == snakes[i].id);
            assert(after[j].id == snakes[j].id);
            assert(is_rival(snakes[i], g.you.id));
            assert(is_rival(snakes[j], g.you.id));
        }
        assert forall|i: int, j: int|
            0 <= i < after.len() && 0 <= j < after.len() && i != j implies (#[trigger] after[i]).id
            != (#[trigger] after[j]).id by {
            assert(after[i].id == snakes[i].id);
            assert(after[j].id == snakes[j].id);
        }
    }
}


/// Who dies in a turn. After the moves `ms`, snake `i` is dead exactly when
/// it was dead already, or it was alive and after its step its head is off
/// the board, its health is 0, its head lies on a living snake's body behind
/// that snake's head, or it met a longer living snake head to head. A snake
/// that does not die is left as its step made it.
pub proof fn lemma_turn_deaths(g: GameView, ms: Seq<Move>, i: int)
    requires
        0 <= i < g.board.snakes.len(),
    ensures
        spec_apply(g, ms).board.snakes.len() == g.board.snakes.len(),
        ({
            let m = step_all(g.board.snakes, ms);
            let s = m[i];
            let w = g.board.width;
            let h = g.board.height;
            let doomed = s.status == Status::Alive && {
                ||| s.head.x < 0
                ||| s.head.y < 0
                ||| s.head.x > w - 1
                ||| s.head.y > h - 1
                ||| s.health == 0
                ||| exists|j: int, l: int|
                    0 <= j < m.len() && m[j].status == Status::Alive && 1 <= l < m[j].body.len()
                        && #[trigger] m[j].body[l] == s.head
                ||| exists|j: int|
                    0 <= j < m.len() && j != i && (#[trigger] m[j]).status == Status::Alive && m[j].head == s.head
                        && s.length < m[j].length
            };
            &&& (spec_apply(g, ms).board.snakes[i].status == Status::Dead) == (s.status == Status::Dead || doomed)
            &&& !doomed ==> spec_apply(g, ms).board.snakes[i] == s
        }),
{
    let m = step_all(g.board.snakes, ms);
    lemma_step_all_shape(g.board.snakes, ms);
    let s = m[i];
    let w = g.board.width;
    let h = g.board.height;
    let after = resolve(m, w, h);
    assert(spec_apply(g, ms).board.snakes == after);
    assert(after[i] == if dies(m, i, w, h) { killed(s) } else { s });
    let on_body = exists|j: int, l: int|
        0 <= j < m.len() && m[j].status == Status::Alive && 1 <= l < m[j].body.len() && #[trigger] m[j].body[l] == s.head;
    let on_body2 = exists|j: int|
        0 <= j < m.len() && (#[trigger] m[j]).status == Status::Alive && occurs_in(m[j].body, 1, m[j].body.len() as int, s.head);
    if on_body {
        let (j, l) = choose|j: int, l: int|
            0 <= j < m.len() && m[j].status == Status::Alive && 1 <= l < m[j].body.len() && #[trigger] m[j].body[l] == s.head;
        assert(occurs_in(m[j].body, 1, m[j].body.len() as int, s.head));
    }
    if on_body2 {
        let j = choose|j: int|
            0 <= j < m.len() && (#[trigger] m[j]).status == Status::Alive && occurs_in(m[j].body, 1, m[j].body.len() as int, s.head);
        let l = choose|l: int| 1 <= l < m[j].body.len() && m[j].body[l] == s.head;
        assert(m[j].body[l] == s.head);
    }
    assert(on_body == on_body2);
}

} // verus!
