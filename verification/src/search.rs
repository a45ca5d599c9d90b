//! What the search computes: the minimax value of a position, where `you`
//! picks one of its legal moves and the rivals answer with every joint move.
use vstd::prelude::*;
use crate::types::{Move, Weights};
use crate::small::{spec_legal_moves, moves_safe, BoardView, GameView, SnakeView, Status, legal_one};
use crate::engine::{dead_count, eval_safe, spec_eval};
use crate::cartprod::{spec_cartesian, spec_fold_partial, spec_partial};
use crate::rules::{distinct_ids, first_with_id, is_rival, near_board, search_wf, spec_apply, wf};

verus! {

/// The legal-move lists of the first `n` snakes that are living rivals of `you_id`.
pub open spec fn rival_lists(snakes: Seq<SnakeView>, you_id: u8, b: BoardView, n: nat) -> Seq<
    Seq<Move>,
>
    decreases n,
{
    if n == 0 {
        Seq::empty()
    } else {
        let p = rival_lists(snakes, you_id, b, (n - 1) as nat);
        if is_rival(snakes[n - 1], you_id) {
            p.push(spec_legal_moves(snakes[n - 1], b))
        } else {
            p
        }
    }
}

/// The joint moves answering `ym`: `ym` combined with every choice of one
/// legal move per living rival.
pub open spec fn spec_joint_moves(g: GameView, ym: Move) -> Seq<Seq<Move>> {
    spec_cartesian(
        seq![seq![ym]] + rival_lists(g.board.snakes, g.you.id, g.board, g.board.snakes.len()),
    )
}

/// The index of the first occurrence of `b` in `s`, or -1.
pub open spec fn first_index(s: Seq<Seq<Move>>, b: Seq<Move>) -> int
    decreases s.len(),
{
    if s.len() == 0 {
        -1
    } else {
        let p = first_index(s.drop_last(), b);
        if p >= 0 {
            p
        } else if s.last() == b {
            s.len() - 1
        } else {
            -1
        }
    }
}

/// `s` with the first occurrence of `b`, if any, moved to the front.
pub open spec fn spec_reorder(s: Seq<Seq<Move>>, b: Seq<Move>) -> Seq<Seq<Move>> {
    let p = first_index(s, b);
    if p >= 0 {
        seq![b] + s.remove(p)
    } else {
        s
    }
}

/// The largest value, `i32::MIN` for none.
pub open spec fn seq_max(v: Seq<int>) -> int
    decreases v.len(),
{
    if v.len() == 0 {
        i32::MIN as int
    } else {
        let p = seq_max(v.drop_last());
        if p < v.last() {
            v.last()
        } else {
            p
        }
    }
}

/// The smallest value, `i32::MAX` for none.
pub open spec fn seq_min(v: Seq<int>) -> int
    decreases v.len(),
{
    if v.len() == 0 {
        i32::MAX as int
    } else {
        let p = seq_min(v.drop_last());
        if v.last() < p {
            v.last()
        } else {
            p
        }
    }
}

/// The number of living snakes.
pub open spec fn alive_count(g: GameView) -> int {
    g.board.snakes.len() - dead_count(g.board.snakes)
}

/// The search stops here: `you` is dead, or only one snake lives.
pub open spec fn is_terminal(g: GameView) -> bool {
    g.you.status == Status::Dead || alive_count(g) == 1
}

/// The minimax value of a position searched `depth` plies deep: `i32::MIN`
/// when `you` is dead, `i32::MAX` when one snake is left, the static
/// evaluation at depth 0; otherwise the best of `you`'s moves, or the worst
/// of the joint moves answering `ym`.
pub open spec fn spec_minimax(g: GameView, w: Weights, depth: nat, maximizing: bool, ym: Move) -> int
    decreases depth, 1nat,
{
    if g.you.status == Status::Dead {
        i32::MIN as int
    } else if alive_count(g) == 1 {
        i32::MAX as int
    } else if depth == 0 {
        spec_eval(g, w)
    } else if maximizing {
        seq_max(max_children(g, w, depth, spec_legal_moves(g.you, g.board)))
    } else {
        seq_min(min_children(g, w, depth, ym, spec_joint_moves(g, ym)))
    }
}

/// The values of `you`'s moves `ms`, each searched one ply less deep.
pub open spec fn max_children(g: GameView, w: Weights, depth: nat, ms: Seq<Move>) -> Seq<int>
    decreases depth, 0nat,
{
    if depth == 0 {
        Seq::empty()
    } else {
        Seq::new(ms.len(), |i: int| spec_minimax(g, w, (depth - 1) as nat, false, ms[i]))
    }
}

/// The values of the positions after each joint move of `js`, each searched
/// one ply less deep.
pub open spec fn min_children(g: GameView, w: Weights, depth: nat, ym: Move, js: Seq<Seq<Move>>) -> Seq<
    int,
>
    decreases depth, 0nat,
{
    if depth == 0 {
        Seq::empty()
    } else {
        Seq::new(
            js.len(),
            |i: int| spec_minimax(spec_apply(g, js[i]), w, (depth - 1) as nat, true, ym),
        )
    }
}

/// Every position the search evaluates statically can be evaluated without overflow.
pub open spec fn leaves_safe(g: GameView, w: Weights, depth: nat, maximizing: bool, ym: Move) -> bool
    decreases depth, 1nat,
{
    if is_terminal(g) {
        true
    } else if depth == 0 {
        eval_safe(g, w)
    } else if maximizing {
        max_leaves_safe(g, w, depth, spec_legal_moves(g.you, g.board))
    } else {
        min_leaves_safe(g, w, depth, ym, spec_joint_moves(g, ym))
    }
}

/// The subtrees of `you`'s moves `ms` are safe.
pub open spec fn max_leaves_safe(g: GameView, w: Weights, depth: nat, ms: Seq<Move>) -> bool
    decreases depth, 0nat,
{
    depth > 0 && forall|i: int|
        0 <= i < ms.len() ==> leaves_safe(g, w, (depth - 1) as nat, false, #[trigger] ms[i])
}

/// The subtrees of the joint moves `js` are safe.
pub open spec fn min_leaves_safe(g: GameView, w: Weights, depth: nat, ym: Move, js: Seq<Seq<Move>>) -> bool
    decreases depth, 0nat,
{
    depth > 0 && forall|i: int|
        0 <= i < js.len() ==> leaves_safe(spec_apply(g, #[trigger] js[i]), w, (depth - 1) as nat, true, ym)
}

/// The fail-soft window property of alpha-beta: a value at or below `alpha`
/// bounds the exact value from above, one at or above `beta` bounds it from
/// below, and one strictly inside the window is exact.
pub open spec fn fail_soft(v: int, exact: int, alpha: int, beta: int) -> bool {
    &&& v <= alpha ==> exact <= v
    &&& v >= beta ==> exact >= v
    &&& alpha < v < beta ==> exact == v
}

// ---------------------------------------------------------------------------
// Facts about moves and joint moves.

pub proof fn lemma_legal_shape(s: SnakeView, b: BoardView)
    ensures
        spec_legal_moves(s, b).len() <= 4,
        forall|i: int| 0 <= i < spec_legal_moves(s, b).len() ==> (#[trigger] spec_legal_moves(s, b)[i]).1 == s.id,
{
    let l = spec_legal_moves(s, b);
    assert forall|i: int| 0 <= i < l.len() implies (#[trigger] l[i]).1 == s.id by {
        let u = legal_one(s, b, crate::types::Direction::Up);
        let d = legal_one(s, b, crate::types::Direction::Down);
        let le = legal_one(s, b, crate::types::Direction::Left);
        let r = legal_one(s, b, crate::types::Direction::Right);
        assert(l == u + d + le + r);
        if i < u.len() {
        } else if i < u.len() + d.len() {
            assert(l[i] == d[i - u.len()]);
        } else if i < u.len() + d.len() + le.len() {
            assert(l[i] == le[i - u.len() - d.len()]);
        } else {
            assert(l[i] == r[i - u.len() - d.len() - le.len()]);
        }
    }
}

proof fn lemma_rival_lists_upto(g: GameView, n: nat)
    requires
        search_wf(g),
        n <= g.board.snakes.len(),
    ensures
        rival_lists(g.board.snakes, g.you.id, g.board, n).len() <= 1,
        rival_lists(g.board.snakes, g.you.id, g.board, n).len() == 1 ==> exists|j: int|
            0 <= j < n && is_rival(#[trigger] g.board.snakes[j], g.you.id) && rival_lists(
                g.board.snakes,
                g.you.id,
                g.board,
                n,
            )[0] == spec_legal_moves(g.board.snakes[j], g.board),
        (exists|j: int| 0 <= j < n && is_rival(#[trigger] g.board.snakes[j], g.you.id)) ==> rival_lists(
            g.board.snakes,
            g.you.id,
            g.board,
            n,
        ).len() == 1,
    decreases n,
{
    if n > 0 {
        lemma_rival_lists_upto(g, (n - 1) as nat);
        let snakes = g.board.snakes;
        let p = rival_lists(snakes, g.you.id, g.board, (n - 1) as nat);
        if is_rival(snakes[n - 1], g.you.id) {
            if p.len() == 1 {
                let j = choose|j: int| 0 <= j < n - 1 && is_rival(#[trigger] snakes[j], g.you.id) && p[0]
                    == spec_legal_moves(snakes[j], g.board);
                assert(j == n - 1);
            }
            let r = rival_lists(snakes, g.you.id, g.board, n);
            assert(r[0] == spec_legal_moves(snakes[n - 1], g.board));
        } else {
            if exists|j: int| 0 <= j < n && is_rival(#[trigger] snakes[j], g.you.id) {
                let j = choose|j: int| 0 <= j < n && is_rival(#[trigger] snakes[j], g.you.id);
                assert(j < n - 1);
            }
        }
    }
}

/// The joint moves answering a move of `you`: at most four, each starting
/// with that move, and each with one more move per living rival, addressed to it.
pub proof fn lemma_joint_shape(g: GameView, ym: Move)
    requires
        search_wf(g),
        ym.1 == g.you.id,
    ensures
        spec_joint_moves(g, ym).len() <= 4,
        forall|i: int|
            0 <= i < spec_joint_moves(g, ym).len() ==> distinct_ids(
                #[trigger] spec_joint_moves(g, ym)[i],
            ) && spec_joint_moves(g, ym)[i].len() <= 2,
        (exists|j: int| 0 <= j < g.board.snakes.len() && is_rival(#[trigger] g.board.snakes[j], g.you.id))
            ==> forall|i: int|
            0 <= i < spec_joint_moves(g, ym).len() ==> (#[trigger] spec_joint_moves(g, ym)[i]).len()
                == 2,
{
    let snakes = g.board.snakes;
    lemma_rival_lists_upto(g, snakes.len());
    let rl = rival_lists(snakes, g.you.id, g.board, snakes.len());
    let lists = seq![seq![ym]] + rl;
    let js = spec_joint_moves(g, ym);
    let init = lists[0].map_values(|n: Move| seq![n]);
    assert(init =~= seq![seq![ym]]);
    if rl.len() == 0 {
        assert(lists.drop_first() =~= Seq::<Seq<Move>>::empty());
        assert(js == init);
        assert(distinct_ids(seq![ym]));
    } else {
        let j = choose|j: int| 0 <= j < snakes.len() && is_rival(#[trigger] snakes[j], g.you.id) && rl[0]
            == spec_legal_moves(snakes[j], g.board);
        let opts = rl[0];
        lemma_legal_shape(snakes[j], g.board);
        assert(lists.drop_first() =~= seq![opts]);
        assert(seq![opts].drop_first() =~= Seq::<Seq<Move>>::empty());
        let pr = spec_partial(init, opts);
        assert(init.drop_last() =~= Seq::<Seq<Move>>::empty());
        assert(spec_partial(init.drop_last(), opts) == Seq::<Seq<Move>>::empty());
        assert(init.last() == seq![ym]);
        assert(pr == Seq::<Seq<Move>>::empty() + opts.map_values(|y: Move| init.last().push(y)));
        assert(pr =~= opts.map_values(|y: Move| seq![ym].push(y)));
        assert(js == spec_fold_partial(pr, seq![opts].drop_first()));
        assert(js == pr);
        assert forall|i: int| 0 <= i < js.len() implies distinct_ids(#[trigger] js[i]) && js[i].len() == 2 by {
            assert(js[i] == seq![ym].push(opts[i]));
            assert(opts[i].1 == snakes[j].id);
            assert(js[i][0] == ym);
            assert(js[i][1] == opts[i]);
        }
    }
}

/// The number of dead snakes is one less than the number of snakes when
/// exactly one, the one at `k`, is alive.
proof fn lemma_one_alive(snakes: Seq<SnakeView>, k: int)
    requires
        0 <= k < snakes.len(),
        snakes[k].status == Status::Alive,
        forall|j: int| 0 <= j < snakes.len() && j != k ==> (#[trigger] snakes[j]).status == Status::Dead,
    ensures
        dead_count(snakes) == snakes.len() - 1,
    decreases snakes.len(),
{
    let dl = snakes.drop_last();
    assert forall|j: int| 0 <= j < dl.len() implies #[trigger] dl[j] == snakes[j] by {}
    if snakes.len() > 1 {
        if k < snakes.len() - 1 {
            assert forall|j: int| 0 <= j < dl.len() && j != k implies (#[trigger] dl[j]).status == Status::Dead by {
                assert(dl[j] == snakes[j]);
            }
            lemma_one_alive(dl, k);
        } else {
            assert forall|j: int| 0 <= j < dl.len() implies (#[trigger] dl[j]).status == Status::Dead by {
                assert(dl[j] == snakes[j]);
            }
            lemma_all_dead(dl);
        }
    } else {
        assert(dl.len() == 0);
        assert(dead_count(dl) == 0);
    }
}

proof fn lemma_all_dead(snakes: Seq<SnakeView>)
    requires
        forall|j: int| 0 <= j < snakes.len() ==> (#[trigger] snakes[j]).status == Status::Dead,
    ensures
        dead_count(snakes) == snakes.len(),
    decreases snakes.len(),
{
    if snakes.len() > 0 {
        let dl = snakes.drop_last();
        assert forall|j: int| 0 <= j < dl.len() implies (#[trigger] dl[j]).status == Status::Dead by {
            assert(dl[j] == snakes[j]);
        }
        lemma_all_dead(dl);
    }
}

/// In a searchable position that is not terminal, some rival is alive.
pub proof fn lemma_nonterminal_rival(g: GameView)
    requires
        search_wf(g),
        !is_terminal(g),
    ensures
        exists|j: int| 0 <= j < g.board.snakes.len() && is_rival(#[trigger] g.board.snakes[j], g.you.id),
{
    let snakes = g.board.snakes;
    crate::rules::lemma_first_with_id(snakes, g.you.id);
    let k = first_with_id(snakes, g.you.id);
    assert(snakes[k] == g.you);
    if !exists|j: int| 0 <= j < snakes.len() && is_rival(#[trigger] snakes[j], g.you.id) {
        assert forall|j: int| 0 <= j < snakes.len() && j != k implies (#[trigger] snakes[j]).status
            == Status::Dead by {
            assert(!is_rival(snakes[j], g.you.id));
            if snakes[j].id == g.you.id {
                assert(snakes[k].id == snakes[j].id);
            }
        }
        lemma_one_alive(snakes, k);
    }
}

/// On a playable position every snake's moves can be tested.
pub proof fn lemma_moves_safe(g: GameView, s: SnakeView)
    requires
        wf(g),
        s.body.len() >= 2,
        near_board(s.head, g.board.width, g.board.height),
    ensures
        moves_safe(s, g.board),
{
    let b = g.board;
    assert forall|h: crate::types::Coordinate| crate::small::scan_safe(b.snakes, s.id, h) by {
        assert forall|k: int|
            0 <= k < b.snakes.len() && (forall|j: int| 0 <= j < k ==> !crate::small::blocks(#[trigger] b.snakes[j], s.id, h))
            implies #[trigger] b.snakes[k].body.len() >= 2 by {
        }
    }
}

/// `i` is the first index of `cs` whose value is `v`, every earlier value being smaller.
pub open spec fn first_best(cs: Seq<int>, v: int, i: int) -> bool {
    &&& 0 <= i < cs.len()
    &&& cs[i] == v
    &&& forall|j: int| 0 <= j < i ==> #[trigger] cs[j] < v
}

/// At most one index is the first to reach a value.
pub proof fn lemma_first_best_unique(cs: Seq<int>, v: int, i: int, j: int)
    requires
        first_best(cs, v, i),
        first_best(cs, v, j),
    ensures
        i == j,
{
    if i < j {
        assert(cs[i] < v);
    } else if j < i {
        assert(cs[j] < v);
    }
}

/// The direction a maximizing search of `depth` plies answers with: the
/// direction of the first legal move of `you` whose value is the search's
/// value, and `Up` at a terminal position, at depth 0, or when the value is
/// `i32::MIN`.
pub open spec fn best_dir(g: GameView, w: Weights, depth: nat) -> crate::types::Direction {
    let ms = spec_legal_moves(g.you, g.board);
    let cs = max_children(g, w, depth, ms);
    let v = seq_max(cs);
    if !is_terminal(g) && depth > 0 && v > i32::MIN && exists|i: int| first_best(cs, v, i) {
        ms[choose|i: int| first_best(cs, v, i)].0
    } else {
        crate::types::Direction::Up
    }
}

proof fn lemma_seq_max_range(v: Seq<int>)
    requires
        forall|i: int| 0 <= i < v.len() ==> i32::MIN <= #[trigger] v[i] <= i32::MAX,
    ensures
        i32::MIN <= seq_max(v) <= i32::MAX,
    decreases v.len(),
{
    if v.len() > 0 {
        lemma_seq_max_range(v.drop_last());
    }
}

proof fn lemma_seq_min_range(v: Seq<int>)
    requires
        forall|i: int| 0 <= i < v.len() ==> i32::MIN <= #[trigger] v[i] <= i32::MAX,
    ensures
        i32::MIN <= seq_min(v) <= i32::MAX,
    decreases v.len(),
{
    if v.len() > 0 {
        lemma_seq_min_range(v.drop_last());
    }
}

/// When every evaluated position is safe, the minimax value is an `i32`.
pub proof fn lemma_minimax_range(g: GameView, w: Weights, depth: nat, maximizing: bool, ym: Move)
    requires
        leaves_safe(g, w, depth, maximizing, ym),
    ensures
        i32::MIN <= spec_minimax(g, w, depth, maximizing, ym) <= i32::MAX,
    decreases depth,
{
    if !is_terminal(g) && depth == 0 {
        crate::engine::lemma_eval_range(g, w);
    }
    if !is_terminal(g) && depth > 0 {
        if maximizing {
            let ms = spec_legal_moves(g.you, g.board);
            let cs = max_children(g, w, depth, ms);
            assert forall|i: int| 0 <= i < cs.len() implies i32::MIN <= #[trigger] cs[i] <= i32::MAX by {
                assert(leaves_safe(g, w, (depth - 1) as nat, false, ms[i]));
                lemma_minimax_range(g, w, (depth - 1) as nat, false, ms[i]);
            }
            lemma_seq_max_range(cs);
        } else {
            let js = spec_joint_moves(g, ym);
            let cs = min_children(g, w, depth, ym, js);
            assert forall|i: int| 0 <= i < cs.len() implies i32::MIN <= #[trigger] cs[i] <= i32::MAX by {
                assert(leaves_safe(spec_apply(g, js[i]), w, (depth - 1) as nat, true, ym));
                lemma_minimax_range(spec_apply(g, js[i]), w, (depth - 1) as nat, true, ym);
            }
            lemma_seq_min_range(cs);
        }
    }
}

/// A dead `you` scores `i32::MIN` and a last survivor `i32::MAX`, and these
/// are the extremes: every value a safe search can reach lies between them.
pub proof fn lemma_dead_and_won_are_extremes(g: GameView, w: Weights, depth: nat, maximizing: bool, ym: Move)
    ensures
        g.you.status == Status::Dead ==> spec_minimax(g, w, depth, maximizing, ym) == i32::MIN,
        g.you.status == Status::Alive && alive_count(g) == 1 ==> spec_minimax(g, w, depth, maximizing, ym)
            == i32::MAX,
        leaves_safe(g, w, depth, maximizing, ym) ==> i32::MIN <= spec_minimax(g, w, depth, maximizing, ym)
            <= i32::MAX,
{
    if leaves_safe(g, w, depth, maximizing, ym) {
        lemma_minimax_range(g, w, depth, maximizing, ym);
    }
}

/// With the full window `i32::MIN .. i32::MAX`, a fail-soft value is the
/// exact minimax value.
pub proof fn lemma_full_window_exact(g: GameView, w: Weights, depth: nat, maximizing: bool, ym: Move, v: int)
    requires
        leaves_safe(g, w, depth, maximizing, ym),
        fail_soft(v, spec_minimax(g, w, depth, maximizing, ym), i32::MIN as int, i32::MAX as int),
        i32::MIN <= v <= i32::MAX,
    ensures
        v == spec_minimax(g, w, depth, maximizing, ym),
{
    lemma_minimax_range(g, w, depth, maximizing, ym);
}

// ---------------------------------------------------------------------------
// Facts about the largest and smallest value.

pub proof fn lemma_seq_max_ge(v: Seq<int>, i: int)
    requires
        0 <= i < v.len(),
    ensures
        seq_max(v) >= v[i],
    decreases v.len(),
{
    if i < v.len() - 1 {
        lemma_seq_max_ge(v.drop_last(), i);
    }
}

pub proof fn lemma_seq_min_le(v: Seq<int>, i: int)
    requires
        0 <= i < v.len(),
    ensures
        seq_min(v) <= v[i],
    decreases v.len(),
{
    if i < v.len() - 1 {
        lemma_seq_min_le(v.drop_last(), i);
    }
}

pub proof fn lemma_seq_max_take(v: Seq<int>, k: int)
    requires
        0 <= k < v.len(),
    ensures
        seq_max(v.take(k + 1)) == if seq_max(v.take(k)) < v[k] { v[k] } else { seq_max(v.take(k)) },
{
    assert(v.take(k + 1).drop_last() =~= v.take(k));
}

pub proof fn lemma_seq_min_take(v: Seq<int>, k: int)
    requires
        0 <= k < v.len(),
    ensures
        seq_min(v.take(k + 1)) == if v[k] < seq_min(v.take(k)) { v[k] } else { seq_min(v.take(k)) },
{
    assert(v.take(k + 1).drop_last() =~= v.take(k));
}

// ---------------------------------------------------------------------------
// Facts about reordering.

pub proof fn lemma_first_index(s: Seq<Seq<Move>>, b: Seq<Move>)
    ensures
        -1 <= first_index(s, b) < s.len(),
        first_index(s, b) >= 0 ==> s[first_index(s, b)] == b,
        first_index(s, b) >= 0 ==> forall|j: int| 0 <= j < first_index(s, b) ==> s[j] != b,
        first_index(s, b) < 0 ==> forall|j: int| 0 <= j < s.len() ==> s[j] != b,
    decreases s.len(),
{
    if s.len() > 0 {
        lemma_first_index(s.drop_last(), b);
        assert forall|j: int| 0 <= j < s.len() - 1 implies s.drop_last()[j] == s[j] by {}
    }
}

proof fn lemma_seq_min_prepend(x: int, t: Seq<int>)
    ensures
        seq_min(seq![x] + t) == if x < seq_min(t) { x } else { seq_min(t) },
    decreases t.len(),
{
    if t.len() > 0 {
        lemma_seq_min_prepend(x, t.drop_last());
        assert((seq![x] + t).drop_last() =~= seq![x] + t.drop_last());
        assert((seq![x] + t).last() == t.last());
    } else {
        assert((seq![x] + t).drop_last() =~= Seq::<int>::empty());
        assert(seq_min(Seq::<int>::empty()) == i32::MAX);
        assert((seq![x] + t).last() == x);
    }
}

proof fn lemma_seq_min_remove(v: Seq<int>, p: int)
    requires
        0 <= p < v.len(),
    ensures
        seq_min(v) == if v[p] < seq_min(v.remove(p)) { v[p] } else { seq_min(v.remove(p)) },
    decreases v.len(),
{
    if p == v.len() - 1 {
        assert(v.remove(p) =~= v.drop_last());
    } else {
        lemma_seq_min_remove(v.drop_last(), p);
        assert(v.remove(p).drop_last() =~= v.drop_last().remove(p));
        assert(v.remove(p).last() == v.last());
    }
}

/// Moving one joint move to the front changes neither the number of joint
/// moves, nor which ones there are, nor the smallest of any values attached to them.
pub proof fn lemma_reorder(s: Seq<Seq<Move>>, b: Seq<Move>, f: spec_fn(Seq<Move>) -> int)
    ensures
        spec_reorder(s, b).len() == s.len(),
        forall|k: int|
            0 <= k < s.len() ==> exists|i: int| 0 <= i < s.len() && #[trigger] spec_reorder(s, b)[k] == s[i],
        seq_min(Seq::new(s.len(), |k: int| f(spec_reorder(s, b)[k]))) == seq_min(
            Seq::new(s.len(), |i: int| f(s[i])),
        ),
{
    lemma_first_index(s, b);
    let p = first_index(s, b);
    let o = spec_reorder(s, b);
    if p >= 0 {
        assert forall|k: int| 0 <= k < s.len() implies exists|i: int| 0 <= i < s.len() && #[trigger] o[k] == s[i] by {
            if k == 0 {
                assert(o[k] == s[p]);
            } else if k - 1 < p {
                assert(o[k] == s[k - 1]);
            } else {
                assert(o[k] == s[k]);
            }
        }
        let v = Seq::new(s.len(), |i: int| f(s[i]));
        lemma_seq_min_remove(v, p);
        lemma_seq_min_prepend(v[p], v.remove(p));
        assert(Seq::new(s.len(), |k: int| f(o[k])) =~= seq![v[p]] + v.remove(p));
    } else {
        assert forall|k: int| 0 <= k < s.len() implies exists|i: int| 0 <= i < s.len() && #[trigger] o[k] == s[i] by {
            assert(o[k] == s[k]);
        }
        assert(Seq::new(s.len(), |k: int| f(o[k])) =~= Seq::new(s.len(), |i: int| f(s[i])));
    }
}


proof fn lemma_seq_max_attained(cs: Seq<int>)
    requires
        seq_max(cs) > i32::MIN,
    ensures
        exists|i: int| 0 <= i < cs.len() && cs[i] == seq_max(cs),
    decreases cs.len(),
{
    if cs.len() > 0 {
        let p = seq_max(cs.drop_last());
        if p < cs.last() {
            assert(cs[cs.len() - 1] == seq_max(cs));
        } else {
            lemma_seq_max_attained(cs.drop_last());
            let i = choose|i: int| 0 <= i < cs.drop_last().len() && cs.drop_last()[i] == p;
            assert(cs[i] == seq_max(cs));
        }
    }
}

proof fn lemma_first_attained(cs: Seq<int>, v: int)
    requires
        exists|i: int| 0 <= i < cs.len() && cs[i] == v,
        forall|j: int| 0 <= j < cs.len() ==> cs[j] <= v,
    ensures
        exists|i: int| first_best(cs, v, i),
    decreases cs.len(),
{
    let d = cs.drop_last();
    if exists|i: int| 0 <= i < d.len() && d[i] == v {
        assert forall|j: int| 0 <= j < d.len() implies d[j] <= v by {
            assert(d[j] == cs[j]);
        }
        lemma_first_attained(d, v);
        let i = choose|i: int| first_best(d, v, i);
        assert forall|j: int| 0 <= j < i implies #[trigger] cs[j] < v by {
            assert(d[j] == cs[j]);
        }
        assert(first_best(cs, v, i));
    } else {
        let i = choose|i: int| 0 <= i < cs.len() && cs[i] == v;
        if i < d.len() {
            assert(d[i] == cs[i]);
        }
        assert forall|j: int| 0 <= j < cs.len() - 1 implies #[trigger] cs[j] < v by {
            assert(d[j] == cs[j]);
            assert(cs[j] <= v);
        }
        assert(first_best(cs, v, cs.len() - 1));
    }
}

/// The direction a maximizing search answers with is a legal move of `you`
/// whose value is the search's value, whenever the position is not terminal,
/// the search is at least one ply deep and its value is above `i32::MIN`.
pub proof fn lemma_best_dir_legal(g: GameView, w: Weights, depth: nat)
    requires
        !is_terminal(g),
        depth >= 1,
        seq_max(max_children(g, w, depth, spec_legal_moves(g.you, g.board))) > i32::MIN,
    ensures
        exists|i: int|
            0 <= i < spec_legal_moves(g.you, g.board).len() && (#[trigger] spec_legal_moves(g.you, g.board)[i]).0
                == best_dir(g, w, depth) && max_children(g, w, depth, spec_legal_moves(g.you, g.board))[i]
                == seq_max(max_children(g, w, depth, spec_legal_moves(g.you, g.board))),
{
    let ms = spec_legal_moves(g.you, g.board);
    let cs = max_children(g, w, depth, ms);
    let v = seq_max(cs);
    lemma_seq_max_attained(cs);
    assert forall|j: int| 0 <= j < cs.len() implies cs[j] <= v by {
        lemma_seq_max_ge(cs, j);
    }
    lemma_first_attained(cs, v);
    let i = choose|i: int| first_best(cs, v, i);
    assert(ms[i].0 == best_dir(g, w, depth));
}

} // verus!
