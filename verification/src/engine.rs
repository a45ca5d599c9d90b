//! Static evaluation of a position.
use vstd::prelude::*;
use crate::types::{Coordinate, Weights};
use crate::small::{GameView, SmallBattleSnake, SmallMove, SnakeView, Status};

verus! {

/// `|v|`.
pub open spec fn abs_int(v: int) -> int {
    if v < 0 {
        -v
    } else {
        v
    }
}

/// The manhattan distance between two cells.
pub open spec fn spec_manhattan(a: Coordinate, b: Coordinate) -> int {
    abs_int(a.x - b.x) + abs_int(a.y - b.y)
}

/// The distance of two cells can be computed in `i8`: each difference and
/// its absolute value, and their sum, stay in range.
pub open spec fn dist_fits(a: Coordinate, b: Coordinate) -> bool {
    &&& i8::MIN < a.x - b.x <= i8::MAX
    &&& i8::MIN < a.y - b.y <= i8::MAX
    &&& spec_manhattan(a, b) <= i8::MAX
}

/// The number of dead snakes among `snakes`.
pub open spec fn dead_count(snakes: Seq<SnakeView>) -> nat
    decreases snakes.len(),
{
    if snakes.len() == 0 {
        0
    } else {
        dead_count(snakes.drop_last()) + if snakes.last().status == Status::Dead {
            1nat
        } else {
            0nat
        }
    }
}

pub proof fn lemma_dead_count_bound(snakes: Seq<SnakeView>)
    ensures
        dead_count(snakes) <= snakes.len(),
    decreases snakes.len(),
{
    if snakes.len() > 0 {
        lemma_dead_count_bound(snakes.drop_last());
    }
}

/// No rival is at least as long as `you`.
pub open spec fn is_biggest(g: GameView) -> bool {
    forall|i: int|
        0 <= i < g.board.snakes.len() ==> !(#[trigger] g.board.snakes[i].length >= g.you.length
            && g.board.snakes[i].id != g.you.id)
}

/// The smaller of 100 and the distance from `head` to the nearest of the first `n` cells.
pub open spec fn nearest_cell_upto(cells: Seq<Coordinate>, head: Coordinate, n: nat) -> int
    decreases n,
{
    if n == 0 {
        100
    } else {
        let p = nearest_cell_upto(cells, head, (n - 1) as nat);
        let d = spec_manhattan(cells[n - 1], head);
        if p > d {
            d
        } else {
            p
        }
    }
}

proof fn lemma_nearest_cell_bounds(cells: Seq<Coordinate>, head: Coordinate, n: nat)
    ensures
        0 <= nearest_cell_upto(cells, head, n) <= 100,
    decreases n,
{
    if n > 0 {
        lemma_nearest_cell_bounds(cells, head, (n - 1) as nat);
    }
}

proof fn lemma_closest_rival_bounds(snakes: Seq<SnakeView>, you: SnakeView, n: nat)
    requires
        n <= snakes.len(),
        forall|i: int| 0 <= i < snakes.len() ==> dist_fits(#[trigger] snakes[i].head, you.head),
    ensures
        -1 <= closest_rival_upto(snakes, you, n) <= i8::MAX,
    decreases n,
{
    if n > 0 {
        lemma_closest_rival_bounds(snakes, you, (n - 1) as nat);
        assert(dist_fits(snakes[n - 1].head, you.head));
    }
}

/// 0 stands for "nothing within 100".
pub open spec fn zero_if_100(d: int) -> int {
    if d == 100 {
        0
    } else {
        d
    }
}

/// The distance from `you`'s head to the closest rival head among the first
/// `n` snakes, or -1 when there is none.
pub open spec fn closest_rival_upto(snakes: Seq<SnakeView>, you: SnakeView, n: nat) -> int
    decreases n,
{
    if n == 0 {
        -1
    } else {
        let p = closest_rival_upto(snakes, you, (n - 1) as nat);
        let d = spec_manhattan(snakes[n - 1].head, you.head);
        if snakes[n - 1].id != you.id && (p < 0 || d < p) {
            d
        } else {
            p
        }
    }
}

/// The distance to the target: when `you` is the biggest snake, to the
/// closest rival (every rival is shorter), or to the cell (0, 0) when there
/// is no rival; else to the nearest food, a distance of 100 or more, or no
/// food at all, counting as 0.
pub open spec fn target_distance(g: GameView) -> int {
    if is_biggest(g) {
        let c = closest_rival_upto(g.board.snakes, g.you, g.board.snakes.len());
        if c < 0 {
            spec_manhattan(g.you.head, Coordinate { x: 0, y: 0 })
        } else {
            c
        }
    } else {
        zero_if_100(nearest_cell_upto(g.board.food, g.you.head, g.board.food.len()))
    }
}

/// Whether `c` lies on the body of some snake.
pub open spec fn on_body(snakes: Seq<SnakeView>, c: Coordinate) -> bool {
    exists|k: int, l: int|
        0 <= k < snakes.len() && 0 <= l < snakes[k].body.len() && #[trigger] snakes[k].body[l] == c
}

/// A cell of the board that no snake body covers.
pub open spec fn free_cell(g: GameView, c: Coordinate) -> bool {
    in_grid(c, g.board.width as int, g.board.height as int) && !on_body(g.board.snakes, c)
}

/// Whether two cells share a side.
pub open spec fn adjacent(a: Coordinate, b: Coordinate) -> bool {
    spec_manhattan(a, b) == 1
}

/// A walk from `you`'s head through free cells, one side at a time.
pub open spec fn is_path(g: GameView, p: Seq<Coordinate>) -> bool {
    &&& p.len() >= 1
    &&& p[0] == g.you.head
    &&& forall|k: int| 1 <= k < p.len() ==> free_cell(g, #[trigger] p[k]) && adjacent(p[k - 1], p[k])
}

/// A free cell that `you`'s head can reach through free cells.
pub open spec fn reachable(g: GameView, c: Coordinate) -> bool {
    free_cell(g, c) && exists|p: Seq<Coordinate>| is_path(g, p) && p.last() == c
}

/// A cell one side away from the end of some walk from the head.
pub open spec fn one_step(g: GameView, c: Coordinate) -> bool {
    exists|p: Seq<Coordinate>| is_path(g, p) && adjacent(p.last(), c)
}

/// The number of cells `(i, j)` with `j < n` that satisfy `p`.
pub open spec fn count_row_where(i: int, n: nat, p: spec_fn(int, int) -> bool) -> nat
    decreases n,
{
    if n == 0 {
        0
    } else {
        count_row_where(i, (n - 1) as nat, p) + if p(i, n - 1) {
            1nat
        } else {
            0nat
        }
    }
}

/// The number of cells `(i, j)` with `i < m` and `j < cols` that satisfy `p`.
pub open spec fn count_where(m: nat, cols: nat, p: spec_fn(int, int) -> bool) -> nat
    decreases m,
{
    if m == 0 {
        0
    } else {
        count_where((m - 1) as nat, cols, p) + count_row_where(m - 1, cols, p)
    }
}

/// The number of free cells that `you`'s head can reach (the head itself
/// counts when no body covers it).
pub open spec fn spec_flood_fill(g: GameView) -> int {
    count_where(g.board.width as nat, g.board.height as nat, |i: int, j: int| reachable(g, at(i, j))) as int
}

/// The number of the first `n` food entries that lie on reachable cells.
pub open spec fn reachable_food_upto(g: GameView, n: nat) -> int
    decreases n,
{
    if n == 0 {
        0
    } else {
        reachable_food_upto(g, (n - 1) as nat) + if reachable(g, g.board.food[n - 1]) {
            1int
        } else {
            0int
        }
    }
}

/// The number of food entries on reachable cells.
pub open spec fn reachable_food(g: GameView) -> int {
    reachable_food_upto(g, g.board.food.len())
}

/// The static evaluation: the reachable food, plus the reachable squares,
/// minus the distance to the target. The weights take no part in it.
pub open spec fn spec_eval(g: GameView, w: Weights) -> int {
    reachable_food(g) + spec_flood_fill(g) - target_distance(g)
}

/// The evaluation can run: `you`'s head is on the board, every distance it
/// computes fits in `i8`, and the food list is short enough for the count to
/// fit an `i32`.
pub open spec fn eval_safe(g: GameView, w: Weights) -> bool {
    &&& fill_safe(g)
    &&& g.board.food.len() <= 1_000_000_000
    &&& is_biggest(g) ==> forall|i: int|
        0 <= i < g.board.snakes.len() ==> dist_fits(#[trigger] g.board.snakes[i].head, g.you.head)
    &&& is_biggest(g) ==> dist_fits(g.you.head, Coordinate { x: 0, y: 0 })
    &&& !is_biggest(g) ==> forall|i: int|
        0 <= i < g.board.food.len() ==> dist_fits(#[trigger] g.board.food[i], g.you.head)
}

proof fn lemma_reachable_food_bounds(g: GameView, n: nat)
    ensures
        0 <= reachable_food_upto(g, n) <= n,
    decreases n,
{
    if n > 0 {
        lemma_reachable_food_bounds(g, (n - 1) as nat);
    }
}

proof fn lemma_count_row_where_bound(i: int, n: nat, p: spec_fn(int, int) -> bool)
    ensures
        count_row_where(i, n, p) <= n,
    decreases n,
{
    if n > 0 {
        lemma_count_row_where_bound(i, (n - 1) as nat, p);
    }
}

proof fn lemma_count_where_bound(m: nat, cols: nat, p: spec_fn(int, int) -> bool)
    ensures
        count_where(m, cols, p) <= m * cols,
    decreases m,
{
    if m > 0 {
        lemma_count_where_bound((m - 1) as nat, cols, p);
        lemma_count_row_where_bound(m - 1, cols, p);
        assert((m - 1) * cols + cols == m * cols) by (nonlinear_arith);
    }
}

/// When the evaluation can run, its value is an `i32`.
pub proof fn lemma_eval_range(g: GameView, w: Weights)
    requires
        eval_safe(g, w),
    ensures
        i32::MIN <= spec_eval(g, w) <= i32::MAX,
{
    lemma_reachable_food_bounds(g, g.board.food.len());
    lemma_count_where_bound(g.board.width as nat, g.board.height as nat, |i: int, j: int| reachable(g, at(i, j)));
    assert((g.board.width as nat) * (g.board.height as nat) <= 127 * 127) by (nonlinear_arith)
        requires
            0 <= g.board.width <= 127,
            0 <= g.board.height <= 127,
    ;
    lemma_nearest_cell_bounds(g.board.food, g.you.head, g.board.food.len());
    if is_biggest(g) {
        lemma_closest_rival_bounds(g.board.snakes, g.you, g.board.snakes.len());
    }
}

/// Two snakes that differ at most in health.
pub open spec fn alike_snakes(a: SnakeView, b: SnakeView) -> bool {
    a.id == b.id && a.body == b.body && a.head == b.head && a.length == b.length && a.status == b.status
}

/// Two positions that differ at most in the turn, the hazards and health values.
pub open spec fn alike_positions(g1: GameView, g2: GameView) -> bool {
    &&& g1.board.width == g2.board.width
    &&& g1.board.height == g2.board.height
    &&& g1.board.food == g2.board.food
    &&& g1.board.snakes.len() == g2.board.snakes.len()
    &&& forall|i: int| 0 <= i < g1.board.snakes.len() ==> alike_snakes(#[trigger] g1.board.snakes[i], g2.board.snakes[i])
    &&& alike_snakes(g1.you, g2.you)
}

proof fn lemma_alike_reachable(g1: GameView, g2: GameView, c: Coordinate)
    requires
        alike_positions(g1, g2),
    ensures
        on_body(g1.board.snakes, c) == on_body(g2.board.snakes, c),
        reachable(g1, c) == reachable(g2, c),
{
    let s1 = g1.board.snakes;
    let s2 = g2.board.snakes;
    assert forall|d: Coordinate| on_body(s1, d) == on_body(s2, d) by {
        if on_body(s1, d) {
            let (k, l) = choose|k: int, l: int| 0 <= k < s1.len() && 0 <= l < s1[k].body.len() && #[trigger] s1[k].body[l] == d;
            assert(alike_snakes(s1[k], s2[k]));
            assert(s2[k].body[l] == d);
        }
        if on_body(s2, d) {
            let (k, l) = choose|k: int, l: int| 0 <= k < s2.len() && 0 <= l < s2[k].body.len() && #[trigger] s2[k].body[l] == d;
            assert(alike_snakes(s1[k], s2[k]));
            assert(s1[k].body[l] == d);
        }
    }
    assert forall|p: Seq<Coordinate>| is_path(g1, p) == is_path(g2, p) by {
        assert forall|k: int| 1 <= k < p.len() implies free_cell(g1, #[trigger] p[k]) == free_cell(g2, p[k]) by {
            assert(on_body(s1, p[k]) == on_body(s2, p[k]));
        }
    }
    if reachable(g1, c) {
        let p = choose|p: Seq<Coordinate>| is_path(g1, p) && p.last() == c;
        assert(is_path(g2, p));
    }
    if reachable(g2, c) {
        let p = choose|p: Seq<Coordinate>| is_path(g2, p) && p.last() == c;
        assert(is_path(g1, p));
    }
}

proof fn lemma_alike_closest(g1: GameView, g2: GameView, n: nat)
    requires
        alike_positions(g1, g2),
        n <= g1.board.snakes.len(),
    ensures
        closest_rival_upto(g1.board.snakes, g1.you, n) == closest_rival_upto(g2.board.snakes, g2.you, n),
    decreases n,
{
    if n > 0 {
        lemma_alike_closest(g1, g2, (n - 1) as nat);
        assert(alike_snakes(g1.board.snakes[n - 1], g2.board.snakes[n - 1]));
    }
}

proof fn lemma_alike_food(g1: GameView, g2: GameView, n: nat)
    requires
        alike_positions(g1, g2),
        n <= g1.board.food.len(),
    ensures
        reachable_food_upto(g1, n) == reachable_food_upto(g2, n),
    decreases n,
{
    if n > 0 {
        lemma_alike_food(g1, g2, (n - 1) as nat);
        lemma_alike_reachable(g1, g2, g1.board.food[n - 1]);
    }
}

/// The evaluation reads neither the turn, nor the hazards, nor any health:
/// two positions that differ only there evaluate alike.
pub proof fn lemma_eval_ignores_turn_hazards_health(g1: GameView, g2: GameView, w: Weights)
    requires
        alike_positions(g1, g2),
    ensures
        spec_eval(g1, w) == spec_eval(g2, w),
{
    let f1 = |i: int, j: int| reachable(g1, at(i, j));
    let f2 = |i: int, j: int| reachable(g2, at(i, j));
    assert forall|i: int, j: int| #[trigger] f1(i, j) == f2(i, j) by {
        lemma_alike_reachable(g1, g2, at(i, j));
    }
    assert(f1 =~= f2);
    lemma_alike_food(g1, g2, g1.board.food.len());
    lemma_alike_closest(g1, g2, g1.board.snakes.len());
    assert(alike_snakes(g1.you, g2.you));
    if is_biggest(g1) {
        assert forall|i: int| 0 <= i < g2.board.snakes.len() implies !(#[trigger] g2.board.snakes[i].length >= g2.you.length
            && g2.board.snakes[i].id != g2.you.id) by {
            assert(alike_snakes(g1.board.snakes[i], g2.board.snakes[i]));
            assert(!(g1.board.snakes[i].length >= g1.you.length && g1.board.snakes[i].id != g1.you.id));
        }
    }
    if is_biggest(g2) {
        assert forall|i: int| 0 <= i < g1.board.snakes.len() implies !(#[trigger] g1.board.snakes[i].length >= g1.you.length
            && g1.board.snakes[i].id != g1.you.id) by {
            assert(alike_snakes(g1.board.snakes[i], g2.board.snakes[i]));
            assert(!(g2.board.snakes[i].length >= g2.you.length && g2.board.snakes[i].id != g2.you.id));
        }
    }
}

/// Static eval of the board state.
/// returns (reachable food) + (reachable squares) - (distance to target)
pub fn eval(board: &SmallMove, weights: Weights) -> (r: i32)
    requires
        eval_safe(board@, weights),
    ensures
        r == spec_eval(board@, weights),
{
    let ghost g = board@;
    let ghost snakes = g.board.snakes;
    let n = board.board.snakes.len();
    let mut biggest = true;
    let mut k: usize = 0;
    while k < n
        invariant_except_break
            n == board.board.snakes.len(),
            g == board@,
            snakes == g.board.snakes,
            k <= n,
            biggest,
            forall|j: int|
                0 <= j < k ==> !(#[trigger] snakes[j].length >= g.you.length && snakes[j].id
                    != g.you.id),
        ensures
            biggest == is_biggest(g),
        decreases n - k,
    {
        let x = &board.board.snakes[k];
        assert(snakes[k as int] == x@);
        if x.length >= board.you.length && x.id != board.you.id {
            assert(snakes[k as int].length >= g.you.length && snakes[k as int].id != g.you.id);
            biggest = false;
            break;
        }
        k = k + 1;
    }
    let mut target: i32 = 100;
    if biggest {
        let mut closest: i32 = -1;
        let mut k: usize = 0;
        while k < n
            invariant
                n == board.board.snakes.len(),
                g == board@,
                snakes == g.board.snakes,
                is_biggest(g),
                eval_safe(g, weights),
                k <= n,
                closest == closest_rival_upto(snakes, g.you, k as nat),
            decreases n - k,
        {
            let x = &board.board.snakes[k];
            assert(snakes[k as int] == x@);
            assert(dist_fits(snakes[k as int].head, g.you.head));
            proof {
                lemma_closest_rival_bounds(snakes, g.you, k as nat);
            }
            let d = manhattan(&x.head, &board.you.head);
            if x.id != board.you.id && (closest < 0 || d < closest) {
                closest = d;
            }
            k = k + 1;
        }
        if closest < 0 {
            target = manhattan(&board.you.head, &Coordinate::new(0, 0));
        } else {
            target = closest;
        }
    } else {
        let nf = board.board.food.len();
        let mut k: usize = 0;
        while k < nf
            invariant
                nf == board.board.food.len(),
                g == board@,
                !is_biggest(g),
                eval_safe(g, weights),
                k <= nf,
                target == nearest_cell_upto(g.board.food, g.you.head, k as nat),
            decreases nf - k,
        {
            let food = &board.board.food[k];
            assert(dist_fits(g.board.food[k as int], g.you.head));
            if target > manhattan(food, &board.you.head) {
                target = manhattan(food, &board.you.head);
            }
            k = k + 1;
        }
        if target == 100 {
            target = 0;
        }
    }
    proof {
        lemma_nearest_cell_bounds(g.board.food, g.you.head, g.board.food.len());
        if is_biggest(g) {
            lemma_closest_rival_bounds(snakes, g.you, snakes.len());
        }
    }
    assert(target == target_distance(g));
    let (all, squares) = fill_grid(board);
    let rows = board.board.width as usize;
    let cols = board.board.height as usize;
    let width = board.board.width;
    let height = board.board.height;
    let nf = board.board.food.len();
    let mut food_count: u32 = 0;
    let mut k: usize = 0;
    while k < nf
        invariant
            nf == board.board.food.len(),
            g == board@,
            eval_safe(g, weights),
            rows == g.board.width,
            cols == g.board.height,
            width == g.board.width,
            height == g.board.height,
            is_grid(all@, rows as int, cols as int),
            forall|a: int, b: int|
                0 <= a < rows && 0 <= b < cols ==> (#[trigger] all@[a]@[b] == Filled::Full) == reachable(g, at(a, b)),
            k <= nf,
            food_count == reachable_food_upto(g, k as nat),
        decreases nf - k,
    {
        let f = board.board.food[k];
        proof {
            lemma_reachable_food_bounds(g, k as nat);
        }
        if 0 <= f.x && f.x < width && 0 <= f.y && f.y < height {
            assert(at(f.x as int, f.y as int) == f);
            if all[f.x as usize][f.y as usize] == Filled::Full {
                food_count = food_count + 1;
            }
        } else {
            assert(!free_cell(g, f));
        }
        k = k + 1;
    }
    proof {
        lemma_reachable_food_bounds(g, nf as nat);
    }
    assert(squares <= 127 * 127) by (nonlinear_arith)
        requires
            squares <= g.board.width * g.board.height,
            g.board.width <= 127,
            g.board.height <= 127,
            g.board.width >= 0,
    ;
    food_count as i32 + squares as i32 - target
}

/// The number of dead snakes on the board.
fn amnt_dead(board: &SmallMove) -> (out: usize)
    ensures
        out == dead_count(board@.board.snakes),
{
    let ghost snakes = board@.board.snakes;
    let mut out: usize = 0;
    let mut k: usize = 0;
    while k < board.board.snakes.len()
        invariant
            snakes == board@.board.snakes,
            k <= board.board.snakes.len(),
            out == dead_count(snakes.take(k as int)),
            out <= k,
        decreases board.board.snakes.len() - k,
    {
        let snake = &board.board.snakes[k];
        proof {
            assert(snakes.take(k as int + 1).drop_last() =~= snakes.take(k as int));
            assert(snakes[k as int] == snake@);
        }
        if snake.status == Status::Dead {
            out = out + 1;
        }
        k = k + 1;
    }
    assert(snakes.take(k as int) =~= snakes);
    out
}

/// returns the manhattan distance between the 2 points.
fn manhattan(pos1: &Coordinate, pos2: &Coordinate) -> (d: i32)
    requires
        dist_fits(*pos1, *pos2),
    ensures
        d == spec_manhattan(*pos1, *pos2),
{
    let dx = pos1.x - pos2.x;
    let dy = pos1.y - pos2.y;
    let ax = if dx < 0 {
        -dx
    } else {
        dx
    };
    let ay = if dy < 0 {
        -dy
    } else {
        dy
    };
    (ax + ay) as i32
}

/// The state of a cell during the fill: not reached yet, reached, or
/// covered by a snake body.
#[derive(Debug, Clone, Copy, PartialEq, Eq, Structural)]
pub enum Filled {
    Empty,
    Full,
    Blocked,
}

/// Whether `c` indexes a cell of a grid with `rows` rows of `cols` cells.
pub open spec fn in_grid(c: Coordinate, rows: int, cols: int) -> bool {
    0 <= c.x < rows && 0 <= c.y < cols
}

/// The fill can run: `you`'s head is on the board, so the board has cells.
pub open spec fn fill_safe(g: GameView) -> bool {
    in_grid(g.you.head, g.board.width as int, g.board.height as int)
}
/// Whether `all` is a grid of `rows` rows of `cols` cells.
pub open spec fn is_grid(all: Seq<Vec<Filled>>, rows: int, cols: int) -> bool {
    &&& all.len() == rows
    &&& forall|i: int| 0 <= i < rows ==> (#[trigger] all[i]).len() == cols
}

/// Sets one cell of a grid.
fn set_cell(all: &mut Vec<Vec<Filled>>, i: usize, j: usize, v: Filled)
    requires
        i < old(all).len(),
        j < old(all)@[i as int].len(),
    ensures
        final(all)@.len() == old(all)@.len(),
        forall|k: int| 0 <= k < old(all)@.len() && k != i ==> final(all)@[k] == old(all)@[k],
        final(all)@[i as int]@ == old(all)@[i as int]@.update(j as int, v),
{
    let mut row = all.remove(i);
    row.set(j, v);
    all.insert(i, row);
}

/// A grid of `rows` rows of `cols` empty cells.
fn empty_grid(rows: usize, cols: usize) -> (all: Vec<Vec<Filled>>)
    ensures
        is_grid(all@, rows as int, cols as int),
        forall|i: int, j: int| 0 <= i < rows && 0 <= j < cols ==> #[trigger] all@[i]@[j] == Filled::Empty,
{
    let mut all: Vec<Vec<Filled>> = Vec::new();
    let mut i: usize = 0;
    while i < rows
        invariant
            i <= rows,
            is_grid(all@, i as int, cols as int),
            forall|a: int, b: int| 0 <= a < i && 0 <= b < cols ==> #[trigger] all@[a]@[b] == Filled::Empty,
        decreases rows - i,
    {
        let mut row: Vec<Filled> = Vec::new();
        let mut j: usize = 0;
        while j < cols
            invariant
                j <= cols,
                row.len() == j,
                forall|b: int| 0 <= b < j ==> row@[b] == Filled::Empty,
            decreases cols - j,
        {
            row.push(Filled::Empty);
            j = j + 1;
        }
        all.push(row);
        i = i + 1;
    }
    all
}

/// The number of full cells of a row.
pub open spec fn count_row(r: Seq<Filled>) -> nat
    decreases r.len(),
{
    if r.len() == 0 {
        0
    } else {
        count_row(r.drop_last()) + if r.last() == Filled::Full {
            1nat
        } else {
            0nat
        }
    }
}

/// The number of full cells of a grid.
pub open spec fn count_grid(all: Seq<Vec<Filled>>) -> nat
    decreases all.len(),
{
    if all.len() == 0 {
        0
    } else {
        count_grid(all.drop_last()) + count_row(all.last()@)
    }
}

/// Whether cell `(i, j)` of the grid is reached.
pub open spec fn cell_full(all: Seq<Vec<Filled>>, i: int, j: int) -> bool {
    all[i]@[j] == Filled::Full
}

/// Whether cell `(i, j)` of the grid is covered by a body.
pub open spec fn cell_blocked(all: Seq<Vec<Filled>>, i: int, j: int) -> bool {
    all[i]@[j] == Filled::Blocked
}

/// The coordinate of cell `(i, j)`.
pub open spec fn at(i: int, j: int) -> Coordinate {
    Coordinate { x: i as i8, y: j as i8 }
}

/// Cell `(i, j)` is reached, blocked, or waits on the stack.
pub open spec fn covered(all: Seq<Vec<Filled>>, stack: Seq<Coordinate>, i: int, j: int) -> bool {
    cell_full(all, i, j) || cell_blocked(all, i, j) || stack.contains(at(i, j))
}

/// Every neighbour of a reached cell is covered.
pub open spec fn fill_closed(all: Seq<Vec<Filled>>, stack: Seq<Coordinate>, rows: int, cols: int) -> bool {
    forall|i: int, j: int|
        0 <= i < rows && 0 <= j < cols && #[trigger] cell_full(all, i, j) ==> nbrs_covered(all, stack, rows, cols, i, j)
}

/// Every neighbour of `(i, j)` inside the grid is covered.
pub open spec fn nbrs_covered(all: Seq<Vec<Filled>>, stack: Seq<Coordinate>, rows: int, cols: int, i: int, j: int) -> bool {
    &&& i > 0 ==> covered(all, stack, i - 1, j)
    &&& i + 1 < rows ==> covered(all, stack, i + 1, j)
    &&& j > 0 ==> covered(all, stack, i, j - 1)
    &&& j + 1 < cols ==> covered(all, stack, i, j + 1)
}

proof fn lemma_count_row_update(r: Seq<Filled>, j: int)
    requires
        0 <= j < r.len(),
        r[j] == Filled::Empty,
    ensures
        count_row(r.update(j, Filled::Full)) == count_row(r) + 1,
    decreases r.len(),
{
    let u = r.update(j, Filled::Full);
    if j < r.len() - 1 {
        lemma_count_row_update(r.drop_last(), j);
        assert(u.drop_last() =~= r.drop_last().update(j, Filled::Full));
    } else {
        assert(u.drop_last() =~= r.drop_last());
    }
}

proof fn lemma_count_grid_update(all: Seq<Vec<Filled>>, next: Seq<Vec<Filled>>, i: int)
    requires
        0 <= i < all.len(),
        next.len() == all.len(),
        forall|k: int| 0 <= k < all.len() && k != i ==> next[k] == all[k],
        count_row(next[i]@) == count_row(all[i]@) + 1,
    ensures
        count_grid(next) == count_grid(all) + 1,
    decreases all.len(),
{
    if i < all.len() - 1 {
        lemma_count_grid_update(all.drop_last(), next.drop_last(), i);
        assert(next.last() == all.last());
    } else {
        assert(next.drop_last() =~= all.drop_last());
    }
}

proof fn lemma_count_row_bounds(r: Seq<Filled>)
    ensures
        count_row(r) <= r.len(),
        (forall|j: int| 0 <= j < r.len() ==> r[j] != Filled::Full) ==> count_row(r) == 0,
    decreases r.len(),
{
    if r.len() > 0 {
        lemma_count_row_bounds(r.drop_last());
    }
}

proof fn lemma_count_grid_bounds(all: Seq<Vec<Filled>>, cols: int)
    requires
        forall|i: int| 0 <= i < all.len() ==> (#[trigger] all[i]).len() == cols,
    ensures
        count_grid(all) <= all.len() * cols,
        (forall|i: int, j: int| 0 <= i < all.len() && 0 <= j < cols ==> #[trigger] all[i]@[j] != Filled::Full)
            ==> count_grid(all) == 0,
    decreases all.len(),
{
    if all.len() > 0 {
        let d = all.drop_last();
        assert forall|i: int| 0 <= i < d.len() implies (#[trigger] d[i]).len() == cols by {
            assert(d[i] == all[i]);
        }
        lemma_count_grid_bounds(d, cols);
        lemma_count_row_bounds(all.last()@);
        assert(all.len() * cols == d.len() * cols + cols) by (nonlinear_arith)
            requires
                all.len() == d.len() + 1,
        ;
        if forall|i: int, j: int| 0 <= i < all.len() && 0 <= j < cols ==> #[trigger] all[i]@[j] != Filled::Full {
            assert forall|i: int, j: int| 0 <= i < d.len() && 0 <= j < cols implies #[trigger] d[i]@[j] != Filled::Full by {
                assert(d[i] == all[i]);
                assert(all[i]@[j] != Filled::Full);
            }
            assert forall|j: int| 0 <= j < all.last()@.len() implies all.last()@[j] != Filled::Full by {
                assert(all[all.len() - 1]@[j] != Filled::Full);
            }
        }
    }
}

proof fn lemma_count_row_eq(r: Seq<Filled>, i: int, p: spec_fn(int, int) -> bool)
    requires
        forall|j: int| 0 <= j < r.len() ==> (r[j] == Filled::Full) == p(i, j),
    ensures
        count_row(r) == count_row_where(i, r.len(), p),
    decreases r.len(),
{
    if r.len() > 0 {
        let d = r.drop_last();
        assert forall|j: int| 0 <= j < d.len() implies (d[j] == Filled::Full) == p(i, j) by {
            assert(d[j] == r[j]);
        }
        lemma_count_row_eq(d, i, p);
        assert(r.last() == r[r.len() - 1]);
    }
}

/// Counting the reached cells of a grid counts the cells of any predicate
/// that holds exactly of them.
proof fn lemma_count_grid_eq(all: Seq<Vec<Filled>>, cols: nat, p: spec_fn(int, int) -> bool)
    requires
        forall|i: int| 0 <= i < all.len() ==> (#[trigger] all[i]).len() == cols,
        forall|i: int, j: int| 0 <= i < all.len() && 0 <= j < cols ==> (#[trigger] all[i]@[j] == Filled::Full) == p(i, j),
    ensures
        count_grid(all) == count_where(all.len(), cols, p),
    decreases all.len(),
{
    if all.len() > 0 {
        let d = all.drop_last();
        assert forall|i: int| 0 <= i < d.len() implies (#[trigger] d[i]).len() == cols by {
            assert(d[i] == all[i]);
        }
        assert forall|i: int, j: int| 0 <= i < d.len() && 0 <= j < cols implies (#[trigger] d[i]@[j] == Filled::Full) == p(i, j) by {
            assert(d[i] == all[i]);
        }
        lemma_count_grid_eq(d, cols, p);
        let last = all.last();
        assert(last == all[all.len() - 1]);
        assert forall|j: int| 0 <= j < last@.len() implies (last@[j] == Filled::Full) == p(all.len() - 1, j) by {
            assert(all[all.len() - 1]@[j] == last@[j]);
        }
        lemma_count_row_eq(last@, all.len() - 1, p);
    }
}

/// Pushing keeps what a stack holds, and the stack prefix.
proof fn lemma_push_keeps(s: Seq<Coordinate>, t: Seq<Coordinate>)
    requires
        t.len() == s.len() + 1,
        forall|k: int| 0 <= k < s.len() ==> t[k] == s[k],
    ensures
        forall|c: Coordinate| s.contains(c) ==> t.contains(c),
{
    assert forall|c: Coordinate| s.contains(c) implies t.contains(c) by {
        let k = choose|k: int| 0 <= k < s.len() && s[k] == c;
        assert(t[k] == c);
    }
}



/// One step of the fill that marks the popped cell `(ti, tj)` and pushes
/// its neighbours keeps every reached cell's neighbours covered, and keeps
/// covered every cell that was covered.
proof fn lemma_fill_marked(
    old_all: Seq<Vec<Filled>>,
    all: Seq<Vec<Filled>>,
    old_stack: Seq<Coordinate>,
    popped: Seq<Coordinate>,
    ns: Seq<Coordinate>,
    rows: int,
    cols: int,
    ti: int,
    tj: int,
)
    requires
        0 < rows <= 127,
        0 < cols <= 127,
        0 <= ti < rows,
        0 <= tj < cols,
        is_grid(old_all, rows, cols),
        old_stack.len() > 0,
        popped == old_stack.drop_last(),
        old_stack.last() == at(ti, tj),
        forall|k: int| 0 <= k < old_stack.len() ==> in_grid(#[trigger] old_stack[k], rows, cols),
        all.len() == old_all.len(),
        forall|a: int| 0 <= a < rows && a != ti ==> all[a] == old_all[a],
        all[ti]@ == old_all[ti]@.update(tj, Filled::Full),
        old_all[ti]@[tj] == Filled::Empty,
        ns.len() >= popped.len(),
        forall|k: int| 0 <= k < popped.len() ==> ns[k] == popped[k],
        forall|k: int| popped.len() <= k < ns.len() ==> in_grid(#[trigger] ns[k], rows, cols),
        ti > 0 ==> ns.contains(at(ti - 1, tj)),
        ti + 1 < rows ==> ns.contains(at(ti + 1, tj)),
        tj > 0 ==> ns.contains(at(ti, tj - 1)),
        tj + 1 < cols ==> ns.contains(at(ti, tj + 1)),
        fill_closed(old_all, old_stack, rows, cols),
    ensures
        fill_closed(all, ns, rows, cols),
        forall|a: int, b: int| 0 <= a < rows && 0 <= b < cols && covered(old_all, old_stack, a, b)
            ==> covered(all, ns, a, b),
        forall|k: int| 0 <= k < ns.len() ==> in_grid(#[trigger] ns[k], rows, cols),
{
    assert forall|c: Coordinate| popped.contains(c) implies ns.contains(c) by {
        let k = choose|k: int| 0 <= k < popped.len() && popped[k] == c;
        assert(ns[k] == c);
    }
    assert forall|c: Coordinate| old_stack.contains(c) && c != at(ti, tj) implies popped.contains(c) by {
        let k = choose|k: int| 0 <= k < old_stack.len() && old_stack[k] == c;
        assert(k < old_stack.len() - 1);
        assert(popped[k] == c);
    }
    assert forall|a: int, b: int| 0 <= a < rows && 0 <= b < cols && !(a == ti && b == tj)
        implies #[trigger] all[a]@[b] == old_all[a]@[b] by {
        if a != ti {
            assert(all[a] == old_all[a]);
        }
    }
    assert(cell_full(all, ti, tj));
    assert forall|a: int, b: int| 0 <= a < rows && 0 <= b < cols && covered(old_all, old_stack, a, b)
        implies covered(all, ns, a, b) by {
        if a == ti && b == tj {
        } else {
            assert(all[a]@[b] == old_all[a]@[b]);
            if !cell_full(old_all, a, b) && !cell_blocked(old_all, a, b) {
                assert(old_stack.contains(at(a, b)));
                assert(at(a, b) != at(ti, tj));
                assert(popped.contains(at(a, b)));
            }
        }
    }
    assert forall|a: int, b: int|
        0 <= a < rows && 0 <= b < cols && #[trigger] cell_full(all, a, b) implies nbrs_covered(all, ns, rows, cols, a, b) by {
        if !(a == ti && b == tj) {
            assert(all[a]@[b] == old_all[a]@[b]);
            assert(cell_full(old_all, a, b));
            assert(nbrs_covered(old_all, old_stack, rows, cols, a, b));
        }
    }
    assert forall|k: int| 0 <= k < ns.len() implies in_grid(#[trigger] ns[k], rows, cols) by {
        if k < popped.len() {
            assert(ns[k] == popped[k]);
            assert(popped[k] == old_stack[k]);
        }
    }
}

/// One step of the fill that pops a cell already reached or blocked keeps
/// every reached cell's neighbours covered, and keeps every covered cell covered.
proof fn lemma_fill_skipped(
    all: Seq<Vec<Filled>>,
    old_stack: Seq<Coordinate>,
    popped: Seq<Coordinate>,
    rows: int,
    cols: int,
    ti: int,
    tj: int,
)
    requires
        0 < rows <= 127,
        0 < cols <= 127,
        0 <= ti < rows,
        0 <= tj < cols,
        is_grid(all, rows, cols),
        old_stack.len() > 0,
        popped == old_stack.drop_last(),
        old_stack.last() == at(ti, tj),
        all[ti]@[tj] != Filled::Empty,
        forall|k: int| 0 <= k < old_stack.len() ==> in_grid(#[trigger] old_stack[k], rows, cols),
        fill_closed(all, old_stack, rows, cols),
    ensures
        fill_closed(all, popped, rows, cols),
        forall|a: int, b: int| 0 <= a < rows && 0 <= b < cols && covered(all, old_stack, a, b)
            ==> covered(all, popped, a, b),
        forall|k: int| 0 <= k < popped.len() ==> in_grid(#[trigger] popped[k], rows, cols),
{
    assert forall|c: Coordinate| old_stack.contains(c) && c != at(ti, tj) implies popped.contains(c) by {
        let k = choose|k: int| 0 <= k < old_stack.len() && old_stack[k] == c;
        assert(k < old_stack.len() - 1);
        assert(popped[k] == c);
    }
    assert forall|a: int, b: int| 0 <= a < rows && 0 <= b < cols && covered(all, old_stack, a, b)
        implies covered(all, popped, a, b) by {
        if !cell_full(all, a, b) && !cell_blocked(all, a, b) {
            assert(old_stack.contains(at(a, b)));
            if at(a, b) == at(ti, tj) {
                assert(a == ti && b == tj);
            }
        }
    }
    assert forall|a: int, b: int|
        0 <= a < rows && 0 <= b < cols && #[trigger] cell_full(all, a, b) implies nbrs_covered(all, popped, rows, cols, a, b) by {
        assert(nbrs_covered(all, old_stack, rows, cols, a, b));
    }
    assert forall|k: int| 0 <= k < popped.len() implies in_grid(#[trigger] popped[k], rows, cols) by {
        assert(popped[k] == old_stack[k]);
    }
}

/// Cell `(i, j)` is reached or blocked.
pub open spec fn settled(all: Seq<Vec<Filled>>, i: int, j: int) -> bool {
    cell_full(all, i, j) || cell_blocked(all, i, j)
}

/// Every neighbour of `(i, j)` inside the grid is reached or blocked.
pub open spec fn nbrs_settled(all: Seq<Vec<Filled>>, rows: int, cols: int, i: int, j: int) -> bool {
    &&& i > 0 ==> settled(all, i - 1, j)
    &&& i + 1 < rows ==> settled(all, i + 1, j)
    &&& j > 0 ==> settled(all, i, j - 1)
    &&& j + 1 < cols ==> settled(all, i, j + 1)
}

/// A cell next to an in-grid cell `a` is one of its four neighbours.
proof fn lemma_adjacent_cases(a: Coordinate, c: Coordinate, rows: int, cols: int)
    requires
        adjacent(a, c),
        in_grid(a, rows, cols),
        in_grid(c, rows, cols),
        rows <= 127,
        cols <= 127,
    ensures
        (a.x > 0 && c == at(a.x - 1, a.y as int)) || (a.x + 1 < rows && c == at(a.x + 1, a.y as int)) || (a.y > 0
            && c == at(a.x as int, a.y - 1)) || (a.y + 1 < cols && c == at(a.x as int, a.y + 1)),
{
}

/// When the fill is done, every free cell on a walk from the head is reached.
proof fn lemma_path_reached(g: GameView, all: Seq<Vec<Filled>>, p: Seq<Coordinate>, k: int)
    requires
        g.board.width <= 127,
        g.board.height <= 127,
        fill_safe(g),
        forall|a: int, b: int|
            0 <= a < g.board.width && 0 <= b < g.board.height && #[trigger] cell_full(all, a, b) ==> nbrs_settled(
                all,
                g.board.width as int,
                g.board.height as int,
                a,
                b,
            ),
        settled(all, g.you.head.x as int, g.you.head.y as int),
        cell_blocked(all, g.you.head.x as int, g.you.head.y as int) ==> nbrs_settled(
            all,
            g.board.width as int,
            g.board.height as int,
            g.you.head.x as int,
            g.you.head.y as int,
        ),
        forall|a: int, b: int|
            0 <= a < g.board.width && 0 <= b < g.board.height && #[trigger] cell_blocked(all, a, b) ==> on_body(
                g.board.snakes,
                at(a, b),
            ),
        is_path(g, p),
        1 <= k < p.len(),
    ensures
        cell_full(all, p[k].x as int, p[k].y as int),
    decreases k,
{
    let rows = g.board.width as int;
    let cols = g.board.height as int;
    assert(free_cell(g, p[k]) && adjacent(p[k - 1], p[k]));
    let prev = p[k - 1];
    let c = p[k];
    let pi = prev.x as int;
    let pj = prev.y as int;
    if k > 1 {
        lemma_path_reached(g, all, p, k - 1);
        assert(free_cell(g, p[k - 1]));
        assert(nbrs_settled(all, rows, cols, pi, pj));
    } else {
        assert(prev == g.you.head);
    }
    assert(in_grid(prev, rows, cols));
    lemma_adjacent_cases(prev, c, rows, cols);
    assert(at(c.x as int, c.y as int) == c);
    assert(!cell_blocked(all, c.x as int, c.y as int));
}

/// A free cell that is the head, or one side from the end of a walk, is reachable.
proof fn lemma_marked_reachable(g: GameView, thing: Coordinate)
    requires
        free_cell(g, thing),
        thing == g.you.head || one_step(g, thing),
    ensures
        reachable(g, thing),
{
    if thing == g.you.head {
        let p = seq![thing];
        assert(is_path(g, p) && p.last() == thing);
    } else {
        let q = choose|q: Seq<Coordinate>| is_path(g, q) && adjacent(q.last(), thing);
        let p = q.push(thing);
        assert(p[p.len() - 1] == thing);
        assert forall|k: int| 1 <= k < p.len() implies free_cell(g, #[trigger] p[k]) && adjacent(p[k - 1], p[k]) by {
            if k < q.len() {
                assert(p[k] == q[k] && p[k - 1] == q[k - 1]);
            } else {
                assert(p[k - 1] == q.last());
            }
        }
        assert(is_path(g, p) && p.last() == thing);
    }
}

/// Marking one empty, reachable cell keeps the grid's bookkeeping: blocked
/// cells are the body cells, and every reached cell is reachable.
proof fn lemma_mark_keeps(g: GameView, old_all: Seq<Vec<Filled>>, all: Seq<Vec<Filled>>, rows: int, cols: int, ti: int, tj: int)
    requires
        is_grid(old_all, rows, cols),
        0 <= ti < rows,
        0 <= tj < cols,
        all.len() == old_all.len(),
        forall|a: int| 0 <= a < rows && a != ti ==> all[a] == old_all[a],
        all[ti]@ == old_all[ti]@.update(tj, Filled::Full),
        old_all[ti]@[tj] == Filled::Empty,
        reachable(g, at(ti, tj)),
        forall|a: int, b: int| 0 <= a < rows && 0 <= b < cols ==> (#[trigger] cell_blocked(old_all, a, b)) == on_body(g.board.snakes, at(a, b)),
        forall|a: int, b: int| 0 <= a < rows && 0 <= b < cols && #[trigger] cell_full(old_all, a, b) ==> reachable(g, at(a, b)),
    ensures
        is_grid(all, rows, cols),
        forall|a: int, b: int| 0 <= a < rows && 0 <= b < cols ==> (#[trigger] cell_blocked(all, a, b)) == on_body(g.board.snakes, at(a, b)),
        forall|a: int, b: int| 0 <= a < rows && 0 <= b < cols && #[trigger] cell_full(all, a, b) ==> reachable(g, at(a, b)),
        forall|a: int, b: int| 0 <= a < rows && 0 <= b < cols && !(a == ti && b == tj) ==> #[trigger] all[a]@[b] == old_all[a]@[b],
{
    assert forall|a: int, b: int| 0 <= a < rows && 0 <= b < cols && !(a == ti && b == tj)
        implies #[trigger] all[a]@[b] == old_all[a]@[b] by {
        if a != ti {
            assert(all[a] == old_all[a]);
        }
    }
    assert forall|a: int| 0 <= a < rows implies (#[trigger] all[a]).len() == cols by {
        if a != ti {
            assert(all[a] == old_all[a]);
        }
    }
    assert forall|a: int, b: int| 0 <= a < rows && 0 <= b < cols implies (#[trigger] cell_blocked(all, a, b)) == on_body(g.board.snakes, at(a, b)) by {
        if !(a == ti && b == tj) {
            assert(all[a]@[b] == old_all[a]@[b]);
            assert(cell_blocked(old_all, a, b) == on_body(g.board.snakes, at(a, b)));
        } else {
            assert(cell_blocked(old_all, a, b) == on_body(g.board.snakes, at(a, b)));
        }
    }
    assert forall|a: int, b: int| 0 <= a < rows && 0 <= b < cols && #[trigger] cell_full(all, a, b) implies reachable(g, at(a, b)) by {
        if !(a == ti && b == tj) {
            assert(all[a]@[b] == old_all[a]@[b]);
            assert(cell_full(old_all, a, b));
        }
    }
}

/// Pushing a neighbour of `thing` keeps every cell pushed since `from` an
/// in-grid neighbour of `thing`.
proof fn lemma_push_nbr(s0: Seq<Coordinate>, s1: Seq<Coordinate>, from: int, thing: Coordinate, c: Coordinate, rows: int, cols: int)
    requires
        s1 == s0.push(c),
        adjacent(thing, c),
        in_grid(c, rows, cols),
        0 <= from <= s0.len(),
        forall|k: int| from <= k < s0.len() ==> in_grid(#[trigger] s0[k], rows, cols) && adjacent(thing, s0[k]),
    ensures
        forall|k: int| from <= k < s1.len() ==> in_grid(#[trigger] s1[k], rows, cols) && adjacent(thing, s1[k]),
        forall|k: int| 0 <= k < s0.len() ==> s1[k] == s0[k],
{
    assert forall|k: int| from <= k < s1.len() implies in_grid(#[trigger] s1[k], rows, cols) && adjacent(thing, s1[k]) by {
        if k < s0.len() {
            assert(s1[k] == s0[k]);
        }
    }
}

/// After pushing the neighbours of a reachable cell, every stack cell is the
/// head or one side from the end of a walk.
proof fn lemma_stack_after_mark(g: GameView, thing: Coordinate, popped: Seq<Coordinate>, ns: Seq<Coordinate>, rows: int, cols: int)
    requires
        reachable(g, thing),
        ns.len() >= popped.len(),
        forall|k: int| 0 <= k < popped.len() ==> ns[k] == popped[k],
        forall|k: int| 0 <= k < popped.len() ==> in_grid(#[trigger] popped[k], rows, cols) && (popped[k] == g.you.head || one_step(g, popped[k])),
        forall|k: int| popped.len() <= k < ns.len() ==> in_grid(#[trigger] ns[k], rows, cols) && adjacent(thing, ns[k]),
    ensures
        forall|k: int| 0 <= k < ns.len() ==> in_grid(#[trigger] ns[k], rows, cols) && (ns[k] == g.you.head || one_step(g, ns[k])),
{
    let q = choose|q: Seq<Coordinate>| is_path(g, q) && q.last() == thing;
    assert forall|k: int| 0 <= k < ns.len() implies in_grid(#[trigger] ns[k], rows, cols) && (ns[k] == g.you.head || one_step(g, ns[k])) by {
        if k < popped.len() {
            assert(ns[k] == popped[k]);
        } else {
            assert(adjacent(thing, ns[k]));
            assert(adjacent(q.last(), ns[k]));
        }
    }
}

/// The bookkeeping of the fill: blocked cells are the body cells, reached
/// cells are reachable, stack cells are on the board and next to a walk,
/// reached cells have their neighbours covered, the head is covered (and so
/// are its neighbours when a body covers it), and `out` counts the reached cells.
#[verifier::opaque]
spec fn fill_inv(g: GameView, all: Seq<Vec<Filled>>, stack: Seq<Coordinate>, out: int) -> bool {
    let rows = g.board.width as int;
    let cols = g.board.height as int;
    let hi = g.you.head.x as int;
    let hj = g.you.head.y as int;
    &&& rows <= 127
    &&& cols <= 127
    &&& fill_safe(g)
    &&& is_grid(all, rows, cols)
    &&& forall|a: int, b: int| 0 <= a < rows && 0 <= b < cols ==> (#[trigger] cell_blocked(all, a, b)) == on_body(g.board.snakes, at(a, b))
    &&& forall|a: int, b: int| 0 <= a < rows && 0 <= b < cols && #[trigger] cell_full(all, a, b) ==> reachable(g, at(a, b))
    &&& forall|k: int| 0 <= k < stack.len() ==> in_grid(#[trigger] stack[k], rows, cols)
        && (stack[k] == g.you.head || one_step(g, stack[k]))
    &&& fill_closed(all, stack, rows, cols)
    &&& covered(all, stack, hi, hj)
    &&& cell_blocked(all, hi, hj) ==> nbrs_covered(all, stack, rows, cols, hi, hj)
    &&& out == count_grid(all)
    &&& out <= rows * cols
}

/// One step of the fill: pops a cell, and when it is empty marks it reached,
/// counts it and pushes its neighbours on the board.
#[verifier::rlimit(60)]
fn fill_step(g: Ghost<GameView>, width: i8, height: i8, all: &mut Vec<Vec<Filled>>, stack: &mut Vec<Coordinate>, out: &mut u32)
    requires
        fill_inv(g@, old(all)@, old(stack)@, *old(out) as int),
        old(stack).len() > 0,
        width == g@.board.width,
        height == g@.board.height,
    ensures
        fill_inv(g@, final(all)@, final(stack)@, *final(out) as int),
        *final(out) > *old(out) || (*final(out) == *old(out) && final(stack).len() < old(stack).len()),
{
    proof { reveal(fill_inv); }
    let ghost g = g@;
    let ghost snakes = g.board.snakes;
    let ghost head = g.you.head;
    let ghost hi = head.x as int;
    let ghost hj = head.y as int;
    let rows = width as usize;
    let cols = height as usize;
    assert(rows * cols <= 127 * 127) by (nonlinear_arith)
        requires
            rows <= 127,
            cols <= 127,
    ;
    let ghost old_all = all@;
    let ghost old_stack = stack@;
    let thing = stack.pop().unwrap();
    let ghost popped = stack@;
    assert(thing == old_stack.last());
    assert(old_stack[old_stack.len() - 1] == thing);
    let tx = thing.x as usize;
    let ty = thing.y as usize;
    let ghost ti = tx as int;
    let ghost tj = ty as int;
    assert(thing == at(ti, tj));
    if all[tx][ty] == Filled::Empty {
        proof {
            assert(!cell_blocked(old_all, ti, tj));
            assert(!on_body(snakes, thing));
            lemma_marked_reachable(g, thing);
        }
        set_cell(all, tx, ty, Filled::Full);
        proof {
            lemma_count_row_update(old_all[ti]@, tj);
            lemma_count_grid_update(old_all, all@, ti);
            lemma_mark_keeps(g, old_all, all@, rows as int, cols as int, ti, tj);
            lemma_count_grid_bounds(all@, cols as int);
        }
        *out = *out + 1;
        let ghost from = stack.len() as int;
        if thing.x > 0 {
            let ghost s0 = stack@;
            stack.push(Coordinate::new(thing.x - 1, thing.y));
            proof {
                assert(stack@ == s0.push(at(ti - 1, tj)));
                assert(stack@[stack.len() - 1] == at(ti - 1, tj));
                lemma_push_keeps(s0, stack@);
                lemma_push_nbr(s0, stack@, from, thing, at(ti - 1, tj), rows as int, cols as int);
            }
        }
        if thing.x < width - 1 {
            let ghost s0 = stack@;
            stack.push(Coordinate::new(thing.x + 1, thing.y));
            proof {
                assert(stack@ == s0.push(at(ti + 1, tj)));
                assert(stack@[stack.len() - 1] == at(ti + 1, tj));
                lemma_push_keeps(s0, stack@);
                lemma_push_nbr(s0, stack@, from, thing, at(ti + 1, tj), rows as int, cols as int);
            }
        }
        if thing.y > 0 {
            let ghost s0 = stack@;
            stack.push(Coordinate::new(thing.x, thing.y - 1));
            proof {
                assert(stack@ == s0.push(at(ti, tj - 1)));
                assert(stack@[stack.len() - 1] == at(ti, tj - 1));
                lemma_push_keeps(s0, stack@);
                lemma_push_nbr(s0, stack@, from, thing, at(ti, tj - 1), rows as int, cols as int);
            }
        }
        if thing.y < height - 1 {
            let ghost s0 = stack@;
            stack.push(Coordinate::new(thing.x, thing.y + 1));
            proof {
                assert(stack@ == s0.push(at(ti, tj + 1)));
                assert(stack@[stack.len() - 1] == at(ti, tj + 1));
                lemma_push_keeps(s0, stack@);
                lemma_push_nbr(s0, stack@, from, thing, at(ti, tj + 1), rows as int, cols as int);
            }
        }
        proof {
            assert(ti > 0 ==> stack@.contains(at(ti - 1, tj)));
            lemma_fill_marked(old_all, all@, old_stack, popped, stack@, rows as int, cols as int, ti, tj);
            lemma_stack_after_mark(g, thing, popped, stack@, rows as int, cols as int);
            if cell_blocked(all@, hi, hj) {
                assert(all@[hi]@[hj] == old_all[hi]@[hj]);
                assert(nbrs_covered(old_all, old_stack, rows as int, cols as int, hi, hj));
            }
        }
    } else {
        proof {
            lemma_fill_skipped(all@, old_stack, popped, rows as int, cols as int, ti, tj);
            assert forall|k: int| 0 <= k < stack.len() implies in_grid(#[trigger] stack@[k], rows as int, cols as int)
                && (stack@[k] == head || one_step(g, stack@[k])) by {
                assert(stack@[k] == old_stack[k]);
            }
            if cell_blocked(all@, hi, hj) {
                assert(nbrs_covered(all@, old_stack, rows as int, cols as int, hi, hj));
            }
        }
    }
}

/// Fills from `you`'s head over the cells no snake body covers; returns the
/// grid, indexed by `x` then `y`, with exactly the reachable cells reached,
/// and their number.
#[verifier::rlimit(60)]
fn fill_grid(board: &SmallMove) -> (res: (Vec<Vec<Filled>>, u32))
    requires
        fill_safe(board@),
    ensures
        is_grid(res.0@, board@.board.width as int, board@.board.height as int),
        forall|a: int, b: int|
            0 <= a < board@.board.width && 0 <= b < board@.board.height ==> (#[trigger] res.0@[a]@[b]
                == Filled::Full) == reachable(board@, at(a, b)),
        res.1 == spec_flood_fill(board@),
        res.1 <= board@.board.width * board@.board.height,
{
    let ghost g = board@;
    let ghost snakes = g.board.snakes;
    let width = board.board.width;
    let height = board.board.height;
    let rows = width as usize;
    let cols = height as usize;
    let mut all = empty_grid(rows, cols);
    let mut i: usize = 0;
    while i < board.board.snakes.len()
        invariant
            g == board@,
            snakes == g.board.snakes,
            fill_safe(g),
            width == g.board.width,
            height == g.board.height,
            rows == width,
            cols == height,
            is_grid(all@, rows as int, cols as int),
            i <= snakes.len(),
            forall|a: int, b: int| 0 <= a < rows && 0 <= b < cols ==> #[trigger] all@[a]@[b] != Filled::Full,
            forall|a: int, b: int| 0 <= a < rows && 0 <= b < cols ==> (#[trigger] cell_blocked(all@, a, b)) == exists|k: int, l: int|
                0 <= k < i && 0 <= l < snakes[k].body.len() && #[trigger] snakes[k].body[l] == at(a, b),
        decreases snakes.len() - i,
    {
        let x = &board.board.snakes[i];
        assert(snakes[i as int] == x@);
        let mut j: usize = 0;
        while j < x.body.len()
            invariant
                g == board@,
                snakes == g.board.snakes,
                i < snakes.len(),
                snakes[i as int] == x@,
                width == g.board.width,
                height == g.board.height,
                rows == width,
                cols == height,
                is_grid(all@, rows as int, cols as int),
                j <= x.body.len(),
                forall|a: int, b: int| 0 <= a < rows && 0 <= b < cols ==> #[trigger] all@[a]@[b] != Filled::Full,
                forall|a: int, b: int| 0 <= a < rows && 0 <= b < cols ==> (#[trigger] cell_blocked(all@, a, b)) == ((exists|k: int, l: int|
                    0 <= k < i && 0 <= l < snakes[k].body.len() && #[trigger] snakes[k].body[l] == at(a, b)) || exists|l: int|
                    0 <= l < j && #[trigger] snakes[i as int].body[l] == at(a, b)),
            decreases x.body.len() - j,
        {
            let y = x.body[j];
            assert(snakes[i as int].body[j as int] == y);
            let ghost before = all@;
            if 0 <= y.x && y.x < width && 0 <= y.y && y.y < height {
                set_cell(&mut all, y.x as usize, y.y as usize, Filled::Blocked);
                proof {
                    assert forall|a: int, b: int| 0 <= a < rows && 0 <= b < cols && !(a == y.x && b == y.y) implies #[trigger] all@[a]@[b] == before[a]@[b] by {
                        if a != y.x as int {
                            assert(all@[a] == before[a]);
                        }
                    }
                    assert forall|a: int, b: int| 0 <= a < rows && 0 <= b < cols implies #[trigger] all@[a]@[b] != Filled::Full by {
                        if !(a == y.x && b == y.y) {
                            assert(all@[a]@[b] == before[a]@[b]);
                        }
                    }
                    assert forall|a: int, b: int| 0 <= a < rows && 0 <= b < cols implies (#[trigger] cell_blocked(all@, a, b)) == ((exists|k: int, l: int|
                        0 <= k < i && 0 <= l < snakes[k].body.len() && #[trigger] snakes[k].body[l] == at(a, b)) || exists|l: int|
                        0 <= l < j + 1 && #[trigger] snakes[i as int].body[l] == at(a, b)) by {
                        if a == y.x && b == y.y {
                            assert(at(a, b) == y);
                            assert(all@[a]@[b] == Filled::Blocked);
                            assert(snakes[i as int].body[j as int] == at(a, b));
                        } else {
                            assert(all@[a]@[b] == before[a]@[b]);
                            assert(cell_blocked(all@, a, b) == cell_blocked(before, a, b));
                            assert(at(a, b) != y);
                            if exists|l: int| 0 <= l < j + 1 && #[trigger] snakes[i as int].body[l] == at(a, b) {
                                let l = choose|l: int| 0 <= l < j + 1 && #[trigger] snakes[i as int].body[l] == at(a, b);
                                assert(l != j);
                                assert(0 <= l < j && snakes[i as int].body[l] == at(a, b));
                            }
                            if exists|l: int| 0 <= l < j && #[trigger] snakes[i as int].body[l] == at(a, b) {
                                let l = choose|l: int| 0 <= l < j && #[trigger] snakes[i as int].body[l] == at(a, b);
                                assert(0 <= l < j + 1 && snakes[i as int].body[l] == at(a, b));
                            }
                        }
                    }
                }
            } else {
                assert forall|a: int, b: int| 0 <= a < rows && 0 <= b < cols implies (#[trigger] cell_blocked(all@, a, b)) == ((exists|k: int, l: int|
                    0 <= k < i && 0 <= l < snakes[k].body.len() && #[trigger] snakes[k].body[l] == at(a, b)) || exists|l: int|
                    0 <= l < j + 1 && #[trigger] snakes[i as int].body[l] == at(a, b)) by {
                    assert(at(a, b) != y);
                    if exists|l: int| 0 <= l < j + 1 && #[trigger] snakes[i as int].body[l] == at(a, b) {
                        let l = choose|l: int| 0 <= l < j + 1 && #[trigger] snakes[i as int].body[l] == at(a, b);
                        assert(l != j);
                        assert(0 <= l < j && snakes[i as int].body[l] == at(a, b));
                    }
                    if exists|l: int| 0 <= l < j && #[trigger] snakes[i as int].body[l] == at(a, b) {
                        let l = choose|l: int| 0 <= l < j && #[trigger] snakes[i as int].body[l] == at(a, b);
                        assert(0 <= l < j + 1 && snakes[i as int].body[l] == at(a, b));
                    }
                }
            }
            j = j + 1;
        }
        proof {
            assert forall|a: int, b: int| 0 <= a < rows && 0 <= b < cols implies (#[trigger] cell_blocked(all@, a, b)) == exists|k: int, l: int|
                0 <= k < i + 1 && 0 <= l < snakes[k].body.len() && #[trigger] snakes[k].body[l] == at(a, b) by {
                if exists|k: int, l: int| 0 <= k < i + 1 && 0 <= l < snakes[k].body.len() && #[trigger] snakes[k].body[l] == at(a, b) {
                    let (k, l) = choose|k: int, l: int| 0 <= k < i + 1 && 0 <= l < snakes[k].body.len() && #[trigger] snakes[k].body[l] == at(a, b);
                    if k == i {
                        assert(snakes[i as int].body[l] == at(a, b));
                    }
                }
                if exists|l: int| 0 <= l < x.body.len() && #[trigger] snakes[i as int].body[l] == at(a, b) {
                    let l = choose|l: int| 0 <= l < x.body.len() && #[trigger] snakes[i as int].body[l] == at(a, b);
                    assert(snakes[i as int].body[l] == at(a, b));
                }
            }
        }
        i = i + 1;
    }
    proof {
        assert forall|a: int, b: int| 0 <= a < rows && 0 <= b < cols implies (#[trigger] cell_blocked(all@, a, b)) == on_body(snakes, at(a, b)) by {
        }
        lemma_count_grid_bounds(all@, cols as int);
    }
    assert(rows * cols <= 127 * 127) by (nonlinear_arith)
        requires
            rows <= 127,
            cols <= 127,
    ;
    let head = board.you.head;
    let ghost hi = head.x as int;
    let ghost hj = head.y as int;
    assert(at(hi, hj) == head);
    let mut stack: Vec<Coordinate> = Vec::new();
    let ghost e = Seq::<Coordinate>::empty();
    assert(fill_closed(all@, stack@, rows as int, cols as int));
    if all[head.x as usize][head.y as usize] == Filled::Empty {
        stack.push(head);
        assert(stack@[0] == at(hi, hj));
    } else {
        if head.x > 0 {
            let ghost s0 = stack@;
            stack.push(Coordinate::new(head.x - 1, head.y));
            proof { lemma_push_keeps(s0, stack@); }
            assert(stack@[stack.len() - 1] == at(hi - 1, hj));
        }
        if head.x < width - 1 {
            let ghost s0 = stack@;
            stack.push(Coordinate::new(head.x + 1, head.y));
            proof { lemma_push_keeps(s0, stack@); }
            assert(stack@[stack.len() - 1] == at(hi + 1, hj));
        }
        if head.y > 0 {
            let ghost s0 = stack@;
            stack.push(Coordinate::new(head.x, head.y - 1));
            proof { lemma_push_keeps(s0, stack@); }
            assert(stack@[stack.len() - 1] == at(hi, hj - 1));
        }
        if head.y < height - 1 {
            let ghost s0 = stack@;
            stack.push(Coordinate::new(head.x, head.y + 1));
            proof { lemma_push_keeps(s0, stack@); }
            assert(stack@[stack.len() - 1] == at(hi, hj + 1));
        }
        assert(nbrs_covered(all@, stack@, rows as int, cols as int, hi, hj));
    }
    proof {
        assert forall|k: int| 0 <= k < stack.len() implies in_grid(#[trigger] stack@[k], rows as int, cols as int)
            && (stack@[k] == head || one_step(g, stack@[k])) by {
            let p = seq![head];
            assert(is_path(g, p));
            assert(p.last() == head);
        }
    }
    let mut out: u32 = 0;
    proof {
        reveal(fill_inv);
        assert(covered(all@, stack@, hi, hj));
    }
    while stack.len() > 0
        invariant
            g == board@,
            snakes == g.board.snakes,
            head == g.you.head,
            hi == head.x,
            hj == head.y,
            width == g.board.width,
            height == g.board.height,
            rows == width,
            cols == height,
            fill_inv(g, all@, stack@, out as int),
        decreases rows * cols - out, stack.len(),
    {
        proof { reveal(fill_inv); }
        fill_step(Ghost(g), width, height, &mut all, &mut stack, &mut out);
        proof { reveal(fill_inv); }
    }
    proof {
        reveal(fill_inv);
    }
    proof {
        assert(stack@ =~= e);
        assert forall|a: int, b: int| 0 <= a < rows && 0 <= b < cols && #[trigger] cell_full(all@, a, b) implies nbrs_settled(all@, rows as int, cols as int, a, b) by {
            assert(nbrs_covered(all@, stack@, rows as int, cols as int, a, b));
        }
        assert(covered(all@, stack@, hi, hj));
        if cell_blocked(all@, hi, hj) {
            assert(nbrs_covered(all@, stack@, rows as int, cols as int, hi, hj));
        }
        assert forall|a: int, b: int| 0 <= a < rows && 0 <= b < cols implies (#[trigger] all@[a]@[b] == Filled::Full) == reachable(g, at(a, b)) by {
            if reachable(g, at(a, b)) {
                let p = choose|p: Seq<Coordinate>| is_path(g, p) && p.last() == at(a, b);
                assert(at(at(a, b).x as int, at(a, b).y as int) == at(a, b));
                if p.len() == 1 {
                    assert(at(a, b) == head);
                    assert(!on_body(snakes, at(a, b)));
                    assert(!cell_blocked(all@, a, b));
                } else {
                    lemma_path_reached(g, all@, p, p.len() - 1);
                }
            } else {
                assert(!cell_full(all@, a, b));
            }
        }
        lemma_count_grid_eq(all@, cols as nat, |i: int, j: int| reachable(g, at(i, j)));
    }
    (all, out)
}

/// Counts the cells `you` can reach: a fill from the head, four sides at a
/// time, over the cells no snake body covers. The result is never negative.
pub fn flood_fill(board: &SmallMove) -> (out: u32)
    requires
        fill_safe(board@),
    ensures
        out == spec_flood_fill(board@),
{
    let (_all, out) = fill_grid(board);
    out
}


/// The scan for the nearest cell finds the smallest distance, capped at 100:
/// it is at most 100 and at most every distance, and it is 100 or one of them.
proof fn lemma_nearest_cell_min(cells: Seq<Coordinate>, head: Coordinate, n: nat)
    requires
        n <= cells.len(),
    ensures
        nearest_cell_upto(cells, head, n) <= 100,
        forall|i: int| 0 <= i < n ==> nearest_cell_upto(cells, head, n) <= spec_manhattan(#[trigger] cells[i], head),
        nearest_cell_upto(cells, head, n) == 100 || exists|i: int|
            0 <= i < n && nearest_cell_upto(cells, head, n) == spec_manhattan(#[trigger] cells[i], head),
    decreases n,
{
    if n > 0 {
        lemma_nearest_cell_min(cells, head, (n - 1) as nat);
    }
}

/// When `you` is not the biggest snake and some food lies fewer than 100
/// cells away, the evaluation subtracts the distance to the nearest food:
/// its value is at least (reachable food + reachable squares - the distance
/// to any food), and equal to that for some food.
pub proof fn lemma_eval_targets_nearest_food(g: GameView, w: Weights)
    requires
        !is_biggest(g),
        exists|i: int| 0 <= i < g.board.food.len() && spec_manhattan(#[trigger] g.board.food[i], g.you.head) < 100,
    ensures
        forall|i: int|
            0 <= i < g.board.food.len() ==> spec_eval(g, w) >= reachable_food(g) + spec_flood_fill(g)
                - spec_manhattan(#[trigger] g.board.food[i], g.you.head),
        exists|i: int|
            0 <= i < g.board.food.len() && spec_eval(g, w) == reachable_food(g) + spec_flood_fill(g)
                - spec_manhattan(#[trigger] g.board.food[i], g.you.head),
{
    let food = g.board.food;
    lemma_nearest_cell_min(food, g.you.head, food.len());
    let i0 = choose|i: int| 0 <= i < food.len() && spec_manhattan(#[trigger] food[i], g.you.head) < 100;
    assert(nearest_cell_upto(food, g.you.head, food.len()) <= spec_manhattan(food[i0], g.you.head));
    let i = choose|i: int|
        0 <= i < food.len() && nearest_cell_upto(food, g.you.head, food.len()) == spec_manhattan(#[trigger] food[i], g.you.head);
    assert(spec_eval(g, w) == reachable_food(g) + spec_flood_fill(g) - spec_manhattan(food[i], g.you.head));
}

} // verus!
