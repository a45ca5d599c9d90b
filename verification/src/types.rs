use vstd::prelude::*;
use crate::small::{copy_game, copy_snake, views, SmallBattleSnake, SmallMove, Status};
use crate::move_table::{Entry, MoveTable};
use crate::move_lists::{
    joint_eq, joint_get, joint_items, joint_len, joint_new, joints_get, joints_insert,
    joints_items, joints_len, joints_remove, lists_items, lists_new, lists_push, option_items,
    options_new, options_push, Joint, Joints, Options,
};
use crate::cartprod::cartesian_product;
use crate::move_table::stored_moves;
use crate::rules::{is_rival, search_wf, unique_ids};
use crate::search::{
    first_index, lemma_first_index, lemma_joint_shape, lemma_legal_shape, lemma_moves_safe,
    rival_lists, spec_joint_moves, spec_reorder,
};
use crate::small::{moves_safe, spec_legal_moves};
use crate::engine::{eval, lemma_dead_count_bound};
use crate::search::{
    fail_soft, is_terminal, lemma_nonterminal_rival, lemma_reorder, lemma_seq_max_ge,
    lemma_seq_max_take, lemma_seq_min_le, lemma_seq_min_take, leaves_safe, max_children,
    min_children, seq_max, seq_min, spec_minimax, best_dir, first_best, lemma_minimax_range,
};
use crate::engine::dead_count;
use crate::rules::{
    dies, distinct_ids, first_with_id, joint_key, lemma_apply_wf, lemma_first_with_id,
    lemma_step_all_shape, lemma_step_prefix_untouched, move_key, moves_snake, resolve,
    spec_apply, step_all, step_matching, wf,
};
use crate::small::{spec_step, GameView, BoardView};

verus! {

/// Number of slots in the move-ordering table.
pub const TABLE_SIZE: usize = 2000000;

/// A cell of the board.
#[derive(Clone, Copy, Debug, PartialEq, Eq, Structural)]
pub struct Coordinate {
    pub x: i8,
    pub y: i8,
}

impl Coordinate {
    pub fn new(x: i8, y: i8) -> (c: Coordinate)
        ensures
            c.x == x,
            c.y == y,
    {
        Coordinate { x, y }
    }

    /// Whether `self + d` stays inside the range of `i8` on both axes.
    pub open spec fn can_shift(self, d: Coordinate) -> bool {
        &&& i8::MIN <= self.x + d.x <= i8::MAX
        &&& i8::MIN <= self.y + d.y <= i8::MAX
    }

    /// `self + d`, componentwise.
    pub open spec fn plus(self, d: Coordinate) -> Coordinate {
        Coordinate { x: (self.x + d.x) as i8, y: (self.y + d.y) as i8 }
    }

    /// Componentwise sum of two coordinates.
    pub fn shifted(self, d: Coordinate) -> (c: Coordinate)
        requires
            self.can_shift(d),
        ensures
            c == self.plus(d),
            c.x == self.x + d.x,
            c.y == self.y + d.y,
    {
        Coordinate { x: self.x + d.x, y: self.y + d.y }
    }
}

/// One of the four moves a snake can make.
#[derive(Clone, Copy, Debug, PartialEq, Eq, Structural)]
pub enum Direction {
    Up,
    Down,
    Left,
    Right,
}

impl Default for Direction {
    fn default() -> (d: Direction)
        ensures
            d == Direction::Up,
    {
        Direction::Up
    }
}

/// A move of one snake: the direction and the id of the snake.
pub type Move = (Direction, u8);

/// The unit step of a direction: up is `y + 1`, right is `x + 1`.
pub open spec fn spec_offset(d: Direction) -> Coordinate {
    match d {
        Direction::Up => Coordinate { x: 0, y: 1 },
        Direction::Down => Coordinate { x: 0, y: -1i8 },
        Direction::Left => Coordinate { x: -1i8, y: 0 },
        Direction::Right => Coordinate { x: 1, y: 0 },
    }
}

/// The unit step of a direction.
pub fn offset(d: Direction) -> (c: Coordinate)
    ensures
        c == spec_offset(d),
{
    match d {
        Direction::Up => Coordinate::new(0, 1),
        Direction::Down => Coordinate::new(0, -1),
        Direction::Left => Coordinate::new(-1, 0),
        Direction::Right => Coordinate::new(1, 0),
    }
}

/// Whether every step from `c` stays inside the range of `i8`.
pub open spec fn steps_fit(c: Coordinate) -> bool {
    &&& i8::MIN < c.x < i8::MAX
    &&& i8::MIN < c.y < i8::MAX
}

/// The weights of the static evaluation: length, living snakes,
/// distance to the target and distance to the nearest rival head.
#[derive(Clone, Copy, Debug, PartialEq, Eq, Structural)]
pub struct Weights(pub i32, pub i32, pub i32, pub i32);

/// The search state: the position, the evaluation weights, the move-ordering
/// table, the hash of the position and the table's hit counters.
pub struct State {
    pub state: SmallMove,
    pub weights: Weights,
    pub move_table: MoveTable,
    pub zobrist: u64,
    pub tt_hits: (u64, u64),
}

/// Every living snake with the id of `m` takes its step.
fn step_matching_vec(snakes: &Vec<SmallBattleSnake>, m: Move) -> (r: Vec<SmallBattleSnake>)
    requires
        forall|i: int|
            0 <= i < snakes.len() && moves_snake(#[trigger] views(snakes@)[i], m) ==> views(
                snakes@,
            )[i].health > 0 && steps_fit(views(snakes@)[i].head),
    ensures
        views(r@) == step_matching(views(snakes@), m),
{
    let mut r: Vec<SmallBattleSnake> = Vec::new();
    let mut k: usize = 0;
    while k < snakes.len()
        invariant
            k <= snakes.len(),
            r.len() == k,
            forall|i: int|
                0 <= i < snakes.len() && moves_snake(#[trigger] views(snakes@)[i], m) ==> views(
                    snakes@,
                )[i].health > 0 && steps_fit(views(snakes@)[i].head),
            forall|j: int| 0 <= j < k ==> (#[trigger] r@[j])@ == step_matching(views(snakes@), m)[j],
        decreases snakes.len() - k,
    {
        let mut s = copy_snake(&snakes[k]);
        assert(views(snakes@)[k as int] == snakes@[k as int]@);
        if s.id == m.1 && s.status == Status::Alive {
            s.make_move(m.0);
        }
        r.push(s);
        k = k + 1;
    }
    assert(views(r@) =~= step_matching(views(snakes@), m));
    r
}

/// Whether the living snake `i` dies after the step.
fn dies_at(snakes: &Vec<SmallBattleSnake>, i: usize, width: i8, height: i8) -> (r: bool)
    requires
        i < snakes.len(),
        width > i8::MIN,
        height > i8::MIN,
        forall|j: int| 0 <= j < snakes.len() ==> (#[trigger] snakes@[j]).body.len() >= 1,
    ensures
        r == dies(views(snakes@), i as int, width, height),
{
    let ghost vs = views(snakes@);
    let s = &snakes[i];
    assert(vs[i as int] == s@);
    if s.status != Status::Alive {
        return false;
    }
    if s.is_out_of_bounds(width, height) || s.health == 0 {
        return true;
    }
    let mut j: usize = 0;
    while j < snakes.len()
        invariant
            vs == views(snakes@),
            i < snakes.len(),
            vs[i as int] == s@,
            s.status == Status::Alive,
            j <= snakes.len(),
            forall|k: int| 0 <= k < snakes.len() ==> (#[trigger] snakes@[k]).body.len() >= 1,
            forall|k: int|
                0 <= k < j ==> !((#[trigger] vs[k]).status == Status::Alive && crate::small::occurs_in(
                    vs[k].body,
                    1,
                    vs[k].body.len() as int,
                    s.head,
                )),
        decreases snakes.len() - j,
    {
        let other = &snakes[j];
        assert(vs[j as int] == other@);
        if other.status == Status::Alive && s.collision_with(other) {
            assert(vs[j as int].status == Status::Alive && crate::small::occurs_in(
                vs[j as int].body,
                1,
                vs[j as int].body.len() as int,
                vs[i as int].head,
            ));
            return true;
        }
        j = j + 1;
    }
    let mut j: usize = 0;
    while j < snakes.len()
        invariant
            vs == views(snakes@),
            i < snakes.len(),
            vs[i as int] == s@,
            s.status == Status::Alive,
            j <= snakes.len(),
            forall|k: int|
                0 <= k < j ==> !(k != i && (#[trigger] vs[k]).status == Status::Alive && s.head
                    == vs[k].head && s.length < vs[k].length),
        decreases snakes.len() - j,
    {
        let other = &snakes[j];
        assert(vs[j as int] == other@);
        if j != i && other.status == Status::Alive && s.lost_head_to_head(other) {
            assert(j != i && vs[j as int].status == Status::Alive && vs[i as int].head == vs[j as int].head
                && vs[i as int].length < vs[j as int].length);
            return true;
        }
        j = j + 1;
    }
    false
}

/// Every snake that dies is marked dead.
fn resolve_vec(snakes: &Vec<SmallBattleSnake>, width: i8, height: i8) -> (r: Vec<SmallBattleSnake>)
    requires
        width > i8::MIN,
        height > i8::MIN,
        forall|j: int| 0 <= j < snakes.len() ==> (#[trigger] snakes@[j]).body.len() >= 1,
    ensures
        views(r@) == resolve(views(snakes@), width, height),
{
    let mut r: Vec<SmallBattleSnake> = Vec::new();
    let mut k: usize = 0;
    while k < snakes.len()
        invariant
            k <= snakes.len(),
            r.len() == k,
            width > i8::MIN,
            height > i8::MIN,
            forall|j: int| 0 <= j < snakes.len() ==> (#[trigger] snakes@[j]).body.len() >= 1,
            forall|j: int| 0 <= j < k ==> (#[trigger] r@[j])@ == resolve(views(snakes@), width, height)[j],
        decreases snakes.len() - k,
    {
        let dead = dies_at(snakes, k, width, height);
        let mut s = copy_snake(&snakes[k]);
        if dead {
            s.status = Status::Dead;
        }
        r.push(s);
        k = k + 1;
    }
    assert(views(r@) =~= resolve(views(snakes@), width, height));
    r
}

/// The hash key of one move.
fn move_key_of(m: Move) -> (k: u64)
    ensures
        k == move_key(m),
{
    let d: u64 = match m.0 {
        Direction::Up => 0x9E37_79B9_7F4A_7C15u64,
        Direction::Down => 0xBF58_476D_1CE4_E5B9u64,
        Direction::Left => 0x94D0_49BB_1331_11EBu64,
        Direction::Right => 0x2545_F491_4F6C_DD1Du64,
    };
    d ^ ((m.1 as u64) * 0x100_0000_01B3u64)
}

/// The hash key of a joint move.
fn joint_key_of(moves: &Joint) -> (k: u64)
    ensures
        k == joint_key(joint_items(*moves)),
{
    let ghost ms = joint_items(*moves);
    let n = joint_len(moves);
    let mut key: u64 = 0;
    let mut i: usize = 0;
    while i < n
        invariant
            ms == joint_items(*moves),
            n == ms.len(),
            i <= n,
            key == joint_key(ms.take(i as int)),
        decreases n - i,
    {
        let m = joint_get(moves, i);
        key = key ^ move_key_of(m);
        assert(ms.take(i as int + 1).drop_last() =~= ms.take(i as int));
        i = i + 1;
    }
    assert(ms.take(n as int) =~= ms);
    key
}

/// Whether a turn can be played on `g` (see `wf`).
pub fn is_playable(g: &SmallMove) -> (r: bool)
    ensures
        r == wf(g@),
{
    let w = g.board.width;
    let h = g.board.height;
    if !(1 <= w && w <= 126 && 1 <= h && h <= 126) {
        return false;
    }
    let ghost vs = g@.board.snakes;
    let mut k: usize = 0;
    while k < g.board.snakes.len()
        invariant
            vs == g@.board.snakes,
            w == g.board.width,
            h == g.board.height,
            1 <= w <= 126,
            1 <= h <= 126,
            k <= vs.len(),
            forall|i: int| 0 <= i < k ==> (#[trigger] vs[i]).body.len() >= 2 && crate::rules::near_board(vs[i].head, w, h),
            forall|i: int| 0 <= i < k && (#[trigger] vs[i]).status == Status::Alive ==> vs[i].health >= 1
                && !crate::small::spec_out_of_bounds(vs[i].head, w, h),
        decreases vs.len() - k,
    {
        let s = &g.board.snakes[k];
        assert(vs[k as int] == s@);
        let near = -1 <= s.head.x && s.head.x <= w && -1 <= s.head.y && s.head.y <= h;
        if !(s.body.len() >= 2 && near) {
            return false;
        }
        if s.status == Status::Alive && (s.health == 0 || s.is_out_of_bounds(w, h)) {
            return false;
        }
        k = k + 1;
    }
    true
}

/// Whether two cell lists are equal.
fn same_cells(a: &Vec<Coordinate>, b: &Vec<Coordinate>) -> (r: bool)
    ensures
        r == (a@ == b@),
{
    if a.len() != b.len() {
        return false;
    }
    let mut k: usize = 0;
    while k < a.len()
        invariant
            a.len() == b.len(),
            k <= a.len(),
            forall|j: int| 0 <= j < k ==> a@[j] == b@[j],
        decreases a.len() - k,
    {
        if a[k] != b[k] {
            return false;
        }
        k = k + 1;
    }
    assert(a@ =~= b@);
    true
}

/// Whether two snakes are equal.
fn same_snake(a: &SmallBattleSnake, b: &SmallBattleSnake) -> (r: bool)
    ensures
        r == (a@ == b@),
{
    let cells = same_cells(&a.body, &b.body);
    a.id == b.id && a.health == b.health && cells && a.head == b.head && a.length == b.length && a.status == b.status
}

/// Whether the search can run on `g` (see `search_wf`): a turn can be
/// played, ids are unique, `you` is the first snake with its id, and at most
/// one rival is alive.
pub fn is_searchable(g: &SmallMove) -> (r: bool)
    ensures
        r == search_wf(g@),
{
    let ghost vs = g@.board.snakes;
    if !is_playable(g) {
        return false;
    }
    let n = g.board.snakes.len();
    let mut i: usize = 0;
    while i < n
        invariant
            n == vs.len(),
            vs == g@.board.snakes,
            i <= n,
            forall|a: int, b: int| 0 <= a < i && 0 <= b < n && a != b ==> (#[trigger] vs[a]).id != (#[trigger] vs[b]).id,
        decreases n - i,
    {
        let mut j: usize = 0;
        while j < n
            invariant
                n == vs.len(),
                vs == g@.board.snakes,
                i < n,
                j <= n,
                forall|a: int, b: int| 0 <= a < i && 0 <= b < n && a != b ==> (#[trigger] vs[a]).id != (#[trigger] vs[b]).id,
                forall|b: int| 0 <= b < j && b != i ==> vs[i as int].id != (#[trigger] vs[b]).id,
            decreases n - j,
        {
            assert(vs[i as int] == g.board.snakes@[i as int]@ && vs[j as int] == g.board.snakes@[j as int]@);
            if j != i && g.board.snakes[i].id == g.board.snakes[j].id {
                assert(!unique_ids(vs));
                return false;
            }
            j = j + 1;
        }
        i = i + 1;
    }
    assert(unique_ids(vs));
    proof {
        lemma_first_with_id(vs, g@.you.id);
    }
    let mut k: usize = 0;
    while k < n
        invariant_except_break
            n == vs.len(),
            vs == g@.board.snakes,
            k <= n,
            forall|j: int| 0 <= j < k ==> vs[j].id != g@.you.id,
        ensures
            k <= n,
            forall|j: int| 0 <= j < k ==> vs[j].id != g@.you.id,
            k < n ==> vs[k as int].id == g@.you.id,
        decreases n - k,
    {
        assert(vs[k as int] == g.board.snakes@[k as int]@);
        if g.board.snakes[k].id == g.you.id {
            break;
        }
        k = k + 1;
    }
    if k == n {
        return false;
    }
    assert(first_with_id(vs, g@.you.id) == k) by {
        let f = first_with_id(vs, g@.you.id);
        if f < 0 {
            assert(vs[k as int].id != g@.you.id);
        } else if f < k {
            assert(vs[f].id != g@.you.id);
        } else if f > k {
            assert(vs[k as int].id != g@.you.id);
        }
    }
    assert(vs[k as int] == g.board.snakes@[k as int]@);
    if !same_snake(&g.board.snakes[k], &g.you) {
        return false;
    }
    let mut rivals: usize = 0;
    let ghost mut first_rival: int = -1;
    let mut m: usize = 0;
    while m < n
        invariant
            n == vs.len(),
            vs == g@.board.snakes,
            m <= n,
            rivals <= 1,
            rivals == 0 ==> forall|a: int| 0 <= a < m ==> !is_rival(#[trigger] vs[a], g@.you.id),
            rivals == 1 ==> 0 <= first_rival < m && is_rival(vs[first_rival], g@.you.id) && forall|a: int|
                0 <= a < m && a != first_rival ==> !is_rival(#[trigger] vs[a], g@.you.id),
        decreases n - m,
    {
        let x = &g.board.snakes[m];
        assert(vs[m as int] == x@);
        if x.id != g.you.id && x.status == Status::Alive {
            if rivals == 1 {
                assert(is_rival(vs[first_rival], g@.you.id) && is_rival(vs[m as int], g@.you.id));
                return false;
            }
            rivals = 1;
            proof {
                first_rival = m as int;
            }
        }
        m = m + 1;
    }
    true
}

/// Whether `g` is sane for the weights `w` (see `sane`): searchable, on a
/// board of at most 60 by 60 cells, with the food on or next to the board
/// and at most 10^9 food entries. On such a position every search of the
/// deepening can run.
pub fn is_sane(g: &SmallMove, w: Weights) -> (r: bool)
    ensures
        r == crate::safety::sane(g@, w),
{
    if !is_searchable(g) {
        return false;
    }
    if !(g.board.width <= 60 && g.board.height <= 60 && g.board.food.len() <= 1_000_000_000) {
        return false;
    }
    let mut k: usize = 0;
    while k < g.board.food.len()
        invariant
            k <= g.board.food.len(),
            forall|j: int| 0 <= j < k ==> crate::safety::near_small_board(#[trigger] g@.board.food[j]),
        decreases g.board.food.len() - k,
    {
        let f = g.board.food[k];
        if !(-1 <= f.x && f.x <= 61 && -1 <= f.y && f.y <= 61) {
            return false;
        }
        k = k + 1;
    }
    true
}

/// The number of dead snakes on the board of `state`.
pub fn amnt_dead(state: &State) -> (out: usize)
    ensures
        out == dead_count(state.state@.board.snakes),
{
    let ghost snakes = state.state@.board.snakes;
    let mut out: usize = 0;
    let mut k: usize = 0;
    while k < state.state.board.snakes.len()
        invariant
            snakes == state.state@.board.snakes,
            k <= state.state.board.snakes.len(),
            out == dead_count(snakes.take(k as int)),
            out <= k,
        decreases state.state.board.snakes.len() - k,
    {
        let snake = &state.state.board.snakes[k];
        proof {
            assert(snakes.take(k as int + 1).drop_last() =~= snakes.take(k as int));
            assert(snakes[k as int] == snake@);
        }
        if snake.status == Status::Dead {
            out = out + 1;
        }
        k = k + 1;
    }
    assert(snakes.take(k as int) =~= snakes);
    out
}

/// Folding the key of the same joint move into the hash twice gives the hash
/// back: `update_zobrist` undoes what `make_move` did to the hash.
pub proof fn lemma_zobrist_round_trip(z: u64, ms: Seq<Move>)
    ensures
        (z ^ joint_key(ms)) ^ joint_key(ms) == z,
{
    let k = joint_key(ms);
    assert((z ^ k) ^ k == z) by (bit_vector);
}

#[verifier::external_type_specification]
#[verifier::external_body]
pub struct ExInstant(std::time::Instant);

/// `Instant::now`: the current time; nothing is known of it.
#[verifier::external_body]
pub(crate) fn now() -> (t: std::time::Instant) {
    std::time::Instant::now()
}

/// `Instant::elapsed`: the time since `t`; nothing is known of it.
#[verifier::external_body]
fn elapsed(t: &std::time::Instant) -> (d: std::time::Duration) {
    t.elapsed()
}

/// `Duration::as_millis`: the whole milliseconds of `d`; nothing is stated of it.
#[verifier::external_body]
fn as_millis(d: &std::time::Duration) -> (ms: u128) {
    d.as_millis()
}

/// The deepening of a search: every depth from 1 to 130 evaluates safely.
pub open spec fn deepening_safe(g: GameView, w: Weights) -> bool {
    forall|d: nat| 1 <= d <= 130 ==> #[trigger] leaves_safe(g, w, d, true, (Direction::Up, 40u8))
}

/// After a cutoff at a minimizing node: the table slot of the position after
/// some answer `jm` to `ym` remembers `jm`, and that answer's value is at most `v`.
pub open spec fn stores_cutoff(t: Seq<Entry>, g: GameView, w: Weights, depth: nat, ym: Move, z: u64, v: int) -> bool {
    exists|jm: Seq<Move>|
        spec_joint_moves(g, ym).contains(jm) && #[trigger] stored_moves(t, z ^ joint_key(jm)) == jm
            && spec_minimax(spec_apply(g, jm), w, (depth - 1) as nat, true, ym) <= v
}

/// The answer of a maximizing search of `depth` plies with the full window:
/// the direction `best_dir` gives and the minimax value.
pub open spec fn depth_answer(g: GameView, w: Weights, depth: nat) -> (Direction, i32) {
    (best_dir(g, w, depth), spec_minimax(g, w, depth, true, (Direction::Up, 40u8)) as i32)
}

/// The outcome of a deepening: `(Up, 0)` when no depth from 2 was searched,
/// else the answer of the deepest depth searched, some `d` from 2 to 130.
pub open spec fn deepening_result(g: GameView, w: Weights, r: (Direction, i32)) -> bool {
    ||| r == (Direction::Up, 0i32)
    ||| exists|d: nat| 2 <= d <= 130 && r == #[trigger] depth_answer(g, w, d)
}

/// One step of the deepening, given the milliseconds that have passed: when
/// fewer than 200 have passed and `depth` is at most 130, searches `depth`
/// plies with the full window and returns its answer; otherwise searches
/// nothing and returns `None`.
pub fn deepen_step(state: &mut State, depth: u8, elapsed_ms: u128) -> (r: Option<(Direction, i32)>)
    requires
        search_wf(old(state).state@),
        old(state).move_table.wf(),
        depth >= 1,
        elapsed_ms < 200 && depth <= 130 ==> leaves_safe(
            old(state).state@,
            old(state).weights,
            depth as nat,
            true,
            (Direction::Up, 40u8),
        ),
    ensures
        final(state).state@ == old(state).state@,
        final(state).weights == old(state).weights,
        final(state).zobrist == old(state).zobrist,
        final(state).move_table.wf(),
        elapsed_ms < 200 && depth <= 130 ==> r == Some(depth_answer(old(state).state@, old(state).weights, depth as nat)),
        !(elapsed_ms < 200 && depth <= 130) ==> r is None && final(state).move_table == old(state).move_table,
{
    if !(elapsed_ms < 200 && depth <= 130) {
        return None;
    }
    let ghost g = state.state@;
    let ghost w = state.weights;
    let ghost ym = (Direction::Up, 40u8);
    let (c, _, _, dd) = state.minimax(depth, i32::MIN, i32::MAX, true, (Direction::Up, 40));
    proof {
        let dn = depth as nat;
        lemma_minimax_range(g, w, dn, true, ym);
        crate::search::lemma_full_window_exact(g, w, dn, true, ym, c as int);
        let ms = spec_legal_moves(g.you, g.board);
        let cs = max_children(g, w, dn, ms);
        if !is_terminal(g) && c > i32::MIN {
            assert(spec_minimax(g, w, dn, true, ym) == seq_max(cs));
            let i = choose|i: int| 0 <= i < ms.len() && (#[trigger] ms[i]).0 == dd && first_best(cs, c as int, i);
            let i2 = choose|i: int| first_best(cs, seq_max(cs), i);
            crate::search::lemma_first_best_unique(cs, c as int, i, i2);
        }
        assert(dd == best_dir(g, w, dn));
    }
    Some((dd, c))
}

/// Searches one depth after the other, from 2 up to 130, while less than
/// 200 milliseconds have passed since `time`; returns the direction and the
/// value of the deepest search.
pub fn iterative_deepen(state: &mut State, time: &std::time::Instant) -> (r: (Direction, i32))
    requires
        search_wf(old(state).state@),
        old(state).move_table.wf(),
        deepening_safe(old(state).state@, old(state).weights),
    ensures
        final(state).state@ == old(state).state@,
        final(state).weights == old(state).weights,
        final(state).zobrist == old(state).zobrist,
        final(state).move_table.wf(),
        deepening_result(old(state).state@, old(state).weights, r),
{
    assert(leaves_safe(state.state@, state.weights, 1, true, (Direction::Up, 40u8)));
    let _init_eval = state.minimax(1, i32::MIN, i32::MAX, true, (Direction::Up, 40));
    let d = elapsed(time);
    let first_ms = as_millis(&d);
    deepen_rounds(state, first_ms, time)
}

/// The deepening loop, given the first reading of the milliseconds passed
/// since `time`: searches depth 2, 3, ... while the reading (taken again
/// after each search) is below 200 and the depth at most 130, and returns
/// the deepest search's answer, or `(Up, 0)` when none was searched. When the
/// first reading is below 200, depth 2 is searched, so the answer is that of
/// some searched depth from 2 to 130.
pub fn deepen_rounds(state: &mut State, first_ms: u128, time: &std::time::Instant) -> (r: (Direction, i32))
    requires
        search_wf(old(state).state@),
        old(state).move_table.wf(),
        deepening_safe(old(state).state@, old(state).weights),
    ensures
        final(state).state@ == old(state).state@,
        final(state).weights == old(state).weights,
        final(state).zobrist == old(state).zobrist,
        final(state).move_table.wf(),
        deepening_result(old(state).state@, old(state).weights, r),
        first_ms < 200 ==> exists|d: nat| 2 <= d <= 130 && r == #[trigger] depth_answer(
            old(state).state@,
            old(state).weights,
            d,
        ),
{
    let ghost g = state.state@;
    let ghost w = state.weights;
    let ghost z0 = state.zobrist;
    let mut depth: u8 = 2;
    let mut confidence: i32 = 0;
    let mut dir = Direction::Up;
    let mut ms = first_ms;
    loop
        invariant
            state.state@ == g,
            state.weights == w,
            state.zobrist == z0,
            state.move_table.wf(),
            search_wf(g),
            deepening_safe(g, w),
            2 <= depth <= 131,
            depth == 2 ==> (dir, confidence) == (Direction::Up, 0i32) && ms == first_ms,
            depth > 2 ==> (dir, confidence) == depth_answer(g, w, (depth - 1) as nat),
        ensures
            depth == 2 ==> (dir, confidence) == (Direction::Up, 0i32) && first_ms >= 200,
            depth > 2 ==> 2 <= depth - 1 <= 130 && (dir, confidence) == depth_answer(g, w, (depth - 1) as nat),
            state.state@ == g,
            state.weights == w,
            state.zobrist == z0,
            state.move_table.wf(),
        decreases 131 - depth,
    {
        proof {
            if depth <= 130 {
                assert(leaves_safe(g, w, depth as nat, true, (Direction::Up, 40u8)));
            }
        }
        match deepen_step(state, depth, ms) {
            None => {
                break;
            },
            Some(answer) => {
                dir = answer.0;
                confidence = answer.1;
                depth = depth + 1;
                let d = elapsed(time);
                ms = as_millis(&d);
            },
        }
    }
    proof {
        if depth > 2 {
            assert(depth_answer(g, w, (depth - 1) as nat) == (dir, confidence));
        }
    }
    (dir, confidence)
}

/// The best move for `you`: `(Up, i32::MIN)` without a legal move, the only
/// legal move with `i32::MAX`, and otherwise the deepening search's answer.
pub fn get_best(state: State, time: &std::time::Instant) -> (r: (Direction, i32))
    requires
        moves_safe(state.state@.you, state.state@.board),
        spec_legal_moves(state.state@.you, state.state@.board).len() > 1 ==> search_wf(state.state@)
            && state.move_table.wf() && deepening_safe(state.state@, state.weights),
    ensures
        spec_legal_moves(state.state@.you, state.state@.board).len() == 0 ==> r == (Direction::Up, i32::MIN),
        spec_legal_moves(state.state@.you, state.state@.board).len() == 1 ==> r == (
            spec_legal_moves(state.state@.you, state.state@.board)[0].0,
            i32::MAX,
        ),
        spec_legal_moves(state.state@.you, state.state@.board).len() > 1 ==> deepening_result(
            state.state@,
            state.weights,
            r,
        ),
{
    let mut state = state;
    let moves = state.state.you.get_moves(&state.state.board);
    if moves.len() == 0 {
        return (Direction::Up, i32::MIN);
    }
    let out = (moves[0].0, i32::MAX);
    if moves.len() == 1 {
        return out;
    }
    iterative_deepen(&mut state, time)
}

/// The moves of a move list, as an option list.
fn to_options(v: &Vec<Move>) -> (o: Options)
    requires
        v.len() <= 4,
    ensures
        option_items(o) == v@,
{
    let mut o = options_new();
    let mut k: usize = 0;
    while k < v.len()
        invariant
            k <= v.len() <= 4,
            option_items(o) == v@.take(k as int),
        decreases v.len() - k,
    {
        options_push(&mut o, v[k]);
        k = k + 1;
        assert(option_items(o) =~= v@.take(k as int));
    }
    assert(v@.take(v.len() as int) =~= v@);
    o
}

impl State {
    /// The joint moves answering `you_move`: `you_move` combined with every
    /// choice of one legal move per living rival.
    pub fn get_moves(&self, you_move: Move) -> (out: Joints)
        requires
            search_wf(self.state@),
        ensures
            joints_items(out) == spec_joint_moves(self.state@, you_move),
    {
        let ghost g = self.state@;
        let ghost snakes = g.board.snakes;
        let mut lists = lists_new();
        let mut first = options_new();
        options_push(&mut first, you_move);
        lists_push(&mut lists, first);
        let you_id = self.state.you.id;
        let mut k: usize = 0;
        while k < self.state.board.snakes.len()
            invariant
                g == self.state@,
                snakes == g.board.snakes,
                search_wf(g),
                you_id == g.you.id,
                k <= snakes.len(),
                lists_items(lists) == seq![seq![you_move]] + rival_lists(snakes, you_id, g.board, k as nat),
                rival_lists(snakes, you_id, g.board, k as nat).len() <= 1,
                rival_lists(snakes, you_id, g.board, k as nat).len() == 1 ==> exists|j: int|
                    0 <= j < k && is_rival(#[trigger] snakes[j], you_id),
            decreases snakes.len() - k,
        {
            let x = &self.state.board.snakes[k];
            assert(snakes[k as int] == x@);
            if x.id != you_id && x.status == Status::Alive {
                proof {
                    if rival_lists(snakes, you_id, g.board, k as nat).len() == 1 {
                        let j = choose|j: int| 0 <= j < k && is_rival(#[trigger] snakes[j], you_id);
                        assert(is_rival(snakes[k as int], you_id));
                    }
                    lemma_moves_safe(g, snakes[k as int]);
                    lemma_legal_shape(snakes[k as int], g.board);
                }
                let mv = x.get_moves(&self.state.board);
                let opts = to_options(&mv);
                lists_push(&mut lists, opts);
                assert(lists_items(lists) =~= seq![seq![you_move]] + rival_lists(snakes, you_id, g.board, k as nat + 1));
            }
            k = k + 1;
        }
        cartesian_product(lists)
    }

    /// The joint moves answering `you_move`, with the one the table remembers
    /// for this position moved to the front when it is among them; counts the
    /// lookups and the hits.
    pub fn get_ordered_moves(&mut self, you_move: Move) -> (out: Joints)
        requires
            search_wf(old(self).state@),
            old(self).move_table.wf(),
            you_move.1 == old(self).state@.you.id,
        ensures
            joints_items(out) == spec_reorder(
                spec_joint_moves(old(self).state@, you_move),
                stored_moves(old(self).move_table@, old(self).zobrist),
            ),
            final(self).state == old(self).state,
            final(self).weights == old(self).weights,
            final(self).move_table == old(self).move_table,
            final(self).zobrist == old(self).zobrist,
            final(self).tt_hits.0 == old(self).tt_hits.0.wrapping_add(1),
            first_index(
                spec_joint_moves(old(self).state@, you_move),
                stored_moves(old(self).move_table@, old(self).zobrist),
            ) >= 0 ==> final(self).tt_hits.1 == old(self).tt_hits.1.wrapping_add(1),
            first_index(
                spec_joint_moves(old(self).state@, you_move),
                stored_moves(old(self).move_table@, old(self).zobrist),
            ) < 0 ==> final(self).tt_hits.1 == old(self).tt_hits.1,
    {
        let mut out = self.get_moves(you_move);
        let ghost js = joints_items(out);
        proof {
            lemma_joint_shape(self.state@, you_move);
        }
        let best_move = self.move_table.get(self.zobrist);
        let ghost b = joint_items(best_move);
        self.tt_hits.0 = self.tt_hits.0.wrapping_add(1);
        let n = joints_len(&out);
        let mut i: usize = 0;
        while i < n
            invariant_except_break
                js == joints_items(out),
                b == joint_items(best_move),
                n == js.len(),
                i <= n,
                forall|j: int| 0 <= j < i ==> js[j] != b,
            ensures
                js == joints_items(out),
                i <= n,
                i < n ==> js[i as int] == b && forall|j: int| 0 <= j < i ==> js[j] != b,
                i == n ==> forall|j: int| 0 <= j < n ==> js[j] != b,
            decreases n - i,
        {
            let x = joints_get(&out, i);
            if joint_eq(&x, &best_move) {
                break;
            }
            i = i + 1;
        }
        proof {
            lemma_first_index(js, b);
            let p = first_index(js, b);
            if i < n {
                if p < 0 {
                    assert(js[i as int] != b);
                } else if p < i {
                    assert(js[p] != b);
                } else if p > i {
                    assert(js[i as int] != b);
                }
                assert(p == i);
            } else {
                if p >= 0 {
                    assert(js[p] != b);
                }
            }
        }
        if i < n {
            joints_remove(&mut out, i);
            joints_insert(&mut out, 0, best_move);
            self.tt_hits.1 = self.tt_hits.1.wrapping_add(1);
            assert(joints_items(out) =~= seq![b] + js.remove(i as int));
        }
        out
    }

    /// Alpha-beta search of `depth` plies from the current position, `you`
    /// moving at maximizing nodes and the rivals answering `you_move` at
    /// minimizing nodes. Returns the value (fail-soft with respect to the
    /// window `alpha`..`beta`), the updated `alpha` and `beta`, and at a
    /// maximizing node the direction that reached the value.
    pub fn minimax(
        &mut self,
        depth: u8,
        alpha: i32,
        beta: i32,
        maximizing: bool,
        you_move: Move,
    ) -> (r: (i32, i32, i32, Direction))
        requires
            search_wf(old(self).state@),
            old(self).move_table.wf(),
            alpha < beta,
            !maximizing ==> you_move.1 == old(self).state@.you.id,
            leaves_safe(old(self).state@, old(self).weights, depth as nat, maximizing, you_move),
        ensures
            final(self).state@ == old(self).state@,
            final(self).weights == old(self).weights,
            final(self).zobrist == old(self).zobrist,
            final(self).move_table.wf(),
            fail_soft(
                r.0 as int,
                spec_minimax(old(self).state@, old(self).weights, depth as nat, maximizing, you_move),
                alpha as int,
                beta as int,
            ),
            (is_terminal(old(self).state@) || depth == 0) ==> r.0 == spec_minimax(
                old(self).state@,
                old(self).weights,
                depth as nat,
                maximizing,
                you_move,
            ) && r.1 == alpha && r.2 == beta && r.3 == Direction::Up,
            (is_terminal(old(self).state@) || depth == 0) ==> final(self).move_table == old(self).move_table
                && final(self).tt_hits == old(self).tt_hits,
            !(is_terminal(old(self).state@) || depth == 0) && !maximizing && r.0 <= alpha ==> stores_cutoff(
                final(self).move_table@,
                old(self).state@,
                old(self).weights,
                depth as nat,
                you_move,
                old(self).zobrist,
                r.0 as int,
            ),
            r.0 == i32::MIN ==> r.3 == Direction::Up,
            !(is_terminal(old(self).state@) || depth == 0) && maximizing ==> {
                &&& r.1 == (if alpha < r.0 { r.0 } else { alpha })
                &&& r.2 == beta
                &&& (alpha < r.0 < beta || (beta == i32::MAX && r.0 == i32::MAX)) ==> exists|i: int|
                    0 <= i < spec_legal_moves(old(self).state@.you, old(self).state@.board).len()
                        && (#[trigger] spec_legal_moves(old(self).state@.you, old(self).state@.board)[i]).0
                        == r.3 && first_best(
                        max_children(
                            old(self).state@,
                            old(self).weights,
                            depth as nat,
                            spec_legal_moves(old(self).state@.you, old(self).state@.board),
                        ),
                        r.0 as int,
                        i,
                    )
            },
            !(is_terminal(old(self).state@) || depth == 0) && !maximizing ==> r.1 == alpha && r.2
                == (if r.0 < beta { r.0 } else { beta }) && r.3 == Direction::Up,
        decreases depth,
    {
        let ghost g = self.state@;
        let ghost w = self.weights;
        let ghost z0 = self.zobrist;
        if self.state.you.status == Status::Dead {
            // dead
            return (i32::MIN, alpha, beta, Direction::Up);
        }
        let dead = amnt_dead(self);
        proof {
            lemma_dead_count_bound(g.board.snakes);
        }
        if self.state.board.snakes.len() - dead == 1 {
            // won
            return (i32::MAX, alpha, beta, Direction::Up);
        }
        if depth == 0 {
            let x = eval(&self.state, self.weights);
            return (x, alpha, beta, Direction::Up);
        }
        if maximizing {
            let mut value = i32::MIN;
            let mut out = Direction::Up;
            let mut alpha = alpha;
            let ghost alpha0 = alpha;
            proof {
                crate::rules::lemma_first_with_id(g.board.snakes, g.you.id);
                lemma_moves_safe(g, g.you);
                lemma_legal_shape(g.you, g.board);
            }
            let moves = self.state.you.get_moves(&self.state.board);
            let ghost ms = moves@;
            let ghost cs = max_children(g, w, depth as nat, ms);
            assert(cs.take(cs.len() as int) =~= cs);
            let mut k: usize = 0;
            while k < moves.len()
                invariant_except_break
                    g == old(self).state@,
                    w == old(self).weights,
                    self.state@ == g,
                    self.weights == w,
                    self.zobrist == z0,
                    self.move_table.wf(),
                    search_wf(g),
                    !is_terminal(g),
                    depth > 0,
                    maximizing,
                    ms == moves@,
                    ms == spec_legal_moves(g.you, g.board),
                    cs == max_children(g, w, depth as nat, ms),
                    cs.len() == ms.len(),
                    cs.take(cs.len() as int) == cs,
                    leaves_safe(g, w, depth as nat, true, you_move),
                    k <= ms.len(),
                    alpha0 < beta,
                    seq_max(cs.take(k as int)) <= value,
                    value > alpha0 ==> seq_max(cs.take(k as int)) == value,
                    alpha == (if alpha0 < value { value } else { alpha0 }),
                    value < beta,
                    value > alpha0 ==> exists|i: int| 0 <= i < k && (#[trigger] ms[i]).0 == out && first_best(cs, value as int, i),
                    value == i32::MIN ==> out == Direction::Up,
                ensures
                    self.state@ == g,
                    self.weights == w,
                    self.zobrist == z0,
                    self.move_table.wf(),
                    fail_soft(value as int, seq_max(cs), alpha0 as int, beta as int),
                    alpha == (if alpha0 < value { value } else { alpha0 }),
                    value == i32::MIN ==> out == Direction::Up,
                    (alpha0 < value < beta || (beta == i32::MAX && value == i32::MAX)) ==> exists|i: int|
                        0 <= i < ms.len() && (#[trigger] ms[i]).0 == out && first_best(cs, value as int, i),
                decreases ms.len() - k,
            {
                let current_move = moves[k];
                proof {
                    assert(cs[k as int] == spec_minimax(g, w, (depth - 1) as nat, false, ms[k as int]));
                    assert(leaves_safe(g, w, (depth - 1) as nat, false, ms[k as int]));
                }
                let x = self.minimax(depth - 1, alpha, beta, !maximizing, current_move);
                proof {
                    lemma_seq_max_take(cs, k as int);
                    lemma_minimax_range(g, w, (depth - 1) as nat, false, ms[k as int]);
                    if value < x.0 && x.0 > alpha && (x.0 < beta || beta == i32::MAX) {
                        assert(cs[k as int] == x.0);
                        assert forall|j: int| 0 <= j < k implies #[trigger] cs[j] < x.0 by {
                            lemma_seq_max_ge(cs.take(k as int), j);
                            assert(cs.take(k as int)[j] == cs[j]);
                        }
                        assert(first_best(cs, x.0 as int, k as int));
                    }
                }
                let ghost value_before = value;
                if value < x.0 {
                    out = current_move.0;
                    value = x.0;
                }
                if alpha < value {
                    alpha = value;
                }
                if value >= beta {
                    proof {
                        lemma_seq_max_ge(cs, k as int);
                        assert(value == x.0);
                        assert(cs[k as int] >= x.0);
                        assert(seq_max(cs) >= value);
                    }
                    break;  // beta cutoff
                }
                k = k + 1;
            }
            proof {
                if k == ms.len() {
                    assert(cs.take(k as int) =~= cs);
                }
            }
            (value, alpha, beta, out)
        } else {
            let mut best_move = joint_new();
            let mut value = i32::MAX;
            let mut beta = beta;
            let ghost beta0 = beta;
            proof {
                lemma_joint_shape(g, you_move);
                lemma_nonterminal_rival(g);
            }
            let ordered = self.get_ordered_moves(you_move);
            let ghost js = spec_joint_moves(g, you_move);
            let ghost os = joints_items(ordered);
            let ghost f = |j: Seq<Move>| spec_minimax(spec_apply(g, j), w, (depth - 1) as nat, true, you_move);
            let ghost cs = Seq::new(os.len(), |k: int| f(os[k]));
            proof {
                lemma_reorder(js, stored_moves(old(self).move_table@, z0), f);
                assert(Seq::new(js.len(), |i: int| f(js[i])) =~= min_children(g, w, depth as nat, you_move, js));
            }
            let n = joints_len(&ordered);
            assert(cs.take(cs.len() as int) =~= cs);
            let mut k: usize = 0;
            while k < n
                invariant_except_break
                    g == old(self).state@,
                    w == old(self).weights,
                    self.state@ == g,
                    self.weights == w,
                    self.zobrist == z0,
                    self.move_table.wf(),
                    search_wf(g),
                    !is_terminal(g),
                    depth > 0,
                    !maximizing,
                    you_move.1 == g.you.id,
                    os == joints_items(ordered),
                    n == os.len(),
                    os.len() == js.len(),
                    js == spec_joint_moves(g, you_move),
                    forall|i: int| 0 <= i < js.len() ==> exists|j: int| 0 <= j < js.len() && #[trigger] os[i] == js[j],
                    forall|i: int| 0 <= i < js.len() ==> distinct_ids(#[trigger] js[i]) && js[i].len() == 2,
                    cs == Seq::new(os.len(), |k: int| f(os[k])),
                    cs.take(cs.len() as int) == cs,
                    f == (|j: Seq<Move>| spec_minimax(spec_apply(g, j), w, (depth - 1) as nat, true, you_move)),
                    leaves_safe(g, w, depth as nat, false, you_move),
                    k <= n,
                    alpha < beta0,
                    seq_min(cs.take(k as int)) >= value,
                    value < beta0 ==> seq_min(cs.take(k as int)) == value,
                    beta == (if value < beta0 { value } else { beta0 }),
                    value > alpha,
                ensures
                    self.state@ == g,
                    self.weights == w,
                    self.zobrist == z0,
                    self.move_table.wf(),
                    fail_soft(value as int, seq_min(cs), alpha as int, beta0 as int),
                    beta == (if value < beta0 { value } else { beta0 }),
                    value <= alpha ==> stores_cutoff(self.move_table@, g, w, depth as nat, you_move, z0, value as int),
                decreases n - k,
            {
                let current_move = joints_get(&ordered, k);
                let ghost jm = os[k as int];
                proof {
                    let j = choose|j: int| 0 <= j < js.len() && os[k as int] == js[j];
                    assert(distinct_ids(jm));
                    assert(leaves_safe(spec_apply(g, js[j]), w, (depth - 1) as nat, true, you_move));
                    crate::rules::lemma_apply_wf(g, jm);
                    assert(cs[k as int] == spec_minimax(spec_apply(g, jm), w, (depth - 1) as nat, true, you_move));
                }
                let delta = self.make_move(&current_move); // make the current move and store the irreversable bits.
                let child = self.minimax(depth - 1, alpha, beta, !maximizing, you_move);
                proof {
                    lemma_seq_min_take(cs, k as int);
                }
                if child.0 < value {
                    value = child.0;
                }
                self.unmake_move(&delta); // unmake the current move
                if beta > value {
                    best_move = current_move;
                    beta = value;
                }
                if value <= alpha {
                    assert(joint_items(best_move) == jm);
                    let ghost zc = self.zobrist;
                    let stored = self.move_table.get(self.zobrist);
                    if !joint_eq(&best_move, &stored) {
                        self.move_table.set(self.zobrist, best_move, depth, value);
                        assert(jm.take(2) =~= jm);
                    }
                    proof {
                        let j = choose|j: int| 0 <= j < js.len() && os[k as int] == js[j];
                        assert(js[j] == jm);
                        assert(js.contains(jm));
                        assert(zc == z0 ^ joint_key(jm));
                        assert(stored_moves(self.move_table@, z0 ^ joint_key(jm)) == jm);
                        assert(cs[k as int] <= value);
                        assert(stores_cutoff(self.move_table@, g, w, depth as nat, you_move, z0, value as int));
                    }
                    self.update_zobrist(&current_move); // revert the zobrist hash
                    proof {
                        lemma_zobrist_round_trip(z0, jm);
                        lemma_seq_min_le(cs, k as int);
                        assert(value == child.0);
                        assert(cs[k as int] <= child.0);
                        assert(seq_min(cs) <= value);
                    }
                    break;
                }
                self.update_zobrist(&current_move); // revert the zobrist hash
                proof {
                    lemma_zobrist_round_trip(z0, jm);
                }
                k = k + 1;
            }
            proof {
                if k == n {
                    assert(cs.take(k as int) =~= cs);
                }
            }
            (value, alpha, beta, Direction::Up)
        }
    }

    /// A copy of the search state.
    pub fn copy(&self) -> (s: State)
        ensures
            s.state@ == self.state@,
            s.weights == self.weights,
            s.move_table@ == self.move_table@,
            s.zobrist == self.zobrist,
            s.tt_hits == self.tt_hits,
    {
        State {
            state: copy_game(&self.state),
            weights: self.weights,
            move_table: self.move_table.copy(),
            zobrist: self.zobrist,
            tt_hits: self.tt_hits,
        }
    }

    /// A search state for `state` with the given weights, an empty table and hash 0.
    pub fn new(state: SmallMove, weights: Weights) -> (s: State)
        ensures
            s.state@ == state@,
            s.weights == weights,
            s.move_table.wf(),
            s.zobrist == 0,
            s.tt_hits == (0u64, 0u64),
    {
        State { state, weights, move_table: MoveTable::new(), zobrist: 0, tt_hits: (0, 0) }
    }

    /// Plays the joint move `moves` (see `spec_apply`), folds its key into
    /// the hash, and returns the position before the move.
    pub fn make_move(&mut self, moves: &Joint) -> (delta: SmallMove)
        requires
            wf(old(self).state@),
            distinct_ids(joint_items(*moves)),
        ensures
            delta@ == old(self).state@,
            final(self).state@ == spec_apply(old(self).state@, joint_items(*moves)),
            final(self).zobrist == old(self).zobrist ^ joint_key(joint_items(*moves)),
            final(self).weights == old(self).weights,
            final(self).move_table == old(self).move_table,
            final(self).tt_hits == old(self).tt_hits,
    {
        let delta = copy_game(&self.state);
        let ghost g0 = self.state@;
        let ghost ms = joint_items(*moves);
        let n = joint_len(moves);
        let mut k: usize = 0;
        while k < n
            invariant
                g0 == old(self).state@,
                ms == joint_items(*moves),
                wf(g0),
                distinct_ids(ms),
                n == ms.len(),
                k <= n,
                self.state@ == (GameView {
                    board: BoardView { snakes: step_all(g0.board.snakes, ms.take(k as int)), ..g0.board },
                    ..g0
                }),
                self.weights == old(self).weights,
                self.move_table == old(self).move_table,
                self.tt_hits == old(self).tt_hits,
                self.zobrist == old(self).zobrist,
            decreases n - k,
        {
            let m = joint_get(moves, k);
            proof {
                let cur = step_all(g0.board.snakes, ms.take(k as int));
                lemma_step_all_shape(g0.board.snakes, ms.take(k as int));
                assert forall|i: int|
                    0 <= i < cur.len() && moves_snake(#[trigger] cur[i], m) implies cur[i].health > 0
                    && steps_fit(cur[i].head) by {
                    lemma_step_prefix_untouched(g0.board.snakes, ms, k as int, i);
                    assert(g0.board.snakes[i].status == crate::small::Status::Alive);
                }
            }
            let next = step_matching_vec(&self.state.board.snakes, m);
            self.state.board.snakes = next;
            proof {
                assert(ms.take(k as int + 1).drop_last() =~= ms.take(k as int));
                assert(self.state@.board =~= (BoardView {
                    snakes: step_all(g0.board.snakes, ms.take(k as int + 1)),
                    ..g0.board
                }));
            }
            k = k + 1;
        }
        proof {
            assert(ms.take(n as int) =~= ms);
            lemma_step_all_shape(g0.board.snakes, ms);
        }
        proof {
            let vs = views(self.state.board.snakes@);
            assert forall|j: int| 0 <= j < self.state.board.snakes.len() implies (#[trigger] self.state.board.snakes@[j]).body.len() >= 1 by {
                assert(vs[j] == self.state.board.snakes@[j]@);
                assert(g0.board.snakes[j].body.len() >= 2);
            }
        }
        let width = self.state.board.width;
        let height = self.state.board.height;
        let resolved = resolve_vec(&self.state.board.snakes, width, height);
        self.state.board.snakes = resolved;
        let ghost after = resolve(step_all(g0.board.snakes, ms), g0.board.width, g0.board.height);
        assert(views(self.state.board.snakes@) == after);
        let you_id = self.state.you.id;
        proof {
            lemma_first_with_id(after, you_id);
            assert(self.state@.board =~= (BoardView { snakes: after, ..g0.board }));
        }
        let mut i: usize = 0;
        while i < self.state.board.snakes.len()
            invariant_except_break
                views(self.state.board.snakes@) == after,
                self.state@.board == (BoardView { snakes: after, ..g0.board }),
                self.state.turn == g0.turn,
                self.weights == old(self).weights,
                self.move_table == old(self).move_table,
                self.tt_hits == old(self).tt_hits,
                self.zobrist == old(self).zobrist,
                you_id == g0.you.id,
                self.state.you@ == g0.you,
                i <= self.state.board.snakes.len(),
                forall|j: int| 0 <= j < i ==> after[j].id != you_id,
                -1 <= first_with_id(after, you_id) < after.len(),
                first_with_id(after, you_id) >= 0 ==> after[first_with_id(after, you_id)].id == you_id,
            ensures
                self.state@.board == (BoardView { snakes: after, ..g0.board }),
                self.state.turn == g0.turn,
                self.weights == old(self).weights,
                self.move_table == old(self).move_table,
                self.tt_hits == old(self).tt_hits,
                self.zobrist == old(self).zobrist,
                first_with_id(after, you_id) >= 0 ==> self.state.you@ == after[first_with_id(after, you_id)],
                first_with_id(after, you_id) < 0 ==> self.state.you@ == g0.you,
            decreases self.state.board.snakes.len() - i,
        {
            proof { lemma_first_with_id(after, you_id); }
            if self.state.board.snakes[i].id == you_id {
                assert(after[i as int] == self.state.board.snakes@[i as int]@);
                let s = copy_snake(&self.state.board.snakes[i]);
                self.state.you = s;
                proof {
                    let f = first_with_id(after, you_id);
                    if f < 0 {
                        assert(after[i as int].id != you_id);
                    } else if f > i {
                        assert(after[i as int].id != you_id);
                    } else if f < i {
                        assert(after[f].id != you_id);
                    }
                    assert(f == i);
                }
                break;
            }
            assert(after[i as int] == self.state.board.snakes@[i as int]@);
            i = i + 1;
        }
        proof { lemma_first_with_id(after, you_id); }
        let key = joint_key_of(moves);
        self.zobrist = self.zobrist ^ key;
        assert(self.state@.board =~= spec_apply(g0, ms).board);
        assert(self.state@.you =~= spec_apply(g0, ms).you);
        assert(self.state@ =~= spec_apply(g0, ms));
        delta
    }

    /// Puts back the position `delta` that `make_move` returned.
    pub fn unmake_move(&mut self, delta: &SmallMove)
        ensures
            final(self).state@ == delta@,
            final(self).weights == old(self).weights,
            final(self).move_table == old(self).move_table,
            final(self).tt_hits == old(self).tt_hits,
            final(self).zobrist == old(self).zobrist,
    {
        self.state = copy_game(delta);
    }

    /// Folds the key of `moves` into the hash; folding the same joint move
    /// twice gives the hash back.
    pub fn update_zobrist(&mut self, moves: &Joint)
        ensures
            final(self).zobrist == old(self).zobrist ^ joint_key(joint_items(*moves)),
            final(self).state == old(self).state,
            final(self).weights == old(self).weights,
            final(self).move_table == old(self).move_table,
            final(self).tt_hits == old(self).tt_hits,
    {
        let key = joint_key_of(moves);
        self.zobrist = self.zobrist ^ key;
    }
}

} // verus!
