//! Self-play training: variants of the evaluation weights play each other,
//! winners gain elo, and the next generation descends from the chosen one.
use vstd::prelude::*;
use rand::seq::SliceRandom;
use rand::Rng;
use crate::types::{Coordinate, Weights};
use crate::small::{
    copy_cells, copy_snake, copy_snakes, views, BoardView, GameView, SmallBattleSnake, SmallMove,
    SnakeView, Status,
};
use crate::types::{amnt_dead, deepening_result, get_best, now, Direction, State};
use crate::move_lists::{joint_items, joint_new, joint_push};
use crate::small::spec_legal_moves;
use crate::engine::dead_count;
use crate::rules::{
    distinct_ids, first_with_id, lemma_first_with_id, lemma_step_all_distinct, resolve, search_wf,
    spec_apply, step_all,
};
use crate::safety::{lemma_sane_apply, lemma_sane_deepening, near_small_board, sane};

verus! {

#[derive(Clone, Debug, PartialEq, Eq)]
pub struct Trainer {
    pub variants: Vec<Variant>,
}

#[derive(Clone, Copy, Debug, PartialEq, Eq, Structural)]
pub struct Variant {
    pub genome: Weights,
    pub elo: i64,
}

/// `fastrand::i32(lo..hi)`: a random number in `lo..hi`; the range must not
/// be empty, as `fastrand` panics on an empty range.
#[verifier::external_body]
fn random_i32(lo: i32, hi: i32) -> (r: i32)
    requires
        lo < hi,
    ensures
        lo <= r < hi,
{
    fastrand::i32(lo..hi)
}

/// Whether each weight of `child` lies in `parent - v ..< parent + v`.
pub open spec fn within_variance(parent: Weights, child: Weights, v: int) -> bool {
    &&& parent.0 - v <= child.0 < parent.0 + v
    &&& parent.1 - v <= child.1 < parent.1 + v
    &&& parent.2 - v <= child.2 < parent.2 + v
    &&& parent.3 - v <= child.3 < parent.3 + v
}

/// Every weight plus any offset in `-v ..< v` stays an `i32`.
pub open spec fn can_vary(w: Weights, v: int) -> bool {
    &&& i32::MIN <= w.0 - v && w.0 + v - 1 <= i32::MAX
    &&& i32::MIN <= w.1 - v && w.1 + v - 1 <= i32::MAX
    &&& i32::MIN <= w.2 - v && w.2 + v - 1 <= i32::MAX
    &&& i32::MIN <= w.3 - v && w.3 + v - 1 <= i32::MAX
}

impl Variant {
    /// create a certain number of children based on the max variance and also my own genome.
    pub fn create_children(&self, num_children: u8, max_variance: u8) -> (out: Vec<Variant>)
        requires
            num_children > 0 ==> max_variance > 0,
            can_vary(self.genome, max_variance as int),
        ensures
            out.len() == num_children,
            forall|i: int|
                0 <= i < out.len() ==> (#[trigger] out@[i]).elo == 0 && within_variance(
                    self.genome,
                    out@[i].genome,
                    max_variance as int,
                ),
    {
        let mut out: Vec<Variant> = Vec::new();
        let mut k: u8 = 0;
        while k < num_children
            invariant
                k <= num_children,
                out.len() == k,
                num_children > 0 ==> max_variance > 0,
                can_vary(self.genome, max_variance as int),
                forall|i: int|
                    0 <= i < out.len() ==> (#[trigger] out@[i]).elo == 0 && within_variance(
                        self.genome,
                        out@[i].genome,
                        max_variance as int,
                    ),
            decreases num_children - k,
        {
            out.push(Variant::new(self.genome.randomize(max_variance as i32)));
            k = k + 1;
        }
        out
    }

    /// create a new version of myself.
    pub fn new(genome: Weights) -> (v: Self)
        ensures
            v == (Variant { genome, elo: 0 }),
    {
        Variant { genome, elo: 0 }
    }

    /// register a win in terms of elo gain.
    pub fn reg_win(&mut self)
        requires
            old(self).elo <= i64::MAX - 5,
        ensures
            *final(self) == (Variant { elo: (old(self).elo + 5) as i64, ..*old(self) }),
    {
        self.elo += 5;
    }

    /// register a loss in terms of elo loss.
    pub fn reg_loss(&mut self)
        requires
            old(self).elo >= i64::MIN + 3,
        ensures
            *final(self) == (Variant { elo: (old(self).elo - 3) as i64, ..*old(self) }),
    {
        self.elo -= 3;
    }
}

impl Weights {
    /// return a randomized version of myself based on the variance: each
    /// weight moves by a random offset in `-max_variance ..< max_variance`.
    pub fn randomize(&self, max_variance: i32) -> (r: Self)
        requires
            max_variance > 0,
            can_vary(*self, max_variance as int),
        ensures
            within_variance(*self, r, max_variance as int),
    {
        let d0 = random_i32(-max_variance, max_variance);
        let d1 = random_i32(-max_variance, max_variance);
        let d2 = random_i32(-max_variance, max_variance);
        let d3 = random_i32(-max_variance, max_variance);
        offset_weights(*self, d0, d1, d2, d3)
    }
}

/// `w` with each weight moved by its offset.
pub fn offset_weights(w: Weights, d0: i32, d1: i32, d2: i32, d3: i32) -> (r: Weights)
    requires
        i32::MIN <= w.0 + d0 <= i32::MAX,
        i32::MIN <= w.1 + d1 <= i32::MAX,
        i32::MIN <= w.2 + d2 <= i32::MAX,
        i32::MIN <= w.3 + d3 <= i32::MAX,
    ensures
        r.0 == w.0 + d0,
        r.1 == w.1 + d1,
        r.2 == w.2 + d2,
        r.3 == w.3 + d3,
{
    Weights(w.0 + d0, w.1 + d1, w.2 + d2, w.3 + d3)
}

/// The pairs `(i, j)` for every `j` from `i + 1` to `n - 1`, in order.
pub open spec fn matchup_row(n: int, i: int) -> Seq<(usize, usize)> {
    Seq::new((n - i - 1) as nat, |k: int| (i as usize, (i + 1 + k) as usize))
}

/// The rows of the first `m` variants, one after the other.
pub open spec fn matchups_upto(n: int, m: nat) -> Seq<(usize, usize)>
    decreases m,
{
    if m == 0 {
        Seq::empty()
    } else {
        matchups_upto(n, (m - 1) as nat) + matchup_row(n, m - 1)
    }
}

/// `out` is `input` sorted by elo, with `p[k]` the index in `input` of
/// `out[k]`, and variants of equal elo in the order they had in `input`.
pub open spec fn stable_sorted(out: Seq<Variant>, input: Seq<Variant>, p: Seq<int>) -> bool {
    &&& p.len() == out.len() == input.len()
    &&& forall|k: int| 0 <= k < out.len() ==> 0 <= #[trigger] p[k] < input.len() && out[k] == input[p[k]]
    &&& forall|k: int, l: int| 0 <= k < out.len() && 0 <= l < out.len() && k != l ==> #[trigger] p[k] != #[trigger] p[l]
    &&& forall|k: int, l: int| 0 <= k < l < out.len() ==> (#[trigger] out[k]).elo <= (#[trigger] out[l]).elo
    &&& forall|k: int, l: int|
        0 <= k < l < out.len() && (#[trigger] out[k]).elo == (#[trigger] out[l]).elo ==> p[k] < p[l]
}

/// Sorts by elo, keeping variants of equal elo in their order.
fn sort_by_elo(input: &Vec<Variant>) -> (out: Vec<Variant>)
    ensures
        exists|p: Seq<int>| stable_sorted(out@, input@, p),
{
    let mut out: Vec<Variant> = Vec::new();
    let ghost mut p: Seq<int> = Seq::empty();
    let mut i: usize = 0;
    while i < input.len()
        invariant
            i <= input.len(),
            p.len() == out.len() == i,
            forall|k: int| 0 <= k < out.len() ==> 0 <= #[trigger] p[k] < i && out@[k] == input@[p[k]],
            forall|k: int, l: int| 0 <= k < out.len() && 0 <= l < out.len() && k != l ==> #[trigger] p[k] != #[trigger] p[l],
            forall|k: int, l: int| 0 <= k < l < out.len() ==> (#[trigger] out@[k]).elo <= (#[trigger] out@[l]).elo,
            forall|k: int, l: int|
                0 <= k < l < out.len() && (#[trigger] out@[k]).elo == (#[trigger] out@[l]).elo ==> p[k] < p[l],
        decreases input.len() - i,
    {
        let x = input[i];
        let mut pos: usize = 0;
        while pos < out.len() && out[pos].elo <= x.elo
            invariant
                pos <= out.len(),
                forall|k: int| 0 <= k < pos ==> (#[trigger] out@[k]).elo <= x.elo,
            decreases out.len() - pos,
        {
            pos = pos + 1;
        }
        let ghost old_out = out@;
        let ghost old_p = p;
        out.insert(pos, x);
        proof {
            p = old_p.insert(pos as int, i as int);
            assert forall|k: int| pos < k < out.len() implies (#[trigger] out@[k]).elo > x.elo by {
                assert(out@[k] == old_out[k - 1]);
                assert(old_out[pos as int].elo > x.elo);
                if k - 1 > pos {
                    assert(old_out[pos as int].elo <= old_out[k - 1].elo);
                }
            }
            assert forall|k: int| 0 <= k < out.len() implies 0 <= #[trigger] p[k] < i + 1 && out@[k] == input@[p[k]] by {
                if k < pos {
                    assert(p[k] == old_p[k]);
                } else if k > pos {
                    assert(p[k] == old_p[k - 1]);
                }
            }
            assert forall|k: int, l: int| 0 <= k < out.len() && 0 <= l < out.len() && k != l implies #[trigger] p[k] != #[trigger] p[l] by {
                let ok = if k < pos { k } else { k - 1 };
                let ol = if l < pos { l } else { l - 1 };
                if k != pos && l != pos {
                    assert(p[k] == old_p[ok]);
                    assert(p[l] == old_p[ol]);
                } else if k == pos {
                    assert(p[l] == old_p[ol]);
                } else {
                    assert(p[k] == old_p[ok]);
                }
            }
            assert forall|k: int, l: int| 0 <= k < l < out.len() implies (#[trigger] out@[k]).elo <= (#[trigger] out@[l]).elo by {
                if l < pos {
                    assert(out@[k] == old_out[k] && out@[l] == old_out[l]);
                } else if l == pos {
                    assert(out@[k] == old_out[k]);
                } else if k == pos {
                } else if k < pos {
                    assert(out@[k] == old_out[k]);
                } else {
                    assert(out@[k] == old_out[k - 1] && out@[l] == old_out[l - 1]);
                }
            }
            assert forall|k: int, l: int|
                0 <= k < l < out.len() && (#[trigger] out@[k]).elo == (#[trigger] out@[l]).elo implies p[k] < p[l] by {
                if l < pos {
                    assert(p[k] == old_p[k] && p[l] == old_p[l]);
                    assert(out@[k] == old_out[k] && out@[l] == old_out[l]);
                } else if l == pos {
                    assert(p[k] == old_p[k]);
                } else if k == pos {
                    assert(out@[l].elo > x.elo);
                } else if k < pos {
                    assert(out@[l].elo > x.elo);
                    assert(out@[k].elo <= x.elo);
                } else {
                    assert(p[k] == old_p[k - 1] && p[l] == old_p[l - 1]);
                    assert(out@[k] == old_out[k - 1] && out@[l] == old_out[l - 1]);
                }
            }
        }
        i = i + 1;
    }
    assert(stable_sorted(out@, input@, p));
    out
}

/// `rand`'s `thread_rng().gen_range(0..n)`: a random index below `n`; the
/// range must not be empty, as `gen_range` panics on an empty range.
#[verifier::external_body]
fn random_below(n: usize) -> (r: usize)
    requires
        n > 0,
    ensures
        r < n,
{
    rand::thread_rng().gen_range(0..n)
}

/// `rand`'s `shuffle` with `thread_rng()`: a random permutation of the cells
/// (the implementation swaps items in place).
#[verifier::external_body]
fn shuffle_cells(v: &mut Vec<Coordinate>)
    ensures
        final(v)@.len() == old(v)@.len(),
        final(v)@.to_multiset() == old(v)@.to_multiset(),
{
    v.shuffle(&mut rand::thread_rng())
}

pub struct Game {
    snakes: Vec<SmallBattleSnake>,
    food: Vec<Coordinate>,
    width: u8,
    height: u8,
}

/// A game setup as a mathematical value.
#[verifier::ext_equal]
pub struct SetupView {
    pub snakes: Seq<SnakeView>,
    pub food: Seq<Coordinate>,
    pub width: u8,
    pub height: u8,
}

impl View for Game {
    type V = SetupView;

    closed spec fn view(&self) -> SetupView {
        SetupView { snakes: views(self.snakes@), food: self.food@, width: self.width, height: self.height }
    }
}

/// The last of the first `n` snakes with id `id`, or the first snake when none has it.
pub open spec fn pick_you(snakes: Seq<SnakeView>, id: u8, n: nat) -> SnakeView
    decreases n,
{
    if n == 0 {
        snakes[0]
    } else if snakes[n - 1].id == id {
        snakes[n - 1]
    } else {
        pick_you(snakes, id, (n - 1) as nat)
    }
}

/// The position a setup gives the snake with id `id`: turn 0, the setup's
/// snakes and food, no hazards, and `you` as `pick_you` chooses.
pub open spec fn spec_for_id(s: SetupView, id: u8) -> GameView {
    GameView {
        turn: 0,
        board: BoardView {
            height: s.height as i8,
            width: s.width as i8,
            food: s.food,
            hazards: Seq::empty(),
            snakes: s.snakes,
        },
        you: pick_you(s.snakes, id, s.snakes.len()),
    }
}

/// The eight start cells of a board `width` cells wide: the corners and edge
/// midpoints of the square one cell inside the border.
pub open spec fn start_points(width: u8) -> Seq<Coordinate> {
    let mn = 1i8;
    let md = ((width - 1) / 2) as i8;
    let mx = (width - 2) as i8;
    seq![
        Coordinate { x: mn, y: mn },
        Coordinate { x: mn, y: md },
        Coordinate { x: mn, y: mx },
        Coordinate { x: md, y: mn },
        Coordinate { x: md, y: mx },
        Coordinate { x: mx, y: mn },
        Coordinate { x: mx, y: md },
        Coordinate { x: mx, y: mx },
    ]
}

/// A snake as `SmallBattleSnake::new(x, 100, [(3, 3)])` makes it.
pub open spec fn fresh_snake(x: int) -> SnakeView {
    SnakeView {
        id: x as u8,
        health: 100,
        body: seq![Coordinate { x: 3, y: 3 }],
        head: Coordinate { x: 3, y: 3 },
        length: 1,
        status: Status::Alive,
    }
}

/// Snake `s` placed: three segments on its start cell `pts[id]` appended to
/// the body, the head set to the first segment, length 3, alive.
pub open spec fn placed(s: SnakeView, pts: Seq<Coordinate>) -> SnakeView {
    let p = pts[s.id as int];
    let b = s.body + seq![p, p, p];
    SnakeView { body: b, head: b[0], length: 3, status: Status::Alive, ..s }
}

/// The center cell of a board of the given size.
pub open spec fn center(width: u8, height: u8) -> Coordinate {
    Coordinate { x: ((width - 1) / 2) as i8, y: ((height - 1) / 2) as i8 }
}

/// Whether `c` is one of the four cells diagonal to `h`.
pub open spec fn diagonal_of(c: Coordinate, h: Coordinate) -> bool {
    &&& (c.x == h.x - 1 || c.x == h.x + 1)
    &&& (c.y == h.y - 1 || c.y == h.y + 1)
}

/// The four cells diagonal to `h`, in the order down-left, up-left,
/// down-right, up-right.
pub open spec fn diagonal_cells(h: Coordinate) -> Seq<Coordinate> {
    seq![
        Coordinate { x: (h.x - 1) as i8, y: (h.y - 1) as i8 },
        Coordinate { x: (h.x - 1) as i8, y: (h.y + 1) as i8 },
        Coordinate { x: (h.x + 1) as i8, y: (h.y - 1) as i8 },
        Coordinate { x: (h.x + 1) as i8, y: (h.y + 1) as i8 },
    ]
}

/// The diagonal cell of `h` with index `r` (see `diagonal_cells`).
pub fn diagonal_cell(h: Coordinate, r: usize) -> (c: Coordinate)
    requires
        r < 4,
        crate::types::steps_fit(h),
    ensures
        c == diagonal_cells(h)[r as int],
        diagonal_of(c, h),
{
    let cells = [
        Coordinate::new(h.x - 1, h.y - 1),
        Coordinate::new(h.x - 1, h.y + 1),
        Coordinate::new(h.x + 1, h.y - 1),
        Coordinate::new(h.x + 1, h.y + 1),
    ];
    cells[r]
}

impl Game {
    /// returns a SmallMove that is derived from the game.
    pub fn for_id(&self, id: u8) -> (out: SmallMove)
        requires
            self@.snakes.len() >= 1,
        ensures
            out@ == spec_for_id(self@, id),
    {
        let mut out = SmallMove::new();
        let mut you = &self.snakes[0];
        let ghost vs = self@.snakes;
        let mut k: usize = 0;
        while k < self.snakes.len()
            invariant
                vs == views(self.snakes@),
                vs.len() >= 1,
                k <= self.snakes.len(),
                you@ == pick_you(vs, id, k as nat),
            decreases self.snakes.len() - k,
        {
            let x = &self.snakes[k];
            assert(vs[k as int] == x@);
            if x.id == id {
                you = x;
            }
            k = k + 1;
        }
        out.board.snakes = copy_snakes(&self.snakes);
        out.board.food = copy_cells(&self.food);
        out.board.width = #[verifier::truncate] (self.width as i8);
        out.board.height = #[verifier::truncate] (self.height as i8);
        out.you = copy_snake(you);
        out.turn = 0;
        assert(out@.board =~= spec_for_id(self@, id).board);
        out
    }

    /// returns a start position based on the number of snakes
    pub fn gen_start(num_snakes: u8) -> (g: Self)
        requires
            num_snakes <= 8,
        ensures
            g@.width == 11,
            g@.height == 11,
            g@.snakes.len() == num_snakes,
            exists|pts: Seq<Coordinate>|
                pts.len() == 8 && pts.to_multiset() == start_points(11).to_multiset() && forall|i: int|
                    0 <= i < num_snakes ==> #[trigger] g@.snakes[i] == placed(fresh_snake(i), pts),
            g@.food.len() == num_snakes + 1,
            forall|i: int| 0 <= i < num_snakes ==> diagonal_of(#[trigger] g@.food[i], g@.snakes[i].head),
            g@.food[num_snakes as int] == (Coordinate { x: 5, y: 5 }),
            start_setup(g@, num_snakes),
    {
        let mut out = Game { snakes: Vec::new(), food: Vec::new(), width: 11, height: 11 };
        assert(out@.snakes =~= Seq::<SnakeView>::empty());
        out.place_snakes(num_snakes);
        let ghost pts = choose|pts: Seq<Coordinate>|
            pts.len() == 8 && pts.to_multiset() == start_points(11).to_multiset() && forall|i: int|
                0 <= i < out@.snakes.len() ==> #[trigger] out@.snakes[i] == placed(fresh_snake(i), pts);
        proof {
            assert forall|i: int| 0 <= i < out@.snakes.len() implies crate::types::steps_fit(#[trigger] out@.snakes[i].head) by {
                assert(out@.snakes[i] == placed(fresh_snake(i), pts));
            }
        }
        let ghost mid = out@;
        out.place_food();
        proof {
            assert forall|i: int| 0 <= i < num_snakes implies diagonal_of(#[trigger] out@.food[i], out@.snakes[i].head) by {
                assert(out@.food[0 + i] == out@.food[i]);
            }
        }
        out
    }

    /// Place Snakes
    fn place_snakes(&mut self, num_snakes: u8)
        requires
            old(self)@.width >= 2,
            num_snakes <= 8,
            forall|i: int| 0 <= i < old(self)@.snakes.len() ==> (#[trigger] old(self)@.snakes[i]).id < 8
                && old(self)@.snakes[i].body.len() >= 1,
        ensures
            final(self)@.width == old(self)@.width,
            final(self)@.height == old(self)@.height,
            final(self)@.food == old(self)@.food,
            final(self)@.snakes.len() == old(self)@.snakes.len() + num_snakes,
            exists|pts: Seq<Coordinate>|
                pts.len() == 8 && pts.to_multiset() == start_points(old(self)@.width).to_multiset()
                    && forall|i: int|
                    0 <= i < final(self)@.snakes.len() ==> #[trigger] final(self)@.snakes[i] == placed(
                        if i < old(self)@.snakes.len() {
                            old(self)@.snakes[i]
                        } else {
                            fresh_snake(i - old(self)@.snakes.len())
                        },
                        pts,
                    ),
    {
        let ghost w = self.width;
        let ghost old_snakes = self@.snakes;
        let (mn, md, mx) = (1i8, ((self.width - 1) / 2) as i8, #[verifier::truncate] ((self.width - 2) as i8));
        let mut start_points: Vec<Coordinate> = Vec::new();
        start_points.push(Coordinate::new(mn, mn));
        start_points.push(Coordinate::new(mn, md));
        start_points.push(Coordinate::new(mn, mx));
        start_points.push(Coordinate::new(md, mn));
        start_points.push(Coordinate::new(md, mx));
        start_points.push(Coordinate::new(mx, mn));
        start_points.push(Coordinate::new(mx, md));
        start_points.push(Coordinate::new(mx, mx));
        assert(start_points@ =~= self::start_points(w));
        shuffle_cells(&mut start_points);
        let ghost pts = start_points@;
        let mut x: u8 = 0;
        while x < num_snakes
            invariant
                self.width == w,
                self.height == old(self).height,
                self.food@ == old(self).food@,
                x <= num_snakes <= 8,
                self@.snakes.len() == old_snakes.len() + x,
                forall|i: int| 0 <= i < old_snakes.len() ==> self@.snakes[i] == old_snakes[i],
                forall|i: int| old_snakes.len() <= i < self@.snakes.len() ==> self@.snakes[i] == fresh_snake(i - old_snakes.len()),
            decreases num_snakes - x,
        {
            let mut cells: Vec<Coordinate> = Vec::new();
            cells.push(Coordinate::new(3, 3));
            let s = SmallBattleSnake::new(x, 100, &cells);
            assert(s@ =~= fresh_snake(x as int));
            let ghost before = self@.snakes;
            self.snakes.push(s);
            assert(self@.snakes =~= before.push(s@));
            x = x + 1;
        }
        assert forall|i: int| 0 <= i < self@.snakes.len() implies (#[trigger] self@.snakes[i]).id < 8
            && self@.snakes[i].body.len() >= 1 by {
            if i < old_snakes.len() {
                assert(self@.snakes[i] == old_snakes[i]);
            } else {
                assert(self@.snakes[i] == fresh_snake(i - old_snakes.len()));
            }
        }
        let ghost mid = self@.snakes;
        let mut placed_snakes: Vec<SmallBattleSnake> = Vec::new();
        let mut k: usize = 0;
        while k < self.snakes.len()
            invariant
                mid == views(self.snakes@),
                pts == start_points@,
                pts.len() == 8,
                forall|i: int| 0 <= i < mid.len() ==> (#[trigger] mid[i]).id < 8 && mid[i].body.len() >= 1,
                k <= self.snakes.len(),
                placed_snakes.len() == k,
                forall|i: int| 0 <= i < k ==> (#[trigger] placed_snakes@[i])@ == placed(mid[i], pts),
            decreases self.snakes.len() - k,
        {
            let mut y = copy_snake(&self.snakes[k]);
            assert(mid[k as int] == self.snakes@[k as int]@);
            let p = start_points[y.id as usize];
            y.body.push(p);
            y.body.push(p);
            y.body.push(p);
            y.head = y.body[0];
            y.length = 3;
            y.status = Status::Alive;
            assert(y@ =~= placed(mid[k as int], pts));
            placed_snakes.push(y);
            k = k + 1;
        }
        self.snakes = placed_snakes;
        assert forall|i: int| 0 <= i < self@.snakes.len() implies #[trigger] self@.snakes[i] == placed(
            if i < old_snakes.len() { old_snakes[i] } else { fresh_snake(i - old_snakes.len()) },
            pts,
        ) by {
            assert(self@.snakes[i] == placed_snakes@[i]@);
        }
    }

    /// place all food
    /// 1 in center
    /// 1 piece of food per snake that is 2 moves away.
    fn place_food(&mut self)
        requires
            forall|i: int| 0 <= i < old(self)@.snakes.len() ==> crate::types::steps_fit(#[trigger] old(self)@.snakes[i].head),
            1 <= old(self)@.width,
            1 <= old(self)@.height,
        ensures
            final(self)@.snakes == old(self)@.snakes,
            final(self)@.width == old(self)@.width,
            final(self)@.height == old(self)@.height,
            final(self)@.food.len() == old(self)@.food.len() + old(self)@.snakes.len() + 1,
            forall|i: int| 0 <= i < old(self)@.food.len() ==> final(self)@.food[i] == old(self)@.food[i],
            forall|i: int|
                0 <= i < old(self)@.snakes.len() ==> diagonal_of(
                    #[trigger] final(self)@.food[old(self)@.food.len() + i],
                    old(self)@.snakes[i].head,
                ),
            final(self)@.food.last() == center(old(self)@.width, old(self)@.height),
    {
        let ghost f0 = self.food@;
        let ghost vs = self@.snakes;
        let mut k: usize = 0;
        while k < self.snakes.len()
            invariant
                vs == views(self.snakes@),
                self.width == old(self).width,
                self.height == old(self).height,
                forall|i: int| 0 <= i < vs.len() ==> crate::types::steps_fit(#[trigger] vs[i].head),
                k <= self.snakes.len(),
                self.food@.len() == f0.len() + k,
                forall|i: int| 0 <= i < f0.len() ==> self.food@[i] == f0[i],
                forall|i: int| 0 <= i < k ==> diagonal_of(#[trigger] self.food@[f0.len() + i], vs[i].head),
            decreases self.snakes.len() - k,
        {
            let x = &self.snakes[k];
            assert(vs[k as int] == x@);
            assert(crate::types::steps_fit(vs[k as int].head));
            let r = random_below(4);
            let c = diagonal_cell(x.head, r);
            assert(diagonal_of(c, x.head));
            self.food.push(c);
            k = k + 1;
        }
        let cx = ((self.width - 1) / 2) as i8;
        let cy = ((self.height - 1) / 2) as i8;
        self.food.push(Coordinate::new(cx, cy));
    }
}

/// Whether each weight of `b` is within `m` of the weight of `a`.
pub open spec fn drift_within(a: Weights, b: Weights, m: int) -> bool {
    &&& a.0 - m <= b.0 <= a.0 + m
    &&& a.1 - m <= b.1 <= a.1 + m
    &&& a.2 - m <= b.2 <= a.2 + m
    &&& a.3 - m <= b.3 <= a.3 + m
}

/// Room for the elo changes of one game.
pub open spec fn elo_room(v: Variant) -> bool {
    i64::MIN + 6 <= v.elo <= i64::MAX - 10
}

/// The outcome of a game from the final status of each side's snake: 0 when
/// both are dead, 1 when the first is alive, else 2.
pub open spec fn outcome_of(you1: Status, you2: Status) -> int {
    if you1 == Status::Dead && you2 == Status::Dead {
        0
    } else if you1 == Status::Alive {
        1
    } else {
        2
    }
}

/// The variant at `i` with its elo changed by `d`.
pub open spec fn bump(vs: Seq<Variant>, i: int, d: int) -> Seq<Variant> {
    vs.update(i, Variant { elo: (vs[i].elo + d) as i64, ..vs[i] })
}

/// What `gen_start(num)` promises of a setup: an 11 by 11 board, `num`
/// snakes placed on a permutation of the start cells, one food cell diagonal
/// to each head and one in the centre.
pub open spec fn start_setup(s: SetupView, num: u8) -> bool {
    &&& s.width == 11
    &&& s.height == 11
    &&& s.snakes.len() == num
    &&& exists|pts: Seq<Coordinate>|
        pts.len() == 8 && pts.to_multiset() == start_points(11).to_multiset() && forall|i: int|
            0 <= i < num ==> #[trigger] s.snakes[i] == placed(fresh_snake(i), pts)
    &&& s.food.len() == num + 1
    &&& forall|i: int| 0 <= i < num ==> diagonal_of(#[trigger] s.food[i], s.snakes[i].head)
    &&& s.food[num as int] == (Coordinate { x: 5, y: 5 })
}

/// What `get_best` promises of its answer `r` on position `g` with weights `w`.
pub open spec fn best_answer(g: GameView, w: Weights, r: (Direction, i32)) -> bool {
    &&& spec_legal_moves(g.you, g.board).len() == 0 ==> r == (Direction::Up, i32::MIN)
    &&& spec_legal_moves(g.you, g.board).len() == 1 ==> r == (spec_legal_moves(g.you, g.board)[0].0, i32::MAX)
    &&& spec_legal_moves(g.you, g.board).len() > 1 ==> deepening_result(g, w, r)
}

/// One turn of a training game: each side answers its own position with
/// `get_best`, and both positions play the joint move of snake 1 taking the
/// first answer and snake 2 the second.
pub open spec fn turn_played(a: GameView, b: GameView, w1: Weights, w2: Weights, a2: GameView, b2: GameView) -> bool {
    exists|r1: (Direction, i32), r2: (Direction, i32)|
        best_answer(a, w1, r1) && best_answer(b, w2, r2) && a2 == spec_apply(a, seq![(r1.0, 1u8), (r2.0, 2u8)])
            && b2 == spec_apply(b, seq![(r1.0, 1u8), (r2.0, 2u8)])
}

/// The positions `ps1` (as snake 1 sees them) and `ps2` (as snake 2 sees
/// them) follow each other by played turns, and no snake is dead before the last.
pub open spec fn game_steps(ps1: Seq<GameView>, ps2: Seq<GameView>, w1: Weights, w2: Weights) -> bool {
    &&& ps1.len() == ps2.len()
    &&& ps1.len() >= 1
    &&& forall|k: int| 0 <= k < ps1.len() - 1 ==> dead_count(#[trigger] ps2[k].board.snakes) == 0
    &&& forall|k: int| 0 <= k < ps1.len() - 1 ==> #[trigger] turn_played(ps1[k], ps2[k], w1, w2, ps1[k + 1], ps2[k + 1])
}

/// `r` is how a training game between weights `w1` and `w2` can end: from a
/// start that `gen_start(2)` can give, seen by ids 1 and 2, turns are played
/// until a snake is dead, and `r` holds the final status of each side's `you`.
pub open spec fn game_played(w1: Weights, w2: Weights, r: (Status, Status)) -> bool {
    exists|setup: SetupView, ps1: Seq<GameView>, ps2: Seq<GameView>|
        start_setup(setup, 2) && game_steps(ps1, ps2, w1, w2) && ps1[0] == spec_for_id(setup, 1) && ps2[0]
            == spec_for_id(setup, 2) && dead_count(ps2.last().board.snakes) != 0 && r == (
            ps1.last().you.status,
            ps2.last().you.status,
        )
}

/// Some snake is dead when the dead count is not zero.
proof fn lemma_some_dead(snakes: Seq<SnakeView>)
    requires
        dead_count(snakes) != 0,
    ensures
        exists|i: int| 0 <= i < snakes.len() && #[trigger] snakes[i].status == Status::Dead,
    decreases snakes.len(),
{
    if snakes.last().status == Status::Dead {
        assert(snakes[snakes.len() - 1].status == Status::Dead);
    } else {
        lemma_some_dead(snakes.drop_last());
        let i = choose|i: int| 0 <= i < snakes.drop_last().len() && #[trigger] snakes.drop_last()[i].status == Status::Dead;
        assert(snakes[i].status == Status::Dead);
    }
}

/// The variants after the games of one matchup `mu`, their final statuses
/// in `row`, are recorded one after the other.
pub open spec fn apply_row(vs: Seq<Variant>, mu: (usize, usize), row: Seq<(Status, Status)>) -> Seq<Variant>
    decreases row.len(),
{
    if row.len() == 0 {
        vs
    } else {
        game_outcome(apply_row(vs, mu, row.drop_last()), mu.0 as int, mu.1 as int, outcome_of(row.last().0, row.last().1))
    }
}

/// The variants after the games of the first `rs.len()` matchups of `mus`
/// are recorded, matchup after matchup.
pub open spec fn apply_rounds(vs: Seq<Variant>, mus: Seq<(usize, usize)>, rs: Seq<Seq<(Status, Status)>>) -> Seq<Variant>
    decreases rs.len(),
{
    if rs.len() == 0 {
        vs
    } else {
        apply_row(apply_rounds(vs, mus, rs.drop_last()), mus[rs.len() - 1], rs.last())
    }
}

/// `rs` holds, for each matchup of `mus`, the final statuses of `games`
/// games each actually played between the two variants' weights.
pub open spec fn rounds_played(children: Seq<Variant>, mus: Seq<(usize, usize)>, rs: Seq<Seq<(Status, Status)>>, games: nat) -> bool {
    &&& rs.len() == mus.len()
    &&& forall|m: int| 0 <= m < rs.len() ==> (#[trigger] rs[m]).len() == games
    &&& forall|m: int, k: int|
        0 <= m < rs.len() && 0 <= k < games ==> game_played(
            children[mus[m].0 as int].genome,
            children[mus[m].1 as int].genome,
            #[trigger] rs[m][k],
        )
}

/// A training cycle from `best`: thirty fresh children within 10 of `best`,
/// every matchup played `games` times and recorded, then sorted by elo.
pub open spec fn cycle_played(best: Weights, games: nat, out: Seq<Variant>) -> bool {
    exists|children: Seq<Variant>, rs: Seq<Seq<(Status, Status)>>, p: Seq<int>|
        children.len() == 30 && (forall|i: int|
            0 <= i < 30 ==> (#[trigger] children[i]).elo == 0 && within_variance(best, children[i].genome, 10))
            && rounds_played(children, matchups_upto(30, 30), rs, games) && stable_sorted(
            out,
            apply_rounds(children, matchups_upto(30, 30), rs),
            p,
        )
}

/// `cycles` training cycles from `start`: `bs[0]` is `start`'s weights, cycle
/// `k` is played from `bs[k]` and sorted into `outs[k]`, and its last (highest
/// elo) variant's weights are `bs[k + 1]`.
pub open spec fn cycles_played(start: Weights, cycles: nat, bs: Seq<Weights>, outs: Seq<Seq<Variant>>) -> bool {
    &&& bs.len() == cycles + 1
    &&& outs.len() == cycles
    &&& bs[0] == start
    &&& forall|k: int|
        0 <= k < cycles ==> cycle_played(bs[k], 30, #[trigger] outs[k]) && outs[k].len() == 30 && bs[k + 1]
            == outs[k][29].genome
}

/// The elo changes after a game of `g1` against `g2`: outcome 0 is a loss
/// for both, 1 a win for `g1` and a loss for `g2`, 2 a loss for `g1` and a
/// win for `g2`; a win is worth 5 and a loss costs 3.
pub open spec fn game_outcome(vs: Seq<Variant>, g1: int, g2: int, outcome: int) -> Seq<Variant> {
    if outcome == 0 {
        bump(bump(vs, g1, -3), g2, -3)
    } else if outcome == 1 {
        bump(bump(vs, g1, 5), g2, -3)
    } else {
        bump(bump(vs, g1, -3), g2, 5)
    }
}

/// The position of a two-snake start, as seen by the snake with id `id`, is sane.
proof fn lemma_start_sane(g: Game, id: u8, w: Weights)
    requires
        g@.width == 11,
        g@.height == 11,
        g@.snakes.len() == 2,
        exists|pts: Seq<Coordinate>|
            pts.len() == 8 && forall|i: int| 0 <= i < 2 ==> #[trigger] g@.snakes[i] == placed(fresh_snake(i), pts),
        g@.food.len() == 3,
        forall|i: int| 0 <= i < 2 ==> diagonal_of(#[trigger] g@.food[i], g@.snakes[i].head),
        g@.food[2] == (Coordinate { x: 5, y: 5 }),
        id == 1 || id == 2,
    ensures
        sane(spec_for_id(g@, id), w),
        spec_for_id(g@, id).board.snakes.len() == 2,
        spec_for_id(g@, id).board.snakes[1].id == 1,
        spec_for_id(g@, id).board.snakes[0].id == 0,
        id == 1 ==> spec_for_id(g@, id).you == spec_for_id(g@, id).board.snakes[1],
        id == 2 ==> spec_for_id(g@, id).you == spec_for_id(g@, id).board.snakes[0],
{
    let pts = choose|pts: Seq<Coordinate>|
        pts.len() == 8 && forall|i: int| 0 <= i < 2 ==> #[trigger] g@.snakes[i] == placed(fresh_snake(i), pts);
    let sn = g@.snakes;
    assert(sn[0] == placed(fresh_snake(0), pts));
    assert(sn[1] == placed(fresh_snake(1), pts));
    assert(sn[0].id == 0 && sn[1].id == 1);
    assert(sn[0].head == Coordinate { x: 3, y: 3 });
    assert(sn[1].head == Coordinate { x: 3, y: 3 });
    assert(sn[0].body.len() == 4 && sn[1].body.len() == 4);
    let gv = spec_for_id(g@, id);
    assert(pick_you(sn, id, 0) == sn[0]);
    assert(pick_you(sn, id, 1) == if sn[0].id == id { sn[0] } else { sn[0] });
    assert(diagonal_of(g@.food[0], sn[0].head));
    assert(diagonal_of(g@.food[1], sn[1].head));
    assert forall|i: int| 0 <= i < gv.board.food.len() implies near_small_board(#[trigger] gv.board.food[i]) by {
        if i < 2 {
            assert(diagonal_of(g@.food[i], sn[i].head));
        }
    }
    lemma_first_with_id(sn, gv.you.id);
    assert(sn.drop_last().drop_last().len() == 0);
    assert(sn.drop_last()[0] == sn[0]);
    if id == 1 {
        assert(gv.you == sn[1]);
        assert(first_with_id(sn.drop_last().drop_last(), 1) == -1);
        assert(sn.drop_last().last() == sn[0]);
        assert(first_with_id(sn.drop_last(), 1) == -1);
        assert(first_with_id(sn, 1) == 1);
    } else {
        assert(gv.you == sn[0]);
        assert(first_with_id(sn.drop_last().drop_last(), 0) == -1);
        assert(sn.drop_last().last() == sn[0]);
        assert(first_with_id(sn.drop_last(), 0) == 0);
        assert(first_with_id(sn, 0) == 0);
    }
    assert(search_wf(gv));
}

/// On a searchable position `you`'s moves can be tested.
proof fn lemma_you_moves_safe(g: GameView)
    requires
        search_wf(g),
    ensures
        crate::small::moves_safe(g.you, g.board),
{
    lemma_first_with_id(g.board.snakes, g.you.id);
    crate::search::lemma_moves_safe(g, g.you);
}

/// No snake is dead when the dead count is zero.
proof fn lemma_none_dead(snakes: Seq<SnakeView>, i: int)
    requires
        dead_count(snakes) == 0,
        0 <= i < snakes.len(),
    ensures
        snakes[i].status == Status::Alive,
    decreases snakes.len(),
{
    if i < snakes.len() - 1 {
        lemma_none_dead(snakes.drop_last(), i);
    }
}

proof fn lemma_matchups(n: int, m: nat)
    requires
        0 <= m <= n,
    ensures
        matchups_upto(n, m).len() <= m * n,
        forall|j: int|
            0 <= j < matchups_upto(n, m).len() ==> (#[trigger] matchups_upto(n, m)[j]).0 < m && matchups_upto(n, m)[j].1 < n,
    decreases m,
{
    if m > 0 {
        lemma_matchups(n, (m - 1) as nat);
        let pre = matchups_upto(n, (m - 1) as nat);
        let row = matchup_row(n, m - 1);
        assert(matchups_upto(n, m) == pre + row);
        assert(row.len() <= n);
        assert((m - 1) * n + n == m * n) by (nonlinear_arith);
        assert forall|j: int| 0 <= j < matchups_upto(n, m).len() implies (#[trigger] matchups_upto(n, m)[j]).0 < m && matchups_upto(n, m)[j].1 < n by {
            if j >= pre.len() {
                assert(matchups_upto(n, m)[j] == row[j - pre.len()]);
            } else {
                assert(matchups_upto(n, m)[j] == pre[j]);
            }
        }
    }
}

/// Lexicographic order on pairs of indices.
pub open spec fn pair_before(a: (usize, usize), b: (usize, usize)) -> bool {
    a.0 < b.0 || (a.0 == b.0 && a.1 < b.1)
}

proof fn lemma_matchups_shape(n: usize, m: nat)
    requires
        m <= n,
    ensures
        2 * matchups_upto(n as int, m).len() == m * (2 * n - m - 1),
        forall|k: int|
            0 <= k < matchups_upto(n as int, m).len() ==> (#[trigger] matchups_upto(n as int, m)[k]).0 < m
                && matchups_upto(n as int, m)[k].0 < matchups_upto(n as int, m)[k].1 < n,
        forall|k: int, l: int|
            0 <= k < l < matchups_upto(n as int, m).len() ==> pair_before(
                #[trigger] matchups_upto(n as int, m)[k],
                #[trigger] matchups_upto(n as int, m)[l],
            ),
        forall|i: int, j: int|
            0 <= i < m && i < j < n ==> #[trigger] matchups_upto(n as int, m).contains((i as usize, j as usize)),
    decreases m,
{
    if m > 0 {
        let mm = (m - 1) as nat;
        lemma_matchups_shape(n, mm);
        let pre = matchups_upto(n as int, mm);
        let row = matchup_row(n as int, mm as int);
        let all = matchups_upto(n as int, m);
        assert(all == pre + row);
        assert(mm * (2 * n - mm - 1) + 2 * (n - mm - 1) == m * (2 * n - m - 1)) by (nonlinear_arith)
            requires
                m == mm + 1;
        assert forall|k: int| 0 <= k < all.len() implies (#[trigger] all[k]).0 < m && all[k].0 < all[k].1 < n by {
            if k >= pre.len() {
                assert(all[k] == row[k - pre.len()]);
            } else {
                assert(all[k] == pre[k]);
            }
        }
        assert forall|k: int, l: int| 0 <= k < l < all.len() implies pair_before(#[trigger] all[k], #[trigger] all[l]) by {
            if l < pre.len() {
                assert(all[k] == pre[k] && all[l] == pre[l]);
            } else if k < pre.len() {
                assert(all[k] == pre[k] && all[l] == row[l - pre.len()]);
            } else {
                assert(all[k] == row[k - pre.len()] && all[l] == row[l - pre.len()]);
            }
        }
        assert forall|i: int, j: int| 0 <= i < m && i < j < n implies #[trigger] all.contains((i as usize, j as usize)) by {
            if i < mm {
                assert(pre.contains((i as usize, j as usize)));
                let k = choose|k: int| 0 <= k < pre.len() && pre[k] == (i as usize, j as usize);
                assert(all[k] == pre[k]);
            } else {
                let k = j - i - 1;
                assert(row[k] == (i as usize, j as usize));
                assert(all[pre.len() + k] == row[k]);
            }
        }
    }
}

/// The matchups of `n` variants are every pair `(i, j)` with `i < j < n`,
/// each exactly once, in lexicographic order: `n * (n - 1) / 2` of them.
pub proof fn lemma_matchups_are_all_pairs(n: usize)
    ensures
        2 * matchups_upto(n as int, n as nat).len() == n * (n - 1),
        forall|k: int|
            0 <= k < matchups_upto(n as int, n as nat).len() ==> (#[trigger] matchups_upto(n as int, n as nat)[k]).0
                < matchups_upto(n as int, n as nat)[k].1 < n,
        forall|k: int, l: int|
            0 <= k < l < matchups_upto(n as int, n as nat).len() ==> pair_before(
                #[trigger] matchups_upto(n as int, n as nat)[k],
                #[trigger] matchups_upto(n as int, n as nat)[l],
            ),
        forall|i: int, j: int|
            0 <= i < j < n ==> #[trigger] matchups_upto(n as int, n as nat).contains((i as usize, j as usize)),
{
    lemma_matchups_shape(n, n as nat);
    assert(n * (2 * n - n - 1) == n * (n - 1)) by (nonlinear_arith);
}

impl Trainer {
    /// Records the end of a game of `g1` against `g2` from the final status
    /// of each side's snake: both dead is a loss for both; `g1`'s snake alive
    /// is a win for `g1` and a loss for `g2`; otherwise a loss for `g1` and a
    /// win for `g2`.
    pub fn record_outcome(&mut self, g1: usize, g2: usize, you1: Status, you2: Status)
        requires
            g1 < old(self).variants.len(),
            g2 < old(self).variants.len(),
            elo_room(old(self).variants@[g1 as int]),
            elo_room(old(self).variants@[g2 as int]),
        ensures
            final(self).variants@ == game_outcome(
                old(self).variants@,
                g1 as int,
                g2 as int,
                outcome_of(you1, you2),
            ),
    {
        let ghost vs0 = self.variants@;
        if you1 == Status::Dead && you2 == Status::Dead {
            let mut a = self.variants[g1];
            a.reg_loss();
            self.variants.set(g1, a);
            let mut b = self.variants[g2];
            b.reg_loss();
            self.variants.set(g2, b);
            assert(self.variants@ =~= game_outcome(vs0, g1 as int, g2 as int, 0));
        } else if you1 == Status::Alive {
            let mut a = self.variants[g1];
            a.reg_win();
            self.variants.set(g1, a);
            let mut b = self.variants[g2];
            b.reg_loss();
            self.variants.set(g2, b);
            assert(self.variants@ =~= game_outcome(vs0, g1 as int, g2 as int, 1));
        } else {
            let mut a = self.variants[g1];
            a.reg_loss();
            self.variants.set(g1, a);
            let mut b = self.variants[g2];
            b.reg_win();
            self.variants.set(g2, b);
            assert(self.variants@ =~= game_outcome(vs0, g1 as int, g2 as int, 2));
        }
    }

    /// Run a game between two variants, and based on the winner raise and decrement elo as necessary.
    /// Returns the final status of `g1`'s snake and of `g2`'s snake, from
    /// which the elo changes were recorded.
    fn run_game(&mut self, g1: usize, g2: usize) -> (r: (Status, Status))
        requires
            g1 < old(self).variants.len(),
            g2 < old(self).variants.len(),
            elo_room(old(self).variants@[g1 as int]),
            elo_room(old(self).variants@[g2 as int]),
        ensures
            game_played(old(self).variants@[g1 as int].genome, old(self).variants@[g2 as int].genome, r),
            r.0 == Status::Dead || r.1 == Status::Dead,
            final(self).variants@ == game_outcome(
                old(self).variants@,
                g1 as int,
                g2 as int,
                outcome_of(r.0, r.1),
            ),
    {
        let init_state = Game::gen_start(2);
        let w1 = self.variants[g1].genome;
        let w2 = self.variants[g2].genome;
        let ghost setup = init_state@;
        proof {
            lemma_start_sane(init_state, 1, w1);
            lemma_start_sane(init_state, 2, w2);
        }
        let mut s1 = State::new(init_state.for_id(1), w1);
        let mut s2 = State::new(init_state.for_id(2), w2);
        let ghost mut ps1: Seq<GameView> = seq![s1.state@];
        let ghost mut ps2: Seq<GameView> = seq![s2.state@];
        let time = now();
        while amnt_dead(&s2) == 0
            invariant
                sane(s1.state@, s1.weights),
                sane(s2.state@, s2.weights),
                s1.weights == w1,
                s2.weights == w2,
                s1.move_table.wf(),
                s2.move_table.wf(),
                s2.state@.board.snakes.len() == 2,
                s2.state@.board.snakes[1].id == 1,
                s2.state@.board.snakes[0].id == 0,
                s1.state@.board == s2.state@.board,
                s1.state@.you == s1.state@.board.snakes[1],
                s2.state@.you == s2.state@.board.snakes[0],
                start_setup(setup, 2),
                game_steps(ps1, ps2, w1, w2),
                ps1[0] == spec_for_id(setup, 1),
                ps2[0] == spec_for_id(setup, 2),
                ps1.last() == s1.state@,
                ps2.last() == s2.state@,
            decreases s2.state@.board.snakes[1].health,
        {
            proof {
                lemma_sane_deepening(s1.state@, s1.weights);
                lemma_sane_deepening(s2.state@, s2.weights);
                lemma_none_dead(s2.state@.board.snakes, 1);
                lemma_you_moves_safe(s1.state@);
                lemma_you_moves_safe(s2.state@);
            }
            let ghost a = s1.state@;
            let ghost b = s2.state@;
            let m1 = get_best(s1.copy(), &time);
            let m2 = get_best(s2.copy(), &time);
            let mut moves = joint_new();
            joint_push(&mut moves, (m1.0, 1));
            joint_push(&mut moves, (m2.0, 2));
            let ghost ms = joint_items(moves);
            let ghost before = s2.state@;
            proof {
                assert(ms == seq![(m1.0, 1u8), (m2.0, 2u8)]);
                assert(distinct_ids(ms));
                lemma_sane_apply(s1.state@, s1.weights, ms);
                lemma_sane_apply(s2.state@, s2.weights, ms);
                lemma_step_all_distinct(before.board.snakes, ms);
                assert(crate::rules::moves_snake(before.board.snakes[1], ms[0]));
                crate::rules::lemma_apply_wf(before, ms);
            }
            s1.make_move(&moves);
            s2.make_move(&moves);
            proof {
                let stepped = step_all(before.board.snakes, ms);
                assert(stepped[1].health == before.board.snakes[1].health - 1);
                assert(s2.state@.board.snakes[1] == resolve(stepped, before.board.width, before.board.height)[1]);
                let after = s2.state@.board.snakes;
                assert(after[0].id == 0 && after[1].id == 1);
                lemma_first_with_id(after, 1);
                lemma_first_with_id(after, 0);
                assert(first_with_id(after, 1) == 1);
                assert(first_with_id(after, 0) == 0);
                assert(best_answer(a, w1, m1));
                assert(best_answer(b, w2, m2));
                assert(turn_played(a, b, w1, w2, s1.state@, s2.state@));
                let old1 = ps1;
                let old2 = ps2;
                ps1 = ps1.push(s1.state@);
                ps2 = ps2.push(s2.state@);
                assert forall|k: int| 0 <= k < ps1.len() - 1 implies dead_count(#[trigger] ps2[k].board.snakes) == 0 by {
                    if k < old1.len() - 1 {
                        assert(ps2[k] == old2[k]);
                    } else {
                        assert(ps2[k] == b);
                    }
                }
                assert forall|k: int| 0 <= k < ps1.len() - 1 implies #[trigger] turn_played(ps1[k], ps2[k], w1, w2, ps1[k + 1], ps2[k + 1]) by {
                    if k < old1.len() - 1 {
                        assert(ps1[k] == old1[k] && ps2[k] == old2[k] && ps1[k + 1] == old1[k + 1] && ps2[k + 1] == old2[k + 1]);
                    } else {
                        assert(ps1[k] == a && ps2[k] == b && ps1[k + 1] == s1.state@ && ps2[k + 1] == s2.state@);
                    }
                }
            }
        }
        let you1 = s1.state.you.status;
        let you2 = s2.state.you.status;
        proof {
            lemma_some_dead(s2.state@.board.snakes);
            let i = choose|i: int| 0 <= i < s2.state@.board.snakes.len() && #[trigger] s2.state@.board.snakes[i].status == Status::Dead;
            assert(i == 0 || i == 1);
            assert(game_played(w1, w2, (you1, you2)));
        }
        self.record_outcome(g1, g2, you1, you2);
        (you1, you2)
    }

    /// Runs a training cycle given the previous best, and then returns the next best:
    /// thirty children of `best` play every matchup `games` times, are sorted
    /// by elo, and the last of them, one with the highest elo, is returned.
    fn run_cycle(&mut self, best: Variant, games: u8) -> (r: Variant)
        requires
            can_vary(best.genome, 10),
        ensures
            final(self).variants.len() == 30,
            forall|i: int|
                0 <= i < 30 ==> within_variance(best.genome, (#[trigger] final(self).variants@[i]).genome, 10),
            forall|k: int, l: int|
                0 <= k < l < 30 ==> (#[trigger] final(self).variants@[k]).elo <= (#[trigger] final(self).variants@[l]).elo,
            r == final(self).variants@[29],
            forall|i: int| 0 <= i < 30 ==> (#[trigger] final(self).variants@[i]).elo <= r.elo,
            games == 0 ==> r.elo == 0 && forall|i: int| 0 <= i < 30 ==> (#[trigger] final(self).variants@[i]).elo == 0,
            cycle_played(best.genome, games as nat, final(self).variants@),
    {
        self.variants = best.create_children(30, 10);
        let ghost children = self.variants@;
        let matchups = self.get_matchups();
        proof {
            lemma_matchups(30, 30);
        }
        let ghost mut t: int = 0;
        let ghost mut rs: Seq<Seq<(Status, Status)>> = Seq::empty();
        let mut m: usize = 0;
        while m < matchups.len()
            invariant
                rs.len() == m,
                forall|q: int| 0 <= q < m ==> (#[trigger] rs[q]).len() == games,
                forall|q: int, k: int|
                    0 <= q < m && 0 <= k < games ==> game_played(
                        children[matchups@[q].0 as int].genome,
                        children[matchups@[q].1 as int].genome,
                        #[trigger] rs[q][k],
                    ),
                self.variants@ == apply_rounds(children, matchups@, rs),
                matchups@ == matchups_upto(30, 30),
                matchups.len() <= 900,
                forall|j: int| 0 <= j < matchups.len() ==> (#[trigger] matchups@[j]).0 < 30 && matchups@[j].1 < 30,
                m <= matchups.len(),
                0 <= t <= m * games,
                self.variants.len() == 30,
                children.len() == 30,
                can_vary(best.genome, 10),
                forall|i: int| 0 <= i < 30 ==> (#[trigger] self.variants@[i]).genome == children[i].genome,
                forall|i: int| 0 <= i < 30 ==> within_variance(best.genome, (#[trigger] children[i]).genome, 10),
                forall|i: int| 0 <= i < 30 ==> -6 * t <= (#[trigger] self.variants@[i]).elo <= 5 * t,
            decreases matchups.len() - m,
        {
            let x = matchups[m];
            let ghost base = self.variants@;
            let ghost mut row: Seq<(Status, Status)> = Seq::empty();
            let mut game: u8 = 0;
            while game < games
                invariant
                    row.len() == game,
                    forall|k: int| 0 <= k < game ==> game_played(
                        children[x.0 as int].genome,
                        children[x.1 as int].genome,
                        #[trigger] row[k],
                    ),
                    base == apply_rounds(children, matchups@, rs),
                    self.variants@ == apply_row(base, x, row),
                    x == matchups@[m as int],
                    x.0 < 30,
                    x.1 < 30,
                    m < matchups.len() <= 900,
                    0 <= t <= m * games + game,
                    game <= games,
                    self.variants.len() == 30,
                    children.len() == 30,
                    can_vary(best.genome, 10),
                    forall|i: int| 0 <= i < 30 ==> (#[trigger] self.variants@[i]).genome == children[i].genome,
                    forall|i: int| 0 <= i < 30 ==> within_variance(best.genome, (#[trigger] children[i]).genome, 10),
                    forall|i: int| 0 <= i < 30 ==> -6 * t <= (#[trigger] self.variants@[i]).elo <= 5 * t,
                decreases games - game,
            {
                let ghost before = self.variants@;
                proof {
                    assert(m * games + games <= 900 * 255) by (nonlinear_arith)
                        requires
                            m < 900,
                            games <= 255,
                    ;
                    assert(t <= 900 * 255);
                    assert(within_variance(best.genome, children[x.0 as int].genome, 10));
                    assert(within_variance(best.genome, children[x.1 as int].genome, 10));
                    assert(-6 * t <= before[x.0 as int].elo <= 5 * t);
                    assert(-6 * t <= before[x.1 as int].elo <= 5 * t);
                }
                let ends = self.run_game(x.0, x.1);
                proof {
                    assert forall|i: int| 0 <= i < 30 implies -6 * (t + 1) <= (#[trigger] self.variants@[i]).elo
                        <= 5 * (t + 1) && self.variants@[i].genome == children[i].genome by {
                        assert(-6 * t <= before[i].elo <= 5 * t);
                    }
                    t = t + 1;
                    assert(before[x.0 as int].genome == children[x.0 as int].genome);
                    assert(before[x.1 as int].genome == children[x.1 as int].genome);
                    let old_row = row;
                    row = row.push(ends);
                    assert(row.drop_last() =~= old_row);
                    assert forall|k: int| 0 <= k < game + 1 implies game_played(
                        children[x.0 as int].genome,
                        children[x.1 as int].genome,
                        #[trigger] row[k],
                    ) by {
                        if k < game {
                            assert(row[k] == old_row[k]);
                        }
                    }
                }
                game = game + 1;
            }
            proof {
                assert((m + 1) * games == m * games + games) by (nonlinear_arith);
                let old_rs = rs;
                rs = rs.push(row);
                assert(rs.drop_last() =~= old_rs);
                assert forall|q: int| 0 <= q < m + 1 implies (#[trigger] rs[q]).len() == games by {
                    if q < m {
                        assert(rs[q] == old_rs[q]);
                    }
                }
                assert forall|q: int, k: int|
                    0 <= q < m + 1 && 0 <= k < games implies game_played(
                        children[matchups@[q].0 as int].genome,
                        children[matchups@[q].1 as int].genome,
                        #[trigger] rs[q][k],
                    ) by {
                    if q < m {
                        assert(rs[q] == old_rs[q]);
                    } else {
                        assert(rs[q] == row);
                    }
                }
            }
            m = m + 1;
        }
        let sorted = sort_by_elo(&self.variants);
        proof {
            let p = choose|p: Seq<int>| stable_sorted(sorted@, self.variants@, p);
            assert forall|i: int| 0 <= i < 30 implies within_variance(best.genome, (#[trigger] sorted@[i]).genome, 10)
                && (games == 0 ==> sorted@[i].elo == 0) by {
                assert(sorted@[i] == self.variants@[p[i]]);
                assert(self.variants@[p[i]].genome == children[p[i]].genome);
                if games == 0 {
                    assert(t == 0);
                    assert(-6 * t <= self.variants@[p[i]].elo <= 5 * t);
                }
            }
        }
        proof {
            let p = choose|p: Seq<int>| stable_sorted(sorted@, self.variants@, p);
            assert(rounds_played(children, matchups_upto(30, 30), rs, games as nat));
            assert(cycle_played(best.genome, games as nat, sorted@));
        }
        self.variants = sorted;
        self.variants[29]
    }

    /// takes in the Variant to tune, and the number of training cycles to complete.
    pub fn tune(&mut self, to_tune: Variant, cycles: u8) -> (r: Variant)
        requires
            can_vary(to_tune.genome, 10 * cycles),
        ensures
            cycles == 0 ==> r == to_tune && final(self).variants@ == old(self).variants@,
            drift_within(to_tune.genome, r.genome, 10 * cycles),
            cycles > 0 ==> final(self).variants.len() == 30 && r == final(self).variants@[29],
            cycles > 0 ==> forall|i: int| 0 <= i < 30 ==> (#[trigger] final(self).variants@[i]).elo <= r.elo,
            cycles > 0 ==> forall|k: int, l: int|
                0 <= k < l < 30 ==> (#[trigger] final(self).variants@[k]).elo <= (#[trigger] final(self).variants@[l]).elo,
            exists|bs: Seq<Weights>, outs: Seq<Seq<Variant>>|
                cycles_played(to_tune.genome, cycles as nat, bs, outs) && bs.last() == r.genome && (cycles > 0
                    ==> outs.last() == final(self).variants@),
    {
        let mut best = to_tune;
        let ghost mut bs: Seq<Weights> = seq![to_tune.genome];
        let ghost mut outs: Seq<Seq<Variant>> = Seq::empty();
        let mut c: u8 = 0;
        while c < cycles
            invariant
                c <= cycles,
                can_vary(to_tune.genome, 10 * cycles),
                drift_within(to_tune.genome, best.genome, 10 * c),
                c == 0 ==> best == to_tune && self.variants@ == old(self).variants@,
                c > 0 ==> self.variants.len() == 30 && best == self.variants@[29],
                c > 0 ==> forall|i: int| 0 <= i < 30 ==> (#[trigger] self.variants@[i]).elo <= best.elo,
                c > 0 ==> forall|k: int, l: int|
                    0 <= k < l < 30 ==> (#[trigger] self.variants@[k]).elo <= (#[trigger] self.variants@[l]).elo,
                cycles_played(to_tune.genome, c as nat, bs, outs),
                bs.last() == best.genome,
                c > 0 ==> outs.last() == self.variants@,
            decreases cycles - c,
        {
            let ghost from = best.genome;
            best = self.run_cycle(best, 30);
            proof {
                let old_bs = bs;
                let old_outs = outs;
                bs = bs.push(best.genome);
                outs = outs.push(self.variants@);
                assert forall|k: int|
                    0 <= k < c + 1 implies cycle_played(bs[k], 30, #[trigger] outs[k]) && outs[k].len() == 30 && bs[k + 1]
                        == outs[k][29].genome by {
                    if k < c {
                        assert(bs[k] == old_bs[k] && outs[k] == old_outs[k] && bs[k + 1] == old_bs[k + 1]);
                    } else {
                        assert(bs[k] == old_bs.last() && outs[k] == self.variants@);
                    }
                }
            }
            c = c + 1;
        }
        best
    }

    /// creates n choose x matchups: every pair `(i, j)` of variants with
    /// `i < j`, in lexicographic order.
    pub fn get_matchups(&self) -> (out: Vec<(usize, usize)>)
        ensures
            out@ == matchups_upto(self.variants.len() as int, self.variants.len() as nat),
    {
        let n = self.variants.len();
        let mut out: Vec<(usize, usize)> = Vec::new();
        let mut i: usize = 0;
        while i < n
            invariant
                n == self.variants.len(),
                i <= n,
                out@ == matchups_upto(n as int, i as nat),
            decreases n - i,
        {
            let ghost before = out@;
            let mut k: usize = 0;
            while k < n - (i + 1)
                invariant
                    n == self.variants.len(),
                    i < n,
                    k <= n - (i + 1),
                    out@ == before + matchup_row(n as int, i as int).take(k as int),
                decreases n - (i + 1) - k,
            {
                out.push((i, i + 1 + k));
                k = k + 1;
                assert(out@ =~= before + matchup_row(n as int, i as int).take(k as int));
            }
            assert(matchup_row(n as int, i as int).take(k as int) =~= matchup_row(n as int, i as int));
            i = i + 1;
        }
        out
    }
}

} // verus!
