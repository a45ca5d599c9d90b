//! The board: snakes, food and the moves each snake may make.
use vstd::prelude::*;
use crate::types::{offset, spec_offset, steps_fit, Coordinate, Direction, Move};

verus! {

/// Whether a snake is still in the game.
#[derive(Clone, Copy, Debug, PartialEq, Eq, Structural)]
pub enum Status {
    Alive,
    Dead,
}

#[derive(Debug, Eq, PartialEq, Clone)]
pub struct SmallBattleSnake {
    pub id: u8,
    pub health: u8,
    pub body: Vec<Coordinate>,
    pub head: Coordinate,
    pub length: u16,
    pub status: Status,
}

/// A snake as a mathematical value.
#[verifier::ext_equal]
pub struct SnakeView {
    pub id: u8,
    pub health: u8,
    pub body: Seq<Coordinate>,
    pub head: Coordinate,
    pub length: u16,
    pub status: Status,
}

impl View for SmallBattleSnake {
    type V = SnakeView;

    open spec fn view(&self) -> SnakeView {
        SnakeView {
            id: self.id,
            health: self.health,
            body: self.body@,
            head: self.head,
            length: self.length,
            status: self.status,
        }
    }
}

#[derive(Debug, Clone, PartialEq, Eq)]
pub struct SmallMove {
    pub turn: u32,
    pub board: SmallBoard,
    pub you: SmallBattleSnake,
}

#[derive(Debug, Clone, PartialEq, Eq)]
pub struct SmallBoard {
    pub height: i8,
    pub width: i8,
    pub food: Vec<Coordinate>,
    pub hazards: Vec<Coordinate>,
    pub snakes: Vec<SmallBattleSnake>,
}

/// A board as a mathematical value.
#[verifier::ext_equal]
pub struct BoardView {
    pub height: i8,
    pub width: i8,
    pub food: Seq<Coordinate>,
    pub hazards: Seq<Coordinate>,
    pub snakes: Seq<SnakeView>,
}

/// A game position as a mathematical value.
#[verifier::ext_equal]
pub struct GameView {
    pub turn: u32,
    pub board: BoardView,
    pub you: SnakeView,
}

/// The snakes of a list, each as a mathematical value.
pub open spec fn views(v: Seq<SmallBattleSnake>) -> Seq<SnakeView> {
    v.map_values(|s: SmallBattleSnake| s@)
}

impl View for SmallBoard {
    type V = BoardView;

    open spec fn view(&self) -> BoardView {
        BoardView {
            height: self.height,
            width: self.width,
            food: self.food@,
            hazards: self.hazards@,
            snakes: views(self.snakes@),
        }
    }
}

impl View for SmallMove {
    type V = GameView;

    open spec fn view(&self) -> GameView {
        GameView { turn: self.turn, board: self.board@, you: self.you@ }
    }
}

/// Whether `c` occurs in `body[lo..hi]`.
pub open spec fn occurs_in(body: Seq<Coordinate>, lo: int, hi: int, c: Coordinate) -> bool {
    exists|k: int| lo <= k < hi && body[k] == c
}

/// Whether snake `x` blocks the cell `h` for the snake with id `sid`: a rival
/// blocks with its body but its tail, the snake itself with its body but its
/// head and tail.
pub open spec fn blocks(x: SnakeView, sid: u8, h: Coordinate) -> bool {
    ||| occurs_in(x.body, 0, x.body.len() - 1, h) && x.id != sid
    ||| occurs_in(x.body, 1, x.body.len() - 1, h) && x.id == sid
}

/// Whether some snake blocks `h` for the snake with id `sid`.
pub open spec fn blocked(snakes: Seq<SnakeView>, sid: u8, h: Coordinate) -> bool {
    exists|k: int| 0 <= k < snakes.len() && blocks(#[trigger] snakes[k], sid, h)
}

/// The scan for a blocking snake stops at the first one; every snake it
/// reaches must have a body of two segments or more (a shorter body makes the
/// slice `body[1..len - 1]` out of range).
pub open spec fn scan_safe(snakes: Seq<SnakeView>, sid: u8, h: Coordinate) -> bool {
    forall|k: int|
        0 <= k < snakes.len() && (forall|j: int| 0 <= j < k ==> !blocks(#[trigger] snakes[j], sid, h))
            ==> #[trigger] snakes[k].body.len() >= 2
}

/// The cell a snake's head reaches by moving in `d`.
pub open spec fn next_head(s: SnakeView, d: Direction) -> Coordinate {
    s.head.plus(spec_offset(d))
}

/// Whether moving `s` in `d` is legal on `b`: the new head is on the board and not blocked.
pub open spec fn move_ok(s: SnakeView, b: BoardView, d: Direction) -> bool {
    let h = next_head(s, d);
    !(blocked(b.snakes, s.id, h) || h.x < 0 || h.y < 0 || h.y > b.height - 1 || h.x > b.width - 1)
}

/// The legality test for `d` runs without overflow: the scan is safe, and the
/// comparisons with `height - 1` and `width - 1` are only reached with
/// dimensions above `i8::MIN`.
pub open spec fn move_check_safe(s: SnakeView, b: BoardView, d: Direction) -> bool {
    let h = next_head(s, d);
    &&& scan_safe(b.snakes, s.id, h)
    &&& (!blocked(b.snakes, s.id, h) && h.x >= 0 && h.y >= 0) ==> b.height > i8::MIN
    &&& (!blocked(b.snakes, s.id, h) && h.x >= 0 && h.y >= 0 && h.y <= b.height - 1) ==> b.width
        > i8::MIN
}

/// Whether every move of `s` can be tested on `b`.
pub open spec fn moves_safe(s: SnakeView, b: BoardView) -> bool {
    &&& steps_fit(s.head)
    &&& move_check_safe(s, b, Direction::Up)
    &&& move_check_safe(s, b, Direction::Down)
    &&& move_check_safe(s, b, Direction::Left)
    &&& move_check_safe(s, b, Direction::Right)
}

/// `seq![(d, s.id)]` when `d` is legal, else empty.
pub open spec fn legal_one(s: SnakeView, b: BoardView, d: Direction) -> Seq<Move> {
    if move_ok(s, b, d) {
        seq![(d, s.id)]
    } else {
        Seq::empty()
    }
}

/// The legal moves of `s`, in the order up, down, left, right.
pub open spec fn spec_legal_moves(s: SnakeView, b: BoardView) -> Seq<Move> {
    legal_one(s, b, Direction::Up) + legal_one(s, b, Direction::Down) + legal_one(
        s,
        b,
        Direction::Left,
    ) + legal_one(s, b, Direction::Right)
}

/// Every move `get_moves` offers keeps the head on the board and off every
/// blocking body, and is addressed to the snake itself.
pub proof fn lemma_legal_moves_are_safe(s: SnakeView, b: BoardView)
    ensures
        forall|i: int|
            0 <= i < spec_legal_moves(s, b).len() ==> {
                let m = #[trigger] spec_legal_moves(s, b)[i];
                &&& m.1 == s.id
                &&& !blocked(b.snakes, s.id, next_head(s, m.0))
                &&& !spec_out_of_bounds(next_head(s, m.0), b.width, b.height)
            },
{
    let l = spec_legal_moves(s, b);
    let u = legal_one(s, b, Direction::Up);
    let d = legal_one(s, b, Direction::Down);
    let le = legal_one(s, b, Direction::Left);
    let r = legal_one(s, b, Direction::Right);
    assert forall|i: int| 0 <= i < l.len() implies {
        let m = #[trigger] l[i];
        &&& m.1 == s.id
        &&& !blocked(b.snakes, s.id, next_head(s, m.0))
        &&& !spec_out_of_bounds(next_head(s, m.0), b.width, b.height)
    } by {
        assert(l == u + d + le + r);
        if i < u.len() {
            assert(l[i] == u[i]);
        } else if i < u.len() + d.len() {
            assert(l[i] == d[i - u.len()]);
        } else if i < u.len() + d.len() + le.len() {
            assert(l[i] == le[i - u.len() - d.len()]);
        } else {
            assert(l[i] == r[i - u.len() - d.len() - le.len()]);
        }
    }
}

/// The snake `s` after moving in `d`: one less health, the head moved one
/// cell, the new head added in front and the tail dropped.
pub open spec fn spec_step(s: SnakeView, d: Direction) -> SnakeView {
    let h = next_head(s, d);
    SnakeView {
        health: (s.health - 1) as u8,
        head: h,
        body: (seq![h] + s.body).drop_last(),
        ..s
    }
}

/// Whether `body[lo..hi]` contains `c`.
fn segment_contains(body: &Vec<Coordinate>, lo: usize, hi: usize, c: Coordinate) -> (r: bool)
    requires
        lo <= hi <= body.len(),
    ensures
        r == occurs_in(body@, lo as int, hi as int, c),
{
    let mut k = lo;
    while k < hi
        invariant
            lo <= k <= hi <= body.len(),
            forall|j: int| lo <= j < k ==> body@[j] != c,
        decreases hi - k,
    {
        if body[k] == c {
            return true;
        }
        k = k + 1;
    }
    false
}

/// Whether some snake of `snakes` blocks `head` for the snake with id `sid`.
fn any_blocks(snakes: &Vec<SmallBattleSnake>, sid: u8, head: Coordinate) -> (r: bool)
    requires
        scan_safe(views(snakes@), sid, head),
    ensures
        r == blocked(views(snakes@), sid, head),
{
    let ghost vs = views(snakes@);
    let mut k: usize = 0;
    while k < snakes.len()
        invariant
            vs == views(snakes@),
            scan_safe(vs, sid, head),
            k <= snakes.len(),
            forall|j: int| 0 <= j < k ==> !blocks(#[trigger] vs[j], sid, head),
        decreases snakes.len() - k,
    {
        let x = &snakes[k];
        assert(vs[k as int] == x@);
        assert(vs[k as int].body.len() >= 2);
        let n = x.body.len();
        if (segment_contains(&x.body, 0, n - 1, head) && x.id != sid) || (segment_contains(
            &x.body,
            1,
            n - 1,
            head,
        ) && x.id == sid) {
            assert(blocks(vs[k as int], sid, head));
            return true;
        }
        k = k + 1;
    }
    false
}

/// Copies a list of cells.
pub fn copy_cells(v: &Vec<Coordinate>) -> (r: Vec<Coordinate>)
    ensures
        r@ == v@,
{
    let mut r: Vec<Coordinate> = Vec::new();
    let mut k: usize = 0;
    while k < v.len()
        invariant
            k <= v.len(),
            r@ == v@.take(k as int),
        decreases v.len() - k,
    {
        r.push(v[k]);
        k = k + 1;
        assert(r@ =~= v@.take(k as int));
    }
    assert(v@.take(v.len() as int) =~= v@);
    r
}

/// Copies a snake.
pub fn copy_snake(s: &SmallBattleSnake) -> (r: SmallBattleSnake)
    ensures
        r@ == s@,
{
    SmallBattleSnake {
        id: s.id,
        health: s.health,
        body: copy_cells(&s.body),
        head: s.head,
        length: s.length,
        status: s.status,
    }
}

/// Copies a list of snakes.
pub fn copy_snakes(v: &Vec<SmallBattleSnake>) -> (r: Vec<SmallBattleSnake>)
    ensures
        views(r@) == views(v@),
{
    let mut r: Vec<SmallBattleSnake> = Vec::new();
    let mut k: usize = 0;
    while k < v.len()
        invariant
            k <= v.len(),
            r.len() == k,
            forall|j: int| 0 <= j < k ==> (#[trigger] r@[j])@ == v@[j]@,
        decreases v.len() - k,
    {
        let s = copy_snake(&v[k]);
        r.push(s);
        k = k + 1;
    }
    assert(views(r@) =~= views(v@));
    r
}

/// Copies a position.
pub fn copy_game(g: &SmallMove) -> (r: SmallMove)
    ensures
        r@ == g@,
{
    SmallMove {
        turn: g.turn,
        board: SmallBoard {
            height: g.board.height,
            width: g.board.width,
            food: copy_cells(&g.board.food),
            hazards: copy_cells(&g.board.hazards),
            snakes: copy_snakes(&g.board.snakes),
        },
        you: copy_snake(&g.you),
    }
}

impl SmallBattleSnake {
    /// The legal moves of this snake on `board`, in the order up, down, left, right.
    pub fn get_moves(&self, board: &SmallBoard) -> (out: Vec<Move>)
        requires
            moves_safe(self@, board@),
        ensures
            out@ == spec_legal_moves(self@, board@),
    {
        let moves = [
            (Direction::Up, self.id),
            (Direction::Down, self.id),
            (Direction::Left, self.id),
            (Direction::Right, self.id),
        ];
        let mut out: Vec<Move> = Vec::new();
        let mut k: usize = 0;
        while k < 4
            invariant
                moves_safe(self@, board@),
                moves@ == seq![
                    (Direction::Up, self.id),
                    (Direction::Down, self.id),
                    (Direction::Left, self.id),
                    (Direction::Right, self.id),
                ],
                k <= 4,
                k == 0 ==> out@ == Seq::<Move>::empty(),
                k == 1 ==> out@ == legal_one(self@, board@, Direction::Up),
                k == 2 ==> out@ == legal_one(self@, board@, Direction::Up) + legal_one(
                    self@,
                    board@,
                    Direction::Down,
                ),
                k == 3 ==> out@ == legal_one(self@, board@, Direction::Up) + legal_one(
                    self@,
                    board@,
                    Direction::Down,
                ) + legal_one(self@, board@, Direction::Left),
                k == 4 ==> out@ == spec_legal_moves(self@, board@),
            decreases 4 - k,
        {
            let smove = moves[k];
            let add = offset(smove.0);
            let head = self.head.shifted(add);
            assert(head == next_head(self@, smove.0));
            let hit = any_blocks(&board.snakes, self.id, head);
            let legal = !(hit || head.x < 0 || head.y < 0 || head.y > board.height - 1 || head.x
                > board.width - 1);
            let ghost before = out@;
            if legal {
                out.push((smove.0, self.id));
            }
            assert(out@ =~= before + legal_one(self@, board@, smove.0));
            k = k + 1;
        }
        out
    }

    /// A living snake with the given body; its head is the first segment and
    /// its length the number of segments (truncated to `u16`).
    pub fn new(id: u8, health: u8, body: &Vec<Coordinate>) -> (s: SmallBattleSnake)
        requires
            body.len() >= 1,
        ensures
            s@ == (SnakeView {
                id,
                health,
                body: body@,
                head: body@[0],
                length: body.len() as u16,
                status: Status::Alive,
            }),
    {
        SmallBattleSnake {
            id,
            health,
            body: copy_cells(body),
            head: body[0],
            length: body.len() as u16,
            status: Status::Alive,
        }
    }

    /// Moves the snake one cell in `move_to_make`: health goes down by one, the
    /// new head is added in front of the body and the last segment is removed
    /// and returned.
    pub fn make_move(&mut self, move_to_make: Direction) -> (tail: Coordinate)
        requires
            old(self).health > 0,
            old(self).head.can_shift(spec_offset(move_to_make)),
        ensures
            final(self)@ == spec_step(old(self)@, move_to_make),
            tail == (seq![next_head(old(self)@, move_to_make)] + old(self).body@).last(),
    {
        self.health = self.health - 1;
        let add = offset(move_to_make);
        self.head = self.head.shifted(add);
        self.body.insert(0, self.head);
        let last = self.body.pop();
        proof {
            assert(seq![self.head] + old(self).body@ =~= old(self).body@.insert(0, self.head));
        }
        last.unwrap()
    }

    /// Whether this snake's head lies on the body of `other`, its head excepted.
    pub fn collision_with(&self, other: &SmallBattleSnake) -> (r: bool)
        requires
            other.body.len() >= 1,
        ensures
            r == occurs_in(other.body@, 1, other.body@.len() as int, self.head),
    {
        if segment_contains(&other.body, 1, other.body.len(), self.head) {
            return true;
        }
        return false;
    }

    /// Whether this snake meets `other` head to head and is the shorter one.
    pub fn lost_head_to_head(&self, other: &SmallBattleSnake) -> (r: bool)
        ensures
            r == (self.head == other.head && self.length < other.length),
    {
        if self.head == other.head && self.length < other.length {
            return true;
        }
        return false;
    }

    /// Whether the head lies off a board of the given size.
    pub fn is_out_of_bounds(&self, width: i8, height: i8) -> (r: bool)
        requires
            (self.head.x >= 0 && self.head.y >= 0) ==> width > i8::MIN,
            (self.head.x >= 0 && self.head.y >= 0 && self.head.x <= width - 1) ==> height
                > i8::MIN,
        ensures
            r == spec_out_of_bounds(self.head, width, height),
    {
        return self.head.x < 0 || self.head.y < 0 || self.head.x > width - 1 || self.head.y
            > height - 1;
    }
}

/// Whether `h` lies off a board of the given size.
pub open spec fn spec_out_of_bounds(h: Coordinate, width: i8, height: i8) -> bool {
    h.x < 0 || h.y < 0 || h.x > width - 1 || h.y > height - 1
}

impl SmallMove {
    /// An empty position: turn 0, an empty 0 by 0 board, and a one-cell snake
    /// with id 0 and no health at the origin.
    pub fn new() -> (m: SmallMove)
        ensures
            m@ == (GameView {
                turn: 0,
                board: BoardView {
                    height: 0,
                    width: 0,
                    food: Seq::empty(),
                    hazards: Seq::empty(),
                    snakes: Seq::empty(),
                },
                you: SnakeView {
                    id: 0,
                    health: 0,
                    body: seq![Coordinate { x: 0, y: 0 }],
                    head: Coordinate { x: 0, y: 0 },
                    length: 1,
                    status: Status::Alive,
                },
            }),
    {
        let mut cells: Vec<Coordinate> = Vec::new();
        cells.push(Coordinate::new(0, 0));
        let m = SmallMove { turn: 0, board: SmallBoard::new(), you: SmallBattleSnake::new(0, 0, &cells) };
        assert(m@.board.snakes =~= Seq::<SnakeView>::empty());
        m
    }
}

impl SmallBoard {
    /// An empty 0 by 0 board.
    pub fn new() -> (b: SmallBoard)
        ensures
            b@ == (BoardView {
                height: 0,
                width: 0,
                food: Seq::empty(),
                hazards: Seq::empty(),
                snakes: Seq::empty(),
            }),
    {
        let b = SmallBoard {
            height: 0,
            width: 0,
            food: Vec::new(),
            hazards: Vec::new(),
            snakes: Vec::new(),
        };
        assert(b@.snakes =~= Seq::<SnakeView>::empty());
        b
    }
}


/// Every move that keeps the head on the board and off every body is
/// offered: a rival's body blocks except its tail, the snake's own body
/// blocks except its head and tail. So `(d, s.id)` is among the legal moves.
pub proof fn lemma_legal_moves_complete(s: SnakeView, b: BoardView, d: Direction)
    requires
        ({
            let h = s.head.plus(spec_offset(d));
            &&& 0 <= h.x <= b.width - 1
            &&& 0 <= h.y <= b.height - 1
            &&& forall|k: int, l: int|
                0 <= k < b.snakes.len() && b.snakes[k].id != s.id && 0 <= l < b.snakes[k].body.len() - 1
                    ==> #[trigger] b.snakes[k].body[l] != h
            &&& forall|k: int, l: int|
                0 <= k < b.snakes.len() && b.snakes[k].id == s.id && 1 <= l < b.snakes[k].body.len() - 1
                    ==> #[trigger] b.snakes[k].body[l] != h
        }),
    ensures
        spec_legal_moves(s, b).contains((d, s.id)),
{
    let h = next_head(s, d);
    if blocked(b.snakes, s.id, h) {
        let k = choose|k: int| 0 <= k < b.snakes.len() && blocks(#[trigger] b.snakes[k], s.id, h);
        let x = b.snakes[k];
        if occurs_in(x.body, 0, x.body.len() - 1, h) && x.id != s.id {
            let l = choose|l: int| 0 <= l < x.body.len() - 1 && x.body[l] == h;
            assert(b.snakes[k].body[l] == h);
        } else {
            let l = choose|l: int| 1 <= l < x.body.len() - 1 && x.body[l] == h;
            assert(b.snakes[k].body[l] == h);
        }
    }
    assert(move_ok(s, b, d));
    let u = legal_one(s, b, Direction::Up);
    let dn = legal_one(s, b, Direction::Down);
    let le = legal_one(s, b, Direction::Left);
    let r = legal_one(s, b, Direction::Right);
    let all = spec_legal_moves(s, b);
    assert(all == u + dn + le + r);
    match d {
        Direction::Up => {
            assert(all[0] == (d, s.id));
        },
        Direction::Down => {
            assert(all[u.len() as int] == (d, s.id));
        },
        Direction::Left => {
            assert(all[(u.len() + dn.len()) as int] == (d, s.id));
        },
        Direction::Right => {
            assert(all[(u.len() + dn.len() + le.len()) as int] == (d, s.id));
        },
    }
}

} // verus!
