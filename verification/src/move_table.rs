//! A fixed-size table that remembers, per position hash, the best joint move
//! found so far; the search tries that move first.
use vstd::prelude::*;
use crate::types::{Direction, Move, TABLE_SIZE};
use crate::move_lists::{joint_get, joint_items, joint_new, joint_push, Joint};

verus! {

#[derive(Debug, PartialEq, Eq, Clone)]
pub struct MoveTable {
    table: Vec<Entry>,
}

/// One slot of the table: the remembered joint move, its score and the depth
/// it was searched to.
#[derive(Debug, PartialEq, Eq, Clone, Copy)]
pub struct Entry {
    pub moves: [Move; 2],
    pub score: i32,
    pub depth: u8,
}

impl View for MoveTable {
    type V = Seq<Entry>;

    closed spec fn view(&self) -> Seq<Entry> {
        self.table@
    }
}

/// The slot of a position hash.
pub open spec fn slot(position: u64) -> int {
    (position % (TABLE_SIZE as u64)) as int
}

/// The joint move that slot `slot(position)` of `t` remembers.
pub open spec fn stored_moves(t: Seq<Entry>, position: u64) -> Seq<Move> {
    t[slot(position)].moves@
}

/// `after` is `before` with the slot of `position` holding the first two
/// moves of `directions`, `depth` and `score`, and every other slot unchanged.
pub open spec fn stored_at(
    before: Seq<Entry>,
    after: Seq<Entry>,
    position: u64,
    directions: Seq<Move>,
    depth: u8,
    score: i32,
) -> bool {
    &&& after.len() == before.len()
    &&& forall|k: int| 0 <= k < before.len() && k != slot(position) ==> after[k] == before[k]
    &&& after[slot(position)].moves@ == directions.take(2)
    &&& after[slot(position)].score == score
    &&& after[slot(position)].depth == depth
}

impl MoveTable {
    /// The table has its full size.
    pub open spec fn wf(&self) -> bool {
        self@.len() == TABLE_SIZE
    }

    /// The index of the slot of `position`.
    fn index(position: u64) -> (i: usize)
        ensures
            i == slot(position),
            i < TABLE_SIZE,
    {
        (position % (TABLE_SIZE as u64)) as usize
    }

    /// A table whose every slot holds the joint move `[(Up, 2), (Up, 1)]`,
    /// score 0 and depth 200.
    pub fn new() -> (t: Self)
        ensures
            t.wf(),
            forall|k: int|
                0 <= k < TABLE_SIZE ==> (#[trigger] t@[k]).moves@ == seq![
                    (Direction::Up, 2u8),
                    (Direction::Up, 1u8),
                ] && t@[k].score == 0 && t@[k].depth == 200,
    {
        let mut table: Vec<Entry> = Vec::new();
        let mut k: usize = 0;
        while k < TABLE_SIZE
            invariant
                k <= TABLE_SIZE,
                table.len() == k,
                forall|j: int|
                    0 <= j < k ==> (#[trigger] table@[j]).moves@ == seq![
                        (Direction::Up, 2u8),
                        (Direction::Up, 1u8),
                    ] && table@[j].score == 0 && table@[j].depth == 200,
            decreases TABLE_SIZE - k,
        {
            let e = Entry { moves: [(Direction::Up, 2), (Direction::Up, 1)], score: 0, depth: 200 };
            assert(e.moves@ =~= seq![(Direction::Up, 2u8), (Direction::Up, 1u8)]);
            table.push(e);
            k = k + 1;
        }
        MoveTable { table }
    }

    /// A copy of the table.
    pub fn copy(&self) -> (t: Self)
        ensures
            t@ == self@,
    {
        let mut table: Vec<Entry> = Vec::new();
        let mut k: usize = 0;
        while k < self.table.len()
            invariant
                k <= self.table.len(),
                table@ == self.table@.take(k as int),
            decreases self.table.len() - k,
        {
            table.push(self.table[k]);
            k = k + 1;
            assert(table@ =~= self.table@.take(k as int));
        }
        assert(self.table@.take(k as int) =~= self.table@);
        MoveTable { table }
    }

    /// Get a direction for a given position.
    pub fn get(&self, position: u64) -> (r: Joint)
        requires
            self.wf(),
        ensures
            joint_items(r) == stored_moves(self@, position),
    {
        let i = Self::index(position);
        let e = self.table[i];
        let mut r = joint_new();
        joint_push(&mut r, e.moves[0]);
        joint_push(&mut r, e.moves[1]);
        assert(joint_items(r) =~= e.moves@);
        r
    }

    /// Set a specific position with a specific move.
    pub fn set(&mut self, position: u64, directions: Joint, depth: u8, score: i32)
        requires
            old(self).wf(),
            joint_items(directions).len() >= 2,
        ensures
            final(self).wf(),
            stored_at(old(self)@, final(self)@, position, joint_items(directions), depth, score),
    {
        let i = Self::index(position);
        let e = Entry {
            depth,
            moves: [joint_get(&directions, 0), joint_get(&directions, 1)],
            score,
        };
        self.table.set(i, e);
        assert(e.moves@ =~= joint_items(directions).take(2));
    }
}

/// Reading a slot gives back what was last written to it, and writing a slot
/// leaves what every other slot gives back unchanged.
pub proof fn lemma_get_after_set(
    before: Seq<Entry>,
    after: Seq<Entry>,
    position: u64,
    other: u64,
    directions: Seq<Move>,
    depth: u8,
    score: i32,
)
    requires
        before.len() == TABLE_SIZE,
        stored_at(before, after, position, directions, depth, score),
    ensures
        stored_moves(after, position) == directions.take(2),
        slot(other) != slot(position) ==> stored_moves(after, other) == stored_moves(before, other),
{
}

} // verus!
