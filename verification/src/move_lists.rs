//! Fixed-capacity move lists, held in `tinyvec::ArrayVec`.
//!
//! Each list type has a spec function naming its contents, and each
//! operation that the engine uses is a small trusted wrapper whose contract
//! restates what `tinyvec` documents for it (push and insert panic when the
//! list is full, so they require room; indexing requires an index in range).
use vstd::prelude::*;
use tinyvec::ArrayVec;
use crate::types::{Direction, Move};

verus! {

/// One move per snake, played at the same time.
pub type Joint = ArrayVec<[Move; 2]>;

/// The moves one snake may choose from.
pub type Options = ArrayVec<[Move; 4]>;

/// A list of joint moves.
pub type Joints = ArrayVec<[Joint; 16]>;

/// One list of options per snake.
pub type OptionLists = ArrayVec<[Options; 2]>;

#[verifier::external_type_specification]
#[verifier::external_body]
#[verifier::reject_recursive_types(A)]
pub struct ExArrayVec<A>(ArrayVec<A>);

/// The items of a joint move, in order.
pub uninterp spec fn joint_items(v: ArrayVec<[(Direction, u8); 2]>) -> Seq<(Direction, u8)>;

/// The items of an option list, in order.
pub uninterp spec fn option_items(v: ArrayVec<[(Direction, u8); 4]>) -> Seq<(Direction, u8)>;

/// The joint moves of a list of joint moves, each taken by its items.
pub uninterp spec fn joints_items(v: ArrayVec<[ArrayVec<[(Direction, u8); 2]>; 16]>) -> Seq<Seq<(Direction, u8)>>;

/// The option lists of a list of option lists, each taken by its items.
pub uninterp spec fn lists_items(v: ArrayVec<[ArrayVec<[(Direction, u8); 4]>; 2]>) -> Seq<Seq<(Direction, u8)>>;

/// `ArrayVec::new` for joint moves: an empty list.
#[verifier::external_body]
pub fn joint_new() -> (v: Joint)
    ensures
        joint_items(v) == Seq::<Move>::empty(),
{
    ArrayVec::new()
}

/// `ArrayVec::push` for joint moves: appends `m`; needs room, as `push` panics on a full list.
#[verifier::external_body]
pub fn joint_push(v: &mut Joint, m: Move)
    requires
        joint_items(*old(v)).len() < 2,
    ensures
        joint_items(*final(v)) == joint_items(*old(v)).push(m),
{
    v.push(m)
}

/// `ArrayVec::len` for joint moves: the number of items, never above the capacity 2.
#[verifier::external_body]
pub fn joint_len(v: &Joint) -> (n: usize)
    ensures
        n == joint_items(*v).len(),
        n <= 2,
{
    v.len()
}

/// Indexing a joint move: the item at `i`.
#[verifier::external_body]
pub fn joint_get(v: &Joint, i: usize) -> (m: Move)
    requires
        i < joint_items(*v).len(),
    ensures
        m == joint_items(*v)[i as int],
{
    v[i]
}

/// `==` on joint moves: `ArrayVec` compares its items in order.
#[verifier::external_body]
pub fn joint_eq(a: &Joint, b: &Joint) -> (r: bool)
    ensures
        r == (joint_items(*a) == joint_items(*b)),
{
    *a == *b
}

/// `ArrayVec::new` for option lists: an empty list.
#[verifier::external_body]
pub fn options_new() -> (v: Options)
    ensures
        option_items(v) == Seq::<Move>::empty(),
{
    ArrayVec::new()
}

/// `ArrayVec::push` for option lists: appends `m`; needs room.
#[verifier::external_body]
pub fn options_push(v: &mut Options, m: Move)
    requires
        option_items(*old(v)).len() < 4,
    ensures
        option_items(*final(v)) == option_items(*old(v)).push(m),
{
    v.push(m)
}

/// `ArrayVec::len` for option lists: never above the capacity 4.
#[verifier::external_body]
pub fn options_len(v: &Options) -> (n: usize)
    ensures
        n == option_items(*v).len(),
        n <= 4,
{
    v.len()
}

/// Indexing an option list: the item at `i`.
#[verifier::external_body]
pub fn options_get(v: &Options, i: usize) -> (m: Move)
    requires
        i < option_items(*v).len(),
    ensures
        m == option_items(*v)[i as int],
{
    v[i]
}

/// `ArrayVec::new` for lists of joint moves: an empty list.
#[verifier::external_body]
pub fn joints_new() -> (v: Joints)
    ensures
        joints_items(v) == Seq::<Seq<Move>>::empty(),
{
    ArrayVec::new()
}

/// `ArrayVec::push` for lists of joint moves: appends `j`; needs room.
#[verifier::external_body]
pub fn joints_push(v: &mut Joints, j: Joint)
    requires
        joints_items(*old(v)).len() < 16,
    ensures
        joints_items(*final(v)) == joints_items(*old(v)).push(joint_items(j)),
{
    v.push(j)
}

/// `ArrayVec::len` for lists of joint moves: never above the capacity 16.
#[verifier::external_body]
pub fn joints_len(v: &Joints) -> (n: usize)
    ensures
        n == joints_items(*v).len(),
        n <= 16,
{
    v.len()
}

/// Indexing a list of joint moves: a copy of the joint move at `i`.
#[verifier::external_body]
pub fn joints_get(v: &Joints, i: usize) -> (j: Joint)
    requires
        i < joints_items(*v).len(),
    ensures
        joint_items(j) == joints_items(*v)[i as int],
{
    v[i]
}

/// `ArrayVec::remove`: takes out the item at `i`, shifting the rest down.
#[verifier::external_body]
pub fn joints_remove(v: &mut Joints, i: usize) -> (j: Joint)
    requires
        i < joints_items(*old(v)).len(),
    ensures
        joint_items(j) == joints_items(*old(v))[i as int],
        joints_items(*final(v)) == joints_items(*old(v)).remove(i as int),
{
    v.remove(i)
}

/// `ArrayVec::insert`: puts `j` at `i`, shifting the rest up; needs `i <= len` and room.
#[verifier::external_body]
pub fn joints_insert(v: &mut Joints, i: usize, j: Joint)
    requires
        i <= joints_items(*old(v)).len(),
        joints_items(*old(v)).len() < 16,
    ensures
        joints_items(*final(v)) == joints_items(*old(v)).insert(i as int, joint_items(j)),
{
    v.insert(i, j)
}

/// `ArrayVec::new` for lists of option lists: an empty list.
#[verifier::external_body]
pub fn lists_new() -> (v: OptionLists)
    ensures
        lists_items(v) == Seq::<Seq<Move>>::empty(),
{
    ArrayVec::new()
}

/// `ArrayVec::push` for lists of option lists: appends `o`; needs room.
#[verifier::external_body]
pub fn lists_push(v: &mut OptionLists, o: Options)
    requires
        lists_items(*old(v)).len() < 2,
    ensures
        lists_items(*final(v)) == lists_items(*old(v)).push(option_items(o)),
{
    v.push(o)
}

/// `ArrayVec::len` for lists of option lists: never above the capacity 2.
#[verifier::external_body]
pub fn lists_len(v: &OptionLists) -> (n: usize)
    ensures
        n == lists_items(*v).len(),
        n <= 2,
{
    v.len()
}

/// Indexing a list of option lists: a copy of the option list at `i`.
#[verifier::external_body]
pub fn lists_get(v: &OptionLists, i: usize) -> (o: Options)
    requires
        i < lists_items(*v).len(),
    ensures
        option_items(o) == lists_items(*v)[i as int],
{
    v[i]
}

} // verus!
