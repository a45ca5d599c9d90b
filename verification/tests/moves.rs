use inundiato::cartprod::{cartesian_product, partial_cartesian};
use inundiato::move_table::MoveTable;
use inundiato::types::Direction::{Down, Left, Right, Up};
use inundiato::types::{Direction, Move};
use tinyvec::ArrayVec;

fn joint(ms: &[Move]) -> ArrayVec<[Move; 2]> {
    let mut v = ArrayVec::new();
    for m in ms {
        v.push(*m);
    }
    v
}

fn options(ms: &[Move]) -> ArrayVec<[Move; 4]> {
    let mut v = ArrayVec::new();
    for m in ms {
        v.push(*m);
    }
    v
}

fn as_vecs(v: &ArrayVec<[ArrayVec<[Move; 2]>; 16]>) -> Vec<Vec<Move>> {
    v.iter().map(|j| j.iter().cloned().collect()).collect()
}

#[test]
fn partial_cartesian_extends_each_prefix_in_order() {
    let mut a: ArrayVec<[ArrayVec<[Move; 2]>; 16]> = ArrayVec::new();
    a.push(joint(&[(Up, 1)]));
    a.push(joint(&[(Down, 1)]));
    let b = options(&[(Left, 2), (Right, 2)]);
    let out = partial_cartesian(a, b);
    assert_eq!(
        as_vecs(&out),
        vec![
            vec![(Up, 1), (Left, 2)],
            vec![(Up, 1), (Right, 2)],
            vec![(Down, 1), (Left, 2)],
            vec![(Down, 1), (Right, 2)],
        ]
    );
}

#[test]
fn partial_cartesian_with_no_items_is_empty() {
    let mut a: ArrayVec<[ArrayVec<[Move; 2]>; 16]> = ArrayVec::new();
    a.push(joint(&[(Up, 1)]));
    let out = partial_cartesian(a, options(&[]));
    assert_eq!(out.len(), 0);
}

#[test]
fn cartesian_product_of_two_lists() {
    let mut lists: ArrayVec<[ArrayVec<[Move; 4]>; 2]> = ArrayVec::new();
    lists.push(options(&[(Up, 1), (Down, 1)]));
    lists.push(options(&[(Left, 2), (Right, 2), (Up, 2)]));
    let out = cartesian_product(lists);
    assert_eq!(
        as_vecs(&out),
        vec![
            vec![(Up, 1), (Left, 2)],
            vec![(Up, 1), (Right, 2)],
            vec![(Up, 1), (Up, 2)],
            vec![(Down, 1), (Left, 2)],
            vec![(Down, 1), (Right, 2)],
            vec![(Down, 1), (Up, 2)],
        ]
    );
}

#[test]
fn cartesian_product_of_one_list_and_of_none() {
    let mut lists: ArrayVec<[ArrayVec<[Move; 4]>; 2]> = ArrayVec::new();
    assert_eq!(cartesian_product(lists).len(), 0);
    lists.push(options(&[(Up, 1), (Right, 1)]));
    assert_eq!(as_vecs(&cartesian_product(lists)), vec![vec![(Up, 1)], vec![(Right, 1)]]);
    lists.push(options(&[]));
    assert_eq!(cartesian_product(lists).len(), 0);
}

#[test]
fn move_table_starts_with_the_default_move() {
    let t = MoveTable::new();
    let got = t.get(12345);
    assert_eq!(got.as_slice(), &[(Direction::Up, 2), (Direction::Up, 1)]);
}

#[test]
fn move_table_get_after_set() {
    let mut t = MoveTable::new();
    t.set(7, joint(&[(Left, 1), (Down, 2)]), 3, -20);
    assert_eq!(t.get(7).as_slice(), &[(Left, 1), (Down, 2)]);
    // The same slot: positions are taken modulo the table size.
    assert_eq!(t.get(7 + 2_000_000).as_slice(), &[(Left, 1), (Down, 2)]);
    // Another slot is untouched.
    assert_eq!(t.get(8).as_slice(), &[(Up, 2), (Up, 1)]);
    // A later write wins.
    t.set(2_000_007, joint(&[(Right, 1), (Right, 2)]), 1, 5);
    assert_eq!(t.get(7).as_slice(), &[(Right, 1), (Right, 2)]);
}

#[test]
fn move_table_copy_is_equal() {
    let mut t = MoveTable::new();
    t.set(99, joint(&[(Down, 1), (Up, 2)]), 2, 0);
    let u = t.copy();
    assert_eq!(u, t);
    assert_eq!(u.get(99).as_slice(), &[(Down, 1), (Up, 2)]);
}
