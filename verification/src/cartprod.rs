//! Cartesian products of move lists: every way of picking one move from
//! each list, in lexicographic order.
use vstd::prelude::*;
use crate::types::Move;
use crate::move_lists::{
    joint_items, joint_new, joint_push, joints_get, joints_items, joints_len, joints_new,
    joints_push, lists_get, lists_items, lists_len, option_items, options_get, options_len,
    Joints, OptionLists, Options,
};

verus! {

/// Each partial product in `a`, extended by each item of `b` in turn
/// (the partial products in order, and for each the items of `b` in order).
pub open spec fn spec_partial(a: Seq<Seq<Move>>, b: Seq<Move>) -> Seq<Seq<Move>>
    decreases a.len(),
{
    if a.len() == 0 {
        Seq::empty()
    } else {
        spec_partial(a.drop_last(), b) + b.map_values(|y: Move| a.last().push(y))
    }
}

/// Extends `acc` by each of `rest` in turn.
pub open spec fn spec_fold_partial(acc: Seq<Seq<Move>>, rest: Seq<Seq<Move>>) -> Seq<Seq<Move>>
    decreases rest.len(),
{
    if rest.len() == 0 {
        acc
    } else {
        spec_fold_partial(spec_partial(acc, rest[0]), rest.drop_first())
    }
}

/// The product `lists[0] * lists[1] * ... * lists[n]`; empty when there are no lists.
pub open spec fn spec_cartesian(lists: Seq<Seq<Move>>) -> Seq<Seq<Move>> {
    if lists.len() == 0 {
        Seq::empty()
    } else {
        spec_fold_partial(lists[0].map_values(|n: Move| seq![n]), lists.drop_first())
    }
}

/// Whether extending `a` by `b` fits the capacities: at most 16 products,
/// each partial product with room for one more move (unless `b` is empty,
/// when nothing is extended).
pub open spec fn partial_fits(a: Seq<Seq<Move>>, b: Seq<Move>) -> bool {
    &&& a.len() * b.len() <= 16
    &&& b.len() > 0 ==> forall|i: int| 0 <= i < a.len() ==> #[trigger] a[i].len() < 2
}

pub proof fn lemma_partial_len(a: Seq<Seq<Move>>, b: Seq<Move>)
    ensures
        spec_partial(a, b).len() == a.len() * b.len(),
    decreases a.len(),
{
    if a.len() > 0 {
        lemma_partial_len(a.drop_last(), b);
        assert(a.len() * b.len() == (a.len() - 1) * b.len() + b.len()) by (nonlinear_arith);
    }
}

proof fn lemma_partial_index(a: Seq<Seq<Move>>, b: Seq<Move>)
    ensures
        forall|i: int, j: int|
            0 <= i < a.len() && 0 <= j < b.len() ==> #[trigger] spec_partial(a, b)[i * b.len() + j]
                == a[i].push(#[trigger] b[j]),
    decreases a.len(),
{
    if a.len() > 0 {
        let d = a.drop_last();
        lemma_partial_index(d, b);
        lemma_partial_len(d, b);
        assert forall|i: int, j: int| 0 <= i < a.len() && 0 <= j < b.len() implies #[trigger] spec_partial(a, b)[i * b.len() + j]
            == a[i].push(#[trigger] b[j]) by {
            assert(i * b.len() + j < a.len() * b.len()) by (nonlinear_arith)
                requires
                    0 <= i < a.len(),
                    0 <= j < b.len(),
            ;
            if i < a.len() - 1 {
                assert(i * b.len() + j < d.len() * b.len()) by (nonlinear_arith)
                    requires
                        0 <= i < d.len(),
                        0 <= j < b.len(),
                ;
                assert(d[i] == a[i]);
            } else {
                assert(i * b.len() == d.len() * b.len());
            }
        }
    }
}

/// The product of two lists holds every pair of one item of each, in
/// lexicographic order: item `i` of the first with item `j` of the second
/// stands at `i * len(second) + j`.
pub proof fn lemma_cartesian_two(lists: Seq<Seq<Move>>)
    requires
        lists.len() == 2,
    ensures
        spec_cartesian(lists).len() == lists[0].len() * lists[1].len(),
        forall|i: int, j: int|
            0 <= i < lists[0].len() && 0 <= j < lists[1].len() ==> #[trigger] spec_cartesian(lists)[i
                * lists[1].len() + j] == seq![lists[0][i], #[trigger] lists[1][j]],
{
    let a = lists[0];
    let b = lists[1];
    let init = a.map_values(|n: Move| seq![n]);
    assert(lists.drop_first() =~= seq![b]);
    assert(seq![b].drop_first() =~= Seq::<Seq<Move>>::empty());
    assert(spec_cartesian(lists) == spec_fold_partial(init, seq![b]));
    assert(seq![b][0] == b);
    assert(spec_fold_partial(init, seq![b]) == spec_fold_partial(spec_partial(init, b), seq![b].drop_first()));
    lemma_partial_len(init, b);
    lemma_partial_index(init, b);
    assert forall|i: int, j: int| 0 <= i < a.len() && 0 <= j < b.len() implies #[trigger] spec_cartesian(lists)[i
        * b.len() + j] == seq![a[i], #[trigger] b[j]] by {
        assert(init[i] == seq![a[i]]);
        assert(seq![a[i]].push(b[j]) =~= seq![a[i], b[j]]);
    }
}

/// Given a vector containing a partial Cartesian product, and a list of items,
/// return a vector adding the list of items to the partial Cartesian product.
pub fn partial_cartesian(a: Joints, b: Options) -> (out: Joints)
    requires
        partial_fits(joints_items(a), option_items(b)),
    ensures
        joints_items(out) == spec_partial(joints_items(a), option_items(b)),
{
    let ghost sa = joints_items(a);
    let ghost sb = option_items(b);
    let n = joints_len(&a);
    let m = options_len(&b);
    let mut out = joints_new();
    let mut i: usize = 0;
    while i < n
        invariant
            sa == joints_items(a),
            sb == option_items(b),
            n == sa.len(),
            m == sb.len(),
            i <= n,
            partial_fits(sa, sb),
            joints_items(out) == spec_partial(sa.take(i as int), sb),
        decreases n - i,
    {
        let xs = joints_get(&a, i);
        let ghost before = joints_items(out);
        let mut j: usize = 0;
        while j < m
            invariant
                sa == joints_items(a),
                sb == option_items(b),
                n == sa.len(),
                m == sb.len(),
                i < n,
                j <= m,
                partial_fits(sa, sb),
                joint_items(xs) == sa[i as int],
                before == spec_partial(sa.take(i as int), sb),
                joints_items(out) == before + sb.take(j as int).map_values(|y: Move| sa[i as int].push(y)),
            decreases m - j,
        {
            let y = options_get(&b, j);
            let mut v = xs;
            assert(sa[i as int].len() < 2);
            joint_push(&mut v, y);
            proof {
                lemma_partial_len(sa.take(i as int), sb);
                assert(i * m + j < n * m) by (nonlinear_arith)
                    requires
                        i < n,
                        j < m,
                ;
                assert(sb.take(j as int + 1).map_values(|y: Move| sa[i as int].push(y))
                    =~= sb.take(j as int).map_values(|y: Move| sa[i as int].push(y)).push(
                    sa[i as int].push(y),
                ));
            }
            joints_push(&mut out, v);
            j = j + 1;
        }
        proof {
            assert(sa.take(i as int + 1).drop_last() =~= sa.take(i as int));
            assert(sb.take(m as int) =~= sb);
        }
        i = i + 1;
    }
    proof {
        assert(sa.take(n as int) =~= sa);
    }
    out
}

/// Computes the Cartesian product of lists[0] * lists[1] * ... * lists[n].
pub fn cartesian_product(lists: OptionLists) -> (out: Joints)
    ensures
        joints_items(out) == spec_cartesian(lists_items(lists)),
{
    let ghost ls = lists_items(lists);
    let k = lists_len(&lists);
    if k == 0 {
        return joints_new();
    }
    let first = lists_get(&lists, 0);
    let nf = options_len(&first);
    let mut init = joints_new();
    let mut i: usize = 0;
    while i < nf
        invariant
            ls == lists_items(lists),
            ls.len() > 0,
            nf == option_items(first).len(),
            nf <= 4,
            option_items(first) == ls[0],
            i <= nf,
            joints_items(init) == ls[0].take(i as int).map_values(|n: Move| seq![n]),
        decreases nf - i,
    {
        let n = options_get(&first, i);
        let mut single = joint_new();
        joint_push(&mut single, n);
        proof {
            assert(ls[0].take(i as int + 1).map_values(|n: Move| seq![n])
                =~= ls[0].take(i as int).map_values(|n: Move| seq![n]).push(seq![n]));
        }
        joints_push(&mut init, single);
        i = i + 1;
    }
    proof {
        assert(ls[0].take(nf as int) =~= ls[0]);
    }
    let mut acc = init;
    let mut r: usize = 1;
    while r < k
        invariant
            ls == lists_items(lists),
            k == ls.len(),
            ls.len() > 0,
            1 <= r <= k,
            k <= 2,
            spec_cartesian(ls) == spec_fold_partial(joints_items(acc), ls.skip(r as int)),
            r == 1 ==> joints_items(acc) == ls[0].map_values(|n: Move| seq![n]),
            ls[0].len() <= 4,
        decreases k - r,
    {
        let next = lists_get(&lists, r);
        let _ = options_len(&next);
        proof {
            let a = joints_items(acc);
            assert(r == 1);
            assert(a.len() == ls[0].len());
            assert(option_items(next).len() <= 4);
            assert(a.len() * option_items(next).len() <= 16) by (nonlinear_arith)
                requires
                    a.len() <= 4,
                    option_items(next).len() <= 4,
            ;
            assert forall|j: int| 0 <= j < a.len() implies #[trigger] a[j].len() < 2 by {
                assert(a[j] == seq![ls[0][j]]);
            }
            assert(ls.skip(r as int)[0] == option_items(next));
            assert(ls.skip(r as int).drop_first() =~= ls.skip(r as int + 1));
        }
        acc = partial_cartesian(acc, next);
        r = r + 1;
    }
    proof {
        assert(ls.skip(k as int).len() == 0);
        assert(ls.drop_first() =~= ls.skip(1));
    }
    acc
}

} // verus!
