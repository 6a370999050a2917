//! Stable ordering of positions by an integer key.
//!
//! Keyframes are ordered by frame and layer objects by start frame, both with
//! a stable sort: items with equal keys keep their original relative order.
//! An ordering is described by the positions of the items in sorted order.

use vstd::prelude::*;
use crate::model::{first_index, lemma_first_index};

verus! {

/// Position `a` comes before position `b` in a stable sort by `keys`.
pub open spec fn precedes(keys: Seq<i64>, a: int, b: int) -> bool {
    keys[a] < keys[b] || (keys[a] == keys[b] && a < b)
}

/// `order` lists each of the first `n` positions once, sorted by key, with
/// ties kept in position order.
pub open spec fn orders_prefix(keys: Seq<i64>, order: Seq<usize>, n: int) -> bool {
    &&& order.len() == n
    &&& forall|i: int| 0 <= i < n ==> (#[trigger] order[i]) < n
    &&& forall|x: usize| x < n ==> #[trigger] order.contains(x)
    &&& forall|i: int, j: int|
        0 <= i < j < n ==> precedes(keys, #[trigger] order[i] as int, #[trigger] order[j] as int)
}

/// `order` is the stable sorting order of all positions of `keys`.
pub open spec fn is_stable_order(keys: Seq<i64>, order: Seq<usize>) -> bool {
    orders_prefix(keys, order, keys.len() as int)
}

/// The stable sorting order of `keys` (there is exactly one, see
/// `lemma_stable_order_unique`).
pub open spec fn stable_order_of(keys: Seq<i64>) -> Seq<usize> {
    choose|order: Seq<usize>| is_stable_order(keys, order)
}

proof fn lemma_orders_agree_upto(keys: Seq<i64>, a: Seq<usize>, b: Seq<usize>, p: int)
    requires
        is_stable_order(keys, a),
        is_stable_order(keys, b),
        0 <= p < keys.len(),
    ensures
        forall|q: int| 0 <= q <= p ==> a[q] == b[q],
    decreases p,
{
    if p > 0 {
        lemma_orders_agree_upto(keys, a, b, p - 1);
    }
    if a[p] != b[p] {
        let x = a[p];
        let y = b[p];
        assert(b.contains(x));
        let qb = choose|q: int| 0 <= q < b.len() && b[q] == x;
        assert(a.contains(y));
        let qa = choose|q: int| 0 <= q < a.len() && a[q] == y;
        if qb < p {
            assert(a[qb] == x);
            assert(precedes(keys, a[qb] as int, a[p] as int));
        } else if qa < p {
            assert(b[qa] == y);
            assert(precedes(keys, b[qa] as int, b[p] as int));
        } else {
            assert(precedes(keys, b[p] as int, b[qb] as int));
            assert(precedes(keys, a[p] as int, a[qa] as int));
        }
    }
}

/// A stable sorting order is unique: any two of the same keys are equal.
pub proof fn lemma_stable_order_unique(keys: Seq<i64>, a: Seq<usize>, b: Seq<usize>)
    requires
        is_stable_order(keys, a),
        is_stable_order(keys, b),
    ensures
        a == b,
{
    if keys.len() > 0 {
        lemma_orders_agree_upto(keys, a, b, keys.len() - 1);
    }
    assert(a =~= b);
}

/// Whatever stable order a computation found is the one `stable_order_of` names.
pub proof fn lemma_stable_order_of(keys: Seq<i64>, order: Seq<usize>)
    requires
        is_stable_order(keys, order),
    ensures
        stable_order_of(keys) == order,
{
    lemma_stable_order_unique(keys, stable_order_of(keys), order);
}

/// The first `n` positions of `keys` have a stable sorting order: insert
/// each position after those already placed whose key is not above its own.
proof fn lemma_orders_prefix_exists(keys: Seq<i64>, n: int) -> (order: Seq<usize>)
    requires
        0 <= n <= keys.len(),
        keys.len() <= usize::MAX,
    ensures
        orders_prefix(keys, order, n),
    decreases n,
{
    if n == 0 {
        Seq::empty()
    } else {
        let k = n - 1;
        let old_order = lemma_orders_prefix_exists(keys, k);
        let above = |x: usize| keys[x as int] > keys[k];
        lemma_first_index(old_order, above);
        let p: int = match first_index(old_order, above) {
            Some(q) => q,
            None => old_order.len() as int,
        };
        assert forall|q: int| 0 <= q < p implies keys[#[trigger] old_order[q] as int] <= keys[k] by {
            assert(!above(old_order[q]));
        }
        assert forall|q: int| p <= q < old_order.len() implies keys[#[trigger] old_order[q] as int]
            > keys[k] by {
            assert(above(old_order[p]));
            if q > p {
                assert(precedes(keys, old_order[p] as int, old_order[q] as int));
            }
        }
        let ku = k as usize;
        let o = old_order.insert(p, ku);
        old_order.insert_ensures(p, ku);
        assert forall|x: usize| x < k + 1 implies #[trigger] o.contains(x) by {
            if x == ku {
                assert(o[p] == ku);
            } else {
                assert(old_order.contains(x));
                let q = choose|q: int| 0 <= q < old_order.len() && old_order[q] == x;
                if q < p {
                    assert(o[q] == x);
                } else {
                    assert(o[q + 1] == x);
                }
            }
        }
        assert forall|i: int, j: int| 0 <= i < j < k + 1 implies precedes(
            keys,
            #[trigger] o[i] as int,
            #[trigger] o[j] as int,
        ) by {
            if j < p {
                assert(o[i] == old_order[i] && o[j] == old_order[j]);
            } else if j == p {
                assert(o[i] == old_order[i]);
                assert(keys[old_order[i] as int] <= keys[k]);
            } else if i > p {
                assert(o[i] == old_order[i - 1] && o[j] == old_order[j - 1]);
            } else if i == p {
                assert(o[j] == old_order[j - 1]);
            } else {
                assert(o[i] == old_order[i] && o[j] == old_order[j - 1]);
            }
        }
        assert forall|i: int| 0 <= i < k + 1 implies (#[trigger] o[i]) < k + 1 by {
            if i < p {
                assert(o[i] == old_order[i]);
            } else if i > p {
                assert(o[i] == old_order[i - 1]);
            }
        }
        o
    }
}

/// Every key sequence that positions can index has a stable sorting order,
/// so `stable_order_of` names one.
pub proof fn lemma_stable_order_exists(keys: Seq<i64>)
    requires
        keys.len() <= usize::MAX,
    ensures
        is_stable_order(keys, stable_order_of(keys)),
{
    let order = lemma_orders_prefix_exists(keys, keys.len() as int);
    lemma_stable_order_of(keys, order);
}

/// Computes the stable sorting order of `keys` by insertion.
pub fn stable_order(keys: &Vec<i64>) -> (order: Vec<usize>)
    ensures
        is_stable_order(keys@, order@),
        order@ == stable_order_of(keys@),
{
    let n = keys.len();
    let mut order: Vec<usize> = Vec::new();
    for k in 0..n
        invariant
            n == keys.len(),
            orders_prefix(keys@, order@, k as int),
    {
        let mut p: usize = 0;
        while p < order.len() && keys[order[p]] <= keys[k]
            invariant
                n == keys.len(),
                k < n,
                orders_prefix(keys@, order@, k as int),
                p <= order.len(),
                forall|q: int| 0 <= q < p ==> keys@[#[trigger] order@[q] as int] <= keys@[k as int],
            decreases order.len() - p,
        {
            p = p + 1;
        }
        proof {
            // every position from p on has a key above keys[k]
            assert forall|q: int| p <= q < order.len() implies keys@[#[trigger] order@[q] as int]
                > keys@[k as int] by {
                if q > p {
                    assert(precedes(keys@, order@[p as int] as int, order@[q] as int));
                }
            }
        }
        let ghost old_order = order@;
        order.insert(p, k);
        proof {
            let o = order@;
            assert(o == old_order.insert(p as int, k));
            old_order.insert_ensures(p as int, k);
            assert forall|x: usize| x < k + 1 implies #[trigger] o.contains(x) by {
                if x == k {
                    assert(o[p as int] == k);
                } else {
                    assert(old_order.contains(x));
                    let q = choose|q: int| 0 <= q < old_order.len() && old_order[q] == x;
                    if q < p {
                        assert(o[q] == x);
                    } else {
                        assert(o[q + 1] == x);
                    }
                }
            }
            assert forall|i: int, j: int| 0 <= i < j < k + 1 implies precedes(
                keys@,
                #[trigger] o[i] as int,
                #[trigger] o[j] as int,
            ) by {
                if j < p {
                    assert(o[i] == old_order[i] && o[j] == old_order[j]);
                } else if j == p {
                    assert(o[i] == old_order[i]);
                    assert(keys@[old_order[i] as int] <= keys@[k as int]);
                } else if i > p {
                    assert(o[i] == old_order[i - 1] && o[j] == old_order[j - 1]);
                } else if i == p {
                    assert(o[j] == old_order[j - 1]);
                } else {
                    assert(o[i] == old_order[i] && o[j] == old_order[j - 1]);
                }
            }
            assert forall|i: int| 0 <= i < k + 1 implies (#[trigger] o[i]) < k + 1 by {
                if i < p {
                    assert(o[i] == old_order[i]);
                } else if i > p {
                    assert(o[i] == old_order[i - 1]);
                }
            }
        }
    }
    proof {
        lemma_stable_order_of(keys@, order@);
    }
    order
}

} // verus!
