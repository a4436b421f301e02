//! Ordering by recency: a stable descending order over release-timestamp
//! keys, and the selection of the first entries of a given kind under a
//! limit. Entries without any release carry the key 0 and therefore sort
//! last; ties keep their original order.

use vstd::prelude::*;

use crate::component::{Component, ComponentKind, Release};
use crate::package::spec_latest;

verus! {

/// The key an entry is ordered by: the timestamp of its latest release,
/// or 0 when it has no releases.
pub open spec fn recency_key(rels: Seq<Release>) -> u64 {
    match spec_latest(rels) {
        Some(r) => r.timestamp,
        None => 0u64,
    }
}

/// Inserts index `idx` into a stably descending index order: it lands
/// after every index whose key is at least its own.
pub open spec fn spec_insert_desc(order: Seq<int>, keys: Seq<u64>, idx: int) -> Seq<int>
    decreases order.len(),
{
    if order.len() == 0 {
        seq![idx]
    } else if keys[order.last()] >= keys[idx] {
        order.push(idx)
    } else {
        spec_insert_desc(order.drop_last(), keys, idx).push(order.last())
    }
}

/// The stable descending order of the first `n` indices.
pub open spec fn spec_order_desc(keys: Seq<u64>, n: int) -> Seq<int>
    decreases n,
{
    if n <= 0 {
        Seq::empty()
    } else {
        spec_insert_desc(spec_order_desc(keys, n - 1), keys, n - 1)
    }
}

/// The stable descending order of all indices of `keys`: indices sorted by
/// key descending, equal keys kept in index order.
pub open spec fn recency_order(keys: Seq<u64>) -> Seq<int> {
    spec_order_desc(keys, keys.len() as int)
}

/// A sequence of indices is stably descending for `keys`: any earlier
/// position has a strictly greater key, or an equal key and a smaller
/// index.
pub open spec fn stable_desc(keys: Seq<u64>, order: Seq<int>) -> bool {
    forall|a: int, b: int|
        0 <= a < b < order.len() ==> (keys[#[trigger] order[a]] > keys[#[trigger] order[b]] || (
        keys[order[a]] == keys[order[b]] && order[a] < order[b]))
}

pub open spec fn in_range(order: Seq<int>, lo: int, hi: int) -> bool {
    forall|a: int| 0 <= a < order.len() ==> lo <= #[trigger] order[a] < hi
}

proof fn lemma_insert_desc_props(order: Seq<int>, keys: Seq<u64>, idx: int)
    requires
        stable_desc(keys, order),
        in_range(order, 0, idx),
        0 <= idx < keys.len(),
    ensures
        stable_desc(keys, spec_insert_desc(order, keys, idx)),
        in_range(spec_insert_desc(order, keys, idx), 0, idx + 1),
        spec_insert_desc(order, keys, idx).len() == order.len() + 1,
        forall|e: int|
            #[trigger] spec_insert_desc(order, keys, idx).contains(e) <==> (order.contains(e) || e
                == idx),
    decreases order.len(),
{
    let res = spec_insert_desc(order, keys, idx);
    if order.len() == 0 {
        assert(res =~= seq![idx]);
        assert(res[0] == idx);
        assert forall|e: int| #[trigger] res.contains(e) <==> (order.contains(e) || e == idx) by {
            if e == idx {
                assert(res[0] == e);
                assert(res.contains(e));
            }
        }
    } else if keys[order.last()] >= keys[idx] {
        assert(res =~= order.push(idx));
        assert forall|a: int, b: int| 0 <= a < b < res.len() implies (keys[#[trigger] res[a]]
            > keys[#[trigger] res[b]] || (keys[res[a]] == keys[res[b]] && res[a] < res[b])) by {
            if b == res.len() - 1 {
                assert(res[b] == idx);
                assert(res[a] == order[a]);
                if a < order.len() - 1 {
                    assert(keys[order[a]] > keys[order.last()] || (keys[order[a]]
                        == keys[order.last()] && order[a] < order.last()));
                }
            }
        }
        assert forall|e: int| #[trigger] res.contains(e) <==> (order.contains(e) || e == idx) by {
            if res.contains(e) {
                let a = choose|a: int| 0 <= a < res.len() && res[a] == e;
                if a < order.len() {
                    assert(order[a] == e);
                } else {
                    assert(e == idx);
                }
            }
            if order.contains(e) {
                let a = choose|a: int| 0 <= a < order.len() && order[a] == e;
                assert(res[a] == e);
            }
            if e == idx {
                assert(res[res.len() - 1] == e);
            }
        }
    } else {
        let head = order.drop_last();
        assert(stable_desc(keys, head)) by {
            assert forall|a: int, b: int| 0 <= a < b < head.len() implies (keys[#[trigger] head[a]]
                > keys[#[trigger] head[b]] || (keys[head[a]] == keys[head[b]] && head[a]
                < head[b])) by {
                assert(head[a] == order[a]);
                assert(head[b] == order[b]);
            }
        }
        assert(in_range(head, 0, idx));
        lemma_insert_desc_props(head, keys, idx);
        let sub = spec_insert_desc(head, keys, idx);
        assert(res =~= sub.push(order.last()));
        assert forall|a: int, b: int| 0 <= a < b < res.len() implies (keys[#[trigger] res[a]]
            > keys[#[trigger] res[b]] || (keys[res[a]] == keys[res[b]] && res[a] < res[b])) by {
            if b == res.len() - 1 {
                // the shifted last element: everything in `sub` is either an
                // old element at or above it, or `idx`, whose key is larger
                assert(res[b] == order.last());
                assert(sub.contains(res[a])) by {
                    assert(sub[a] == res[a]);
                }
                if res[a] == idx {
                    assert(keys[idx] > keys[order.last()]);
                } else {
                    assert(order.contains(res[a]));
                    let q = choose|q: int| 0 <= q < order.len() && order[q] == res[a];
                    if q < order.len() - 1 {
                        assert(keys[order[q]] > keys[order.last()] || (keys[order[q]]
                            == keys[order.last()] && order[q] < order.last()));
                    }
                }
            } else {
                assert(res[a] == sub[a] && res[b] == sub[b]);
            }
        }
        assert forall|e: int| #[trigger] res.contains(e) <==> (order.contains(e) || e == idx) by {
            if res.contains(e) {
                let a = choose|a: int| 0 <= a < res.len() && res[a] == e;
                if a < sub.len() {
                    assert(sub.contains(e));
                    if head.contains(e) {
                        let q = choose|q: int| 0 <= q < head.len() && head[q] == e;
                        assert(order[q] == e);
                    }
                } else {
                    assert(e == order.last());
                    assert(order.contains(e));
                }
            }
            if order.contains(e) {
                let a = choose|a: int| 0 <= a < order.len() && order[a] == e;
                if a < order.len() - 1 {
                    assert(head[a] == e);
                    assert(sub.contains(e));
                    let q = choose|q: int| 0 <= q < sub.len() && sub[q] == e;
                    assert(res[q] == e);
                } else {
                    assert(res[res.len() - 1] == e);
                }
            }
            if e == idx {
                assert(sub.contains(e));
                let q = choose|q: int| 0 <= q < sub.len() && sub[q] == e;
                assert(res[q] == e);
            }
        }
    }
}

/// The recency order lists each index below `n` exactly once (it is a
/// permutation), in stably descending key order: recency listings are
/// sorted by latest-release timestamp descending, entries without a
/// release last, and ties keep the original order.
pub proof fn lemma_recency_order_props(keys: Seq<u64>, n: int)
    requires
        0 <= n <= keys.len(),
    ensures
        spec_order_desc(keys, n).len() == n,
        stable_desc(keys, spec_order_desc(keys, n)),
        in_range(spec_order_desc(keys, n), 0, n),
        forall|e: int| 0 <= e < n ==> spec_order_desc(keys, n).contains(e),
        forall|a: int, b: int|
            0 <= a < b < n ==> #[trigger] spec_order_desc(keys, n)[a]
                != #[trigger] spec_order_desc(keys, n)[b],
    decreases n,
{
    let res = spec_order_desc(keys, n);
    if n > 0 {
        lemma_recency_order_props(keys, n - 1);
        lemma_insert_desc_props(spec_order_desc(keys, n - 1), keys, n - 1);
        assert forall|e: int| 0 <= e < n implies res.contains(e) by {
            if e < n - 1 {
                assert(spec_order_desc(keys, n - 1).contains(e));
            }
        }
        assert forall|a: int, b: int| 0 <= a < b < n implies #[trigger] res[a]
            != #[trigger] res[b] by {
            if res[a] == res[b] {
                assert(keys[res[a]] == keys[res[b]]);
            }
        }
    }
}

proof fn lemma_insert_desc_at(order: Seq<int>, keys: Seq<u64>, idx: int, p: int)
    requires
        0 <= p <= order.len(),
        0 <= idx < keys.len(),
        in_range(order, 0, keys.len() as int),
        forall|q: int| p <= q < order.len() ==> keys[#[trigger] order[q]] < keys[idx],
        p > 0 ==> keys[order[p - 1]] >= keys[idx],
    ensures
        spec_insert_desc(order, keys, idx) == order.take(p) + seq![idx] + order.skip(p),
    decreases order.len(),
{
    if order.len() == 0 {
        assert(spec_insert_desc(order, keys, idx) =~= order.take(p) + seq![idx] + order.skip(p));
    } else if p == order.len() {
        assert(keys[order.last()] >= keys[idx]);
        assert(order.push(idx) =~= order.take(p) + seq![idx] + order.skip(p));
    } else {
        assert(keys[order.last()] < keys[idx]);
        let head = order.drop_last();
        assert(in_range(head, 0, keys.len() as int)) by {
            assert(forall|a: int| 0 <= a < head.len() ==> #[trigger] head[a] == order[a]);
        }
        assert(forall|q: int| p <= q < head.len() ==> keys[#[trigger] head[q]] < keys[idx])
            by {
            assert(forall|q: int| 0 <= q < head.len() ==> #[trigger] head[q] == order[q]);
        }
        if p > 0 {
            assert(head[p - 1] == order[p - 1]);
        }
        lemma_insert_desc_at(head, keys, idx, p);
        assert(spec_insert_desc(head, keys, idx).push(order.last()) =~= order.take(p) + seq![idx]
            + order.skip(p)) by {
            assert(head.take(p) =~= order.take(p));
            assert(head.skip(p).push(order.last()) =~= order.skip(p));
        }
    }
}

/// Views of a list of indices.
pub open spec fn idx_views(v: Seq<usize>) -> Seq<int> {
    v.map_values(|u: usize| u as int)
}

/// Sorts the indices of `keys` by key descending, stably: equal keys keep
/// their index order.
pub fn sort_indices_desc(keys: &Vec<u64>) -> (r: Vec<usize>)
    ensures
        idx_views(r@) == recency_order(keys@),
        r@.len() == keys@.len(),
        forall|a: int| 0 <= a < r@.len() ==> #[trigger] r@[a] < keys@.len(),
{
    let mut order: Vec<usize> = Vec::new();
    let mut n: usize = 0;
    proof {
        assert(idx_views(order@) =~= spec_order_desc(keys@, 0));
    }
    while n < keys.len()
        invariant
            n <= keys.len(),
            order@.len() == n,
            forall|a: int| 0 <= a < order@.len() ==> #[trigger] order@[a] < n,
            idx_views(order@) == spec_order_desc(keys@, n as int),
        decreases keys.len() - n,
    {
        let mut p: usize = order.len();
        while p > 0 && keys[order[p - 1]] < keys[n]
            invariant
                p <= order.len(),
                n < keys@.len(),
                forall|a: int| 0 <= a < order@.len() ==> #[trigger] order@[a] < n,
                forall|q: int|
                    p <= q < order@.len() ==> keys@[#[trigger] idx_views(order@)[q]] < keys@[n as int],
            decreases p,
        {
            p -= 1;
        }
        proof {
            lemma_insert_desc_at(idx_views(order@), keys@, n as int, p as int);
            assert(idx_views(order@.insert(p as int, n)) =~= idx_views(order@).take(p as int) + seq![
                n as int,
            ] + idx_views(order@).skip(p as int));
        }
        order.insert(p, n);
        n += 1;
    }
    order
}

/// The indices picked by a recency listing: walk the order, keep indices
/// whose component kind is a desktop application, stop after `limit`.
pub open spec fn pick_indices(kinds: Seq<ComponentKind>, order: Seq<int>, limit: int) -> Seq<int>
    decreases order.len(),
{
    if order.len() == 0 || limit <= 0 {
        Seq::empty()
    } else if kinds[order[0]] == ComponentKind::DesktopApp {
        seq![order[0]] + pick_indices(kinds, order.drop_first(), limit - 1)
    } else {
        pick_indices(kinds, order.drop_first(), limit)
    }
}

/// The kinds of a component list.
pub open spec fn kinds_of(comps: Seq<Component>) -> Seq<ComponentKind> {
    comps.map_values(|c: Component| c.kind)
}

} // verus!
