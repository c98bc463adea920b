//! Topological ordering of a finite directed graph, with cycle
//! detection.
//!
//! The graph is handed over as one predecessor list per node: node `a`
//! is a predecessor of node `b` when some connection leads from `a` to
//! `b`. The ordering follows Kahn's algorithm: nodes whose predecessor
//! set is exhausted form a ready pool; finalizing a ready node erases it
//! from every remaining predecessor set (a binary search in a sorted
//! list), which in turn can make further nodes ready. When the ready
//! pool runs dry while nodes are still pending, the pending nodes'
//! predecessor chains are walked backwards until one node repeats: that
//! node lies on a cycle, and is reported as the certificate.

use vstd::prelude::*;

verus! {

broadcast use vstd::seq_lib::group_seq_properties;

/// Node `a` is listed among the predecessors of node `b`.
pub open spec fn pred_edge(preds: Seq<Vec<usize>>, a: int, b: int) -> bool {
    &&& 0 <= b < preds.len()
    &&& exists|j: int| 0 <= j < preds[b]@.len() && #[trigger] preds[b]@[j] == a
}

/// `path` is a walk along `edge`: every element is connected to its
/// successor.
pub open spec fn is_walk(edge: spec_fn(int, int) -> bool, path: Seq<int>) -> bool {
    forall|k: int| 0 <= k < path.len() - 1 ==> #[trigger] edge(path[k], path[k + 1])
}

/// Node `v` lies on some cycle of `edge`: a closed walk of at least one
/// step leads from `v` back to `v`.
pub open spec fn on_cycle(edge: spec_fn(int, int) -> bool, v: int) -> bool {
    exists|path: Seq<int>|
        #![trigger is_walk(edge, path)]
        path.len() >= 2 && path.first() == v && path.last() == v && is_walk(edge, path)
}

/// A cycle survives any widening of the edge relation.
pub proof fn lemma_on_cycle_widen(
    narrow: spec_fn(int, int) -> bool,
    wide: spec_fn(int, int) -> bool,
    v: int,
)
    requires
        on_cycle(narrow, v),
        forall|a: int, b: int| #[trigger] narrow(a, b) ==> wide(a, b),
    ensures
        on_cycle(wide, v),
{
    let path = choose|path: Seq<int>|
        #![trigger is_walk(narrow, path)]
        path.len() >= 2 && path.first() == v && path.last() == v && is_walk(narrow, path);
    assert forall|k: int| 0 <= k < path.len() - 1 implies #[trigger] wide(path[k], path[k + 1]) by {
        assert(narrow(path[k], path[k + 1]));
    }
    assert(is_walk(wide, path));
}

/// The elements of `s` are strictly increasing.
pub open spec fn sorted_strict(s: Seq<usize>) -> bool {
    forall|i: int, j: int| 0 <= i < j < s.len() ==> s[i] < s[j]
}

/// A strictly sorted sequence stays strictly sorted when one element is
/// removed.
proof fn lemma_sorted_remove(s: Seq<usize>, i: int)
    requires
        sorted_strict(s),
        0 <= i < s.len(),
    ensures
        sorted_strict(s.remove(i)),
{
    let t = s.remove(i);
    assert forall|x: int, y: int| 0 <= x < y < t.len() implies t[x] < t[y] by {
        if x < i {
            assert(t[x] == s[x]);
        } else {
            assert(t[x] == s[x + 1]);
        }
        if y < i {
            assert(t[y] == s[y]);
        } else {
            assert(t[y] == s[y + 1]);
        }
    }
}

/// Locate `needle` in the strictly sorted list `haystack`.
fn binary_search(haystack: &Vec<usize>, needle: usize) -> (position: Option<usize>)
    requires
        sorted_strict(haystack@),
    ensures
        match position {
            Some(i) => i < haystack@.len() && haystack@[i as int] == needle,
            None => !haystack@.contains(needle),
        },
{
    let mut low: usize = 0;
    let mut high: usize = haystack.len();
    while low < high
        invariant
            sorted_strict(haystack@),
            low <= high <= haystack@.len(),
            forall|j: int| 0 <= j < low ==> #[trigger] haystack@[j] < needle,
            forall|j: int| high <= j < haystack@.len() ==> needle < #[trigger] haystack@[j],
        decreases high - low,
    {
        let mid = low + (high - low) / 2;
        if haystack[mid] == needle {
            return Some(mid);
        } else if haystack[mid] < needle {
            low = mid + 1;
        } else {
            high = mid;
        }
    }
    proof {
        assert forall|j: int| 0 <= j < haystack@.len() implies haystack@[j] != needle by {
            if j < low {
            } else {
                assert(needle < haystack@[j]);
            }
        }
    }
    None
}

/// Locate `needle` in the unsorted list `haystack`.
fn index_of(haystack: &Vec<usize>, needle: usize) -> (position: Option<usize>)
    ensures
        match position {
            Some(i) => i < haystack@.len() && haystack@[i as int] == needle,
            None => !haystack@.contains(needle),
        },
{
    let n = haystack.len();
    let mut i: usize = 0;
    while i < n
        invariant
            n == haystack@.len(),
            i <= n,
            forall|j: int| 0 <= j < i ==> #[trigger] haystack@[j] != needle,
        decreases n - i,
    {
        if haystack[i] == needle {
            return Some(i);
        }
        i += 1;
    }
    None
}

/// The edge relation induced by the predecessor lists.
pub open spec fn pred_edge_of(preds: Seq<Vec<usize>>) -> spec_fn(int, int) -> bool {
    |a: int, b: int| pred_edge(preds, a, b)
}

/// Well-formed predecessor lists: one strictly sorted list per node,
/// holding only node indexes.
pub open spec fn preds_wf(preds: Seq<Vec<usize>>) -> bool {
    &&& forall|b: int| 0 <= b < preds.len() ==> sorted_strict((#[trigger] preds[b])@)
    &&& forall|b: int, j: int|
        0 <= b < preds.len() && 0 <= j < preds[b]@.len() ==> (#[trigger] preds[b]@[j])
            < preds.len()
}

/// Every predecessor of node `x` is contained in `done`.
pub open spec fn preds_done(preds: Seq<Vec<usize>>, x: usize, done: Seq<usize>) -> bool {
    forall|j: int| 0 <= j < preds[x as int]@.len() ==> done.contains(#[trigger] preds[x as int]@[j])
}

/// A pending entry holds a node together with its not-yet-finalized
/// predecessors: the strictly sorted, nonempty rest of its predecessor
/// list after erasing every node contained in `done`.
pub open spec fn pending_entry_inv(
    preds: Seq<Vec<usize>>,
    done: Seq<usize>,
    entry: (usize, Vec<usize>),
) -> bool {
    &&& sorted_strict(entry.1@)
    &&& entry.1@.len() > 0
    &&& forall|a: usize|
        #[trigger] entry.1@.contains(a) <==> (preds[entry.0 as int]@.contains(a)
            && !done.contains(a))
}

/// Two duplicate-free sequences, one contained in the other, relate in
/// length.
proof fn lemma_distinct_within_distinct(sub: Seq<usize>, sup: Seq<usize>)
    requires
        sub.no_duplicates(),
        sup.no_duplicates(),
        forall|x: usize| #[trigger] sub.contains(x) ==> sup.contains(x),
    ensures
        sub.len() <= sup.len(),
{
    broadcast use vstd::seq_lib::seq_to_set_is_finite;

    sub.unique_seq_to_set();
    sup.unique_seq_to_set();
    assert(sub.to_set().subset_of(sup.to_set()));
    vstd::set_lib::lemma_len_subset(sub.to_set(), sup.to_set());
}

/// An element-for-element copy of a list.
fn copy_list(source: &Vec<usize>) -> (copy: Vec<usize>)
    ensures
        copy@ == source@,
{
    let n = source.len();
    let mut copy: Vec<usize> = Vec::new();
    let mut i: usize = 0;
    while i < n
        invariant
            n == source@.len(),
            i <= n,
            copy@ == source@.subrange(0, i as int),
        decreases n - i,
    {
        copy.push(source[i]);
        proof {
            assert(copy@ =~= source@.subrange(0, i as int + 1));
        }
        i += 1;
    }
    proof {
        assert(copy@ =~= source@);
    }
    copy
}

/// Insert `value` into the strictly sorted list `list`, keeping it
/// strictly sorted; a value already present is left alone.
pub(crate) fn insert_unique_sorted(list: &mut Vec<usize>, value: usize)
    requires
        sorted_strict(old(list)@),
    ensures
        sorted_strict(final(list)@),
        forall|a: usize|
            #[trigger] final(list)@.contains(a) <==> (old(list)@.contains(a) || a == value),
{
    let ghost prior = list@;
    let n = list.len();
    let mut i: usize = 0;
    while i < n && list[i] < value
        invariant
            n == list@.len(),
            i <= n,
            sorted_strict(list@),
            forall|j: int| 0 <= j < i ==> (#[trigger] list@[j]) < value,
        decreases n - i,
    {
        i += 1;
    }
    if i < n && list[i] == value {
        return ;
    }
    proof {
        assert forall|j: int| i <= j < list@.len() implies value < (#[trigger] list@[j]) by {
            assert(list@[i as int] <= list@[j]);
        }
    }
    list.insert(i, value);
    proof {
        assert forall|x: int, y: int| 0 <= x < y < list@.len() implies list@[x] < list@[y] by {
            let ii = i as int;
            if x < ii {
                assert(list@[x] == prior[x]);
            } else if x == ii {
            } else {
                assert(list@[x] == prior[x - 1]);
            }
            if y < ii {
                assert(list@[y] == prior[y]);
            } else if y == ii {
            } else {
                assert(list@[y] == prior[y - 1]);
            }
        }
        assert forall|a: usize| #[trigger]
            list@.contains(a) <==> (prior.contains(a) || a == value) by {
            let ii = i as int;
            if list@.contains(a) {
                let t = choose|t: int| 0 <= t < list@.len() && list@[t] == a;
                if t < ii {
                    assert(prior[t] == a);
                } else if t > ii {
                    assert(prior[t - 1] == a);
                }
            }
            if prior.contains(a) {
                let t = choose|t: int| 0 <= t < prior.len() && prior[t] == a;
                if t < ii {
                    assert(list@[t] == a);
                } else {
                    assert(list@[t + 1] == a);
                }
            }
            if a == value {
                assert(list@[ii] == a);
            }
        }
    }
}

/// Locate the pending entry of a node known to be pending.
fn find_id(pending: &Vec<(usize, Vec<usize>)>, id: usize) -> (index: usize)
    requires
        exists|mi: int| 0 <= mi < pending@.len() && (#[trigger] pending@[mi]).0 == id,
    ensures
        index < pending@.len(),
        pending@[index as int].0 == id,
{
    let n = pending.len();
    let mut i: usize = 0;
    while i < n
        invariant
            n == pending@.len(),
            i <= n,
            forall|j: int| 0 <= j < i ==> (#[trigger] pending@[j]).0 != id,
        decreases n - i,
    {
        if pending[i].0 == id {
            return i;
        }
        i += 1;
    }
    proof {
        let mi = choose|mi: int| 0 <= mi < pending@.len() && (#[trigger] pending@[mi]).0 == id;
        assert(false);
    }
    0
}

/// Compute a topological ordering of the graph given by one predecessor
/// list per node, or report one node that lies on a cycle.
///
/// Nodes whose predecessor set is exhausted are kept in a ready pool;
/// finalizing a node erases it from every remaining predecessor set via
/// binary search. Any order in which nodes become ready is acceptable:
/// the result is some linear extension of the predecessor relation.
pub fn kahn(preds: &Vec<Vec<usize>>) -> (result: Result<Vec<usize>, usize>)
    requires
        preds_wf(preds@),
    ensures
        match result {
            Ok(order) => {
                &&& order@.len() == preds@.len()
                &&& order@.no_duplicates()
                &&& forall|j: int| 0 <= j < order@.len() ==> (#[trigger] order@[j]) < preds@.len()
                &&& forall|w: usize| w < preds@.len() ==> #[trigger] order@.contains(w)
                &&& forall|j: int, k: int|
                    0 <= j < order@.len() && 0 <= k < order@.len() && #[trigger] pred_edge(
                        preds@,
                        order@[j] as int,
                        order@[k] as int,
                    ) ==> j < k
            }
            Err(v) => v < preds@.len() && on_cycle(pred_edge_of(preds@), v as int),
        },
{
    let n = preds.len();
    let mut order: Vec<usize> = Vec::new();
    let mut ready: Vec<usize> = Vec::new();
    let mut pending: Vec<(usize, Vec<usize>)> = Vec::new();

    // Partition the nodes into those that start out ready (no
    // predecessors at all) and those that wait for predecessors.
    let mut v: usize = 0;
    while v < n
        invariant
            n == preds@.len(),
            preds_wf(preds@),
            v <= n,
            ready@.len() + pending@.len() == v,
            ready@.no_duplicates(),
            forall|mi: int, mj: int|
                0 <= mi < mj < pending@.len() ==> (#[trigger] pending@[mi]).0 != (
                #[trigger] pending@[mj]).0,
            forall|j: int| 0 <= j < ready@.len() ==> (#[trigger] ready@[j]) < v,
            forall|mi: int| 0 <= mi < pending@.len() ==> (#[trigger] pending@[mi]).0 < v,
            forall|mi: int|
                0 <= mi < pending@.len() ==> !ready@.contains((#[trigger] pending@[mi]).0),
            forall|w: usize|
                w < v ==> #[trigger] ready@.contains(w) || exists|mi: int|
                    0 <= mi < pending@.len() && (#[trigger] pending@[mi]).0 == w,
            forall|j: int|
                0 <= j < ready@.len() ==> preds@[(#[trigger] ready@[j]) as int]@.len() == 0,
            forall|mi: int|
                0 <= mi < pending@.len() ==> pending_entry_inv(
                    preds@,
                    Seq::empty(),
                    #[trigger] pending@[mi],
                ),
        decreases n - v,
    {
        let ghost ready_at_entry = ready@;
        let ghost pending_at_entry = pending@;
        let list = copy_list(&preds[v]);
        if list.len() == 0 {
            ready.push(v);
            proof {
                assert(ready@[ready@.len() - 1] == v);
                assert forall|w: usize|
                    w < v + 1 implies #[trigger] ready@.contains(w) || exists|mi: int|
                        0 <= mi < pending@.len() && (#[trigger] pending@[mi]).0 == w by {
                    if w == v {
                        assert(ready@.contains(v));
                    } else if ready_at_entry.contains(w) {
                        let t = choose|t: int|
                            0 <= t < ready_at_entry.len() && ready_at_entry[t] == w;
                        assert(ready@[t] == w);
                        assert(ready@.contains(w));
                    }
                }
            }
        } else {
            pending.push((v, list));
            proof {
                assert(pending@[pending@.len() - 1].0 == v);
                assert forall|w: usize|
                    w < v + 1 implies #[trigger] ready@.contains(w) || exists|mi: int|
                        0 <= mi < pending@.len() && (#[trigger] pending@[mi]).0 == w by {
                    if w == v {
                        assert(pending@[pending@.len() - 1].0 == w);
                    } else if !ready@.contains(w) {
                        let mi = choose|mi: int|
                            0 <= mi < pending_at_entry.len() && (#[trigger] pending_at_entry[mi]).0
                                == w;
                        assert(pending@[mi] == pending_at_entry[mi]);
                    }
                }
            }
        }
        v += 1;
    }

    // Drain the ready pool; every finalized node is erased from the
    // remaining predecessor sets, which can make further nodes ready.
    while ready.len() > 0
        invariant
            n == preds@.len(),
            preds_wf(preds@),
            order@.len() + ready@.len() + pending@.len() == n,
            order@.no_duplicates(),
            ready@.no_duplicates(),
            forall|mi: int, mj: int|
                0 <= mi < mj < pending@.len() ==> (#[trigger] pending@[mi]).0 != (
                #[trigger] pending@[mj]).0,
            forall|j: int| 0 <= j < order@.len() ==> (#[trigger] order@[j]) < n,
            forall|j: int| 0 <= j < ready@.len() ==> (#[trigger] ready@[j]) < n,
            forall|mi: int| 0 <= mi < pending@.len() ==> (#[trigger] pending@[mi]).0 < n,
            forall|j: int| 0 <= j < ready@.len() ==> !order@.contains(#[trigger] ready@[j]),
            forall|mi: int|
                0 <= mi < pending@.len() ==> !order@.contains((#[trigger] pending@[mi]).0)
                    && !ready@.contains((#[trigger] pending@[mi]).0),
            forall|w: usize|
                w < n ==> #[trigger] order@.contains(w) || #[trigger] ready@.contains(w)
                    || exists|mi: int|
                    0 <= mi < pending@.len() && (#[trigger] pending@[mi]).0 == w,
            forall|j: int|
                0 <= j < ready@.len() ==> preds_done(preds@, #[trigger] ready@[j], order@),
            forall|mi: int|
                0 <= mi < pending@.len() ==> pending_entry_inv(
                    preds@,
                    order@,
                    #[trigger] pending@[mi],
                ),
            forall|k: int|
                0 <= k < order@.len() ==> preds_done(
                    preds@,
                    #[trigger] order@[k],
                    order@.subrange(0, k),
                ),
        decreases ready@.len() + pending@.len(),
    {
        let ghost order_before = order@;
        let ghost ready_before = ready@;
        let x = ready.pop().unwrap();
        order.push(x);
        proof {
            assert(order@.subrange(0, order@.len() - 1) =~= order_before);
            assert forall|w: usize|
                w < n implies #[trigger] order@.contains(w) || #[trigger] ready@.contains(w)
                    || exists|mi: int|
                    0 <= mi < pending@.len() && (#[trigger] pending@[mi]).0 == w by {
                if order_before.contains(w) {
                    assert(order@.contains(w));
                } else if ready_before.contains(w) {
                    let t = choose|t: int| 0 <= t < ready_before.len() && ready_before[t] == w;
                    if t == ready_before.len() - 1 {
                        assert(w == x);
                        assert(order@[order@.len() - 1] == x);
                        assert(order@.contains(w));
                    } else {
                        assert(ready@[t] == w);
                        assert(ready@.contains(w));
                    }
                }
            }
            assert forall|k: int|
                0 <= k < order@.len() implies preds_done(
                preds@,
                #[trigger] order@[k],
                order@.subrange(0, k),
            ) by {
                if k < order@.len() - 1 {
                    assert(order@.subrange(0, k) =~= order_before.subrange(0, k));
                    assert(preds_done(preds@, order_before[k], order_before.subrange(0, k)));
                }
            }
        }

        // Erase `x` from every remaining predecessor set; nodes whose
        // set runs empty are compacted out of the pending region by
        // swap-removal and join the ready pool.
        let mut m: usize = 0;
        while m < pending.len()
            invariant
                n == preds@.len(),
                preds_wf(preds@),
                order@.len() + ready@.len() + pending@.len() == n,
                order@.len() > 0,
                order@[order@.len() - 1] == x,
                order_before == order@.subrange(0, order@.len() - 1),
                order@ == order_before.push(x),
                order@.no_duplicates(),
                ready@.no_duplicates(),
                m <= pending@.len(),
                forall|mi: int, mj: int|
                    0 <= mi < mj < pending@.len() ==> (#[trigger] pending@[mi]).0 != (
                    #[trigger] pending@[mj]).0,
                forall|j: int| 0 <= j < order@.len() ==> (#[trigger] order@[j]) < n,
                forall|j: int| 0 <= j < ready@.len() ==> (#[trigger] ready@[j]) < n,
                forall|mi: int| 0 <= mi < pending@.len() ==> (#[trigger] pending@[mi]).0 < n,
                forall|j: int| 0 <= j < ready@.len() ==> !order@.contains(#[trigger] ready@[j]),
                forall|mi: int|
                    0 <= mi < pending@.len() ==> !order@.contains((#[trigger] pending@[mi]).0)
                        && !ready@.contains((#[trigger] pending@[mi]).0),
                forall|w: usize|
                    w < n ==> #[trigger] order@.contains(w) || #[trigger] ready@.contains(w)
                        || exists|mi: int|
                        0 <= mi < pending@.len() && (#[trigger] pending@[mi]).0 == w,
                forall|j: int|
                    0 <= j < ready@.len() ==> preds_done(preds@, #[trigger] ready@[j], order@),
                forall|mi: int|
                    0 <= mi < m ==> pending_entry_inv(preds@, order@, #[trigger] pending@[mi]),
                forall|mi: int|
                    m <= mi < pending@.len() ==> pending_entry_inv(
                        preds@,
                        order@.subrange(0, order@.len() - 1),
                        #[trigger] pending@[mi],
                    ),
                forall|k: int|
                    0 <= k < order@.len() ==> preds_done(
                        preds@,
                        #[trigger] order@[k],
                        order@.subrange(0, k),
                    ),
            decreases pending@.len() - m,
        {
            let ghost pending_at_entry = pending@;
            let ghost ready_at_entry2 = ready@;
            let ghost entry_before = pending@[m as int];
            let found = binary_search(&pending[m].1, x);
            match found {
                Some(idx) => {
                    proof {
                        lemma_sorted_remove(entry_before.1@, idx as int);
                    }
                    pending[m].1.remove(idx);
                    proof {
                        assert(pending@.len() == pending_at_entry.len());
                        assert forall|mi: int|
                            0 <= mi < pending@.len() implies (#[trigger] pending@[mi]).0
                            == pending_at_entry[mi].0 by {
                            if mi != m {
                                assert(pending@[mi] == pending_at_entry[mi]);
                            }
                        }
                        let entry_now = pending@[m as int];
                        assert forall|a: usize| #[trigger]
                            entry_now.1@.contains(a) <==> (preds@[entry_now.0 as int]@.contains(a)
                                && !order@.contains(a)) by {
                            if entry_now.1@.contains(a) {
                                let j = choose|j: int|
                                    0 <= j < entry_now.1@.len() && entry_now.1@[j] == a;
                                if j < idx {
                                    assert(entry_before.1@[j] == a);
                                } else {
                                    assert(entry_before.1@[j + 1] == a);
                                }
                                assert(entry_before.1@.contains(a));
                                assert(a != x);
                            }
                            if preds@[entry_now.0 as int]@.contains(a) && !order@.contains(a) {
                                assert(!order_before.contains(a));
                                assert(entry_before.1@.contains(a));
                                let j = choose|j: int|
                                    0 <= j < entry_before.1@.len() && entry_before.1@[j] == a;
                                assert(a != x);
                                assert(j != idx);
                                if j < idx {
                                    assert(entry_now.1@[j] == a);
                                } else {
                                    assert(entry_now.1@[j - 1] == a);
                                }
                                assert(entry_now.1@.contains(a));
                            }
                        }
                    }
                    if pending[m].1.len() == 0 {
                        let ghost pending_before = pending@;
                        let ghost ready_before2 = ready@;
                        let entry = pending.swap_remove(m);
                        ready.push(entry.0);
                        proof {
                            assert(ready@[ready@.len() - 1] == entry.0);
                            assert forall|t1: int, t2: int|
                                0 <= t1 < t2 < ready@.len() implies ready@[t1] != ready@[t2] by {
                                if t2 < ready@.len() - 1 {
                                    assert(ready_before2[t1] != ready_before2[t2]);
                                } else {
                                    assert(ready_before2.contains(ready@[t1]));
                                    assert(!ready_before2.contains(entry.0));
                                }
                            }
                            assert forall|w: usize|
                                w < n implies #[trigger] order@.contains(w) || #[trigger] ready@.contains(w)
                                    || exists|mi: int|
                                    0 <= mi < pending@.len() && (#[trigger] pending@[mi]).0 == w by {
                                if !order@.contains(w) {
                                    if ready_before2.contains(w) {
                                        let t = choose|t: int|
                                            0 <= t < ready_before2.len() && ready_before2[t] == w;
                                        assert(ready@[t] == w);
                                        assert(ready@.contains(w));
                                    } else {
                                        assert(ready_at_entry2 == ready_before2);
                                        let mi = choose|mi: int|
                                            0 <= mi < pending_at_entry.len() && (
                                            #[trigger] pending_at_entry[mi]).0 == w;
                                        assert(pending_before[mi].0 == w);
                                        if mi == m {
                                            assert(w == entry.0);
                                            assert(ready@[ready@.len() - 1] == w);
                                            assert(ready@.contains(w));
                                        } else if mi == pending_before.len() - 1 {
                                            if m < pending@.len() {
                                                assert(pending@[m as int].0 == w);
                                            } else {
                                                assert(w == entry.0);
                                                assert(ready@.contains(w));
                                            }
                                        } else {
                                            assert(pending@[mi].0 == w);
                                        }
                                    }
                                }
                            }
                            assert(preds_done(preds@, entry.0, order@)) by {
                                assert forall|j: int|
                                    0 <= j < preds@[entry.0 as int]@.len() implies order@.contains(
                                    #[trigger] preds@[entry.0 as int]@[j],
                                ) by {
                                    let a = preds@[entry.0 as int]@[j];
                                    assert(preds@[entry.0 as int]@.contains(a));
                                    if !order@.contains(a) {
                                        assert(entry.1@.contains(a));
                                        assert(false);
                                    }
                                }
                            }
                        }
                    } else {
                        proof {
                            assert forall|w: usize|
                                w < n implies #[trigger] order@.contains(w) || #[trigger] ready@.contains(w)
                                    || exists|mi: int|
                                    0 <= mi < pending@.len() && (#[trigger] pending@[mi]).0 == w by {
                                if !order@.contains(w) && !ready@.contains(w) {
                                    let mi = choose|mi: int|
                                        0 <= mi < pending_at_entry.len() && (
                                        #[trigger] pending_at_entry[mi]).0 == w;
                                    assert(pending@[mi].0 == w);
                                }
                            }
                        }
                        m += 1;
                    }
                }
                None => {
                    proof {
                        let entry_now = pending@[m as int];
                        assert forall|a: usize| #[trigger]
                            entry_now.1@.contains(a) <==> (preds@[entry_now.0 as int]@.contains(a)
                                && !order@.contains(a)) by {
                            if entry_now.1@.contains(a) {
                                assert(a != x);
                            }
                            if preds@[entry_now.0 as int]@.contains(a) && !order@.contains(a) {
                                assert(!order_before.contains(a));
                            }
                        }
                    }
                    m += 1;
                }
            }
        }
    }

    if pending.is_empty() {
        proof {
            assert forall|w: usize| w < n implies order@.contains(w) by {
                assert(!ready@.contains(w));
            }
            assert forall|j: int, k: int|
                0 <= j < order@.len() && 0 <= k < order@.len() && #[trigger] pred_edge(
                    preds@,
                    order@[j] as int,
                    order@[k] as int,
                ) implies j < k by {
                let a = order@[j];
                let jj = choose|jj: int|
                    0 <= jj < preds@[order@[k] as int]@.len() && preds@[order@[k] as int]@[jj]
                        == a as int;
                assert(preds_done(preds@, order@[k], order@.subrange(0, k)));
                assert(order@.subrange(0, k).contains(a));
                let mm = choose|mm: int|
                    0 <= mm < k && order@.subrange(0, k)[mm] == a;
                assert(order@[mm] == a);
                assert(mm == j);
            }
        }
        Ok(order)
    } else {
        // The ready pool ran dry with nodes still pending: every
        // pending node keeps at least one pending predecessor, so
        // walking predecessor links must revisit a node, which then
        // lies on a cycle.
        let mut chain: Vec<usize> = Vec::new();
        chain.push(pending[0].0);
        proof {
            assert(chain@[0] == pending@[0].0);
            assert forall|w: usize|
                w < n implies #[trigger] order@.contains(w) || exists|mi: int|
                    0 <= mi < pending@.len() && (#[trigger] pending@[mi]).0 == w by {
                if ready@.contains(w) {
                    let t = choose|t: int| 0 <= t < ready@.len() && ready@[t] == w;
                    assert(false);
                }
            }
        }
        loop
            invariant
                n == preds@.len(),
                preds_wf(preds@),
                ready@.len() == 0,
                pending@.len() > 0,
                order@.len() + pending@.len() == n,
                forall|mi: int, mj: int|
                    0 <= mi < mj < pending@.len() ==> (#[trigger] pending@[mi]).0 != (
                    #[trigger] pending@[mj]).0,
                forall|mi: int|
                    0 <= mi < pending@.len() ==> !order@.contains((#[trigger] pending@[mi]).0),
                forall|mi: int| 0 <= mi < pending@.len() ==> (#[trigger] pending@[mi]).0 < n,
                forall|w: usize|
                    w < n ==> #[trigger] order@.contains(w) || exists|mi: int|
                        0 <= mi < pending@.len() && (#[trigger] pending@[mi]).0 == w,
                forall|mi: int|
                    0 <= mi < pending@.len() ==> pending_entry_inv(
                        preds@,
                        order@,
                        #[trigger] pending@[mi],
                    ),
                chain@.len() >= 1,
                chain@.no_duplicates(),
                forall|t: int|
                    0 <= t < chain@.len() ==> exists|mi: int|
                        0 <= mi < pending@.len() && (#[trigger] pending@[mi]).0 == (
                        #[trigger] chain@[t]),
                forall|t: int|
                    0 <= t < chain@.len() - 1 ==> #[trigger] pred_edge(
                        preds@,
                        chain@[t + 1] as int,
                        chain@[t] as int,
                    ),
            decreases pending@.len() - chain@.len(),
        {
            proof {
                let pids = pending@.map_values(|entry: (usize, Vec<usize>)| entry.0);
                assert(pids.no_duplicates());
                assert forall|w: usize| #[trigger] chain@.contains(w) implies pids.contains(w) by {
                    let t = choose|t: int| 0 <= t < chain@.len() && chain@[t] == w;
                    let mi = choose|mi: int|
                        0 <= mi < pending@.len() && (#[trigger] pending@[mi]).0 == w;
                    assert(pids[mi] == w);
                }
                lemma_distinct_within_distinct(chain@, pids);
            }
            let cur = chain[chain.len() - 1];
            let m = find_id(&pending, cur);
            let p = pending[m].1[0];
            proof {
                let entry = pending@[m as int];
                assert(entry.1@.contains(p));
                assert(preds@[cur as int]@.contains(p));
                assert(!order@.contains(p));
                assert(p < n);
                assert(pred_edge(preds@, p as int, cur as int));
            }
            match index_of(&chain, p) {
                Some(j) => {
                    proof {
                        let k = chain@.len() - 1;
                        let jj = j as int;
                        let edge = pred_edge_of(preds@);
                        let path = Seq::new(
                            (k - jj + 2) as nat,
                            |t: int|
                                if t == 0 {
                                    p as int
                                } else {
                                    chain@[k - t + 1] as int
                                },
                        );
                        assert(path.first() == p as int);
                        assert(path.last() == chain@[jj] as int);
                        assert(path.len() >= 2);
                        assert forall|t: int|
                            0 <= t < path.len() - 1 implies #[trigger] edge(
                            path[t],
                            path[t + 1],
                        ) by {
                            if t == 0 {
                                assert(path[1] == chain@[k] as int);
                                assert(pred_edge(preds@, p as int, chain@[k] as int));
                            } else {
                                assert(path[t] == chain@[k - t + 1] as int);
                                assert(path[t + 1] == chain@[k - t] as int);
                                assert(pred_edge(
                                    preds@,
                                    chain@[(k - t) + 1] as int,
                                    chain@[k - t] as int,
                                ));
                            }
                        }
                        assert(is_walk(edge, path));
                        assert(on_cycle(edge, p as int));
                    }
                    return Err(p);
                }
                None => {
                    let ghost chain_before = chain@;
                    chain.push(p);
                    proof {
                        assert forall|t1: int, t2: int|
                            0 <= t1 < t2 < chain@.len() implies chain@[t1] != chain@[t2] by {
                            if t2 < chain@.len() - 1 {
                                assert(chain_before[t1] != chain_before[t2]);
                            } else {
                                assert(chain_before.contains(chain_before[t1]));
                            }
                        }
                        let pids = pending@.map_values(|entry: (usize, Vec<usize>)| entry.0);
                        assert(pids.no_duplicates());
                        assert forall|w: usize| #[trigger]
                            chain@.contains(w) implies pids.contains(w) by {
                            let t = choose|t: int| 0 <= t < chain@.len() && chain@[t] == w;
                            let mi = choose|mi: int|
                                0 <= mi < pending@.len() && (#[trigger] pending@[mi]).0 == w;
                            assert(pids[mi] == w);
                        }
                        lemma_distinct_within_distinct(chain@, pids);
                    }
                }
            }
        }
    }
}

} // verus!
