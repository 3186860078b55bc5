//! Kahn's algorithm with a first-in first-out queue, over nodes `0..m`
//! given as a list of directed edges.
use std::collections::VecDeque;
use vstd::prelude::*;

verus! {

/// A directed edge `(from, to)`: `from` must come before `to`.
pub type Edge = (usize, usize);

/// Every edge joins two nodes of `0..m`.
pub open spec fn edges_within(edges: Seq<Edge>, m: nat) -> bool {
    forall|e: int| 0 <= e < edges.len() ==> (#[trigger] edges[e]).0 < m && edges[e].1 < m
}

/// Successor lists: each edge appends its target to the list of its source.
pub open spec fn successors(edges: Seq<Edge>, m: nat) -> Seq<Seq<usize>>
    decreases edges.len(),
{
    if edges.len() == 0 {
        Seq::new(m, |i: int| Seq::<usize>::empty())
    } else {
        let adj = successors(edges.drop_last(), m);
        let e = edges.last();
        adj.update(e.0 as int, adj[e.0 as int].push(e.1))
    }
}

/// Number of edges into `w` whose source is not in `done`.
pub open spec fn pending(edges: Seq<Edge>, done: Seq<usize>, w: usize) -> nat
    decreases edges.len(),
{
    if edges.len() == 0 {
        0
    } else {
        let e = edges.last();
        pending(edges.drop_last(), done, w) + if e.1 == w && !done.contains(e.0) {
            1nat
        } else {
            0nat
        }
    }
}

/// In-degree of each node.
pub open spec fn in_degrees(edges: Seq<Edge>, m: nat) -> Seq<int> {
    Seq::new(m, |w: int| pending(edges, Seq::empty(), w as usize) as int)
}

/// Number of occurrences of `w` in `s`.
pub open spec fn occ(s: Seq<usize>, w: usize) -> nat
    decreases s.len(),
{
    if s.len() == 0 {
        0
    } else {
        occ(s.drop_last(), w) + if s.last() == w {
            1nat
        } else {
            0nat
        }
    }
}

/// The nodes among the first `k` whose count is zero, ascending.
pub open spec fn ready(indeg: Seq<int>, k: int) -> Seq<usize>
    decreases k,
{
    if k <= 0 {
        Seq::empty()
    } else {
        let q = ready(indeg, k - 1);
        if indeg[k - 1] == 0 {
            q.push((k - 1) as usize)
        } else {
            q
        }
    }
}

/// Visits the successors of a removed node in order: each count drops by one,
/// and a node whose count reaches zero joins the back of the queue.
pub open spec fn relax(succ: Seq<usize>, indeg: Seq<int>, queue: Seq<usize>) -> (Seq<int>, Seq<
    usize,
>)
    decreases succ.len(),
{
    if succ.len() == 0 {
        (indeg, queue)
    } else {
        let prev = relax(succ.drop_last(), indeg, queue);
        let w = succ.last();
        let d = prev.0.update(w as int, prev.0[w as int] - 1);
        (d, if d[w as int] == 0 {
            prev.1.push(w)
        } else {
            prev.1
        })
    }
}

/// The state of the algorithm: the order so far, the queue of ready nodes,
/// and for each node the number of its incoming edges not yet consumed.
pub struct KahnState {
    pub order: Seq<usize>,
    pub queue: Seq<usize>,
    pub indeg: Seq<int>,
}

/// The state after `k` removals (a removal with an empty queue changes nothing).
pub open spec fn kahn_steps(edges: Seq<Edge>, m: nat, k: nat) -> KahnState
    decreases k,
{
    if k == 0 {
        let d = in_degrees(edges, m);
        KahnState { order: Seq::empty(), queue: ready(d, m as int), indeg: d }
    } else {
        let s = kahn_steps(edges, m, (k - 1) as nat);
        if s.queue.len() == 0 {
            s
        } else {
            let u = s.queue[0];
            let r = relax(successors(edges, m)[u as int], s.indeg, s.queue.drop_first());
            KahnState { order: s.order.push(u), queue: r.1, indeg: r.0 }
        }
    }
}

/// The order in which Kahn's algorithm removes the nodes: the queue starts with the
/// nodes without incoming edges in ascending order, and each removed node releases
/// its successors in the order of its successor list.
pub open spec fn kahn_order(edges: Seq<Edge>, m: nat) -> Seq<usize> {
    kahn_steps(edges, m, m).order
}

pub open spec fn kahn_inv(edges: Seq<Edge>, m: nat, s: KahnState) -> bool {
    &&& s.indeg.len() == m
    &&& forall|i: int| 0 <= i < s.order.len() ==> (#[trigger] s.order[i]) < m
    &&& forall|i: int| 0 <= i < s.queue.len() ==> (#[trigger] s.queue[i]) < m
    &&& (s.order + s.queue).no_duplicates()
    &&& forall|w: usize| w < m ==> s.indeg[w as int] == pending(edges, s.order, w)
    &&& forall|w: usize|
        w < m ==> (s.indeg[w as int] == 0 <==> (s.order + s.queue).contains(w))
    &&& forall|e: int, j: int|
        #![trigger edges[e], s.order[j]]
        0 <= e < edges.len() && 0 <= j < s.order.len() && s.order[j] == edges[e].1 ==> exists|i: int|
            0 <= i < j && #[trigger] s.order[i] == edges[e].0
}

proof fn lemma_occ_take(s: Seq<usize>, j: int, w: usize)
    requires
        0 <= j < s.len(),
    ensures
        occ(s.take(j + 1), w) == occ(s.take(j), w) + if s[j] == w {
            1nat
        } else {
            0nat
        },
{
    assert(s.take(j + 1).drop_last() =~= s.take(j));
}

proof fn lemma_occ_prefix(s: Seq<usize>, j: int, w: usize)
    requires
        0 <= j <= s.len(),
    ensures
        occ(s.take(j), w) <= occ(s, w),
    decreases s.len() - j,
{
    if j < s.len() {
        lemma_occ_take(s, j, w);
        lemma_occ_prefix(s, j + 1, w);
    } else {
        assert(s.take(j) =~= s);
    }
}

proof fn lemma_within_drop_last(edges: Seq<Edge>, m: nat)
    requires
        edges_within(edges, m),
        edges.len() > 0,
    ensures
        edges_within(edges.drop_last(), m),
{
    assert forall|e: int| 0 <= e < edges.len() - 1 implies (#[trigger] edges.drop_last()[e]).0 < m
        && edges.drop_last()[e].1 < m by {
        assert(edges.drop_last()[e] == edges[e]);
    }
}

proof fn lemma_successors_len(edges: Seq<Edge>, m: nat)
    requires
        edges_within(edges, m),
    ensures
        successors(edges, m).len() == m,
    decreases edges.len(),
{
    if edges.len() > 0 {
        lemma_within_drop_last(edges, m);
        lemma_successors_len(edges.drop_last(), m);
    }
}

/// Taking `u` out of the pending sources removes exactly its edges.
proof fn lemma_pending_push(edges: Seq<Edge>, m: nat, done: Seq<usize>, u: usize, w: usize)
    requires
        edges_within(edges, m),
        u < m,
        !done.contains(u),
    ensures
        pending(edges, done.push(u), w) + occ(successors(edges, m)[u as int], w) == pending(
            edges,
            done,
            w,
        ),
    decreases edges.len(),
{
    if edges.len() > 0 {
        let rest = edges.drop_last();
        lemma_within_drop_last(edges, m);
        lemma_pending_push(rest, m, done, u, w);
        lemma_successors_len(rest, m);
        let e = edges.last();
        assert(e == edges[edges.len() - 1]);
        let adj = successors(rest, m);
        if e.0 == u {
            assert(adj[u as int].push(e.1).drop_last() =~= adj[u as int]);
        }
        assert(done.push(u).contains(e.0) <==> done.contains(e.0) || e.0 == u) by {
            if done.push(u).contains(e.0) {
                let k = choose|k: int| 0 <= k < done.push(u).len() && done.push(u)[k] == e.0;
                if k < done.len() {
                    assert(done[k] == e.0);
                }
            }
            if e.0 == u {
                assert(done.push(u)[done.len() as int] == u);
            }
            if done.contains(e.0) {
                let k = choose|k: int| 0 <= k < done.len() && done[k] == e.0;
                assert(done.push(u)[k] == e.0);
            }
        }
    }
}

/// No pending edge into `w`: every edge into `w` comes from `done`.
proof fn lemma_pending_zero(edges: Seq<Edge>, done: Seq<usize>, w: usize)
    requires
        pending(edges, done, w) == 0,
    ensures
        forall|e: int| 0 <= e < edges.len() && (#[trigger] edges[e]).1 == w ==> done.contains(edges[e].0),
    decreases edges.len(),
{
    if edges.len() > 0 {
        let rest = edges.drop_last();
        lemma_pending_zero(rest, done, w);
        assert forall|e: int| 0 <= e < edges.len() && (#[trigger] edges[e]).1 == w implies done.contains(edges[e].0) by {
            if e < rest.len() {
                assert(rest[e] == edges[e]);
            }
        }
    }
}

/// A sequence of distinct nodes of `0..m` has at most `m` elements, and with `m`
/// of them it holds every node.
pub proof fn lemma_distinct_nodes(s: Seq<usize>, m: nat)
    requires
        s.no_duplicates(),
        forall|i: int| 0 <= i < s.len() ==> (#[trigger] s[i]) < m,
    ensures
        s.len() <= m,
        s.len() == m ==> forall|w: usize| w < m ==> s.contains(w),
{
    let t = s.map_values(|x: usize| x as int);
    assert(t.no_duplicates()) by {
        assert forall|i: int, j: int| 0 <= i < t.len() && 0 <= j < t.len() && i != j implies t[i] != t[j] by {
            assert(s[i] != s[j]);
        }
    }
    t.unique_seq_to_set();
    let range = vstd::set_lib::set_int_range(0, m as int);
    vstd::set_lib::lemma_int_range(0, m as int);
    assert(t.to_set().subset_of(range)) by {
        assert forall|x: int| t.to_set().contains(x) implies range.contains(x) by {
            let i = choose|i: int| 0 <= i < t.len() && t[i] == x;
            assert(s[i] < m);
        }
    }
    vstd::set_lib::lemma_len_subset(t.to_set(), range);
    if s.len() == m {
        assert forall|w: usize| w < m implies s.contains(w) by {
            if !s.contains(w) {
                assert(t.to_set().subset_of(range.remove(w as int))) by {
                    assert forall|x: int| t.to_set().contains(x) implies range.remove(w as int).contains(x) by {
                        let i = choose|i: int| 0 <= i < t.len() && t[i] == x;
                        assert(s[i] < m);
                        if x == w as int {
                            assert(s[i] == w);
                        }
                    }
                }
                vstd::set_lib::lemma_len_subset(t.to_set(), range.remove(w as int));
            }
        }
    }
}

proof fn lemma_successors_within(edges: Seq<Edge>, m: nat)
    requires
        edges_within(edges, m),
    ensures
        successors(edges, m).len() == m,
        forall|u: int, i: int|
            0 <= u < m && 0 <= i < successors(edges, m)[u].len() ==> #[trigger] successors(
                edges,
                m,
            )[u][i] < m,
    decreases edges.len(),
{
    lemma_successors_len(edges, m);
    if edges.len() > 0 {
        lemma_within_drop_last(edges, m);
        lemma_successors_within(edges.drop_last(), m);
        assert(edges.last() == edges[edges.len() - 1]);
    }
}

proof fn lemma_ready(indeg: Seq<int>, k: int)
    requires
        0 <= k <= indeg.len(),
        k <= usize::MAX,
    ensures
        ready(indeg, k).no_duplicates(),
        forall|i: int| 0 <= i < ready(indeg, k).len() ==> (#[trigger] ready(indeg, k)[i]) < k,
        forall|w: usize| w < k ==> (indeg[w as int] == 0 <==> ready(indeg, k).contains(w)),
    decreases k,
{
    if k > 0 {
        lemma_ready(indeg, k - 1);
        let q = ready(indeg, k - 1);
        if indeg[k - 1] == 0 {
            assert(q.push((k - 1) as usize)[q.len() as int] == (k - 1) as usize);
            assert forall|w: usize| w < k - 1 && q.push((k - 1) as usize).contains(w) implies q.contains(w) by {
                let qq = q.push((k - 1) as usize);
                let i = choose|i: int| 0 <= i < qq.len() && qq[i] == w;
                assert(i < q.len());
            }
            assert forall|w: usize| w < k - 1 && q.contains(w) implies q.push((k - 1) as usize).contains(w) by {
                let i = choose|i: int| 0 <= i < q.len() && q[i] == w;
                assert(q.push((k - 1) as usize)[i] == w);
            }
        } else {
            if q.contains((k - 1) as usize) {
                let i = choose|i: int| 0 <= i < q.len() && q[i] == (k - 1) as usize;
                assert(q[i] < k - 1);
            }
        }
    }
}

proof fn lemma_kahn_init(edges: Seq<Edge>, m: nat)
    requires
        edges_within(edges, m),
        m <= usize::MAX,
    ensures
        kahn_inv(edges, m, kahn_steps(edges, m, 0)),
{
    let s = kahn_steps(edges, m, 0);
    lemma_ready(in_degrees(edges, m), m as int);
    assert(s.order + s.queue =~= s.queue);
}

/// What holds while the successors of the removed node are visited.
proof fn lemma_relax_inv(edges: Seq<Edge>, m: nat, s: KahnState, j: int)
    requires
        edges_within(edges, m),
        kahn_inv(edges, m, s),
        s.queue.len() > 0,
        0 <= j <= successors(edges, m)[s.queue[0] as int].len(),
    ensures
        ({
            let u = s.queue[0];
            let succ = successors(edges, m)[u as int];
            let r = relax(succ.take(j), s.indeg, s.queue.drop_first());
            let order = s.order.push(u);
            &&& r.0.len() == m
            &&& forall|w: usize|
                w < m ==> r.0[w as int] == pending(edges, order, w) + occ(succ, w) - occ(
                    succ.take(j),
                    w,
                )
            &&& forall|w: usize| w < m ==> (r.0[w as int] == 0 <==> (order + r.1).contains(w))
            &&& (order + r.1).no_duplicates()
            &&& forall|i: int| 0 <= i < r.1.len() ==> (#[trigger] r.1[i]) < m
        }),
    decreases j,
{
    let u = s.queue[0];
    let succ = successors(edges, m)[u as int];
    let order = s.order.push(u);
    let q0 = s.queue.drop_first();
    lemma_successors_within(edges, m);
    assert(order + q0 =~= s.order + s.queue);
    assert(!s.order.contains(u)) by {
        if s.order.contains(u) {
            let i = choose|i: int| 0 <= i < s.order.len() && s.order[i] == u;
            assert((s.order + s.queue)[i] == u);
            assert((s.order + s.queue)[s.order.len() as int] == u);
        }
    }
    if j == 0 {
        assert(succ.take(0) =~= Seq::<usize>::empty());
        assert forall|w: usize| w < m implies s.indeg[w as int] == pending(edges, order, w) + occ(
            succ,
            w,
        ) - occ(succ.take(0), w) by {
            lemma_pending_push(edges, m, s.order, u, w);
        }
    } else {
        lemma_relax_inv(edges, m, s, j - 1);
        let prev = relax(succ.take(j - 1), s.indeg, q0);
        assert(succ.take(j).drop_last() =~= succ.take(j - 1));
        let w = succ[j - 1];
        assert(succ.take(j).last() == w);
        assert(w < m);
        let r = relax(succ.take(j), s.indeg, q0);
        lemma_occ_take(succ, j - 1, w);
        lemma_occ_prefix(succ, j, w);
        assert(prev.0[w as int] >= 1);
        assert forall|x: usize| x < m implies r.0[x as int] == pending(edges, order, x) + occ(
            succ,
            x,
        ) - occ(succ.take(j), x) by {
            lemma_occ_take(succ, j - 1, x);
        }
        assert(!(order + prev.1).contains(w));
        if r.0[w as int] == 0 {
            assert(order + r.1 =~= (order + prev.1).push(w));
            assert forall|x: usize| x < m implies (r.0[x as int] == 0 <==> (order + r.1).contains(
                x,
            )) by {
                if (order + r.1).contains(x) && x != w {
                    let i = choose|i: int| 0 <= i < (order + r.1).len() && (order + r.1)[i] == x;
                    assert((order + prev.1)[i] == x);
                }
                if (order + prev.1).contains(x) {
                    let i = choose|i: int| 0 <= i < (order + prev.1).len() && (order + prev.1)[i] == x;
                    assert((order + r.1)[i] == x);
                }
                assert((order + r.1)[(order + prev.1).len() as int] == w);
            }
        }
    }
}

proof fn lemma_kahn_inv(edges: Seq<Edge>, m: nat, k: nat)
    requires
        edges_within(edges, m),
        m <= usize::MAX,
    ensures
        kahn_inv(edges, m, kahn_steps(edges, m, k)),
        kahn_steps(edges, m, k).order.len() <= k,
        kahn_steps(edges, m, k).order.len() + kahn_steps(edges, m, k).queue.len() <= m,
    decreases k,
{
    lemma_kahn_inv_steps(edges, m, k);
    let s = kahn_steps(edges, m, k);
    assert forall|i: int| 0 <= i < (s.order + s.queue).len() implies #[trigger] (s.order
        + s.queue)[i] < m by {
        if i < s.order.len() {
            assert(s.order[i] < m);
        } else {
            assert(s.queue[i - s.order.len()] < m);
        }
    }
    lemma_distinct_nodes(s.order + s.queue, m);
}

proof fn lemma_kahn_inv_steps(edges: Seq<Edge>, m: nat, k: nat)
    requires
        edges_within(edges, m),
        m <= usize::MAX,
    ensures
        kahn_inv(edges, m, kahn_steps(edges, m, k)),
        kahn_steps(edges, m, k).order.len() <= k,
    decreases k,
{
    if k == 0 {
        lemma_kahn_init(edges, m);
    } else {
        lemma_kahn_inv_steps(edges, m, (k - 1) as nat);
        let s = kahn_steps(edges, m, (k - 1) as nat);
        if s.queue.len() > 0 {
            let u = s.queue[0];
            let succ = successors(edges, m)[u as int];
            lemma_relax_inv(edges, m, s, succ.len() as int);
            assert(succ.take(succ.len() as int) =~= succ);
            let t = kahn_steps(edges, m, k);
            assert((s.order + s.queue).contains(u)) by {
                assert((s.order + s.queue)[s.order.len() as int] == u);
            }
            assert(s.indeg[u as int] == 0);
            assert(pending(edges, s.order, u) == 0);
            lemma_pending_zero(edges, s.order, u);
            assert forall|e: int, j: int|
                #![trigger edges[e], t.order[j]]
                0 <= e < edges.len() && 0 <= j < t.order.len() && t.order[j] == edges[e].1 implies exists|i: int|
                0 <= i < j && #[trigger] t.order[i] == edges[e].0 by {
                if j < s.order.len() {
                    assert(t.order[j] == s.order[j]);
                    let i = choose|i: int| 0 <= i < j && #[trigger] s.order[i] == edges[e].0;
                    assert(t.order[i] == s.order[i]);
                } else {
                    assert(s.order.contains(edges[e].0));
                    let i = choose|i: int| 0 <= i < s.order.len() && s.order[i] == edges[e].0;
                    assert(t.order[i] == s.order[i]);
                }
            }
        }
    }
}

/// Once the queue is empty, nothing changes any more.
proof fn lemma_steps_stable(edges: Seq<Edge>, m: nat, k: nat, k2: nat)
    requires
        k <= k2,
        kahn_steps(edges, m, k).queue.len() == 0,
    ensures
        kahn_steps(edges, m, k2) == kahn_steps(edges, m, k),
    decreases k2,
{
    if k2 > k {
        lemma_steps_stable(edges, m, k, (k2 - 1) as nat);
    }
}

/// The order of Kahn's algorithm has no repeated node, keeps every edge's source
/// before its target, and, when it holds all `m` nodes, holds each of them.
pub proof fn lemma_kahn_order(edges: Seq<Edge>, m: nat)
    requires
        edges_within(edges, m),
        m <= usize::MAX,
    ensures
        kahn_order(edges, m).no_duplicates(),
        kahn_order(edges, m).len() <= m,
        forall|i: int|
            0 <= i < kahn_order(edges, m).len() ==> (#[trigger] kahn_order(edges, m)[i]) < m,
        forall|e: int, j: int|
            #![trigger edges[e], kahn_order(edges, m)[j]]
            0 <= e < edges.len() && 0 <= j < kahn_order(edges, m).len() && kahn_order(edges, m)[j]
                == edges[e].1 ==> exists|i: int|
                0 <= i < j && #[trigger] kahn_order(edges, m)[i] == edges[e].0,
        kahn_order(edges, m).len() == m ==> forall|w: usize|
            w < m ==> #[trigger] kahn_order(edges, m).contains(w),
{
    let s = kahn_steps(edges, m, m);
    lemma_kahn_inv(edges, m, m);
    assert(s.order.no_duplicates()) by {
        assert forall|i: int, j: int| 0 <= i < j < s.order.len() implies s.order[i] != s.order[j] by {
            assert((s.order + s.queue)[i] == s.order[i]);
            assert((s.order + s.queue)[j] == s.order[j]);
        }
    }
    lemma_distinct_nodes(s.order, m);
}

/// Some pending edge into `w` comes from outside `done`.
proof fn lemma_pending_source(edges: Seq<Edge>, done: Seq<usize>, w: usize) -> (e: int)
    requires
        pending(edges, done, w) > 0,
    ensures
        0 <= e < edges.len(),
        edges[e].1 == w,
        !done.contains(edges[e].0),
    decreases edges.len(),
{
    let rest = edges.drop_last();
    if pending(rest, done, w) > 0 {
        let e = lemma_pending_source(rest, done, w);
        assert(rest[e] == edges[e]);
        e
    } else {
        assert(edges.last() == edges[edges.len() - 1]);
        edges.len() - 1
    }
}

proof fn lemma_queue_means_full(edges: Seq<Edge>, m: nat, k: nat)
    requires
        kahn_steps(edges, m, k).queue.len() > 0,
    ensures
        kahn_steps(edges, m, k).order.len() == k,
    decreases k,
{
    if k > 0 {
        let s = kahn_steps(edges, m, (k - 1) as nat);
        if s.queue.len() > 0 {
            lemma_queue_means_full(edges, m, (k - 1) as nat);
        }
    }
}

/// When every edge climbs in `rank`, Kahn's algorithm removes every node.
pub proof fn lemma_kahn_complete(edges: Seq<Edge>, m: nat, rank: spec_fn(usize) -> nat)
    requires
        edges_within(edges, m),
        m <= usize::MAX,
        forall|e: int| 0 <= e < edges.len() ==> rank((#[trigger] edges[e]).0) < rank(edges[e].1),
    ensures
        kahn_order(edges, m).len() == m,
{
    lemma_kahn_inv(edges, m, m);
    let s = kahn_steps(edges, m, m);
    if s.queue.len() > 0 {
        lemma_queue_means_full(edges, m, m);
    }
    assert(s.queue.len() == 0);
    assert(s.order + s.queue =~= s.order);
    assert forall|w: usize| w < m implies s.order.contains(w) by {
        lemma_removed_up_to(edges, m, rank, rank(w), w);
    }
    lemma_kahn_order(edges, m);
    lemma_cover(s.order, m);
}

proof fn lemma_removed_up_to(edges: Seq<Edge>, m: nat, rank: spec_fn(usize) -> nat, v: nat, w: usize)
    requires
        edges_within(edges, m),
        m <= usize::MAX,
        forall|e: int| 0 <= e < edges.len() ==> rank((#[trigger] edges[e]).0) < rank(edges[e].1),
        kahn_inv(edges, m, kahn_steps(edges, m, m)),
        kahn_steps(edges, m, m).queue.len() == 0,
        w < m,
        rank(w) <= v,
    ensures
        kahn_steps(edges, m, m).order.contains(w),
    decreases v,
{
    let s = kahn_steps(edges, m, m);
    assert(s.order + s.queue =~= s.order);
    if !s.order.contains(w) {
        assert(s.indeg[w as int] != 0);
        let e = lemma_pending_source(edges, s.order, w);
        let d = edges[e].0;
        assert(rank(d) < rank(w));
        lemma_removed_up_to(edges, m, rank, (v - 1) as nat, d);
    }
}

/// Holding each node of `0..m` without repeats takes exactly `m` elements.
pub proof fn lemma_cover(s: Seq<usize>, m: nat)
    requires
        s.no_duplicates(),
        s.len() <= m,
        forall|w: usize| w < m ==> #[trigger] s.contains(w),
        m <= usize::MAX,
    ensures
        s.len() == m,
{
    let range = vstd::set_lib::set_int_range(0, m as int);
    vstd::set_lib::lemma_int_range(0, m as int);
    let t = s.map_values(|x: usize| x as int);
    t.lemma_cardinality_of_set();
    assert(range.subset_of(t.to_set())) by {
        assert forall|x: int| range.contains(x) implies t.to_set().contains(x) by {
            assert(s.contains(x as usize));
            let k = choose|k: int| 0 <= k < s.len() && s[k] == x as usize;
            assert(t[k] == x);
        }
    }
    vstd::set_lib::lemma_len_subset(range, t.to_set());
}

pub open spec fn counts(v: Seq<u32>) -> Seq<int> {
    v.map_values(|x: u32| x as int)
}

/// Runs Kahn's algorithm on successor lists `adj` and in-degrees `indeg` that were
/// built from `edges`.
pub(crate) fn topological_sort(adj: Vec<Vec<usize>>, mut indeg: Vec<u32>, Ghost(edges): Ghost<Seq<Edge>>) -> (r: Vec<usize>)
    requires
        adj.len() == indeg.len(),
        edges_within(edges, adj.len() as nat),
        forall|u: int| 0 <= u < adj.len() ==> #[trigger] adj[u]@ == successors(edges, adj.len() as nat)[u],
        counts(indeg@) == in_degrees(edges, adj.len() as nat),
    ensures
        r@ == kahn_order(edges, adj.len() as nat),
{
    let m = adj.len();
    let ghost mm = m as nat;
    let ghost d0 = in_degrees(edges, mm);
    let mut q: VecDeque<usize> = VecDeque::new();
    let mut node: usize = 0;
    while node < m
        invariant
            node <= m,
            m == indeg.len(),
            counts(indeg@) == d0,
            q@ == ready(d0, node as int),
        decreases m - node,
    {
        assert(counts(indeg@)[node as int] == indeg[node as int] as int);
        if indeg[node] == 0 {
            q.push_back(node);
        }
        node += 1;
    }
    let mut ret: Vec<usize> = Vec::new();
    proof {
        lemma_kahn_inv(edges, mm, 0);
        lemma_successors_within(edges, mm);
    }
    loop
        invariant
            m == adj.len(),
            m == indeg.len(),
            mm == m as nat,
            edges_within(edges, mm),
            forall|u: int| 0 <= u < adj.len() ==> #[trigger] adj[u]@ == successors(edges, mm)[u],
            successors(edges, mm).len() == mm,
            ret@.len() <= m,
            kahn_steps(edges, mm, ret@.len()).order == ret@,
            kahn_steps(edges, mm, ret@.len()).queue == q@,
            kahn_steps(edges, mm, ret@.len()).indeg == counts(indeg@),
        ensures
            ret@ == kahn_order(edges, mm),
        decreases m - ret@.len(),
    {
        let ghost k = ret@.len();
        let ghost s = kahn_steps(edges, mm, k);
        proof {
            lemma_kahn_inv(edges, mm, k);
        }
        match q.pop_front() {
            None => {
                proof {
                    lemma_steps_stable(edges, mm, k, mm);
                }
                break;
            },
            Some(u) => {
                ret.push(u);
                let ghost q0 = q@;
                let succ = &adj[u];
                let ghost sq = successors(edges, mm)[u as int];
                let mut j: usize = 0;
                while j < succ.len()
                    invariant
                        m == indeg.len(),
                        mm == m as nat,
                        edges_within(edges, mm),
                        kahn_inv(edges, mm, s),
                        s.queue.len() > 0,
                        u == s.queue[0],
                        q0 == s.queue.drop_first(),
                        succ@ == sq,
                        sq == successors(edges, mm)[u as int],
                        j <= succ.len(),
                        relax(sq.take(j as int), s.indeg, q0).0 == counts(indeg@),
                        relax(sq.take(j as int), s.indeg, q0).1 == q@,
                    decreases succ.len() - j,
                {
                    let w = succ[j];
                    proof {
                        lemma_successors_within(edges, mm);
                        assert(u < m);
                        assert(w < m);
                        lemma_relax_inv(edges, mm, s, j as int);
                        lemma_relax_inv(edges, mm, s, j as int + 1);
                        assert(sq.take(j + 1).drop_last() =~= sq.take(j as int));
                        assert(counts(indeg@)[w as int] == indeg[w as int] as int);
                    }
                    indeg.set(w, indeg[w] - 1);
                    if indeg[w] == 0 {
                        q.push_back(w);
                    }
                    j += 1;
                    proof {
                        assert(counts(indeg@) =~= relax(sq.take(j as int), s.indeg, q0).0);
                    }
                }
                proof {
                    assert(sq.take(j as int) =~= sq);
                    lemma_kahn_inv(edges, mm, k + 1);
                }
            },
        }
    }
    ret
}

} // verus!
