//! Laws of the two-level order: what it holds, in what order, and when it is empty.
use crate::kahn::{kahn_order, lemma_cover, lemma_kahn_complete, lemma_kahn_order, Edge};
use crate::ordering::{
    assign_groups, dependency_edges, deps_within, double_sort, group_edges, groups_declared, merge,
    lemma_assign_groups, lemma_dependency_edges_within, lemma_double_sort_range,
    lemma_group_edges_within,
};
use crate::positions::{first_index, lemma_first_index};
use vstd::prelude::*;

verus! {

/// Where the block of the `k`-th named bucket starts in a merge.
pub open spec fn block_start(buckets: Seq<Seq<isize>>, order: Seq<usize>, k: int) -> nat {
    merge(buckets, order.take(k)).len()
}

proof fn lemma_merge_step(buckets: Seq<Seq<isize>>, order: Seq<usize>, k: int)
    requires
        0 <= k < order.len(),
    ensures
        merge(buckets, order.take(k + 1)) == merge(buckets, order.take(k)) + buckets[order[k] as int],
{
    assert(order.take(k + 1).drop_last() =~= order.take(k));
}

proof fn lemma_merge_prefix(buckets: Seq<Seq<isize>>, order: Seq<usize>, k: int)
    requires
        0 <= k <= order.len(),
    ensures
        merge(buckets, order.take(k)).len() <= merge(buckets, order).len(),
        forall|p: int|
            0 <= p < merge(buckets, order.take(k)).len() ==> #[trigger] merge(buckets, order.take(k))[p]
                == merge(buckets, order)[p],
    decreases order.len() - k,
{
    if k == order.len() {
        assert(order.take(k) =~= order);
    } else {
        lemma_merge_prefix(buckets, order, k + 1);
        lemma_merge_step(buckets, order, k);
        assert forall|p: int| 0 <= p < merge(buckets, order.take(k)).len() implies #[trigger] merge(
            buckets,
            order.take(k),
        )[p] == merge(buckets, order)[p] by {
            assert(merge(buckets, order.take(k + 1))[p] == merge(buckets, order.take(k))[p]);
        }
    }
}

/// The block of the `k`-th named bucket holds that bucket.
proof fn lemma_block(buckets: Seq<Seq<isize>>, order: Seq<usize>, k: int)
    requires
        0 <= k < order.len(),
    ensures
        block_start(buckets, order, k + 1) == block_start(buckets, order, k) + buckets[order[k] as int].len(),
        block_start(buckets, order, k + 1) <= merge(buckets, order).len(),
        forall|t: int|
            0 <= t < buckets[order[k] as int].len() ==> merge(buckets, order)[block_start(buckets, order, k) + t]
                == #[trigger] buckets[order[k] as int][t],
{
    lemma_merge_step(buckets, order, k);
    lemma_merge_prefix(buckets, order, k + 1);
    let s = block_start(buckets, order, k);
    assert forall|t: int| 0 <= t < buckets[order[k] as int].len() implies merge(buckets, order)[s + t]
        == #[trigger] buckets[order[k] as int][t] by {
        assert(merge(buckets, order.take(k + 1))[s + t] == buckets[order[k] as int][t]);
    }
}

/// Block starts grow with `k`.
proof fn lemma_block_monotone(buckets: Seq<Seq<isize>>, order: Seq<usize>, k: int, k2: int)
    requires
        0 <= k <= k2 <= order.len(),
    ensures
        block_start(buckets, order, k) <= block_start(buckets, order, k2),
    decreases k2 - k,
{
    if k < k2 {
        lemma_block_monotone(buckets, order, k, k2 - 1);
        lemma_block(buckets, order, k2 - 1);
    }
}

/// The block that holds position `p` of a merge.
proof fn lemma_block_of(buckets: Seq<Seq<isize>>, order: Seq<usize>, p: int, kk: int) -> (k: int)
    requires
        0 <= kk <= order.len(),
        0 <= p < block_start(buckets, order, kk),
    ensures
        0 <= k < kk,
        block_start(buckets, order, k) <= p < block_start(buckets, order, k + 1),
    decreases kk,
{
    assert(order.take(0) =~= Seq::<usize>::empty());
    lemma_block(buckets, order, kk - 1);
    if p < block_start(buckets, order, kk - 1) {
        lemma_block_of(buckets, order, p, kk - 1)
    } else {
        kk - 1
    }
}

/// Each bucket holds the tasks assigned to its group, in the order in which they
/// were walked, and every walked task is in the bucket of its group.
proof fn lemma_buckets(group: Seq<isize>, unique: nat, order: Seq<usize>)
    requires
        groups_declared(group, unique),
        order.no_duplicates(),
        forall|k: int| 0 <= k < order.len() ==> (#[trigger] order[k]) < group.len(),
        unique + order.len() <= isize::MAX,
        group.len() <= isize::MAX,
    ensures
        ({
            let a = assign_groups(group, unique, order);
            &&& forall|b: int, t: int|
                #![trigger a.1[b][t]]
                0 <= b < a.1.len() && 0 <= t < a.1[b].len() ==> {
                    &&& 0 <= a.1[b][t] < group.len()
                    &&& a.0[a.1[b][t] as int] == b
                    &&& order.contains(a.1[b][t] as usize)
                }
            &&& forall|b: int, t: int, t2: int|
                #![trigger a.1[b][t], a.1[b][t2]]
                0 <= b < a.1.len() && 0 <= t < t2 < a.1[b].len() ==> first_index(
                    order,
                    a.1[b][t] as usize,
                ) < first_index(order, a.1[b][t2] as usize)
            &&& forall|p: int|
                0 <= p < order.len() ==> a.1[a.0[#[trigger] order[p] as int] as int].contains(
                    order[p] as isize,
                )
        }),
    decreases order.len(),
{
    if order.len() > 0 {
        let r = order.drop_last();
        assert(r.no_duplicates()) by {
            assert forall|i: int, j: int| 0 <= i < r.len() && 0 <= j < r.len() && i != j implies r[i] != r[j] by {
                assert(order[i] != order[j]);
            }
        }
        lemma_buckets(group, unique, r);
        lemma_assign_groups(group, unique, r);
        let prev = assign_groups(group, unique, r);
        let x = order.last();
        assert(x == order[order.len() - 1]);
        assert(!r.contains(x)) by {
            if r.contains(x) {
                let i = choose|i: int| 0 <= i < r.len() && r[i] == x;
                assert(order[i] == order[order.len() - 1]);
            }
        }
        lemma_first_index(r, x);
        lemma_first_index(order, x);
        let g = if prev.0[x as int] == -1 {
            prev.0.update(x as int, prev.1.len() as isize)
        } else {
            prev.0
        };
        let bb = if prev.0[x as int] == -1 {
            prev.1.push(Seq::empty())
        } else {
            prev.1
        };
        let gi = g[x as int] as int;
        let a = assign_groups(group, unique, order);
        assert(0 <= gi < bb.len());
        assert(a.1 == bb.update(gi, bb[gi].push(x as isize)));
        assert(a.0 == g);
        assert forall|b: int| 0 <= b < a.1.len() && b != gi implies #[trigger] a.1[b] == bb[b] by {}
        assert forall|b: int| 0 <= b < prev.1.len() implies #[trigger] bb[b] == prev.1[b] by {}
        assert forall|b: int| prev.1.len() <= b < bb.len() implies #[trigger] bb[b].len() == 0 by {}
        // an element already placed stays where it was
        assert forall|b: int, t: int|
            0 <= b < a.1.len() && 0 <= t < a.1[b].len() && !(b == gi && t == bb[gi].len()) implies
            #[trigger] a.1[b][t] == prev.1[b][t] && b < prev.1.len() && t < prev.1[b].len() by {
            if b == gi {
                assert(a.1[b][t] == bb[gi][t]);
            }
        }
        assert forall|y: usize| r.contains(y) implies #[trigger] first_index(order, y) == first_index(r, y) && first_index(r, y) < r.len() by {
            lemma_first_index(r, y);
            assert(order =~= r.push(x));
            crate::positions::lemma_first_index_push(r, x, y);
        }
        assert forall|b: int, t: int|
            #![trigger a.1[b][t]]
            0 <= b < a.1.len() && 0 <= t < a.1[b].len() implies {
                &&& 0 <= a.1[b][t] < group.len()
                &&& a.0[a.1[b][t] as int] == b
                &&& order.contains(a.1[b][t] as usize)
            } by {
            if b == gi && t == bb[gi].len() {
                assert(a.1[b][t] == x as isize);
                assert(order[order.len() - 1] == x);
            } else {
                let y = prev.1[b][t];
                assert(a.1[b][t] == y);
                assert(r.contains(y as usize));
                let i = choose|i: int| 0 <= i < r.len() && r[i] == y as usize;
                assert(order[i] == y as usize);
            }
        }
        assert forall|b: int, t: int, t2: int|
            #![trigger a.1[b][t], a.1[b][t2]]
            0 <= b < a.1.len() && 0 <= t < t2 < a.1[b].len() implies first_index(
                order,
                a.1[b][t] as usize,
            ) < first_index(order, a.1[b][t2] as usize) by {
            let y = prev.1[b][t];
            assert(a.1[b][t] == y);
            assert(r.contains(y as usize));
            if b == gi && t2 == bb[gi].len() {
                assert(a.1[b][t2] == x as isize);
            } else {
                assert(a.1[b][t2] == prev.1[b][t2]);
                assert(r.contains(prev.1[b][t2] as usize));
            }
        }
        assert forall|p: int|
            0 <= p < order.len() implies a.1[a.0[#[trigger] order[p] as int] as int].contains(
                order[p] as isize,
            ) by {
            if p == order.len() - 1 {
                assert(a.1[gi][bb[gi].len() as int] == x as isize);
            } else {
                let y = order[p];
                assert(r[p] == y);
                assert(y != x);
                assert(prev.1[prev.0[r[p] as int] as int].contains(y as isize));
                let b = prev.0[y as int] as int;
                assert(a.0[y as int] == b);
                let t = choose|t: int| 0 <= t < prev.1[b].len() && prev.1[b][t] == y as isize;
                if b == gi {
                    assert(a.1[b][t] == y as isize);
                } else {
                    assert(a.1[b][t] == y as isize);
                }
            }
        }
    }
}

/// A task edge between two groups shows up among the group edges.
proof fn lemma_group_edge(edges: Seq<Edge>, group: Seq<isize>, e: int) -> (f: int)
    requires
        0 <= e < edges.len(),
        group[edges[e].0 as int] as usize != group[edges[e].1 as int] as usize,
    ensures
        0 <= f < group_edges(edges, group).len(),
        group_edges(edges, group)[f] == (
            group[edges[e].0 as int] as usize,
            group[edges[e].1 as int] as usize,
        ),
    decreases edges.len(),
{
    let rest = edges.drop_last();
    let prev = group_edges(rest, group);
    if e == edges.len() - 1 {
        assert(edges.last() == edges[e]);
        prev.len() as int
    } else {
        assert(rest[e] == edges[e]);
        let f = lemma_group_edge(rest, group, e);
        assert(prev.push((group[edges.last().0 as int] as usize, group[edges.last().1 as int] as usize))[f] == prev[f]);
        f
    }
}

/// The task edge that a listed dependency makes.
pub proof fn lemma_dependency_edge(deps: Seq<Seq<usize>>, i: int, j: int) -> (e: int)
    requires
        0 <= i < deps.len(),
        0 <= j < deps[i].len(),
        deps.len() <= usize::MAX,
    ensures
        0 <= e < dependency_edges(deps).len(),
        dependency_edges(deps)[e] == (deps[i][j], i as usize),
    decreases deps.len(),
{
    let rest = deps.drop_last();
    let last = deps.last().map_values(|d: usize| (d, (deps.len() - 1) as usize));
    if i == deps.len() - 1 {
        let e = dependency_edges(rest).len() + j;
        assert(dependency_edges(deps) == dependency_edges(rest) + last);
        assert(dependency_edges(deps)[e] == last[j]);
        e
    } else {
        assert(rest[i] == deps[i]);
        let e = lemma_dependency_edge(rest, i, j);
        assert(dependency_edges(deps)[e] == dependency_edges(rest)[e]);
        e
    }
}

/// The listed dependency that a task edge comes from.
pub proof fn lemma_dependency_edge_source(deps: Seq<Seq<usize>>, e: int) -> (r: (int, int))
    requires
        0 <= e < dependency_edges(deps).len(),
        deps.len() <= usize::MAX,
    ensures
        0 <= r.0 < deps.len(),
        0 <= r.1 < deps[r.0].len(),
        dependency_edges(deps)[e] == (deps[r.0][r.1], r.0 as usize),
    decreases deps.len(),
{
    let rest = deps.drop_last();
    let prev = dependency_edges(rest);
    let last = deps.last().map_values(|d: usize| (d, (deps.len() - 1) as usize));
    assert(dependency_edges(deps) == prev + last);
    if e < prev.len() {
        let r = lemma_dependency_edge_source(rest, e);
        assert(rest[r.0] == deps[r.0]);
        r
    } else {
        assert(dependency_edges(deps)[e] == last[e - prev.len()]);
        (deps.len() - 1, e - prev.len())
    }
}

/// In a sequence without repeats, the first position of an element is its position.
pub proof fn lemma_first_index_unique<T>(s: Seq<T>, p: int)
    requires
        s.no_duplicates(),
        0 <= p < s.len(),
    ensures
        first_index(s, s[p]) == p,
{
    lemma_first_index(s, s[p]);
}

/// The facts on which the laws of the two-level order rest.
pub open spec fn engine_inputs(group: Seq<isize>, unique: nat, deps: Seq<Seq<usize>>) -> bool {
    &&& group.len() == deps.len()
    &&& groups_declared(group, unique)
    &&& deps_within(deps, group.len())
    &&& unique + group.len() <= isize::MAX
}

/// Where task `i` stands in a nonempty two-level order.
proof fn lemma_position(group: Seq<isize>, unique: nat, deps: Seq<Seq<usize>>, i: int) -> (r: (int, int))
    requires
        engine_inputs(group, unique, deps),
        double_sort(group, unique, deps).len() > 0,
        0 <= i < group.len(),
    ensures
        ({
            let items = kahn_order(dependency_edges(deps), group.len());
            let a = assign_groups(group, unique, items);
            let order = kahn_order(group_edges(dependency_edges(deps), a.0), a.1.len());
            &&& 0 <= r.0 < order.len()
            &&& order[r.0] as int == a.0[i]
            &&& 0 <= r.1 < a.1[a.0[i] as int].len()
            &&& a.1[a.0[i] as int][r.1] == i as isize
            &&& block_start(a.1, order, r.0) + r.1 < double_sort(group, unique, deps).len()
            &&& double_sort(group, unique, deps)[block_start(a.1, order, r.0) + r.1] == i as isize
        }),
{
    let n = group.len();
    let edges = dependency_edges(deps);
    lemma_dependency_edges_within(deps, n);
    lemma_kahn_order(edges, n);
    let items = kahn_order(edges, n);
    lemma_assign_groups(group, unique, items);
    lemma_buckets(group, unique, items);
    let a = assign_groups(group, unique, items);
    let m = a.1.len();
    assert forall|x: int| 0 <= x < n implies 0 <= #[trigger] a.0[x] < m by {
        assert(items.contains(x as usize));
        let t = choose|t: int| 0 <= t < n && items[t] == x as usize;
        assert(a.0[items[t] as int] != -1);
    }
    let ge = group_edges(edges, a.0);
    lemma_group_edges_within(edges, a.0, m);
    lemma_kahn_order(ge, m);
    let order = kahn_order(ge, m);
    assert(items.contains(i as usize));
    let p = choose|p: int| 0 <= p < n && items[p] == i as usize;
    assert(a.1[a.0[items[p] as int] as int].contains(items[p] as isize));
    let t = choose|t: int| 0 <= t < a.1[a.0[i] as int].len() && a.1[a.0[i] as int][t] == i as isize;
    assert(order.contains(a.0[i] as usize));
    let k = choose|k: int| 0 <= k < m && order[k] == a.0[i] as usize;
    lemma_block(a.1, order, k);
    (k, t)
}

/// The task order of the engine.
pub open spec fn task_order(group: Seq<isize>, deps: Seq<Seq<usize>>) -> Seq<usize> {
    kahn_order(dependency_edges(deps), group.len())
}

/// The final groups and the buckets.
pub open spec fn assigned(group: Seq<isize>, unique: nat, deps: Seq<Seq<usize>>) -> (Seq<isize>, Seq<
    Seq<isize>,
>) {
    assign_groups(group, unique, task_order(group, deps))
}

/// The group order of the engine.
pub open spec fn group_order(group: Seq<isize>, unique: nat, deps: Seq<Seq<usize>>) -> Seq<usize> {
    kahn_order(
        group_edges(dependency_edges(deps), assigned(group, unique, deps).0),
        assigned(group, unique, deps).1.len(),
    )
}

/// What a nonempty two-level order is made of.
proof fn lemma_engine_facts(group: Seq<isize>, unique: nat, deps: Seq<Seq<usize>>)
    requires
        engine_inputs(group, unique, deps),
        double_sort(group, unique, deps).len() > 0,
    ensures
        ({
            let n = group.len();
            let items = task_order(group, deps);
            let g = assigned(group, unique, deps).0;
            let b = assigned(group, unique, deps).1;
            let order = group_order(group, unique, deps);
            let out = double_sort(group, unique, deps);
            &&& items.len() == n
            &&& items.no_duplicates()
            &&& forall|w: usize| w < n ==> #[trigger] items.contains(w)
            &&& forall|e: int, j: int|
                #![trigger dependency_edges(deps)[e], items[j]]
                0 <= e < dependency_edges(deps).len() && 0 <= j < items.len() && items[j]
                    == dependency_edges(deps)[e].1 ==> exists|i: int|
                    0 <= i < j && #[trigger] items[i] == dependency_edges(deps)[e].0
            &&& g.len() == n
            &&& forall|x: int| 0 <= x < n ==> 0 <= #[trigger] g[x] < b.len()
            &&& forall|bb: int, t: int|
                #![trigger b[bb][t]]
                0 <= bb < b.len() && 0 <= t < b[bb].len() ==> {
                    &&& 0 <= b[bb][t] < n
                    &&& g[b[bb][t] as int] == bb
                }
            &&& forall|bb: int, t: int, t2: int|
                #![trigger b[bb][t], b[bb][t2]]
                0 <= bb < b.len() && 0 <= t < t2 < b[bb].len() ==> first_index(
                    items,
                    b[bb][t] as usize,
                ) < first_index(items, b[bb][t2] as usize)
            &&& order.len() == b.len()
            &&& order.no_duplicates()
            &&& forall|k: int| 0 <= k < order.len() ==> (#[trigger] order[k]) < b.len()
            &&& forall|f: int, k: int|
                #![trigger group_edges(dependency_edges(deps), g)[f], order[k]]
                0 <= f < group_edges(dependency_edges(deps), g).len() && 0 <= k < order.len()
                    && order[k] == group_edges(dependency_edges(deps), g)[f].1 ==> exists|k2: int|
                    0 <= k2 < k && #[trigger] order[k2] == group_edges(dependency_edges(deps), g)[f].0
            &&& out == merge(b, order)
        }),
{
    let n = group.len();
    let edges = dependency_edges(deps);
    let out = double_sort(group, unique, deps);
    lemma_dependency_edges_within(deps, n);
    lemma_kahn_order(edges, n);
    let items = kahn_order(edges, n);
    lemma_assign_groups(group, unique, items);
    lemma_buckets(group, unique, items);
    let a = assign_groups(group, unique, items);
    let g = a.0;
    let b = a.1;
    let m = b.len();
    assert forall|x: int| 0 <= x < n implies 0 <= #[trigger] g[x] < m by {
        assert(items.contains(x as usize));
        let t = choose|t: int| 0 <= t < n && items[t] == x as usize;
        assert(g[items[t] as int] != -1);
    }
    let ge = group_edges(edges, g);
    lemma_group_edges_within(edges, g, m);
    lemma_kahn_order(ge, m);
    let order = kahn_order(ge, m);
    assert(task_order(group, deps) == items);
    assert(assigned(group, unique, deps) == a);
    assert(group_order(group, unique, deps) == order);
    assert(items.len() == n);
    assert(order.len() == m);
    assert(out == merge(b, order));
}

/// Position `y` of a merge lies in the block that `block_of` names.
proof fn lemma_block_at(b: Seq<Seq<isize>>, order: Seq<usize>, y: int)
    requires
        0 <= y < merge(b, order).len(),
    ensures
        0 <= block_of(b, order, y) < order.len(),
        block_start(b, order, block_of(b, order, y)) <= y < block_start(b, order, block_of(b, order, y) + 1),
        0 <= y - block_start(b, order, block_of(b, order, y)) < b[order[block_of(b, order, y)] as int].len(),
        merge(b, order)[y] == b[order[block_of(b, order, y)] as int][y - block_start(b, order, block_of(b, order, y))],
{
    assert(order.take(order.len() as int) =~= order);
    let k = lemma_block_of(b, order, y, order.len() as int);
    lemma_block_of_unique(b, order, y, k);
    lemma_block(b, order, k);
    let t = y - block_start(b, order, k);
    assert(merge(b, order)[block_start(b, order, k) + t] == b[order[k] as int][t]);
}

/// A nonempty two-level order holds each task of `0..n` once.
/// A nonempty two-level order repeats no task.
proof fn lemma_out_distinct(group: Seq<isize>, unique: nat, deps: Seq<Seq<usize>>, x: int, y: int)
    requires
        engine_inputs(group, unique, deps),
        double_sort(group, unique, deps).len() > 0,
        0 <= x < y < double_sort(group, unique, deps).len(),
    ensures
        double_sort(group, unique, deps)[x] != double_sort(group, unique, deps)[y],
{
    let out = double_sort(group, unique, deps);
    lemma_engine_facts(group, unique, deps);
    let items = task_order(group, deps);
    let b = assigned(group, unique, deps).1;
    let g = assigned(group, unique, deps).0;
    let order = group_order(group, unique, deps);
    if out[x] == out[y] {
        lemma_block_at(b, order, x);
        lemma_block_at(b, order, y);
        let kx = block_of(b, order, x);
        let ky = block_of(b, order, y);
        assert(g[out[x] as int] == order[kx] as int);
        assert(g[out[y] as int] == order[ky] as int);
        assert(kx == ky);
        let tx = x - block_start(b, order, kx);
        let ty = y - block_start(b, order, kx);
        let bk = order[kx] as int;
        lemma_block(b, order, kx);
        assert(first_index(items, b[bk][tx] as usize) < first_index(items, b[bk][ty] as usize));
    }
}

/// A nonempty two-level order holds each task of `0..n` once.
proof fn lemma_out_permutation(group: Seq<isize>, unique: nat, deps: Seq<Seq<usize>>)
    requires
        engine_inputs(group, unique, deps),
        double_sort(group, unique, deps).len() > 0,
    ensures
        double_sort(group, unique, deps).len() == group.len(),
        double_sort(group, unique, deps).no_duplicates(),
        forall|i: int|
            0 <= i < group.len() ==> #[trigger] double_sort(group, unique, deps).contains(i as isize),
{
    let n = group.len();
    let out = double_sort(group, unique, deps);
    lemma_double_sort_range(group, unique, deps);
    assert(out.no_duplicates()) by {
        assert forall|x: int, y: int| 0 <= x < out.len() && 0 <= y < out.len() && x != y implies out[x] != out[y] by {
            if x < y {
                lemma_out_distinct(group, unique, deps, x, y);
            } else {
                lemma_out_distinct(group, unique, deps, y, x);
            }
        }
    }
    assert forall|i: int| 0 <= i < n implies #[trigger] out.contains(i as isize) by {
        let r = lemma_position(group, unique, deps, i);
        let b = assigned(group, unique, deps).1;
        let order = group_order(group, unique, deps);
        assert(out[block_start(b, order, r.0) + r.1] == i as isize);
    }
    lemma_covers(out, n);
}

/// In a two-level order every dependency stands before the task that lists it.
proof fn lemma_out_deps_first(group: Seq<isize>, unique: nat, deps: Seq<Seq<usize>>, e: int, y: int)
    requires
        engine_inputs(group, unique, deps),
        0 <= e < dependency_edges(deps).len(),
        0 <= y < double_sort(group, unique, deps).len(),
        double_sort(group, unique, deps)[y] == dependency_edges(deps)[e].1 as isize,
    ensures
        exists|x: int|
            0 <= x < y && #[trigger] double_sort(group, unique, deps)[x] == dependency_edges(deps)[e].0 as isize,
{
    let n = group.len();
    let edges = dependency_edges(deps);
    let out = double_sort(group, unique, deps);
    lemma_engine_facts(group, unique, deps);
    let items = task_order(group, deps);
    let b = assigned(group, unique, deps).1;
    let g = assigned(group, unique, deps).0;
    let order = group_order(group, unique, deps);
    let ge = group_edges(edges, g);
    lemma_dependency_edges_within(deps, n);
    let d = edges[e].0;
    let w = edges[e].1;
    lemma_block_at(b, order, y);
    let ky = block_of(b, order, y);
    let ty = y - block_start(b, order, ky);
    lemma_block(b, order, ky);
    let r = lemma_position(group, unique, deps, d as int);
    let kd = r.0;
    let td = r.1;
    let x = block_start(b, order, kd) + td;
    assert(out[x] == d as isize);
    assert(items.contains(w));
    let j = choose|j: int| 0 <= j < n && items[j] == w;
    let i = choose|i: int| 0 <= i < j && #[trigger] items[i] == edges[e].0;
    lemma_first_index_unique(items, i);
    lemma_first_index_unique(items, j);
    assert(g[out[y] as int] == order[ky] as int);
    if g[d as int] == g[w as int] {
        assert(kd == ky);
        let bk = order[ky] as int;
        assert(b[bk][ty] == w as isize);
        assert(b[bk][td] == d as isize);
        if td > ty {
            assert(first_index(items, b[bk][ty] as usize) < first_index(items, b[bk][td] as usize));
        } else if td == ty {
            assert(d == w);
        }
        assert(x < y);
    } else {
        let f = lemma_group_edge(edges, g, e);
        assert(ge[f] == (g[d as int] as usize, g[w as int] as usize));
        assert(order[ky] == ge[f].1);
        let kd2 = choose|kd2: int| 0 <= kd2 < ky && #[trigger] order[kd2] == ge[f].0;
        assert(kd2 == kd);
        lemma_block(b, order, kd);
        lemma_block_monotone(b, order, kd + 1, ky);
        assert(x < y);
    }
}

/// In a two-level order nothing stands between two members of one final group but
/// members of that group.
proof fn lemma_out_contiguous(group: Seq<isize>, unique: nat, deps: Seq<Seq<usize>>, x: int, y: int, z: int)
    requires
        engine_inputs(group, unique, deps),
        0 <= x < y < z < double_sort(group, unique, deps).len(),
        assigned(group, unique, deps).0[double_sort(group, unique, deps)[x] as int] == assigned(
            group,
            unique,
            deps,
        ).0[double_sort(group, unique, deps)[z] as int],
    ensures
        assigned(group, unique, deps).0[double_sort(group, unique, deps)[y] as int] == assigned(
            group,
            unique,
            deps,
        ).0[double_sort(group, unique, deps)[x] as int],
{
    let out = double_sort(group, unique, deps);
    lemma_engine_facts(group, unique, deps);
    let b = assigned(group, unique, deps).1;
    let g = assigned(group, unique, deps).0;
    let order = group_order(group, unique, deps);
    lemma_block_at(b, order, x);
    lemma_block_at(b, order, y);
    lemma_block_at(b, order, z);
    let kx = block_of(b, order, x);
    let ky = block_of(b, order, y);
    let kz = block_of(b, order, z);
    assert(g[out[x] as int] == order[kx] as int);
    assert(g[out[z] as int] == order[kz] as int);
    assert(g[out[y] as int] == order[ky] as int);
    assert(kx == kz);
    if ky < kx {
        lemma_block_monotone(b, order, ky + 1, kx);
    } else if ky > kx {
        lemma_block_monotone(b, order, kx + 1, ky);
    }
}

/// A nonempty two-level order holds each task once, puts every dependency before
/// the task that lists it, and keeps the members of each final group side by side;
/// a declared group stays the task's final group, and a task without one gets a
/// group numbered after the declared ones.
pub proof fn lemma_double_sort_laws(group: Seq<isize>, unique: nat, deps: Seq<Seq<usize>>)
    requires
        engine_inputs(group, unique, deps),
    ensures
        ({
            let out = double_sort(group, unique, deps);
            let g = assigned(group, unique, deps).0;
            &&& g.len() == group.len()
            &&& forall|i: int| 0 <= i < group.len() && group[i] != -1 ==> #[trigger] g[i] == group[i]
            &&& forall|i: int| 0 <= i < group.len() && group[i] == -1 ==> #[trigger] g[i] == -1 || g[i] >= unique
            &&& forall|k: int| 0 <= k < out.len() ==> 0 <= #[trigger] out[k] < group.len()
            &&& out.len() > 0 ==> {
                &&& out.len() == group.len()
                &&& out.no_duplicates()
                &&& forall|i: int| 0 <= i < group.len() ==> #[trigger] out.contains(i as isize)
            }
            &&& forall|e: int, y: int|
                #![trigger dependency_edges(deps)[e], out[y]]
                0 <= e < dependency_edges(deps).len() && 0 <= y < out.len() && out[y]
                    == dependency_edges(deps)[e].1 as isize ==> exists|x: int|
                    0 <= x < y && #[trigger] out[x] == dependency_edges(deps)[e].0 as isize
            &&& forall|x: int, y: int, z: int|
                #![trigger out[x], out[y], out[z]]
                0 <= x < y < z < out.len() && g[out[x] as int] == g[out[z] as int] ==> g[out[y] as int]
                    == g[out[x] as int]
        }),
{
    let n = group.len();
    let out = double_sort(group, unique, deps);
    let edges = dependency_edges(deps);
    lemma_dependency_edges_within(deps, n);
    lemma_kahn_order(edges, n);
    let items = kahn_order(edges, n);
    lemma_assign_groups(group, unique, items);
    lemma_assign_fresh(group, unique, items);
    lemma_double_sort_range(group, unique, deps);
    if out.len() > 0 {
        lemma_out_permutation(group, unique, deps);
    }
    assert forall|e: int, y: int|
        #![trigger edges[e], out[y]]
        0 <= e < edges.len() && 0 <= y < out.len() && out[y] == edges[e].1 as isize implies exists|x: int|
        0 <= x < y && #[trigger] out[x] == edges[e].0 as isize by {
        lemma_out_deps_first(group, unique, deps, e, y);
    }
    let g = assigned(group, unique, deps).0;
    assert forall|x: int, y: int, z: int|
        #![trigger out[x], out[y], out[z]]
        0 <= x < y < z < out.len() && g[out[x] as int] == g[out[z] as int] implies g[out[y] as int]
            == g[out[x] as int] by {
        lemma_out_contiguous(group, unique, deps, x, y, z);
    }
}

/// The index of the block that holds position `p` of a merge over all of `order`.
pub open spec fn block_of(buckets: Seq<Seq<isize>>, order: Seq<usize>, p: int) -> int {
    choose|k: int|
        0 <= k < order.len() && #[trigger] block_start(buckets, order, k) <= p < block_start(
            buckets,
            order,
            k + 1,
        )
}

proof fn lemma_block_of_unique(buckets: Seq<Seq<isize>>, order: Seq<usize>, p: int, k: int)
    requires
        0 <= k < order.len(),
        block_start(buckets, order, k) <= p < block_start(buckets, order, k + 1),
    ensures
        block_of(buckets, order, p) == k,
{
    let k2 = block_of(buckets, order, p);
    assert(0 <= k2 < order.len() && block_start(buckets, order, k2) <= p < block_start(buckets, order, k2 + 1));
    if k2 < k {
        lemma_block_monotone(buckets, order, k2 + 1, k);
    } else if k2 > k {
        lemma_block_monotone(buckets, order, k + 1, k2);
    }
}

/// Fresh groups are numbered after the declared ones.
proof fn lemma_assign_fresh(group: Seq<isize>, unique: nat, order: Seq<usize>)
    requires
        groups_declared(group, unique),
        forall|k: int| 0 <= k < order.len() ==> (#[trigger] order[k]) < group.len(),
        unique + order.len() <= isize::MAX,
    ensures
        forall|i: int|
            0 <= i < group.len() && group[i] == -1 ==> #[trigger] assign_groups(group, unique, order).0[i]
                == -1 || assign_groups(group, unique, order).0[i] >= unique,
    decreases order.len(),
{
    if order.len() > 0 {
        lemma_assign_fresh(group, unique, order.drop_last());
        lemma_assign_groups(group, unique, order.drop_last());
    }
}

/// Holding each of `0..n` once, and nothing else, takes `n` elements.
proof fn lemma_covers(out: Seq<isize>, n: nat)
    requires
        out.no_duplicates(),
        forall|k: int| 0 <= k < out.len() ==> 0 <= #[trigger] out[k] < n,
        forall|i: int| 0 <= i < n ==> #[trigger] out.contains(i as isize),
        n <= isize::MAX,
    ensures
        out.len() == n,
{
    let o = out.map_values(|v: isize| v as usize);
    assert(o.no_duplicates()) by {
        assert forall|x: int, y: int| 0 <= x < o.len() && 0 <= y < o.len() && x != y implies o[x] != o[y] by {
            assert(out[x] != out[y]);
        }
    }
    assert forall|k: int| 0 <= k < o.len() implies (#[trigger] o[k]) < n by {
        assert(0 <= out[k] < n);
    }
    crate::kahn::lemma_distinct_nodes(o, n);
    assert forall|w: usize| w < n implies #[trigger] o.contains(w) by {
        assert(out.contains(w as isize));
        let k = choose|k: int| 0 <= k < out.len() && out[k] == w as isize;
        assert(o[k] == w);
    }
    lemma_cover(o, n);
}

/// The step after `t` around a cycle of length `len`.
pub open spec fn next(t: int, len: int) -> int {
    if t + 1 < len {
        t + 1
    } else {
        0
    }
}

/// Values cannot grow at every step around a cycle.
pub proof fn lemma_no_rising_cycle(q: Seq<int>)
    requires
        q.len() > 0,
    ensures
        !forall|t: int| 0 <= t < q.len() ==> #[trigger] q[t] < q[next(t, q.len() as int)],
{
    if forall|t: int| 0 <= t < q.len() ==> #[trigger] q[t] < q[next(t, q.len() as int)] {
        lemma_rising(q, q.len() - 1);
        assert(q[q.len() - 1] < q[next(q.len() - 1, q.len() as int)]);
    }
}

proof fn lemma_rising(q: Seq<int>, t: int)
    requires
        q.len() > 0,
        0 <= t < q.len(),
        forall|t: int| 0 <= t < q.len() ==> #[trigger] q[t] < q[next(t, q.len() as int)],
    ensures
        q[0] <= q[t],
    decreases t,
{
    if t > 0 {
        lemma_rising(q, t - 1);
        assert(q[t - 1] < q[next(t - 1, q.len() as int)]);
    }
}

/// Task edges that close a loop through declared groups, each edge joining two
/// different groups and each group entered where the next edge leaves it.
pub open spec fn closes_group_loop(group: Seq<isize>, deps: Seq<Seq<usize>>, c: Seq<int>) -> bool {
    let edges = dependency_edges(deps);
    &&& c.len() > 0
    &&& forall|t: int|
        0 <= t < c.len() ==> {
            &&& 0 <= #[trigger] c[t] < edges.len()
            &&& group[edges[c[t]].0 as int] != -1
            &&& group[edges[c[t]].0 as int] != group[edges[c[t]].1 as int]
            &&& group[edges[c[t]].1 as int] == group[edges[c[next(t, c.len() as int)]].0 as int]
        }
}

/// A task edge between two declared groups puts the first group before the second.
proof fn lemma_group_step(group: Seq<isize>, unique: nat, deps: Seq<Seq<usize>>, e: int)
    requires
        engine_inputs(group, unique, deps),
        double_sort(group, unique, deps).len() > 0,
        0 <= e < dependency_edges(deps).len(),
        group[dependency_edges(deps)[e].0 as int] != -1,
        group[dependency_edges(deps)[e].1 as int] != -1,
        group[dependency_edges(deps)[e].0 as int] != group[dependency_edges(deps)[e].1 as int],
    ensures
        first_index(group_order(group, unique, deps), group[dependency_edges(deps)[e].0 as int] as usize)
            < first_index(group_order(group, unique, deps), group[dependency_edges(deps)[e].1 as int] as usize),
{
    let n = group.len();
    let edges = dependency_edges(deps);
    lemma_dependency_edges_within(deps, n);
    lemma_engine_facts(group, unique, deps);
    lemma_kahn_order(edges, n);
    lemma_assign_groups(group, unique, task_order(group, deps));
    let g = assigned(group, unique, deps).0;
    let order = group_order(group, unique, deps);
    let ge = group_edges(edges, g);
    let src = edges[e].0 as int;
    let dst = edges[e].1 as int;
    assert(g[src] == group[src]);
    assert(g[dst] == group[dst]);
    let f = lemma_group_edge(edges, g, e);
    lemma_group_edges_within(edges, g, assigned(group, unique, deps).1.len());
    lemma_kahn_order(ge, assigned(group, unique, deps).1.len());
    assert(order.contains(ge[f].1));
    let k = choose|k: int| 0 <= k < order.len() && order[k] == ge[f].1;
    let k2 = choose|k2: int| 0 <= k2 < k && #[trigger] order[k2] == ge[f].0;
    lemma_first_index_unique(order, k);
    lemma_first_index_unique(order, k2);
}

/// The two-level order is empty when the groups depend on each other in a loop.
pub proof fn lemma_group_loop_empty(group: Seq<isize>, unique: nat, deps: Seq<Seq<usize>>, c: Seq<int>)
    requires
        engine_inputs(group, unique, deps),
        closes_group_loop(group, deps, c),
    ensures
        double_sort(group, unique, deps).len() == 0,
{
    if double_sort(group, unique, deps).len() > 0 {
        let edges = dependency_edges(deps);
        let order = group_order(group, unique, deps);
        let len = c.len() as int;
        let q = Seq::new(c.len(), |t: int| first_index(order, group[edges[c[t]].0 as int] as usize));
        assert forall|t: int| 0 <= t < q.len() implies #[trigger] q[t] < q[next(t, len)] by {
            let u = next(t, len);
            assert(0 <= c[u] < edges.len());
            lemma_group_step(group, unique, deps, c[t]);
        }
        lemma_no_rising_cycle(q);
    }
}

/// The two-level order is empty when tasks depend on each other in a loop: task
/// `c[t]` lists task `c[t + 1]` among its dependencies, and the last lists the first.
pub proof fn lemma_task_loop_empty(group: Seq<isize>, unique: nat, deps: Seq<Seq<usize>>, c: Seq<int>, at: Seq<int>)
    requires
        engine_inputs(group, unique, deps),
        c.len() > 0,
        c.len() == at.len(),
        forall|t: int|
            0 <= t < c.len() ==> {
                &&& 0 <= #[trigger] c[t] < deps.len()
                &&& 0 <= at[t] < deps[c[t]].len()
                &&& deps[c[t]][at[t]] as int == c[next(t, c.len() as int)]
            },
    ensures
        double_sort(group, unique, deps).len() == 0,
{
    let out = double_sort(group, unique, deps);
    if out.len() > 0 {
        lemma_double_sort_laws(group, unique, deps);
        let len = c.len() as int;
        let q = Seq::new(c.len(), |t: int| -first_index(out, c[t] as isize));
        assert forall|t: int| 0 <= t < q.len() implies #[trigger] q[t] < q[next(t, len)] by {
            let u = next(t, len);
            assert(0 <= c[u] < deps.len());
            let e = lemma_dependency_edge(deps, c[t], at[t]);
            assert(out.contains(c[t] as isize));
            let y = choose|y: int| 0 <= y < out.len() && out[y] == c[t] as isize;
            assert(dependency_edges(deps)[e].1 == c[t] as usize);
            assert(out[y] == dependency_edges(deps)[e].1 as isize);
            let x = choose|x: int| 0 <= x < y && #[trigger] out[x] == dependency_edges(deps)[e].0 as isize;
            lemma_first_index_unique(out, x);
            lemma_first_index_unique(out, y);
        }
        lemma_no_rising_cycle(q);
    }
}

/// A fresh group belongs to one task only.
proof fn lemma_fresh_unique(group: Seq<isize>, unique: nat, order: Seq<usize>)
    requires
        groups_declared(group, unique),
        forall|k: int| 0 <= k < order.len() ==> (#[trigger] order[k]) < group.len(),
        unique + order.len() <= isize::MAX,
    ensures
        forall|i: int, j: int|
            0 <= i < group.len() && 0 <= j < group.len() && i != j && assign_groups(group, unique, order).0[i]
                >= unique ==> #[trigger] assign_groups(group, unique, order).0[i] != #[trigger] assign_groups(
                group,
                unique,
                order,
            ).0[j],
    decreases order.len(),
{
    if order.len() > 0 {
        let r = order.drop_last();
        lemma_fresh_unique(group, unique, r);
        lemma_assign_groups(group, unique, r);
        assert(order.last() == order[order.len() - 1]);
    }
}

/// Every group edge comes from a task edge between two different groups.
proof fn lemma_group_edge_source(edges: Seq<Edge>, group: Seq<isize>, f: int) -> (e: int)
    requires
        0 <= f < group_edges(edges, group).len(),
    ensures
        0 <= e < edges.len(),
        group_edges(edges, group)[f] == (
            group[edges[e].0 as int] as usize,
            group[edges[e].1 as int] as usize,
        ),
        group[edges[e].0 as int] as usize != group[edges[e].1 as int] as usize,
    decreases edges.len(),
{
    let rest = edges.drop_last();
    let prev = group_edges(rest, group);
    if f < prev.len() {
        let e = lemma_group_edge_source(rest, group, f);
        assert(rest[e] == edges[e]);
        let last = edges.last();
        if group[last.0 as int] as usize != group[last.1 as int] as usize {
            assert(group_edges(edges, group) == prev.push((group[last.0 as int] as usize, group[last.1 as int] as usize)));
        }
        e
    } else {
        assert(edges.last() == edges[edges.len() - 1]);
        edges.len() - 1
    }
}

/// A task of group `b`, if there is one.
pub open spec fn member_of(g: Seq<isize>, b: usize) -> int {
    choose|i: int| 0 <= i < g.len() && #[trigger] g[i] == b as isize
}

/// Rankings that witness that neither the tasks nor the groups depend on each
/// other in a loop: each task edge climbs in `task_rank`; tasks of one declared
/// group share a `group_rank`, and an edge that leaves a group climbs in it.
pub open spec fn ranked(
    group: Seq<isize>,
    deps: Seq<Seq<usize>>,
    task_rank: spec_fn(int) -> nat,
    group_rank: spec_fn(int) -> nat,
) -> bool {
    let edges = dependency_edges(deps);
    &&& forall|e: int|
        0 <= e < edges.len() ==> task_rank((#[trigger] edges[e]).0 as int) < task_rank(edges[e].1 as int)
    &&& forall|i: int, j: int|
        0 <= i < group.len() && 0 <= j < group.len() && #[trigger] group[i] != -1 && group[i]
            == #[trigger] group[j] ==> group_rank(i) == group_rank(j)
    &&& forall|e: int|
        0 <= e < edges.len() && !(group[(#[trigger] edges[e]).0 as int] != -1 && group[edges[e].0 as int]
            == group[edges[e].1 as int]) ==> group_rank(edges[e].0 as int) < group_rank(edges[e].1 as int)
}

/// With such rankings the two-level order holds every task.
pub proof fn lemma_double_sort_complete(
    group: Seq<isize>,
    unique: nat,
    deps: Seq<Seq<usize>>,
    task_rank: spec_fn(int) -> nat,
    group_rank: spec_fn(int) -> nat,
)
    requires
        engine_inputs(group, unique, deps),
        ranked(group, deps, task_rank, group_rank),
    ensures
        double_sort(group, unique, deps).len() == group.len(),
{
    let n = group.len();
    let edges = dependency_edges(deps);
    lemma_dependency_edges_within(deps, n);
    lemma_kahn_complete(edges, n, |x: usize| task_rank(x as int));
    lemma_kahn_order(edges, n);
    let items = kahn_order(edges, n);
    lemma_assign_groups(group, unique, items);
    lemma_assign_fresh(group, unique, items);
    lemma_fresh_unique(group, unique, items);
    lemma_buckets(group, unique, items);
    let a = assign_groups(group, unique, items);
    let g = a.0;
    let b = a.1;
    let m = b.len();
    assert forall|x: int| 0 <= x < n implies 0 <= #[trigger] g[x] < m by {
        assert(items.contains(x as usize));
        let t = choose|t: int| 0 <= t < n && items[t] == x as usize;
        assert(g[items[t] as int] != -1);
    }
    let ge = group_edges(edges, g);
    lemma_group_edges_within(edges, g, m);
    // a task shares its group's rank
    assert forall|x: int| 0 <= x < n implies group_rank(#[trigger] member_of(g, g[x] as usize)) == group_rank(x) by {
        assert(g[x] == g[x] as usize as isize);
        let y = member_of(g, g[x] as usize);
        assert(0 <= y < n && g[y] == g[x]);
        if y != x {
            if g[x] >= unique {
            } else {
                assert(group[x] != -1 && group[y] != -1);
                assert(group[x] == group[y]);
            }
        }
    }
    let grank = |c: usize| group_rank(member_of(g, c));
    assert forall|f: int| 0 <= f < ge.len() implies grank((#[trigger] ge[f]).0) < grank(ge[f].1) by {
        let e = lemma_group_edge_source(edges, g, f);
        let d = edges[e].0 as int;
        let w = edges[e].1 as int;
        assert(group_rank(member_of(g, g[d] as usize)) == group_rank(d));
        assert(group_rank(member_of(g, g[w] as usize)) == group_rank(w));
        if group[d] != -1 && group[d] == group[w] {
            assert(g[d] == g[w]);
        }
    }
    lemma_kahn_complete(ge, m, grank);
    lemma_double_sort_range(group, unique, deps);
    let out = double_sort(group, unique, deps);
    if n > 0 {
        lemma_kahn_order(ge, m);
        let order = kahn_order(ge, m);
        assert(items.contains(0usize));
        let p = choose|p: int| 0 <= p < n && items[p] == 0usize;
        assert(b[g[items[p] as int] as int].contains(items[p] as isize));
        let t = choose|t: int| 0 <= t < b[g[0] as int].len() && b[g[0] as int][t] == 0isize;
        assert(order.contains(g[0] as usize));
        let k = choose|k: int| 0 <= k < m && order[k] == g[0] as usize;
        lemma_block(b, order, k);
        assert(out == merge(b, order));
        lemma_out_permutation(group, unique, deps);
    } else if out.len() > 0 {
        assert(0 <= out[0] < n);
    }
}

} // verus!
