//! Two-level ordering: tasks first, then groups, then the two merged.
use crate::kahn::{
    counts, edges_within, in_degrees, kahn_order, lemma_kahn_order, pending, successors,
    topological_sort, Edge,
};
use vstd::prelude::*;

verus! {

/// The views of a sequence of vectors.
pub open spec fn rows<T>(v: Seq<Vec<T>>) -> Seq<Seq<T>> {
    Seq::new(v.len(), |i: int| v[i]@)
}

/// Each task's group is either `-1` (none) or one of `0..unique`.
pub open spec fn groups_declared(group: Seq<isize>, unique: nat) -> bool {
    forall|i: int| 0 <= i < group.len() ==> #[trigger] group[i] == -1 || (0 <= group[i] < unique)
}

/// Every dependency names one of the tasks `0..n`.
pub open spec fn deps_within(deps: Seq<Seq<usize>>, n: nat) -> bool {
    forall|i: int, j: int|
        0 <= i < deps.len() && 0 <= j < deps[i].len() ==> #[trigger] deps[i][j] < n
}

/// The task graph: an edge from each dependency to the task that lists it, task by
/// task and in the order in which the dependencies are listed.
pub open spec fn dependency_edges(deps: Seq<Seq<usize>>) -> Seq<Edge>
    decreases deps.len(),
{
    if deps.len() == 0 {
        Seq::empty()
    } else {
        let item = (deps.len() - 1) as usize;
        dependency_edges(deps.drop_last()) + deps.last().map_values(|d: usize| (d, item))
    }
}

/// Walks `order`: a task without a group gets a fresh group numbered after all
/// existing ones, then the task joins the bucket of its group. Returns the final
/// group of each task and the buckets.
pub open spec fn assign_groups(group: Seq<isize>, unique: nat, order: Seq<usize>) -> (Seq<isize>, Seq<
    Seq<isize>,
>)
    decreases order.len(),
{
    if order.len() == 0 {
        (group, Seq::new(unique, |i: int| Seq::<isize>::empty()))
    } else {
        let prev = assign_groups(group, unique, order.drop_last());
        let i = order.last();
        let g = if prev.0[i as int] == -1 {
            prev.0.update(i as int, prev.1.len() as isize)
        } else {
            prev.0
        };
        let b = if prev.0[i as int] == -1 {
            prev.1.push(Seq::empty())
        } else {
            prev.1
        };
        (g, b.update(g[i as int] as int, b[g[i as int] as int].push(i as isize)))
    }
}

/// The group graph: each task edge between two different groups, as an edge
/// between those groups.
pub open spec fn group_edges(edges: Seq<Edge>, group: Seq<isize>) -> Seq<Edge>
    decreases edges.len(),
{
    if edges.len() == 0 {
        Seq::empty()
    } else {
        let prev = group_edges(edges.drop_last(), group);
        let e = edges.last();
        let src = group[e.0 as int] as usize;
        let dst = group[e.1 as int] as usize;
        if src == dst {
            prev
        } else {
            prev.push((src, dst))
        }
    }
}

/// The buckets named by `order`, one after the other.
pub open spec fn merge(buckets: Seq<Seq<isize>>, order: Seq<usize>) -> Seq<isize>
    decreases order.len(),
{
    if order.len() == 0 {
        Seq::empty()
    } else {
        merge(buckets, order.drop_last()) + buckets[order.last() as int]
    }
}

/// The two-level order: the tasks in Kahn order, the groups in Kahn order over the
/// group graph, and the members of each group in task order; empty when either
/// graph has a cycle.
pub open spec fn double_sort(group: Seq<isize>, unique: nat, deps: Seq<Seq<usize>>) -> Seq<isize> {
    let n = group.len();
    let edges = dependency_edges(deps);
    let items = kahn_order(edges, n);
    if items.len() != n {
        Seq::empty()
    } else {
        let a = assign_groups(group, unique, items);
        let order = kahn_order(group_edges(edges, a.0), a.1.len());
        if order.len() != a.1.len() {
            Seq::empty()
        } else {
            merge(a.1, order)
        }
    }
}

/// The edges of the first `item` tasks and the first `j` dependencies of the next.
pub open spec fn edges_upto(deps: Seq<Seq<usize>>, item: int, j: int) -> Seq<Edge> {
    dependency_edges(deps.take(item)) + deps[item].take(j).map_values(|d: usize| (d, item as usize))
}

proof fn lemma_edges_upto(deps: Seq<Seq<usize>>, item: int, j: int)
    requires
        0 <= item < deps.len(),
        0 <= j < deps[item].len(),
        deps.len() <= usize::MAX,
    ensures
        edges_upto(deps, item, j + 1) == edges_upto(deps, item, j).push(
            (deps[item][j], item as usize),
        ),
{
    assert(edges_upto(deps, item, j + 1) =~= edges_upto(deps, item, j).push(
        (deps[item][j], item as usize),
    ));
}

proof fn lemma_edges_next_item(deps: Seq<Seq<usize>>, item: int)
    requires
        0 <= item < deps.len(),
        deps.len() <= usize::MAX,
    ensures
        edges_upto(deps, item, deps[item].len() as int) == dependency_edges(deps.take(item + 1)),
        item + 1 < deps.len() ==> edges_upto(deps, item + 1, 0) == dependency_edges(
            deps.take(item + 1),
        ),
{
    let t = deps.take(item + 1);
    assert(t.drop_last() =~= deps.take(item));
    assert(t.last() == deps[item]);
    assert(deps[item].take(deps[item].len() as int) =~= deps[item]);
    assert(edges_upto(deps, item, deps[item].len() as int) =~= dependency_edges(t));
    if item + 1 < deps.len() {
        assert(edges_upto(deps, item + 1, 0) =~= dependency_edges(t));
    }
}

proof fn lemma_edges_prefix_len(deps: Seq<Seq<usize>>, k: int)
    requires
        0 <= k < deps.len(),
    ensures
        dependency_edges(deps.take(k)).len() + deps[k].len() <= dependency_edges(deps).len(),
    decreases deps.len(),
{
    let rest = deps.drop_last();
    if k == deps.len() - 1 {
        assert(deps.take(k) =~= rest);
    } else {
        lemma_edges_prefix_len(rest, k);
        assert(rest.take(k) =~= deps.take(k));
        assert(rest[k] == deps[k]);
    }
}

pub(crate) proof fn lemma_dependency_edges_within(deps: Seq<Seq<usize>>, n: nat)
    requires
        deps_within(deps, n),
        deps.len() <= n,
    ensures
        edges_within(dependency_edges(deps), n),
    decreases deps.len(),
{
    if deps.len() > 0 {
        let rest = deps.drop_last();
        assert(deps_within(rest, n)) by {
            assert forall|i: int, j: int| 0 <= i < rest.len() && 0 <= j < rest[i].len() implies #[trigger] rest[i][j] < n by {
                assert(rest[i] == deps[i]);
                assert(deps[i][j] < n);
            }
        }
        lemma_dependency_edges_within(rest, n);
        let a = dependency_edges(rest);
        let b = deps.last().map_values(|d: usize| (d, (deps.len() - 1) as usize));
        assert forall|e: int| 0 <= e < (a + b).len() implies (#[trigger] (a + b)[e]).0 < n && (a
            + b)[e].1 < n by {
            if e >= a.len() {
                assert(deps[deps.len() - 1][e - a.len()] < n);
            } else {
                assert(a[e] == (a + b)[e]);
            }
        }
    }
}

proof fn lemma_pending_le(edges: Seq<Edge>, done: Seq<usize>, w: usize)
    ensures
        pending(edges, done, w) <= edges.len(),
    decreases edges.len(),
{
    if edges.len() > 0 {
        lemma_pending_le(edges.drop_last(), done, w);
    }
}

proof fn lemma_pending_push_edge(edges: Seq<Edge>, e: Edge, w: usize)
    ensures
        pending(edges.push(e), Seq::empty(), w) == pending(edges, Seq::empty(), w) + if e.1 == w {
            1nat
        } else {
            0nat
        },
{
    assert(edges.push(e).drop_last() =~= edges);
}

proof fn lemma_successors_push(edges: Seq<Edge>, e: Edge, m: nat)
    ensures
        successors(edges.push(e), m) == successors(edges, m).update(
            e.0 as int,
            successors(edges, m)[e.0 as int].push(e.1),
        ),
{
    assert(edges.push(e).drop_last() =~= edges);
}

proof fn lemma_group_edges_len(edges: Seq<Edge>, group: Seq<isize>)
    ensures
        group_edges(edges, group).len() <= edges.len(),
    decreases edges.len(),
{
    if edges.len() > 0 {
        lemma_group_edges_len(edges.drop_last(), group);
    }
}

/// After the walk, every group number is in range, and the number of buckets grew
/// by at most one per step.
pub(crate) proof fn lemma_assign_groups(group: Seq<isize>, unique: nat, order: Seq<usize>)
    requires
        groups_declared(group, unique),
        forall|k: int| 0 <= k < order.len() ==> (#[trigger] order[k]) < group.len(),
        unique + order.len() <= isize::MAX,
    ensures
        ({
            let a = assign_groups(group, unique, order);
            &&& a.0.len() == group.len()
            &&& unique <= a.1.len() <= unique + order.len()
            &&& groups_declared(a.0, a.1.len())
            &&& forall|k: int| 0 <= k < order.len() ==> a.0[#[trigger] order[k] as int] != -1
            &&& forall|i: int| 0 <= i < group.len() && group[i] != -1 ==> a.0[i] == group[i]
        }),
    decreases order.len(),
{
    if order.len() > 0 {
        let rest = order.drop_last();
        lemma_assign_groups(group, unique, rest);
        let a = assign_groups(group, unique, order);
        assert forall|k: int| 0 <= k < order.len() implies a.0[#[trigger] order[k] as int] != -1 by {
            if k < rest.len() {
                assert(rest[k] == order[k]);
            }
        }
    }
}

/// The group edges join groups of `0..m` when every task has a group there.
pub(crate) proof fn lemma_group_edges_within(edges: Seq<Edge>, group: Seq<isize>, m: nat)
    requires
        edges_within(edges, group.len()),
        forall|i: int| 0 <= i < group.len() ==> 0 <= #[trigger] group[i] < m,
    ensures
        edges_within(group_edges(edges, group), m),
    decreases edges.len(),
{
    if edges.len() > 0 {
        let rest = edges.drop_last();
        assert(edges_within(rest, group.len())) by {
            assert forall|e: int| 0 <= e < rest.len() implies (#[trigger] rest[e]).0 < group.len()
                && rest[e].1 < group.len() by {
                assert(rest[e] == edges[e]);
            }
        }
        lemma_group_edges_within(rest, group, m);
        let e = edges.last();
        assert(e == edges[edges.len() - 1]);
        assert(0 <= group[e.0 as int] < m);
        assert(0 <= group[e.1 as int] < m);
    }
}

/// Every bucket holds task indices of `0..n`.
proof fn lemma_assign_buckets(group: Seq<isize>, unique: nat, order: Seq<usize>, n: nat)
    requires
        forall|k: int| 0 <= k < order.len() ==> (#[trigger] order[k]) < n,
        n == group.len(),
        groups_declared(group, unique),
        unique + order.len() <= isize::MAX,
        n <= isize::MAX,
    ensures
        forall|b: int, t: int|
            0 <= b < assign_groups(group, unique, order).1.len() && 0 <= t < assign_groups(
                group,
                unique,
                order,
            ).1[b].len() ==> 0 <= #[trigger] assign_groups(group, unique, order).1[b][t] < n,
    decreases order.len(),
{
    if order.len() > 0 {
        let rest = order.drop_last();
        lemma_assign_buckets(group, unique, rest, n);
        lemma_assign_groups(group, unique, rest);
        assert(order.last() == order[order.len() - 1]);
        let prev = assign_groups(group, unique, rest);
        let i = order.last();
        let g = if prev.0[i as int] == -1 {
            prev.0.update(i as int, prev.1.len() as isize)
        } else {
            prev.0
        };
        let bb = if prev.0[i as int] == -1 {
            prev.1.push(Seq::empty())
        } else {
            prev.1
        };
        let gi = g[i as int] as int;
        let a = assign_groups(group, unique, order);
        assert(0 <= gi < bb.len());
        assert(a.1 == bb.update(gi, bb[gi].push(i as isize)));
        assert forall|b: int, t: int| 0 <= b < a.1.len() && 0 <= t < a.1[b].len() implies 0
            <= #[trigger] a.1[b][t] < n by {
            if b < prev.1.len() {
                assert(bb[b] == prev.1[b]);
            }
            if b == gi {
                if t < bb[gi].len() {
                    assert(a.1[b][t] == bb[b][t]);
                }
            } else {
                assert(a.1[b] == bb[b]);
            }
        }
    }
}

/// Every element of a merge comes from one of the buckets.
proof fn lemma_merge_range(buckets: Seq<Seq<isize>>, order: Seq<usize>, n: nat)
    requires
        forall|k: int| 0 <= k < order.len() ==> (#[trigger] order[k]) < buckets.len(),
        forall|b: int, t: int|
            0 <= b < buckets.len() && 0 <= t < buckets[b].len() ==> 0 <= #[trigger] buckets[b][t] < n,
    ensures
        forall|k: int| 0 <= k < merge(buckets, order).len() ==> 0 <= #[trigger] merge(buckets, order)[k] < n,
    decreases order.len(),
{
    if order.len() > 0 {
        let rest = order.drop_last();
        lemma_merge_range(buckets, rest, n);
        let b = order.last() as int;
        assert(order.last() == order[order.len() - 1]);
        assert forall|k: int| 0 <= k < merge(buckets, order).len() implies 0 <= #[trigger] merge(buckets, order)[k] < n by {
            let left = merge(buckets, rest);
            if k >= left.len() {
                assert(merge(buckets, order)[k] == buckets[b][k - left.len()]);
            } else {
                assert(merge(buckets, order)[k] == left[k]);
            }
        }
    }
}

/// The two-level order holds task indices of `0..n` only.
pub proof fn lemma_double_sort_range(group: Seq<isize>, unique: nat, deps: Seq<Seq<usize>>)
    requires
        group.len() == deps.len(),
        groups_declared(group, unique),
        deps_within(deps, group.len()),
        unique + group.len() <= isize::MAX,
    ensures
        forall|k: int|
            0 <= k < double_sort(group, unique, deps).len() ==> 0 <= #[trigger] double_sort(
                group,
                unique,
                deps,
            )[k] < group.len(),
{
    let n = group.len();
    let edges = dependency_edges(deps);
    lemma_dependency_edges_within(deps, n);
    lemma_kahn_order(edges, n);
    let items = kahn_order(edges, n);
    if items.len() == n {
        lemma_assign_groups(group, unique, items);
        lemma_assign_buckets(group, unique, items, n);
        let a = assign_groups(group, unique, items);
        assert forall|i: int| 0 <= i < n implies 0 <= #[trigger] a.0[i] < a.1.len() by {
            assert(items.contains(i as usize));
            let t = choose|t: int| 0 <= t < n && items[t] == i as usize;
            assert(a.0[items[t] as int] != -1);
        }
        lemma_group_edges_within(edges, a.0, a.1.len());
        lemma_kahn_order(group_edges(edges, a.0), a.1.len());
        let order = kahn_order(group_edges(edges, a.0), a.1.len());
        if order.len() == a.1.len() {
            lemma_merge_range(a.1, order, n);
        }
    }
}

/// `m` empty successor lists and `m` zero counters.
fn empty_graph(m: usize) -> (r: (Vec<Vec<usize>>, Vec<u32>))
    ensures
        r.0.len() == m,
        r.1.len() == m,
        forall|u: int| 0 <= u < m ==> #[trigger] r.0[u]@ == Seq::<usize>::empty(),
        forall|u: int| 0 <= u < m ==> #[trigger] r.1[u] == 0,
{
    let mut adj: Vec<Vec<usize>> = Vec::new();
    let mut indeg: Vec<u32> = Vec::new();
    let mut k: usize = 0;
    while k < m
        invariant
            k <= m,
            adj.len() == k,
            indeg.len() == k,
            forall|u: int| 0 <= u < k ==> #[trigger] adj[u]@ == Seq::<usize>::empty(),
            forall|u: int| 0 <= u < k ==> #[trigger] indeg[u] == 0,
        decreases m - k,
    {
        adj.push(Vec::new());
        indeg.push(0);
        k += 1;
    }
    (adj, indeg)
}

/// Orders the tasks `0..n` so that each comes after its dependencies and the
/// members of each group stand together, groups ordered by the dependencies
/// between them. `group[i]` is the group of task `i`, or `-1` for a task without
/// one, which then forms a group of its own; `dependent[i]` lists the tasks that
/// task `i` depends on. The result is empty when the tasks or the groups depend on
/// each other in a cycle.
pub fn double_topological_sort(group: Vec<isize>, unique_groups: usize, dependent: Vec<Vec<usize>>) -> (r: Vec<isize>)
    requires
        group.len() == dependent.len(),
        groups_declared(group@, unique_groups as nat),
        deps_within(rows(dependent@), group.len() as nat),
        dependency_edges(rows(dependent@)).len() <= u32::MAX,
        unique_groups + group.len() <= isize::MAX,
    ensures
        r@ == double_sort(group@, unique_groups as nat, rows(dependent@)),
{
    let mut group = group;
    let n = group.len();
    let ghost nn = n as nat;
    let ghost group0 = group@;
    let ghost deps = rows(dependent@);
    let ghost edges = dependency_edges(deps);
    proof {
        assert(deps.take(n as int) =~= deps);
        lemma_dependency_edges_within(deps, nn);
    }
    let (mut adj, mut in_degree) = empty_graph(n);
    proof {
        assert(deps.take(0) =~= Seq::<Seq<usize>>::empty());
        assert(counts(in_degree@) =~= in_degrees(Seq::<Edge>::empty(), nn));
        assert(rows(adj@) =~= successors(Seq::<Edge>::empty(), nn));
    }
    let mut item: usize = 0;
    while item < n
        invariant
            n == group.len(),
            n == dependent.len(),
            nn == n as nat,
            deps == rows(dependent@),
            deps_within(deps, nn),
            edges == dependency_edges(deps),
            edges.len() <= u32::MAX,
            item <= n,
            adj.len() == n,
            in_degree.len() == n,
            rows(adj@) == successors(dependency_edges(deps.take(item as int)), nn),
            counts(in_degree@) == in_degrees(dependency_edges(deps.take(item as int)), nn),
        decreases n - item,
    {
        let deps_i = &dependent[item];
        let mut j: usize = 0;
        proof {
            assert(edges_upto(deps, item as int, 0) =~= dependency_edges(deps.take(item as int)));
            lemma_edges_prefix_len(deps, item as int);
        }
        while j < deps_i.len()
            invariant
                n == dependent.len(),
                nn == n as nat,
                deps == rows(dependent@),
                deps_within(deps, nn),
                item < n,
                deps_i@ == deps[item as int],
                j <= deps_i.len(),
                dependency_edges(deps.take(item as int)).len() + deps_i.len() <= u32::MAX,
                adj.len() == n,
                in_degree.len() == n,
                rows(adj@) == successors(edges_upto(deps, item as int, j as int), nn),
                counts(in_degree@) == in_degrees(edges_upto(deps, item as int, j as int), nn),
            decreases deps_i.len() - j,
        {
            let dep = deps_i[j];
            let ghost before = edges_upto(deps, item as int, j as int);
            proof {
                assert(deps[item as int][j as int] < nn);
                lemma_edges_upto(deps, item as int, j as int);
                lemma_successors_push(before, (dep, item), nn);
                lemma_pending_push_edge(before, (dep, item), item);
                lemma_pending_le(before, Seq::empty(), item);
                assert(counts(in_degree@)[item as int] == in_degree[item as int] as int);
                assert(rows(adj@)[dep as int] == adj[dep as int]@);
            }
            let ghost old_deg = in_degree@;
            adj[dep].push(item);
            in_degree.set(item, in_degree[item] + 1);
            j += 1;
            proof {
                let after = edges_upto(deps, item as int, j as int);
                assert(rows(adj@) =~= successors(after, nn));
                assert forall|w: int| 0 <= w < nn implies counts(in_degree@)[w] == in_degrees(after, nn)[w] by {
                    lemma_pending_push_edge(before, (dep, item), w as usize);
                    assert(counts(old_deg)[w] == old_deg[w] as int);
                }
                assert(counts(in_degree@) =~= in_degrees(after, nn));
            }
        }
        proof {
            lemma_edges_next_item(deps, item as int);
        }
        item += 1;
    }
    let items_ids = topological_sort(adj, in_degree, Ghost(edges));
    proof {
        lemma_kahn_order(edges, nn);
    }
    if items_ids.len() != n {
        return Vec::new();
    }
    let mut groups: Vec<Vec<isize>> = Vec::new();
    let mut k: usize = 0;
    while k < unique_groups
        invariant
            k <= unique_groups,
            groups.len() == k,
            forall|u: int| 0 <= u < k ==> #[trigger] groups[u]@ == Seq::<isize>::empty(),
        decreases unique_groups - k,
    {
        groups.push(Vec::new());
        k += 1;
    }
    proof {
        assert(rows(groups@) =~= assign_groups(group0, unique_groups as nat, items_ids@.take(0)).1);
        assert(group@ =~= assign_groups(group0, unique_groups as nat, items_ids@.take(0)).0);
    }
    let mut k: usize = 0;
    while k < n
        invariant
            n == group.len(),
            nn == n as nat,
            items_ids@.len() == n,
            forall|t: int| 0 <= t < n ==> (#[trigger] items_ids@[t]) < n,
            groups_declared(group0, unique_groups as nat),
            group0.len() == n,
            unique_groups + n <= isize::MAX,
            k <= n,
            group@ == assign_groups(group0, unique_groups as nat, items_ids@.take(k as int)).0,
            rows(groups@) == assign_groups(group0, unique_groups as nat, items_ids@.take(k as int)).1,
        decreases n - k,
    {
        let i = items_ids[k];
        let ghost pre = items_ids@.take(k as int);
        let ghost post = items_ids@.take(k + 1);
        proof {
            assert(post.drop_last() =~= pre);
            assert(post.last() == i);
            lemma_assign_groups(group0, unique_groups as nat, pre);
            lemma_assign_groups(group0, unique_groups as nat, post);
        }
        if group[i] == -1 {
            group.set(i, groups.len() as isize);
            groups.push(Vec::new());
        }
        let gi = group[i] as usize;
        proof {
            assert(rows(groups@)[gi as int] == groups[gi as int]@);
        }
        groups[gi].push(i as isize);
        k += 1;
        proof {
            assert(rows(groups@) =~= assign_groups(group0, unique_groups as nat, post).1);
        }
    }
    let m = groups.len();
    let ghost mm = m as nat;
    let ghost gedges = group_edges(edges, group@);
    proof {
        assert(items_ids@.take(n as int) =~= items_ids@);
        lemma_assign_groups(group0, unique_groups as nat, items_ids@);
        assert forall|i: int| 0 <= i < n implies 0 <= #[trigger] group@[i] < mm by {
            assert(items_ids@.contains(i as usize));
            let t = choose|t: int| 0 <= t < n && items_ids@[t] == i as usize;
            assert(group@[items_ids@[t] as int] != -1);
        }
        lemma_group_edges_within(edges, group@, mm);
        lemma_group_edges_len(edges, group@);
    }
    let (mut group_adj, mut group_in_degree) = empty_graph(m);
    proof {
        assert(group_edges(Seq::<Edge>::empty(), group@) =~= Seq::<Edge>::empty());
        assert(counts(group_in_degree@) =~= in_degrees(Seq::<Edge>::empty(), mm));
        assert(rows(group_adj@) =~= successors(Seq::<Edge>::empty(), mm));
    }
    let mut item: usize = 0;
    while item < n
        invariant
            n == group.len(),
            n == dependent.len(),
            nn == n as nat,
            mm == m as nat,
            deps == rows(dependent@),
            deps_within(deps, nn),
            edges == dependency_edges(deps),
            edges.len() <= u32::MAX,
            forall|i: int| 0 <= i < n ==> 0 <= #[trigger] group@[i] < mm,
            item <= n,
            group_adj.len() == m,
            group_in_degree.len() == m,
            rows(group_adj@) == successors(group_edges(dependency_edges(deps.take(item as int)), group@), mm),
            counts(group_in_degree@) == in_degrees(group_edges(dependency_edges(deps.take(item as int)), group@), mm),
        decreases n - item,
    {
        let deps_i = &dependent[item];
        let mut j: usize = 0;
        proof {
            assert(edges_upto(deps, item as int, 0) =~= dependency_edges(deps.take(item as int)));
            lemma_edges_prefix_len(deps, item as int);
        }
        while j < deps_i.len()
            invariant
                n == group.len(),
                n == dependent.len(),
                nn == n as nat,
                mm == m as nat,
                deps == rows(dependent@),
                deps_within(deps, nn),
                forall|i: int| 0 <= i < n ==> 0 <= #[trigger] group@[i] < mm,
                item < n,
                deps_i@ == deps[item as int],
                j <= deps_i.len(),
                dependency_edges(deps.take(item as int)).len() + deps_i.len() <= u32::MAX,
                group_adj.len() == m,
                group_in_degree.len() == m,
                rows(group_adj@) == successors(group_edges(edges_upto(deps, item as int, j as int), group@), mm),
                counts(group_in_degree@) == in_degrees(group_edges(edges_upto(deps, item as int, j as int), group@), mm),
            decreases deps_i.len() - j,
        {
            let dep = deps_i[j];
            let ghost before = edges_upto(deps, item as int, j as int);
            let ghost gbefore = group_edges(before, group@);
            proof {
                assert(deps[item as int][j as int] < nn);
                lemma_edges_upto(deps, item as int, j as int);
                assert(before.push((dep, item)).drop_last() =~= before);
                assert(0 <= group@[dep as int] < mm);
                assert(0 <= group@[item as int] < mm);
            }
            let src = group[dep] as usize;
            let dst = group[item] as usize;
            if src != dst {
                proof {
                    lemma_successors_push(gbefore, (src, dst), mm);
                    lemma_pending_push_edge(gbefore, (src, dst), dst);
                    lemma_pending_le(gbefore, Seq::empty(), dst);
                    lemma_group_edges_len(before, group@);
                    assert(counts(group_in_degree@)[dst as int] == group_in_degree[dst as int] as int);
                    assert(rows(group_adj@)[src as int] == group_adj[src as int]@);
                }
                let ghost old_deg = group_in_degree@;
                group_adj[src].push(dst);
                group_in_degree.set(dst, group_in_degree[dst] + 1);
                proof {
                    let after = gbefore.push((src, dst));
                    assert(rows(group_adj@) =~= successors(after, mm));
                    assert forall|w: int| 0 <= w < mm implies counts(group_in_degree@)[w] == in_degrees(after, mm)[w] by {
                        lemma_pending_push_edge(gbefore, (src, dst), w as usize);
                        assert(counts(old_deg)[w] == old_deg[w] as int);
                    }
                    assert(counts(group_in_degree@) =~= in_degrees(after, mm));
                }
            }
            j += 1;
        }
        proof {
            lemma_edges_next_item(deps, item as int);
        }
        item += 1;
    }
    proof {
        assert(deps.take(n as int) =~= deps);
    }
    let group_ids = topological_sort(group_adj, group_in_degree, Ghost(gedges));
    proof {
        lemma_kahn_order(gedges, mm);
    }
    if group_ids.len() != m {
        return Vec::new();
    }
    let mut out: Vec<isize> = Vec::new();
    let mut k: usize = 0;
    proof {
        assert(group_ids@.take(0) =~= Seq::<usize>::empty());
    }
    while k < m
        invariant
            group_ids@.len() == m,
            groups.len() == m,
            forall|t: int| 0 <= t < m ==> (#[trigger] group_ids@[t]) < m,
            k <= m,
            out@ == merge(rows(groups@), group_ids@.take(k as int)),
        decreases m - k,
    {
        let bucket = &groups[group_ids[k]];
        let ghost base = out@;
        let mut t: usize = 0;
        while t < bucket.len()
            invariant
                t <= bucket.len(),
                out@ == base + bucket@.take(t as int),
            decreases bucket.len() - t,
        {
            out.push(bucket[t]);
            t += 1;
            proof {
                assert(out@ =~= base + bucket@.take(t as int));
            }
        }
        proof {
            let post = group_ids@.take(k + 1);
            assert(post.drop_last() =~= group_ids@.take(k as int));
            assert(bucket@.take(t as int) =~= bucket@);
            assert(rows(groups@)[group_ids@[k as int] as int] == bucket@);
        }
        k += 1;
    }
    proof {
        assert(group_ids@.take(m as int) =~= group_ids@);
    }
    out
}

} // verus!
