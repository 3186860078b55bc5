//! Properties of the orderings that the registry produces.
use crate::order_laws::{
    assigned, closes_group_loop, engine_inputs, lemma_dependency_edge,
    lemma_dependency_edge_source, lemma_double_sort_complete, lemma_double_sort_laws,
    lemma_first_index_unique, lemma_group_loop_empty, lemma_task_loop_empty, next, ranked,
};
use crate::ordering::{dependency_edges, double_sort};
use crate::positions::{first_index, lemma_first_index};
use crate::registry::{
    bucket_of, fits, grouped, ids_of, labels_in, labels_of, lemma_bucket_of_push,
    lemma_engine_inputs, lemma_labels_of, lemma_missing_dep, missing_dep, sorted_indices,
    sorted_tasks, virtual_deps, virtual_groups, GroupView, TaskView,
};
use vstd::prelude::*;

verus! {

/// Every dependency resolves and the registry fits the machine's integers.
pub open spec fn sortable(tasks: Seq<TaskView>) -> bool {
    &&& fits(tasks)
    &&& missing_dep(tasks, tasks.len() as int) is None
}

proof fn lemma_engine(tasks: Seq<TaskView>)
    requires
        sortable(tasks),
    ensures
        engine_inputs(virtual_groups(tasks), labels_of(tasks).len(), virtual_deps(tasks)),
{
    lemma_engine_inputs(tasks);
}

/// A nonempty sorted order holds every task of the registry exactly once.
pub proof fn lemma_sort_holds_each_task_once(tasks: Seq<TaskView>)
    requires
        sortable(tasks),
        sorted_tasks(tasks).len() > 0,
    ensures
        sorted_indices(tasks).len() == tasks.len(),
        sorted_indices(tasks).no_duplicates(),
        forall|i: int| 0 <= i < tasks.len() ==> #[trigger] sorted_indices(tasks).contains(i as isize),
        forall|k: int| 0 <= k < sorted_tasks(tasks).len() ==> #[trigger] sorted_tasks(tasks)[k]
            == tasks[sorted_indices(tasks)[k] as int],
{
    lemma_engine(tasks);
    lemma_double_sort_laws(virtual_groups(tasks), labels_of(tasks).len(), virtual_deps(tasks));
}

/// Some task before position `y` of `out` has identity `id`.
pub open spec fn appears_before(out: Seq<TaskView>, y: int, id: u64) -> bool {
    exists|x: int| 0 <= x < y && (#[trigger] out[x]).id == id
}

/// Each dependency of each task in `out` is the identity of a task before it.
pub open spec fn dependencies_first(out: Seq<TaskView>) -> bool {
    forall|y: int, j: int|
        #![trigger out[y].deps[j]]
        0 <= y < out.len() && 0 <= j < out[y].deps.len() ==> appears_before(out, y, out[y].deps[j])
}

/// Each dependency of a task stands strictly before the task in the sorted order.
pub proof fn lemma_dependencies_first(tasks: Seq<TaskView>)
    requires
        sortable(tasks),
    ensures
        dependencies_first(sorted_tasks(tasks)),
{
    let out = sorted_tasks(tasks);
    assert forall|y: int, j: int|
        #![trigger out[y].deps[j]]
        0 <= y < out.len() && 0 <= j < out[y].deps.len() implies appears_before(out, y, out[y].deps[j]) by {
        let x = lemma_dependency_witness(tasks, y, j);
        assert(out[x].id == out[y].deps[j]);
    }
}

proof fn lemma_dependency_witness(tasks: Seq<TaskView>, y: int, j: int) -> (x: int)
    requires
        sortable(tasks),
        0 <= y < sorted_tasks(tasks).len(),
        0 <= j < sorted_tasks(tasks)[y].deps.len(),
    ensures
        0 <= x < y,
        sorted_tasks(tasks)[x].id == sorted_tasks(tasks)[y].deps[j],
{
    let n = tasks.len();
    let vg = virtual_groups(tasks);
    let vd = virtual_deps(tasks);
    let l = labels_of(tasks).len();
    let r = sorted_indices(tasks);
    let out = sorted_tasks(tasks);
    lemma_engine(tasks);
    lemma_double_sort_laws(vg, l, vd);
    lemma_missing_dep(tasks, n as int);
    let i = r[y] as int;
    assert(0 <= r[y] < n);
    assert(out[y] == tasks[i]);
    let dep = tasks[i].deps[j];
    lemma_first_index(ids_of(tasks), dep);
    let d = first_index(ids_of(tasks), dep);
    assert(vd[i][j] == d as usize);
    let e = lemma_dependency_edge(vd, i, j);
    let edges = dependency_edges(vd);
    assert(r[y] == edges[e].1 as isize);
    let x = choose|x: int| 0 <= x < y && #[trigger] r[x] == edges[e].0 as isize;
    assert(out[x] == tasks[d]);
    assert(ids_of(tasks)[d] == tasks[d].id);
    x
}

/// The task that identity `id` names: the first one that carries it.
pub open spec fn resolve(tasks: Seq<TaskView>, id: u64) -> int {
    first_index(ids_of(tasks), id)
}

/// Rankings that witness that neither the tasks nor their groups depend on each
/// other in a loop: each dependency ranks below its task in `task_rank`; tasks with
/// one label share a `group_rank`, and a dependency from outside the task's group
/// ranks below the task there.
pub open spec fn acyclic(tasks: Seq<TaskView>, task_rank: spec_fn(int) -> nat, group_rank: spec_fn(int) -> nat) -> bool {
    &&& forall|i: int, j: int|
        0 <= i < tasks.len() && 0 <= j < tasks.len() && (#[trigger] tasks[i]).group is Some
            && tasks[i].group == (#[trigger] tasks[j]).group ==> group_rank(i) == group_rank(j)
    &&& forall|w: int, k: int|
        #![trigger tasks[w].deps[k]]
        0 <= w < tasks.len() && 0 <= k < tasks[w].deps.len() ==> {
            let d = resolve(tasks, tasks[w].deps[k]);
            &&& task_rank(d) < task_rank(w)
            &&& !(tasks[d].group is Some && tasks[d].group == tasks[w].group) ==> group_rank(d)
                < group_rank(w)
        }
}

/// On an acyclic registry the sorted order holds every task; with the two laws
/// above, each task then comes after all of its dependencies.
pub proof fn lemma_acyclic_sorts_every_task(
    tasks: Seq<TaskView>,
    task_rank: spec_fn(int) -> nat,
    group_rank: spec_fn(int) -> nat,
)
    requires
        sortable(tasks),
        acyclic(tasks, task_rank, group_rank),
    ensures
        sorted_tasks(tasks).len() == tasks.len(),
{
    let n = tasks.len();
    let vg = virtual_groups(tasks);
    let vd = virtual_deps(tasks);
    let labels = labels_of(tasks);
    let edges = dependency_edges(vd);
    lemma_engine(tasks);
    lemma_labels_of(tasks);
    lemma_missing_dep(tasks, n as int);
    assert forall|i: int| 0 <= i < n && #[trigger] tasks[i].group is Some implies vg[i] == first_index(labels, tasks[i].group->0)
        && 0 <= vg[i] && labels[vg[i] as int] == tasks[i].group->0 by {
        lemma_first_index(labels, tasks[i].group->0);
    }
    assert forall|e: int| 0 <= e < edges.len() implies {
        let d = (#[trigger] edges[e]).0 as int;
        let w = edges[e].1 as int;
        &&& task_rank(d) < task_rank(w)
        &&& !(vg[d] != -1 && vg[d] == vg[w]) ==> group_rank(d) < group_rank(w)
    } by {
        let (w, k) = lemma_dependency_edge_source(vd, e);
        let dep = tasks[w].deps[k];
        lemma_first_index(ids_of(tasks), dep);
        let d = resolve(tasks, dep);
        assert(edges[e] == (d as usize, w as usize));
        assert(0 <= d < n);
        if tasks[d].group is Some && tasks[d].group == tasks[w].group {
            assert(tasks[d].group is Some);
        } else if tasks[d].group is Some && tasks[w].group is Some {
            assert(tasks[d].group->0 != tasks[w].group->0);
        }
    }
    assert forall|i: int, j: int|
        0 <= i < n && 0 <= j < n && #[trigger] vg[i] != -1 && vg[i] == #[trigger] vg[j] implies group_rank(i) == group_rank(j) by {
        assert(tasks[i].group is Some && tasks[j].group is Some);
    }
    assert(ranked(vg, vd, task_rank, group_rank));
    lemma_double_sort_complete(vg, labels.len(), vd, task_rank, group_rank);
}

/// Between two tasks with one label, `flat` holds only tasks with that label.
pub open spec fn labels_contiguous(flat: Seq<TaskView>) -> bool {
    forall|x: int, y: int, z: int|
        0 <= x < y < z < flat.len() && (#[trigger] flat[x]).group is Some && flat[x].group == (
        #[trigger] flat[z]).group ==> (#[trigger] flat[y]).group == flat[x].group
}

/// Between two tasks of one group the sorted order holds only tasks of that group.
pub proof fn lemma_groups_together(tasks: Seq<TaskView>)
    requires
        sortable(tasks),
    ensures
        labels_contiguous(sorted_tasks(tasks)),
{
    let n = tasks.len();
    let vg = virtual_groups(tasks);
    let vd = virtual_deps(tasks);
    let labels = labels_of(tasks);
    let l = labels.len();
    let r = sorted_indices(tasks);
    let out = sorted_tasks(tasks);
    let g = assigned(vg, l, vd).0;
    lemma_engine(tasks);
    lemma_double_sort_laws(vg, l, vd);
    lemma_labels_of(tasks);
    assert forall|x: int, y: int, z: int|
        0 <= x < y < z < out.len() && (#[trigger] out[x]).group is Some && out[x].group == (
        #[trigger] out[z]).group implies (#[trigger] out[y]).group == out[x].group by {
        let (ix, iy, iz) = (r[x] as int, r[y] as int, r[z] as int);
        assert(0 <= r[x] < n && 0 <= r[y] < n && 0 <= r[z] < n);
        assert(out[x] == tasks[ix] && out[y] == tasks[iy] && out[z] == tasks[iz]);
        let label = tasks[ix].group->0;
        assert(labels.contains(tasks[ix].group->0));
        lemma_first_index(labels, label);
        let c = first_index(labels, label);
        assert(vg[ix] == c && vg[iz] == c);
        assert(g[ix] == vg[ix] && g[iz] == vg[iz]);
        assert(g[r[y] as int] == g[r[x] as int]);
        if tasks[iy].group is Some {
            assert(labels.contains(tasks[iy].group->0));
            lemma_first_index(labels, tasks[iy].group->0);
            assert(g[iy] == vg[iy]);
        } else {
            assert(vg[iy] == -1);
        }
    }
}

/// Tasks `c[0], c[1], ...` each list the identity of the next, and the last lists
/// that of the first.
pub open spec fn dependency_loop(tasks: Seq<TaskView>, c: Seq<int>) -> bool {
    &&& c.len() > 0
    &&& forall|t: int|
        0 <= t < c.len() ==> 0 <= #[trigger] c[t] < tasks.len() && tasks[c[t]].deps.contains(
            tasks[c[next(t, c.len() as int)]].id,
        )
}

/// No two tasks share an identity.
pub open spec fn distinct_ids(tasks: Seq<TaskView>) -> bool {
    ids_of(tasks).no_duplicates()
}

/// Tasks that depend on each other in a loop leave the sorted order empty.
pub proof fn lemma_task_cycle_empty(tasks: Seq<TaskView>, c: Seq<int>)
    requires
        sortable(tasks),
        distinct_ids(tasks),
        dependency_loop(tasks, c),
    ensures
        sorted_tasks(tasks).len() == 0,
{
    let vg = virtual_groups(tasks);
    let vd = virtual_deps(tasks);
    let l = labels_of(tasks).len();
    let len = c.len() as int;
    lemma_engine(tasks);
    let at = Seq::new(
        c.len(),
        |t: int|
            choose|j: int|
                0 <= j < tasks[c[t]].deps.len() && tasks[c[t]].deps[j] == tasks[c[next(t, len)]].id,
    );
    assert forall|t: int| 0 <= t < c.len() implies {
        &&& 0 <= #[trigger] c[t] < vd.len()
        &&& 0 <= at[t] < vd[c[t]].len()
        &&& vd[c[t]][at[t]] as int == c[next(t, len)]
    } by {
        let u = next(t, len);
        assert(0 <= c[u] < tasks.len());
        assert(tasks[c[t]].deps.contains(tasks[c[u]].id));
        let j = at[t];
        lemma_first_index_unique(ids_of(tasks), c[u]);
        assert(ids_of(tasks)[c[u]] == tasks[c[u]].id);
    }
    lemma_task_loop_empty(vg, l, vd, c, at);
}

/// Pairs `(from, to)`: task `to` lists the identity of task `from`, the two carry
/// different labels, and `to` carries the label of the next pair's `from`.
pub open spec fn group_loop(tasks: Seq<TaskView>, c: Seq<(int, int)>) -> bool {
    &&& c.len() > 0
    &&& forall|t: int|
        0 <= t < c.len() ==> {
            &&& 0 <= (#[trigger] c[t]).0 < tasks.len()
            &&& 0 <= c[t].1 < tasks.len()
            &&& tasks[c[t].1].deps.contains(tasks[c[t].0].id)
            &&& tasks[c[t].0].group is Some
            &&& tasks[c[t].1].group is Some
            &&& tasks[c[t].0].group != tasks[c[t].1].group
            &&& tasks[c[t].1].group == tasks[c[next(t, c.len() as int)].0].group
        }
}

/// Groups that depend on each other in a loop leave the sorted order empty, even
/// where the tasks themselves form no loop.
#[verifier::rlimit(40)]
pub proof fn lemma_group_cycle_empty(tasks: Seq<TaskView>, c: Seq<(int, int)>)
    requires
        sortable(tasks),
        distinct_ids(tasks),
        group_loop(tasks, c),
    ensures
        sorted_tasks(tasks).len() == 0,
{
    let n = tasks.len();
    let vg = virtual_groups(tasks);
    let vd = virtual_deps(tasks);
    let labels = labels_of(tasks);
    let l = labels.len();
    let edges = dependency_edges(vd);
    let len = c.len() as int;
    lemma_engine(tasks);
    lemma_labels_of(tasks);
    let ce = Seq::new(
        c.len(),
        |t: int|
            choose|e: int|
                0 <= e < edges.len() && edges[e] == (c[t].0 as usize, c[t].1 as usize),
    );
    assert forall|t: int| 0 <= t < c.len() implies #[trigger] edges[ce[t]] == (c[t].0 as usize, c[t].1 as usize)
        && 0 <= ce[t] < edges.len() by {
        let (from, to) = c[t];
        let j = choose|j: int| 0 <= j < tasks[to].deps.len() && tasks[to].deps[j] == tasks[from].id;
        lemma_first_index_unique(ids_of(tasks), from);
        assert(ids_of(tasks)[from] == tasks[from].id);
        assert(vd[to][j] == from as usize);
        let e = lemma_dependency_edge(vd, to, j);
    }
    assert forall|t: int| 0 <= t < ce.len() implies {
        &&& 0 <= #[trigger] ce[t] < edges.len()
        &&& vg[edges[ce[t]].0 as int] != -1
        &&& vg[edges[ce[t]].0 as int] != vg[edges[ce[t]].1 as int]
        &&& vg[edges[ce[t]].1 as int] == vg[edges[ce[next(t, ce.len() as int)]].0 as int]
    } by {
        let u = next(t, len);
        assert(edges[ce[t]] == (c[t].0 as usize, c[t].1 as usize));
        assert(edges[ce[u]] == (c[u].0 as usize, c[u].1 as usize));
        lemma_loop_labels(tasks, c, t);
    }
    lemma_group_loop_empty(vg, l, vd, ce);
}

proof fn lemma_loop_labels(tasks: Seq<TaskView>, c: Seq<(int, int)>, t: int)
    requires
        fits(tasks),
        group_loop(tasks, c),
        0 <= t < c.len(),
    ensures
        ({
            let vg = virtual_groups(tasks);
            let u = next(t, c.len() as int);
            &&& vg[c[t].0] != -1
            &&& vg[c[t].0] != vg[c[t].1]
            &&& vg[c[t].1] == vg[c[u].0]
        }),
{
    let labels = labels_of(tasks);
    lemma_labels_of(tasks);
    let u = next(t, c.len() as int);
    let (from, to) = c[t];
    assert(0 <= c[u].0 < tasks.len());
    assert(labels.contains(tasks[from].group->0));
    assert(labels.contains(tasks[to].group->0));
    lemma_first_index(labels, tasks[from].group->0);
    lemma_first_index(labels, tasks[to].group->0);
}

/// Sorting depends on the registry's contents and insertion order alone: equal
/// registries sort, and group, alike.
pub proof fn lemma_deterministic(a: Seq<TaskView>, b: Seq<TaskView>)
    requires
        a == b,
    ensures
        sorted_tasks(a) == sorted_tasks(b),
        grouped(sorted_tasks(a)) == grouped(sorted_tasks(b)),
{
}

/// The groups of a flat order, their members laid end to end.
pub open spec fn members_of(groups: Seq<GroupView>) -> Seq<u64>
    decreases groups.len(),
{
    if groups.len() == 0 {
        Seq::empty()
    } else {
        members_of(groups.drop_last()) + groups.last().members
    }
}

/// A task without a label forms a group of its own: every unlabelled group has
/// exactly one member.
pub proof fn lemma_ungrouped_singletons(flat: Seq<TaskView>)
    ensures
        forall|p: int|
            0 <= p < grouped(flat).len() && (#[trigger] grouped(flat)[p]).label is None ==> grouped(
                flat,
            )[p].members.len() == 1,
    decreases flat.len(),
{
    if flat.len() > 0 {
        lemma_ungrouped_singletons(flat.drop_last());
        let prev = grouped(flat.drop_last());
        let t = flat.last();
        let cur = grouped(flat);
        if t.group is Some {
            let g = t.group->0;
            let p = bucket_of(prev, g);
            lemma_first_index(labels_in(prev), Some(g));
            if p >= 0 {
                assert(labels_in(prev)[p] == prev[p].label);
                assert forall|q: int| 0 <= q < cur.len() && (#[trigger] cur[q]).label is None implies cur[q].members.len() == 1 by {
                    if q != p {
                        assert(cur[q] == prev[q]);
                    }
                }
            } else {
                assert forall|q: int| 0 <= q < cur.len() && (#[trigger] cur[q]).label is None implies cur[q].members.len() == 1 by {
                    if q < prev.len() {
                        assert(cur[q] == prev[q]);
                    }
                }
            }
        } else {
            assert forall|q: int| 0 <= q < cur.len() && (#[trigger] cur[q]).label is None implies cur[q].members.len() == 1 by {
                if q < prev.len() {
                    assert(cur[q] == prev[q]);
                }
            }
        }
    }
}

/// Grouping a label-contiguous order and laying the groups end to end gives back
/// the order; the last group is that of the last task; each label names one group
/// at most, and only a label that some task carries.
proof fn lemma_flatten_grouped(flat: Seq<TaskView>)
    requires
        labels_contiguous(flat),
    ensures
        members_of(grouped(flat)) == ids_of(flat),
        flat.len() > 0 ==> grouped(flat).len() > 0 && grouped(flat).last().label == flat.last().group,
        forall|g: Seq<char>|
            #[trigger] bucket_of(grouped(flat), g) >= 0 ==> exists|x: int|
                0 <= x < flat.len() && (#[trigger] flat[x]).group == Some(g),
        forall|p: int, q: int|
            0 <= p < q < grouped(flat).len() && (#[trigger] grouped(flat)[p]).label == (
            #[trigger] grouped(flat)[q]).label ==> grouped(flat)[p].label is None,
    decreases flat.len(),
{
    if flat.len() > 0 {
        let r = flat.drop_last();
        assert(labels_contiguous(r)) by {
            assert forall|x: int, y: int, z: int|
                0 <= x < y < z < r.len() && (#[trigger] r[x]).group is Some && r[x].group == (
                #[trigger] r[z]).group implies (#[trigger] r[y]).group == r[x].group by {
                assert(r[x] == flat[x] && r[y] == flat[y] && r[z] == flat[z]);
            }
        }
        lemma_flatten_grouped(r);
        let prev = grouped(r);
        let t = flat.last();
        let cur = grouped(flat);
        assert(ids_of(flat) =~= ids_of(r).push(t.id));
        assert forall|g: Seq<char>| #[trigger] bucket_of(prev, g) >= 0 implies exists|x: int|
            0 <= x < flat.len() && (#[trigger] flat[x]).group == Some(g) by {
            let x = choose|x: int| 0 <= x < r.len() && (#[trigger] r[x]).group == Some(g);
            assert(flat[x] == r[x]);
        }
        if t.group is Some {
            let g = t.group->0;
            let p = bucket_of(prev, g);
            lemma_first_index(labels_in(prev), Some(g));
            if p >= 0 {
                let x = choose|x: int| 0 <= x < r.len() && (#[trigger] r[x]).group == Some(g);
                let last = r.len() - 1;
                if x < last {
                    assert(flat[x] == r[x] && flat[last] == r[last]);
                    assert(flat[flat.len() - 1] == t);
                    assert(flat[last].group == flat[x].group);
                }
                assert(r.last() == r[last]);
                assert(prev.last().label == Some(g));
                assert(labels_in(prev)[p] == prev[p].label);
                if p < prev.len() - 1 {
                    assert(prev[p].label == prev[prev.len() - 1].label);
                }
                assert(p == prev.len() - 1);
                let upd = GroupView { label: prev[p].label, members: prev[p].members.push(t.id) };
                assert(cur == prev.update(p, upd));
                assert(cur.drop_last() =~= prev.drop_last());
                assert(members_of(cur) =~= members_of(prev).push(t.id));
                assert(labels_in(cur) =~= labels_in(prev));
                assert forall|h: Seq<char>| #[trigger] bucket_of(cur, h) >= 0 implies exists|x: int|
                    0 <= x < flat.len() && (#[trigger] flat[x]).group == Some(h) by {
                    assert(bucket_of(cur, h) == bucket_of(prev, h));
                }
                assert forall|a: int, b: int|
                    0 <= a < b < cur.len() && (#[trigger] cur[a]).label == (#[trigger] cur[b]).label implies cur[a].label is None by {
                    assert(labels_in(cur)[a] == cur[a].label && labels_in(cur)[b] == cur[b].label);
                    assert(labels_in(prev)[a] == prev[a].label && labels_in(prev)[b] == prev[b].label);
                }
            } else {
                let nb = GroupView { label: Some(g), members: seq![t.id] };
                assert(cur == prev.push(nb));
                assert(cur.drop_last() =~= prev);
                assert(members_of(cur) =~= members_of(prev) + seq![t.id]);
                assert forall|h: Seq<char>| #[trigger] bucket_of(cur, h) >= 0 implies exists|x: int|
                    0 <= x < flat.len() && (#[trigger] flat[x]).group == Some(h) by {
                    lemma_bucket_of_push(prev, nb, h);
                    if bucket_of(prev, h) < 0 {
                        assert(flat[flat.len() - 1] == t);
                    }
                }
                assert forall|a: int, b: int|
                    0 <= a < b < cur.len() && (#[trigger] cur[a]).label == (#[trigger] cur[b]).label implies cur[a].label is None by {
                    if b == prev.len() {
                        assert(labels_in(prev)[a] == prev[a].label);
                        assert(cur[a] == prev[a]);
                    } else {
                        assert(cur[a] == prev[a] && cur[b] == prev[b]);
                    }
                }
            }
        } else {
            let nb = GroupView { label: None, members: seq![t.id] };
            assert(cur == prev.push(nb));
            assert(cur.drop_last() =~= prev);
            assert(members_of(cur) =~= members_of(prev) + seq![t.id]);
            assert forall|h: Seq<char>| #[trigger] bucket_of(cur, h) >= 0 implies exists|x: int|
                0 <= x < flat.len() && (#[trigger] flat[x]).group == Some(h) by {
                lemma_bucket_of_push(prev, nb, h);
            }
            assert forall|a: int, b: int|
                0 <= a < b < cur.len() && (#[trigger] cur[a]).label == (#[trigger] cur[b]).label implies cur[a].label is None by {
                if b < prev.len() {
                    assert(cur[a] == prev[a] && cur[b] == prev[b]);
                }
            }
        }
    } else {
        assert(ids_of(flat) =~= Seq::<u64>::empty());
    }
}

/// The sorted groups, their members laid end to end, give back the sorted order.
pub proof fn lemma_round_trip(tasks: Seq<TaskView>)
    requires
        sortable(tasks),
    ensures
        members_of(grouped(sorted_tasks(tasks))) == ids_of(sorted_tasks(tasks)),
{
    lemma_groups_together(tasks);
    lemma_flatten_grouped(sorted_tasks(tasks));
}

} // verus!
