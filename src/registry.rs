//! The task registry, identity virtualization, and the sorting entry points.
use crate::error::TopologicalError;
use crate::ordering::{
    lemma_double_sort_range, deps_within, double_sort, double_topological_sort, dependency_edges, groups_declared, rows,
};
use crate::positions::{first_index, lemma_first_index, lemma_first_index_scan};
use vstd::prelude::*;

verus! {

/// A task: its identity, an optional group label, and the identities of the tasks
/// that must come before it.
#[derive(Debug, Clone)]
pub struct Task {
    /// The unique identifier of the task.
    pub id: u64,
    /// The group to which the task belongs.
    pub group: Option<String>,
    /// Identities of the tasks that must come first.
    pub dependent_tasks: Vec<u64>,
}

/// A group of tasks in output order; a task without a group forms a group of its own.
#[derive(Debug, Clone)]
pub struct Group {
    /// The label of the group, `None` for a task without one.
    pub id: Option<String>,
    /// The members, in sorted order.
    pub tasks: Vec<u64>,
}

/// The mathematical value of a task.
pub struct TaskView {
    pub id: u64,
    pub group: Option<Seq<char>>,
    pub deps: Seq<u64>,
}

/// The mathematical value of a group.
pub struct GroupView {
    pub label: Option<Seq<char>>,
    pub members: Seq<u64>,
}

pub open spec fn label_view(g: Option<String>) -> Option<Seq<char>> {
    match g {
        Some(s) => Some(s@),
        None => None,
    }
}

impl View for Task {
    type V = TaskView;

    open spec fn view(&self) -> TaskView {
        TaskView { id: self.id, group: label_view(self.group), deps: self.dependent_tasks@ }
    }
}

impl View for Group {
    type V = GroupView;

    open spec fn view(&self) -> GroupView {
        GroupView { label: label_view(self.id), members: self.tasks@ }
    }
}

/// A registry of tasks, kept in insertion order.
#[derive(Debug)]
pub struct DependentSort {
    tasks: Vec<Task>,
}

pub open spec fn task_views(tasks: Seq<Task>) -> Seq<TaskView> {
    tasks.map_values(|t: Task| t@)
}

pub open spec fn group_views(groups: Seq<Group>) -> Seq<GroupView> {
    groups.map_values(|g: Group| g@)
}

impl View for DependentSort {
    type V = Seq<TaskView>;

    closed spec fn view(&self) -> Seq<TaskView> {
        task_views(self.tasks@)
    }
}

/// The identities of the tasks, in insertion order.
pub open spec fn ids_of(tasks: Seq<TaskView>) -> Seq<u64> {
    tasks.map_values(|t: TaskView| t.id)
}

/// The distinct group labels, in order of first appearance.
pub open spec fn labels_of(tasks: Seq<TaskView>) -> Seq<Seq<char>>
    decreases tasks.len(),
{
    if tasks.len() == 0 {
        Seq::empty()
    } else {
        let l = labels_of(tasks.drop_last());
        match tasks.last().group {
            Some(g) => if l.contains(g) {
                l
            } else {
                l.push(g)
            },
            None => l,
        }
    }
}

/// The first identity in `deps` that no task of `ids` has.
pub open spec fn unresolved(ids: Seq<u64>, deps: Seq<u64>) -> Option<u64>
    decreases deps.len(),
{
    if deps.len() == 0 {
        None
    } else {
        let prev = unresolved(ids, deps.drop_last());
        if prev is Some {
            prev
        } else if first_index(ids, deps.last()) < 0 {
            Some(deps.last())
        } else {
            None
        }
    }
}

/// The first unresolvable dependency among the first `k` tasks, scanning tasks and
/// then their dependencies in order.
pub open spec fn missing_dep(tasks: Seq<TaskView>, k: int) -> Option<u64>
    decreases k,
{
    if k <= 0 {
        None
    } else {
        let prev = missing_dep(tasks, k - 1);
        if prev is Some {
            prev
        } else {
            unresolved(ids_of(tasks), tasks[k - 1].deps)
        }
    }
}

/// The dense group of each task: the index of its label, or `-1` without one.
pub open spec fn virtual_groups(tasks: Seq<TaskView>) -> Seq<isize> {
    Seq::new(
        tasks.len(),
        |i: int|
            match tasks[i].group {
                Some(g) => first_index(labels_of(tasks), g) as isize,
                None => -1isize,
            },
    )
}

/// The dependencies of each task as dense task indices.
pub open spec fn virtual_deps(tasks: Seq<TaskView>) -> Seq<Seq<usize>> {
    Seq::new(
        tasks.len(),
        |i: int| tasks[i].deps.map_values(|d: u64| first_index(ids_of(tasks), d) as usize),
    )
}

/// The total number of dependencies listed.
pub open spec fn dependency_count(tasks: Seq<TaskView>) -> nat
    decreases tasks.len(),
{
    if tasks.len() == 0 {
        0
    } else {
        dependency_count(tasks.drop_last()) + tasks.last().deps.len()
    }
}

/// The dense order of the registry's tasks.
pub open spec fn sorted_indices(tasks: Seq<TaskView>) -> Seq<isize> {
    double_sort(virtual_groups(tasks), labels_of(tasks).len(), virtual_deps(tasks))
}

/// The registry's tasks in sorted order.
pub open spec fn sorted_tasks(tasks: Seq<TaskView>) -> Seq<TaskView> {
    sorted_indices(tasks).map_values(|i: isize| tasks[i as int])
}

/// The labels of the groups.
pub open spec fn labels_in(groups: Seq<GroupView>) -> Seq<Option<Seq<char>>> {
    groups.map_values(|x: GroupView| x.label)
}

/// The index of the first group labelled `g`, or `-1`.
pub open spec fn bucket_of(groups: Seq<GroupView>, g: Seq<char>) -> int {
    first_index(labels_in(groups), Some(g))
}

/// Partitions a flat order into groups: a labelled task joins the group of its label
/// if one was opened before, else opens it; a task without a label opens a group of
/// its own.
pub open spec fn grouped(tasks: Seq<TaskView>) -> Seq<GroupView>
    decreases tasks.len(),
{
    if tasks.len() == 0 {
        Seq::empty()
    } else {
        let prev = grouped(tasks.drop_last());
        let t = tasks.last();
        match t.group {
            Some(g) => {
                let p = bucket_of(prev, g);
                if p >= 0 {
                    prev.update(p, GroupView { label: prev[p].label, members: prev[p].members.push(t.id) })
                } else {
                    prev.push(GroupView { label: Some(g), members: seq![t.id] })
                }
            },
            None => prev.push(GroupView { label: None, members: seq![t.id] }),
        }
    }
}

/// The registry can be sorted within this machine's integer widths.
pub open spec fn fits(tasks: Seq<TaskView>) -> bool {
    &&& 2 * tasks.len() <= isize::MAX
    &&& dependency_count(tasks) <= u32::MAX
}

pub(crate) proof fn lemma_labels_of(tasks: Seq<TaskView>)
    ensures
        labels_of(tasks).len() <= tasks.len(),
        forall|i: int|
            0 <= i < tasks.len() && (#[trigger] tasks[i].group) is Some ==> labels_of(
                tasks,
            ).contains(tasks[i].group->0),
    decreases tasks.len(),
{
    if tasks.len() > 0 {
        let r = tasks.drop_last();
        lemma_labels_of(r);
        let l = labels_of(r);
        assert forall|i: int|
            0 <= i < tasks.len() && (#[trigger] tasks[i].group) is Some implies labels_of(
                tasks,
            ).contains(tasks[i].group->0) by {
            if i < r.len() {
                assert(r[i] == tasks[i]);
                let k = choose|k: int| 0 <= k < l.len() && l[k] == tasks[i].group->0;
                match tasks.last().group {
                    Some(g) => if !l.contains(g) {
                        assert(l.push(g)[k] == l[k]);
                    },
                    None => {},
                }
            } else {
                let g = tasks.last().group->0;
                if !l.contains(g) {
                    assert(l.push(g)[l.len() as int] == g);
                }
            }
        }
    }
}

proof fn lemma_unresolved(ids: Seq<u64>, deps: Seq<u64>)
    ensures
        unresolved(ids, deps) is None <==> forall|j: int|
            0 <= j < deps.len() ==> first_index(ids, #[trigger] deps[j]) >= 0,
    decreases deps.len(),
{
    if deps.len() > 0 {
        let r = deps.drop_last();
        lemma_unresolved(ids, r);
        if unresolved(ids, deps) is None {
            assert forall|j: int| 0 <= j < deps.len() implies first_index(ids, #[trigger] deps[j]) >= 0 by {
                if j < r.len() {
                    assert(r[j] == deps[j]);
                }
            }
        } else {
            if unresolved(ids, r) is Some {
                let j = choose|j: int| 0 <= j < r.len() && !(first_index(ids, #[trigger] r[j]) >= 0);
                assert(deps[j] == r[j]);
            } else {
                assert(deps[deps.len() - 1] == deps.last());
            }
        }
    }
}

pub(crate) proof fn lemma_missing_dep(tasks: Seq<TaskView>, k: int)
    requires
        0 <= k <= tasks.len(),
        missing_dep(tasks, k) is None,
    ensures
        forall|i: int, j: int|
            0 <= i < k && 0 <= j < tasks[i].deps.len() ==> first_index(
                ids_of(tasks),
                #[trigger] tasks[i].deps[j],
            ) >= 0,
    decreases k,
{
    if k > 0 {
        lemma_missing_dep(tasks, k - 1);
        lemma_unresolved(ids_of(tasks), tasks[k - 1].deps);
    }
}

proof fn lemma_edge_count(tasks: Seq<TaskView>, k: int)
    requires
        0 <= k <= tasks.len(),
    ensures
        dependency_edges(virtual_deps(tasks).take(k)).len() == dependency_count(tasks.take(k)),
    decreases k,
{
    if k > 0 {
        lemma_edge_count(tasks, k - 1);
        assert(virtual_deps(tasks).take(k).drop_last() =~= virtual_deps(tasks).take(k - 1));
        assert(tasks.take(k).drop_last() =~= tasks.take(k - 1));
    } else {
        assert(virtual_deps(tasks).take(0) =~= Seq::<Seq<usize>>::empty());
    }
}

/// The inputs of the engine meet its requirements once every dependency resolves.
pub(crate) proof fn lemma_engine_inputs(tasks: Seq<TaskView>)
    requires
        fits(tasks),
        missing_dep(tasks, tasks.len() as int) is None,
    ensures
        groups_declared(virtual_groups(tasks), labels_of(tasks).len()),
        deps_within(virtual_deps(tasks), tasks.len()),
        dependency_edges(virtual_deps(tasks)).len() <= u32::MAX,
        labels_of(tasks).len() + tasks.len() <= isize::MAX,
{
    lemma_labels_of(tasks);
    lemma_missing_dep(tasks, tasks.len() as int);
    let l = labels_of(tasks);
    assert forall|i: int| 0 <= i < tasks.len() implies #[trigger] virtual_groups(tasks)[i] == -1 || (0
        <= virtual_groups(tasks)[i] < l.len()) by {
        if tasks[i].group is Some {
            lemma_first_index(l, tasks[i].group->0);
        }
    }
    let d = virtual_deps(tasks);
    assert forall|i: int, j: int| 0 <= i < d.len() && 0 <= j < d[i].len() implies #[trigger] d[i][j]
        < tasks.len() by {
        lemma_first_index(ids_of(tasks), tasks[i].deps[j]);
    }
    lemma_edge_count(tasks, tasks.len() as int);
    assert(virtual_deps(tasks).take(tasks.len() as int) =~= virtual_deps(tasks));
    assert(tasks.take(tasks.len() as int) =~= tasks);
}

impl Task {
    /// Create a new task without dependencies.
    pub fn new(id: u64) -> (r: Task)
        ensures
            r@ == (TaskView { id, group: None, deps: Seq::empty() }),
    {
        Task { id, group: None, dependent_tasks: Vec::new() }
    }

    /// Create a new task with given dependencies.
    pub fn new_with_dependent(id: u64, dependent_tasks: Vec<u64>) -> (r: Task)
        ensures
            r@ == (TaskView { id, group: None, deps: dependent_tasks@ }),
    {
        Task { id, group: None, dependent_tasks }
    }

    /// Set the group to which the task belongs.
    pub fn with_group(self, group: &str) -> (r: Task)
        ensures
            r@ == (TaskView { id: self@.id, group: Some(group@), deps: self@.deps }),
    {
        Task { id: self.id, group: Some(group.to_owned()), dependent_tasks: self.dependent_tasks }
    }

    /// A copy of the task.
    fn duplicate(&self) -> (r: Task)
        ensures
            r@ == self@,
    {
        let group = match &self.group {
            Some(g) => Some(g.clone()),
            None => None,
        };
        let mut deps: Vec<u64> = Vec::new();
        let mut j: usize = 0;
        while j < self.dependent_tasks.len()
            invariant
                j <= self.dependent_tasks.len(),
                deps@ == self.dependent_tasks@.take(j as int),
            decreases self.dependent_tasks.len() - j,
        {
            deps.push(self.dependent_tasks[j]);
            j += 1;
            proof {
                assert(deps@ =~= self.dependent_tasks@.take(j as int));
            }
        }
        proof {
            assert(deps@ =~= self.dependent_tasks@);
        }
        Task { id: self.id, group, dependent_tasks: deps }
    }
}

impl core::ops::AddAssign<Task> for DependentSort {
    /// Appends a task to the registry, as `add` does.
    fn add_assign(&mut self, task: Task) {
        self.add(task);
    }
}

impl PartialEq for Task {
    /// Tasks are equal when their identities are.
    fn eq(&self, other: &Task) -> (r: bool) {
        self.id == other.id
    }
}

impl vstd::std_specs::cmp::PartialEqSpecImpl for Task {
    open spec fn obeys_eq_spec() -> bool {
        true
    }

    open spec fn eq_spec(&self, other: &Task) -> bool {
        self.id == other.id
    }
}

impl Eq for Task {

}

impl PartialOrd for Task {
    /// Tasks are ordered by their identities.
    fn partial_cmp(&self, other: &Task) -> (r: Option<core::cmp::Ordering>) {
        if self.id < other.id {
            Some(core::cmp::Ordering::Less)
        } else if self.id > other.id {
            Some(core::cmp::Ordering::Greater)
        } else {
            Some(core::cmp::Ordering::Equal)
        }
    }
}

impl vstd::std_specs::cmp::PartialOrdSpecImpl for Task {
    open spec fn obeys_partial_cmp_spec() -> bool {
        true
    }

    open spec fn partial_cmp_spec(&self, other: &Task) -> Option<core::cmp::Ordering> {
        if self.id < other.id {
            Some(core::cmp::Ordering::Less)
        } else if self.id > other.id {
            Some(core::cmp::Ordering::Greater)
        } else {
            Some(core::cmp::Ordering::Equal)
        }
    }
}

impl Default for DependentSort {
    fn default() -> (r: DependentSort)
        ensures
            r@ == Seq::<TaskView>::empty(),
    {
        let r = DependentSort { tasks: Vec::new() };
        proof {
            assert(r@ =~= Seq::<TaskView>::empty());
        }
        r
    }
}

pub open spec fn strs(v: Seq<String>) -> Seq<Seq<char>> {
    v.map_values(|s: String| s@)
}

/// The registry rewritten over dense indices.
struct FinalizeDependencies {
    /// identities of the tasks, by dense index
    task_map: Vec<u64>,
    /// group labels, by dense index
    group_map: Vec<String>,
    /// dense group of each task virtualized so far, `-1` without one
    virtualized_groups: Vec<isize>,
    /// dense dependencies of each task virtualized so far
    virtualized_dependent_tasks: Vec<Vec<usize>>,
}

/// Finds `id` in `ids`.
fn find_id(ids: &Vec<u64>, id: u64) -> (r: Option<usize>)
    ensures
        match r {
            Some(p) => p as int == first_index(ids@, id),
            None => first_index(ids@, id) == -1,
        },
{
    let mut k: usize = 0;
    while k < ids.len()
        invariant
            k <= ids.len(),
            forall|t: int| 0 <= t < k ==> ids@[t] != id,
        decreases ids.len() - k,
    {
        if ids[k] == id {
            proof {
                lemma_first_index_scan(ids@, id, k as int);
            }
            return Some(k);
        }
        k += 1;
    }
    proof {
        lemma_first_index_scan(ids@, id, k as int);
    }
    None
}

/// Finds `label` in `labels`.
fn find_label(labels: &Vec<String>, label: &String) -> (r: Option<usize>)
    ensures
        match r {
            Some(p) => p as int == first_index(strs(labels@), label@),
            None => first_index(strs(labels@), label@) == -1,
        },
{
    let ghost ls = strs(labels@);
    let mut k: usize = 0;
    while k < labels.len()
        invariant
            k <= labels.len(),
            ls == strs(labels@),
            forall|t: int| 0 <= t < k ==> ls[t] != label@,
        decreases labels.len() - k,
    {
        if labels[k] == *label {
            proof {
                lemma_first_index_scan(ls, label@, k as int);
            }
            return Some(k);
        }
        k += 1;
    }
    proof {
        lemma_first_index_scan(ls, label@, k as int);
    }
    None
}

/// The distinct group labels of `tasks`, in order of first appearance.
pub(crate) fn collect_labels(tasks: &Vec<Task>) -> (r: Vec<String>)
    ensures
        strs(r@) == labels_of(task_views(tasks@)),
{
    let ghost all = task_views(tasks@);
    let mut labels: Vec<String> = Vec::new();
    let mut k: usize = 0;
    proof {
        assert(all.take(0) =~= Seq::<TaskView>::empty());
        assert(strs(labels@) =~= labels_of(all.take(0)));
    }
    while k < tasks.len()
        invariant
            all == task_views(tasks@),
            k <= tasks.len(),
            strs(labels@) == labels_of(all.take(k as int)),
        decreases tasks.len() - k,
    {
        let task = &tasks[k];
        let ghost post = all.take(k + 1);
        proof {
            assert(post.drop_last() =~= all.take(k as int));
            assert(post.last() == task@);
        }
        match &task.group {
            Some(group) => {
                let found = find_label(&labels, group);
                proof {
                    lemma_first_index(strs(labels@), group@);
                }
                if found.is_none() {
                    labels.push(group.clone());
                }
            },
            None => {},
        }
        k += 1;
        proof {
            assert(strs(labels@) =~= labels_of(post));
        }
    }
    proof {
        assert(all.take(k as int) =~= all);
    }
    labels
}

impl FinalizeDependencies {
    /// The dense index of a group label.
    fn virtualize_group(&self, group: &String) -> (r: Result<usize, TopologicalError>)
        ensures
            match r {
                Ok(i) => i as int == first_index(strs(self.group_map@), group@),
                Err(e) => first_index(strs(self.group_map@), group@) == -1
                    && e == TopologicalError::MissingGroup { group: *group },
            },
    {
        match find_label(&self.group_map, group) {
            Some(index) => Ok(index),
            None => Err(TopologicalError::MissingGroup { group: group.clone() }),
        }
    }

    /// The dense indices of dependency identities; fails on the first unknown one.
    fn virtualize_dependent_tasks(&self, input: &Vec<u64>) -> (r: Result<Vec<usize>, TopologicalError>)
        ensures
            match r {
                Ok(v) => unresolved(self.task_map@, input@) is None && v@ == input@.map_values(
                    |d: u64| first_index(self.task_map@, d) as usize,
                ),
                Err(e) => unresolved(self.task_map@, input@) is Some && e
                    == TopologicalError::MissingTask { task: unresolved(self.task_map@, input@)->0 },
            },
    {
        let mut output: Vec<usize> = Vec::new();
        let mut j: usize = 0;
        while j < input.len()
            invariant
                j <= input.len(),
                unresolved(self.task_map@, input@.take(j as int)) is None,
                output@ == input@.take(j as int).map_values(
                    |d: u64| first_index(self.task_map@, d) as usize,
                ),
            decreases input.len() - j,
        {
            let task = input[j];
            let ghost next = input@.take(j + 1);
            proof {
                assert(next.drop_last() =~= input@.take(j as int));
                assert(next.last() == task);
            }
            match find_id(&self.task_map, task) {
                Some(index) => {
                    output.push(index);
                    proof {
                        assert(output@ =~= next.map_values(
                            |d: u64| first_index(self.task_map@, d) as usize,
                        ));
                    }
                },
                None => {
                    proof {
                        lemma_unresolved_prefix(self.task_map@, input@, j + 1);
                    }
                    return Err(TopologicalError::MissingTask { task });
                },
            }
            j += 1;
        }
        proof {
            assert(input@.take(j as int) =~= input@);
        }
        Ok(output)
    }

    /// Appends the dense form of `task`.
    fn virtualize(&mut self, task: &Task) -> (r: Result<(), TopologicalError>)
        requires
            old(self).group_map.len() <= isize::MAX,
        ensures
            final(self).task_map == old(self).task_map,
            final(self).group_map == old(self).group_map,
            match r {
                Ok(()) => {
                    &&& unresolved(old(self).task_map@, task@.deps) is None
                    &&& task@.group is Some ==> first_index(
                        strs(old(self).group_map@),
                        task@.group->0,
                    ) >= 0
                    &&& final(self).virtualized_groups@ == old(self).virtualized_groups@.push(
                        match task@.group {
                            Some(g) => first_index(strs(old(self).group_map@), g) as isize,
                            None => -1isize,
                        },
                    )
                    &&& rows(final(self).virtualized_dependent_tasks@) == rows(
                        old(self).virtualized_dependent_tasks@,
                    ).push(
                        task@.deps.map_values(|d: u64| first_index(old(self).task_map@, d) as usize),
                    )
                },
                Err(e) => {
                    &&& final(self).virtualized_groups == old(self).virtualized_groups
                    &&& final(self).virtualized_dependent_tasks == old(
                        self,
                    ).virtualized_dependent_tasks
                    &&& match unresolved(old(self).task_map@, task@.deps) {
                        Some(d) => e == TopologicalError::MissingTask { task: d },
                        None => task@.group is Some && first_index(
                            strs(old(self).group_map@),
                            task@.group->0,
                        ) == -1 && e == TopologicalError::MissingGroup {
                            group: task.group->0,
                        },
                    }
                },
            },
    {
        let dependent_tasks = match self.virtualize_dependent_tasks(&task.dependent_tasks) {
            Ok(v) => v,
            Err(e) => return Err(e),
        };
        let group_id = match &task.group {
            Some(reals) => match self.virtualize_group(reals) {
                Ok(i) => {
                    proof {
                        lemma_first_index(strs(self.group_map@), reals@);
                    }
                    i as isize
                },
                Err(e) => return Err(e),
            },
            None => -1,
        };
        self.virtualized_groups.push(group_id);
        self.virtualized_dependent_tasks.push(dependent_tasks);
        proof {
            assert(rows(self.virtualized_dependent_tasks@) =~= rows(
                old(self).virtualized_dependent_tasks@,
            ).push(task@.deps.map_values(|d: u64| first_index(old(self).task_map@, d) as usize)));
        }
        Ok(())
    }
}

proof fn lemma_missing_dep_stable(tasks: Seq<TaskView>, k: int, k2: int)
    requires
        0 < k <= k2,
        missing_dep(tasks, k) is Some,
    ensures
        missing_dep(tasks, k2) == missing_dep(tasks, k),
    decreases k2 - k,
{
    if k2 > k {
        lemma_missing_dep_stable(tasks, k, k2 - 1);
    }
}

proof fn lemma_unresolved_prefix(ids: Seq<u64>, deps: Seq<u64>, j: int)
    requires
        0 < j <= deps.len(),
        unresolved(ids, deps.take(j - 1)) is None,
        first_index(ids, deps[j - 1]) == -1,
    ensures
        unresolved(ids, deps) == Some(deps[j - 1]),
    decreases deps.len(),
{
    if j < deps.len() {
        assert(deps.drop_last().take(j - 1) =~= deps.take(j - 1));
        lemma_unresolved_prefix(ids, deps.drop_last(), j);
    } else {
        assert(deps.drop_last() =~= deps.take(j - 1));
    }
}

impl DependentSort {
    /// Appends a task to the registry.
    pub fn add(&mut self, task: Task)
        ensures
            final(self)@ == old(self)@.push(task@),
    {
        self.tasks.push(task);
        proof {
            assert(self@ =~= old(self)@.push(task@));
        }
    }

    /// The tasks, in insertion order.
    pub fn tasks(&self) -> (r: &Vec<Task>)
        ensures
            task_views(r@) == self@,
    {
        &self.tasks
    }

    fn finalize(&self) -> (r: Result<FinalizeDependencies, TopologicalError>)
        requires
            fits(self@),
        ensures
            match r {
                Ok(f) => {
                    &&& missing_dep(self@, self@.len() as int) is None
                    &&& f.task_map@ == ids_of(self@)
                    &&& strs(f.group_map@) == labels_of(self@)
                    &&& f.virtualized_groups@ == virtual_groups(self@)
                    &&& rows(f.virtualized_dependent_tasks@) == virtual_deps(self@)
                },
                Err(e) => missing_dep(self@, self@.len() as int) is Some && e
                    == TopologicalError::MissingTask {
                    task: missing_dep(self@, self@.len() as int)->0,
                },
            },
    {
        let ghost tasks = self@;
        let n = self.tasks.len();
        let mut sorter = FinalizeDependencies {
            task_map: Vec::new(),
            group_map: collect_labels(&self.tasks),
            virtualized_groups: Vec::new(),
            virtualized_dependent_tasks: Vec::new(),
        };
        let mut k: usize = 0;
        proof {
            assert(tasks.take(0) =~= Seq::<TaskView>::empty());
            assert(sorter.task_map@ =~= ids_of(tasks.take(0)));
        }
        while k < n
            invariant
                n == self.tasks.len(),
                tasks == self@,
                k <= n,
                sorter.task_map@ == ids_of(tasks.take(k as int)),
                strs(sorter.group_map@) == labels_of(tasks),
                sorter.virtualized_groups@.len() == 0,
                sorter.virtualized_dependent_tasks@.len() == 0,
            decreases n - k,
        {
            let task = &self.tasks[k];
            let ghost pre = tasks.take(k as int);
            let ghost post = tasks.take(k + 1);
            proof {
                assert(post.drop_last() =~= pre);
                assert(post.last() == task@);
                assert(tasks[k as int] == task@);
            }
            sorter.task_map.push(task.id);
            k += 1;
            proof {
                assert(sorter.task_map@ =~= ids_of(post));
            }
        }
        proof {
            assert(tasks.take(n as int) =~= tasks);
            lemma_labels_of(tasks);
        }
        let mut k: usize = 0;
        while k < n
            invariant
                n == self.tasks.len(),
                tasks == self@,
                n == tasks.len(),
                fits(tasks),
                k <= n,
                sorter.task_map@ == ids_of(tasks),
                strs(sorter.group_map@) == labels_of(tasks),
                labels_of(tasks).len() <= tasks.len(),
                missing_dep(tasks, k as int) is None,
                sorter.virtualized_groups@ == virtual_groups(tasks).take(k as int),
                rows(sorter.virtualized_dependent_tasks@) == virtual_deps(tasks).take(k as int),
            decreases n - k,
        {
            let task = &self.tasks[k];
            proof {
                assert(tasks[k as int] == task@);
            }
            match sorter.virtualize(task) {
                Ok(()) => {},
                Err(e) => {
                    proof {
                        lemma_labels_of(tasks);
                        if unresolved(ids_of(tasks), task@.deps) is None {
                            lemma_first_index(labels_of(tasks), task@.group->0);
                        }
                        lemma_missing_dep_stable(tasks, k as int + 1, n as int);
                    }
                    return Err(e);
                },
            }
            k += 1;
            proof {
                assert(sorter.virtualized_groups@ =~= virtual_groups(tasks).take(k as int));
                assert(rows(sorter.virtualized_dependent_tasks@) =~= virtual_deps(tasks).take(k as int));
            }
        }
        proof {
            assert(virtual_groups(tasks).take(n as int) =~= virtual_groups(tasks));
            assert(virtual_deps(tasks).take(n as int) =~= virtual_deps(tasks));
        }
        Ok(sorter)
    }

    /// The dense order of the tasks, and the dense group of each task.
    #[verifier::rlimit(30)]
    fn sort_indices(&self) -> (r: Result<(Vec<isize>, Vec<isize>), TopologicalError>)
        requires
            fits(self@),
        ensures
            match r {
                Ok(p) => {
                    &&& missing_dep(self@, self@.len() as int) is None
                    &&& p.0@ == sorted_indices(self@)
                    &&& p.1@ == virtual_groups(self@)
                    &&& forall|t: int| 0 <= t < p.0@.len() ==> 0 <= #[trigger] p.0@[t] < self@.len()
                },
                Err(e) => missing_dep(self@, self@.len() as int) is Some && e
                    == TopologicalError::MissingTask {
                    task: missing_dep(self@, self@.len() as int)->0,
                },
            },
    {
        let ghost tasks = self@;
        let sorter = match self.finalize() {
            Ok(f) => f,
            Err(e) => return Err(e),
        };
        proof {
            lemma_engine_inputs(tasks);
            lemma_double_sort_range(virtual_groups(tasks), labels_of(tasks).len(), virtual_deps(tasks));
        }
        let groups = copy_groups(&sorter.virtualized_groups);
        let unique_groups = sorter.group_map.len();
        let sorted = double_topological_sort(
            sorter.virtualized_groups,
            unique_groups,
            sorter.virtualized_dependent_tasks,
        );
        Ok((sorted, groups))
    }

    /// Sort the tasks and return the sorted tasks: each after its dependencies, the
    /// members of each group side by side. Empty when the tasks or the groups depend
    /// on each other in a cycle.
    pub fn sort(&mut self) -> (r: Result<Vec<Task>, TopologicalError>)
        requires
            fits(old(self)@),
        ensures
            final(self)@ == old(self)@,
            match r {
                Ok(v) => missing_dep(old(self)@, old(self)@.len() as int) is None && task_views(v@)
                    == sorted_tasks(old(self)@),
                Err(e) => missing_dep(old(self)@, old(self)@.len() as int) is Some && e
                    == TopologicalError::MissingTask {
                    task: missing_dep(old(self)@, old(self)@.len() as int)->0,
                },
            },
    {
        let ghost tasks = self@;
        let sorted = match self.sort_indices() {
            Ok(p) => p.0,
            Err(e) => return Err(e),
        };
        let mut out: Vec<Task> = Vec::new();
        let mut k: usize = 0;
        while k < sorted.len()
            invariant
                tasks == self@,
                sorted@ == sorted_indices(tasks),
                forall|t: int| 0 <= t < sorted@.len() ==> 0 <= #[trigger] sorted@[t] < tasks.len(),
                k <= sorted.len(),
                task_views(out@) == sorted_tasks(tasks).take(k as int),
            decreases sorted.len() - k,
        {
            let i = sorted[k] as usize;
            let ghost old_out = out@;
            proof {
                assert(tasks[i as int] == self.tasks@[i as int]@);
                assert(sorted_tasks(tasks)[k as int] == tasks[i as int]);
            }
            out.push(self.tasks[i].duplicate());
            k += 1;
            proof {
                assert(task_views(out@) =~= task_views(old_out).push(tasks[i as int]));
                assert(task_views(out@) =~= sorted_tasks(tasks).take(k as int));
            }
        }
        proof {
            assert(sorted_tasks(tasks).take(k as int) =~= sorted_tasks(tasks));
        }
        Ok(out)
    }
}

/// A copy of the dense groups.
fn copy_groups(v: &Vec<isize>) -> (r: Vec<isize>)
    ensures
        r@ == v@,
{
    let mut out: Vec<isize> = Vec::new();
    let mut j: usize = 0;
    while j < v.len()
        invariant
            j <= v.len(),
            out@ == v@.take(j as int),
        decreases v.len() - j,
    {
        out.push(v[j]);
        j += 1;
        proof {
            assert(out@ =~= v@.take(j as int));
        }
    }
    proof {
        assert(out@ =~= v@);
    }
    out
}

/// Finds the first group labelled `label`.
fn find_bucket(groups: &Vec<Group>, label: &String) -> (r: Option<usize>)
    ensures
        match r {
            Some(p) => p as int == bucket_of(group_views(groups@), label@),
            None => bucket_of(group_views(groups@), label@) == -1,
        },
{
    let ghost ls = labels_in(group_views(groups@));
    let mut k: usize = 0;
    while k < groups.len()
        invariant
            k <= groups.len(),
            ls == labels_in(group_views(groups@)),
            forall|t: int| 0 <= t < k ==> ls[t] != Some(label@),
        decreases groups.len() - k,
    {
        let same = match &groups[k].id {
            Some(l) => *l == *label,
            None => false,
        };
        proof {
            assert(ls[k as int] == label_view(groups@[k as int].id));
        }
        if same {
            proof {
                lemma_first_index_scan(ls, Some(label@), k as int);
            }
            return Some(k);
        }
        k += 1;
    }
    proof {
        lemma_first_index_scan(ls, Some(label@), k as int);
    }
    None
}

/// A group holding the single task `id`.
fn singleton(label: Option<String>, id: u64) -> (r: Group)
    ensures
        r@ == (GroupView { label: label_view(label), members: seq![id] }),
{
    let mut tasks: Vec<u64> = Vec::new();
    tasks.push(id);
    proof {
        assert(tasks@ =~= seq![id]);
    }
    Group { id: label, tasks }
}

impl DependentSort {
    /// Sort the tasks and return the sorted tasks grouped by their group: groups in
    /// order of their first member, members in sorted order.
    pub fn sort_grouped(&mut self) -> (r: Result<Vec<Group>, TopologicalError>)
        requires
            fits(old(self)@),
        ensures
            final(self)@ == old(self)@,
            match r {
                Ok(v) => missing_dep(old(self)@, old(self)@.len() as int) is None && group_views(v@)
                    == grouped(sorted_tasks(old(self)@)),
                Err(e) => missing_dep(old(self)@, old(self)@.len() as int) is Some && e
                    == TopologicalError::MissingTask {
                    task: missing_dep(old(self)@, old(self)@.len() as int)->0,
                },
            },
    {
        let sorted = match self.sort() {
            Ok(s) => s,
            Err(e) => return Err(e),
        };
        let ghost flat = task_views(sorted@);
        let mut out: Vec<Group> = Vec::new();
        let mut k: usize = 0;
        proof {
            assert(flat.take(0) =~= Seq::<TaskView>::empty());
            assert(group_views(out@) =~= Seq::<GroupView>::empty());
        }
        while k < sorted.len()
            invariant
                flat == task_views(sorted@),
                k <= sorted.len(),
                group_views(out@) == grouped(flat.take(k as int)),
            decreases sorted.len() - k,
        {
            let task = &sorted[k];
            let ghost pre = flat.take(k as int);
            let ghost post = flat.take(k + 1);
            let ghost prev = group_views(out@);
            proof {
                assert(post.drop_last() =~= pre);
                assert(post.last() == task@);
            }
            match &task.group {
                Some(s) => {
                    match find_bucket(&out, s) {
                        Some(position) => {
                            proof {
                                lemma_first_index(labels_in(prev), Some(s@));
                            }
                            out[position].tasks.push(task.id);
                            proof {
                                assert(group_views(out@) =~= prev.update(
                                    position as int,
                                    GroupView {
                                        label: prev[position as int].label,
                                        members: prev[position as int].members.push(task.id),
                                    },
                                ));
                            }
                        },
                        None => {
                            out.push(singleton(Some(s.clone()), task.id));
                            proof {
                                assert(group_views(out@) =~= prev.push(
                                    GroupView { label: Some(s@), members: seq![task.id] },
                                ));
                            }
                        },
                    }
                },
                None => {
                    out.push(singleton(None, task.id));
                    proof {
                        assert(group_views(out@) =~= prev.push(
                            GroupView { label: None, members: seq![task.id] },
                        ));
                    }
                },
            }
            k += 1;
        }
        proof {
            assert(flat.take(k as int) =~= flat);
        }
        Ok(out)
    }
}

pub(crate) proof fn lemma_bucket_of_push(groups: Seq<GroupView>, x: GroupView, g: Seq<char>)
    ensures
        bucket_of(groups.push(x), g) == if bucket_of(groups, g) >= 0 {
            bucket_of(groups, g)
        } else if x.label == Some(g) {
            groups.len() as int
        } else {
            -1
        },
{
    assert(labels_in(groups.push(x)) =~= labels_in(groups).push(x.label));
    assert(labels_in(groups.push(x)).drop_last() =~= labels_in(groups));
}

proof fn lemma_bucket_of_update(groups: Seq<GroupView>, p: int, x: GroupView, g: Seq<char>)
    requires
        0 <= p < groups.len(),
        x.label == groups[p].label,
    ensures
        bucket_of(groups.update(p, x), g) == bucket_of(groups, g),
{
    assert(labels_in(groups.update(p, x)) =~= labels_in(groups));
}

/// The position of the group of each label, `usize::MAX` for none yet.
pub open spec fn table_matches(table: Seq<usize>, labels: Seq<Seq<char>>, groups: Seq<GroupView>) -> bool {
    forall|g: Seq<char>|
        #![trigger first_index(labels, g)]
        labels.contains(g) ==> table[first_index(labels, g)] == if bucket_of(groups, g) >= 0 {
            bucket_of(groups, g) as usize
        } else {
            usize::MAX
        }
}

impl DependentSort {
    /// Sort the tasks and return the sorted tasks grouped by their group, finding
    /// each group through the dense index of its label.
    pub fn sort_grouped_hash_specialization(&mut self) -> (r: Result<Vec<Group>, TopologicalError>)
        requires
            fits(old(self)@),
        ensures
            final(self)@ == old(self)@,
            match r {
                Ok(v) => missing_dep(old(self)@, old(self)@.len() as int) is None && group_views(v@)
                    == grouped(sorted_tasks(old(self)@)),
                Err(e) => missing_dep(old(self)@, old(self)@.len() as int) is Some && e
                    == TopologicalError::MissingTask {
                    task: missing_dep(old(self)@, old(self)@.len() as int)->0,
                },
            },
    {
        let ghost tasks = self@;
        let ghost labels = labels_of(tasks);
        let (sorted, dense) = match self.sort_indices() {
            Ok(p) => p,
            Err(e) => return Err(e),
        };
        let ghost flat = sorted_tasks(tasks);
        let n = self.tasks.len();
        let mut table: Vec<usize> = Vec::new();
        let mut c: usize = 0;
        while c < n
            invariant
                c <= n,
                table.len() == c,
                forall|t: int| 0 <= t < c ==> #[trigger] table@[t] == usize::MAX,
            decreases n - c,
        {
            table.push(usize::MAX);
            c += 1;
        }
        proof {
            lemma_labels_of(tasks);
            assert forall|g: Seq<char>| #![trigger first_index(labels, g)] labels.contains(g) implies table@[first_index(labels, g)] == usize::MAX by {
                lemma_first_index(labels, g);
            }
        }
        let mut out: Vec<Group> = Vec::new();
        let mut k: usize = 0;
        proof {
            assert(flat.take(0) =~= Seq::<TaskView>::empty());
            assert(group_views(out@) =~= Seq::<GroupView>::empty());
        }
        while k < sorted.len()
            invariant
                tasks == self@,
                n == tasks.len(),
                labels == labels_of(tasks),
                labels.len() <= n,
                fits(tasks),
                forall|i: int|
                    0 <= i < tasks.len() && (#[trigger] tasks[i].group) is Some ==> labels.contains(
                        tasks[i].group->0,
                    ),
                sorted@ == sorted_indices(tasks),
                dense@ == virtual_groups(tasks),
                forall|t: int| 0 <= t < sorted@.len() ==> 0 <= #[trigger] sorted@[t] < n,
                flat == sorted_tasks(tasks),
                table.len() == n,
                k <= sorted.len(),
                out.len() <= k,
                group_views(out@) == grouped(flat.take(k as int)),
                table_matches(table@, labels, group_views(out@)),
            decreases sorted.len() - k,
        {
            let i = sorted[k] as usize;
            let task = &self.tasks[i];
            let ghost pre = flat.take(k as int);
            let ghost post = flat.take(k + 1);
            let ghost prev = group_views(out@);
            proof {
                assert(post.drop_last() =~= pre);
                assert(flat[k as int] == tasks[i as int]);
                assert(tasks[i as int] == task@);
                assert(post.last() == task@);
                assert(dense@[i as int] == virtual_groups(tasks)[i as int]);
                if tasks[i as int].group is Some {
                    assert(labels.contains(tasks[i as int].group->0));
                    lemma_first_index(labels, task@.group->0);
                }
            }
            if dense[i] == -1 {
                proof {
                    assert(task@.group is None);
                }
                out.push(singleton(None, task.id));
                proof {
                    let x = GroupView { label: None, members: seq![task.id] };
                    assert(group_views(out@) =~= prev.push(x));
                    assert forall|g: Seq<char>| #![trigger first_index(labels, g)] labels.contains(g) implies table@[first_index(labels, g)] == if bucket_of(group_views(out@), g) >= 0 {
                        bucket_of(group_views(out@), g) as usize
                    } else {
                        usize::MAX
                    } by {
                        lemma_bucket_of_push(prev, x, g);
                    }
                }
            } else {
                let c = dense[i] as usize;
                let ghost g = task@.group->0;
                proof {
                    assert(task@.group is Some);
                    assert(tasks[i as int].group is Some);
                    lemma_first_index(labels, g);
                    assert(c as int == first_index(labels, g));
                    lemma_first_index(labels_in(prev), Some(g));
                }
                let label = match &task.group {
                    Some(l) => l,
                    None => {
                        proof {
                            assert(false);
                        }
                        return Err(TopologicalError::MissingTask { task: task.id });
                    },
                };
                if table[c] == usize::MAX {
                    let ghost x = GroupView { label: Some(g), members: seq![task.id] };
                    table.set(c, out.len());
                    out.push(singleton(Some(label.clone()), task.id));
                    proof {
                        assert(group_views(out@) =~= prev.push(x));
                        assert forall|h: Seq<char>| #![trigger first_index(labels, h)] labels.contains(h) implies table@[first_index(labels, h)] == if bucket_of(group_views(out@), h) >= 0 {
                            bucket_of(group_views(out@), h) as usize
                        } else {
                            usize::MAX
                        } by {
                            lemma_bucket_of_push(prev, x, h);
                            lemma_first_index(labels, h);
                        }
                    }
                } else {
                    let position = table[c];
                    proof {
                        assert(bucket_of(prev, g) == position as int);
                    }
                    out[position].tasks.push(task.id);
                    proof {
                        let x = GroupView {
                            label: prev[position as int].label,
                            members: prev[position as int].members.push(task.id),
                        };
                        assert(group_views(out@) =~= prev.update(position as int, x));
                        assert forall|h: Seq<char>| #![trigger first_index(labels, h)] labels.contains(h) implies table@[first_index(labels, h)] == if bucket_of(group_views(out@), h) >= 0 {
                            bucket_of(group_views(out@), h) as usize
                        } else {
                            usize::MAX
                        } by {
                            lemma_bucket_of_update(prev, position as int, x, h);
                        }
                    }
                }
            }
            k += 1;
        }
        proof {
            assert(flat.take(k as int) =~= flat);
        }
        Ok(out)
    }
}

} // verus!
