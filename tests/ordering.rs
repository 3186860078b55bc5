use dependent_sort::{double_topological_sort, DependentSort, Group, Task, TopologicalError};

fn scenario(four_needs_two: bool) -> DependentSort {
    let mut tasks = DependentSort::default();
    tasks.add(Task::new(0));
    tasks.add(Task::new_with_dependent(1, vec![6]));
    tasks.add(Task::new_with_dependent(2, vec![5]).with_group("A"));
    tasks.add(Task::new_with_dependent(3, vec![6]).with_group("B"));
    let four = if four_needs_two { vec![2, 3, 6] } else { vec![3, 6] };
    tasks.add(Task::new_with_dependent(4, four).with_group("B"));
    tasks.add(Task::new_with_dependent(5, vec![]).with_group("A"));
    tasks.add(Task::new_with_dependent(6, vec![]).with_group("B"));
    tasks.add(Task::new(7));
    tasks
}

fn ids(sorted: &[Task]) -> Vec<u64> {
    sorted.iter().map(|t| t.id).collect()
}

fn flatten(groups: &[Group]) -> Vec<u64> {
    groups.iter().flat_map(|g| g.tasks.iter().copied()).collect()
}

fn position(order: &[u64], id: u64) -> usize {
    order.iter().position(|&x| x == id).unwrap()
}

#[test]
fn concrete_scenario_follows_smallest_ready_first() {
    let mut tasks = scenario(false);
    let sorted = tasks.sort().unwrap();
    assert_eq!(ids(&sorted), vec![5, 2, 6, 3, 4, 0, 7, 1]);
}

#[test]
fn dependencies_come_first() {
    let mut tasks = scenario(true);
    let sorted = tasks.sort().unwrap();
    let order = ids(&sorted);
    for task in &sorted {
        for dep in &task.dependent_tasks {
            assert!(position(&order, *dep) < position(&order, task.id));
        }
    }
    assert_eq!(sorted.len(), 8);
}

#[test]
fn groups_stay_together() {
    let mut tasks = scenario(true);
    let sorted = tasks.sort().unwrap();
    for x in 0..sorted.len() {
        for z in x + 1..sorted.len() {
            if sorted[x].group.is_some() && sorted[x].group == sorted[z].group {
                for y in x + 1..z {
                    assert_eq!(sorted[y].group, sorted[x].group);
                }
            }
        }
    }
}

#[test]
fn task_cycle_gives_empty_order() {
    let mut tasks = DependentSort::default();
    tasks.add(Task::new_with_dependent(1, vec![2]));
    tasks.add(Task::new_with_dependent(2, vec![1]));
    tasks.add(Task::new(3));
    assert!(tasks.sort().unwrap().is_empty());
    assert!(tasks.sort_grouped().unwrap().is_empty());
}

#[test]
fn self_dependency_gives_empty_order() {
    let mut tasks = DependentSort::default();
    tasks.add(Task::new_with_dependent(1, vec![1]));
    assert!(tasks.sort().unwrap().is_empty());
}

#[test]
fn group_cycle_gives_empty_order() {
    let mut tasks = DependentSort::default();
    tasks.add(Task::new_with_dependent(1, vec![4]).with_group("X"));
    tasks.add(Task::new_with_dependent(2, vec![3]).with_group("Y"));
    tasks.add(Task::new(3).with_group("X"));
    tasks.add(Task::new(4).with_group("Y"));
    assert!(tasks.sort().unwrap().is_empty());
    assert!(tasks.sort_grouped_hash_specialization().unwrap().is_empty());
}

#[test]
fn empty_registry_gives_empty_order() {
    let mut tasks = DependentSort::default();
    assert!(tasks.sort().unwrap().is_empty());
    assert!(tasks.sort_grouped().unwrap().is_empty());
}

#[test]
fn missing_dependency_is_reported() {
    let mut tasks = DependentSort::default();
    tasks.add(Task::new(1));
    tasks.add(Task::new_with_dependent(2, vec![1, 9, 8]));
    tasks.add(Task::new_with_dependent(3, vec![7]));
    match tasks.sort() {
        Err(TopologicalError::MissingTask { task }) => assert_eq!(task, 9),
        other => panic!("unexpected {:?}", other),
    }
    match tasks.sort_grouped() {
        Err(TopologicalError::MissingTask { task }) => assert_eq!(task, 9),
        other => panic!("unexpected {:?}", other),
    }
    match tasks.sort_grouped_hash_specialization() {
        Err(TopologicalError::MissingTask { task }) => assert_eq!(task, 9),
        other => panic!("unexpected {:?}", other),
    }
}

#[test]
fn missing_group_is_a_value() {
    let e = TopologicalError::MissingGroup { group: "G".to_string() };
    assert!(matches!(e, TopologicalError::MissingGroup { ref group } if group == "G"));
}

#[test]
fn ungrouped_tasks_form_singletons() {
    let mut tasks = scenario(true);
    let groups = tasks.sort_grouped().unwrap();
    for g in &groups {
        if g.id.is_none() {
            assert_eq!(g.tasks.len(), 1);
        }
    }
    assert_eq!(groups.iter().filter(|g| g.id.is_none()).count(), 3);
}

#[test]
fn grouped_buckets_in_order() {
    let mut tasks = scenario(true);
    let groups = tasks.sort_grouped().unwrap();
    let labels: Vec<Option<String>> = groups.iter().map(|g| g.id.clone()).collect();
    assert_eq!(
        labels,
        vec![Some("A".to_string()), None, None, Some("B".to_string()), None]
    );
    assert_eq!(groups[0].tasks, vec![5, 2]);
    assert_eq!(groups[1].tasks, vec![0]);
    assert_eq!(groups[2].tasks, vec![7]);
    assert_eq!(groups[3].tasks, vec![6, 3, 4]);
    assert_eq!(groups[4].tasks, vec![1]);
}

#[test]
fn keyed_grouping_matches_scan() {
    let mut tasks = scenario(false);
    let a = tasks.sort_grouped().unwrap();
    let b = tasks.sort_grouped_hash_specialization().unwrap();
    assert_eq!(a.len(), b.len());
    for (x, y) in a.iter().zip(b.iter()) {
        assert_eq!(x.id, y.id);
        assert_eq!(x.tasks, y.tasks);
    }
    assert_eq!(b[0].tasks, vec![5, 2]);
    assert_eq!(b[1].tasks, vec![6, 3, 4]);
}

#[test]
fn flattened_groups_give_back_the_order() {
    for four_needs_two in [false, true] {
        let mut tasks = scenario(four_needs_two);
        let order = ids(&tasks.sort().unwrap());
        assert_eq!(flatten(&tasks.sort_grouped().unwrap()), order);
        assert_eq!(flatten(&tasks.sort_grouped_hash_specialization().unwrap()), order);
    }
}

#[test]
fn repeated_sorts_agree() {
    let mut tasks = scenario(true);
    let first = ids(&tasks.sort().unwrap());
    let second = ids(&tasks.sort().unwrap());
    assert_eq!(first, second);
}

#[test]
fn sorted_tasks_keep_their_fields() {
    let mut tasks = scenario(true);
    let sorted = tasks.sort().unwrap();
    assert_eq!(sorted[0].id, 5);
    assert_eq!(sorted[0].group.as_deref(), Some("A"));
    assert_eq!(sorted[1].dependent_tasks, vec![5]);
    assert_eq!(sorted[6].dependent_tasks, vec![2, 3, 6]);
    assert_eq!(tasks.tasks().len(), 8);
}

#[test]
fn constructors_set_fields() {
    let t = Task::new(3);
    assert_eq!(t.id, 3);
    assert!(t.group.is_none());
    assert!(t.dependent_tasks.is_empty());
    let t = Task::new_with_dependent(4, vec![1, 2]).with_group("G");
    assert_eq!(t.id, 4);
    assert_eq!(t.group.as_deref(), Some("G"));
    assert_eq!(t.dependent_tasks, vec![1, 2]);
}

#[test]
fn engine_chain() {
    let r = double_topological_sort(vec![-1, -1, -1], 0, vec![vec![1], vec![2], vec![]]);
    assert_eq!(r, vec![2, 1, 0]);
}

#[test]
fn engine_keeps_groups_together() {
    // tasks 0 and 2 share group 0; task 1 has none and depends on nothing
    let r = double_topological_sort(vec![0, -1, 0], 1, vec![vec![], vec![], vec![]]);
    assert_eq!(r, vec![0, 2, 1]);
}

#[test]
fn engine_cycle() {
    let r = double_topological_sort(vec![-1, -1], 0, vec![vec![1], vec![0]]);
    assert!(r.is_empty());
}

#[test]
fn first_of_two_equal_identities_is_the_dependency() {
    let mut tasks = DependentSort::default();
    tasks.add(Task::new_with_dependent(1, vec![]));
    tasks.add(Task::new_with_dependent(2, vec![1]));
    tasks.add(Task::new_with_dependent(1, vec![2]));
    let order = ids(&tasks.sort().unwrap());
    assert_eq!(order, vec![1, 2, 1]);
}

#[test]
fn mermaid_diagram() {
    let mut tasks = DependentSort::default();
    tasks.add(Task::new_with_dependent(1, vec![2]).with_group("B"));
    tasks.add(Task::new(2).with_group("A"));
    tasks.add(Task::new_with_dependent(120, vec![1]));
    let expected = "flowchart TB\n    t1[\"Task 1\"]\n    t2[\"Task 2\"]\n    t120[\"Task 120\"]\n    subgraph A\n    end\n    subgraph B\n        t2 --> t1\n    end\n    t1 --> t120\n";
    assert_eq!(tasks.draw_mermaid(), expected);
}

#[test]
fn mermaid_orders_subgraphs_by_label() {
    let mut tasks = DependentSort::default();
    tasks.add(Task::new(0).with_group("b"));
    tasks.add(Task::new(1).with_group("B"));
    tasks.add(Task::new(2).with_group("ab"));
    tasks.add(Task::new(3).with_group("a"));
    let text = tasks.draw_mermaid();
    let order: Vec<&str> = text
        .lines()
        .filter_map(|l| l.strip_prefix("    subgraph "))
        .collect();
    assert_eq!(order, vec!["B", "a", "ab", "b"]);
}

#[test]
fn tasks_compare_by_identity() {
    let a = Task::new_with_dependent(3, vec![1]).with_group("A");
    let b = Task::new(3);
    let c = Task::new(4);
    assert!(a == b);
    assert!(a != c);
    assert!(b < c);
    assert_eq!(c.partial_cmp(&a), Some(std::cmp::Ordering::Greater));
}
