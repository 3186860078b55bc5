//! A mermaid flowchart of a registry: its tasks, and the dependency edges of each
//! group in a subgraph of its own.
use crate::registry::{collect_labels, labels_of, strs, task_views, DependentSort, TaskView};
use vstd::prelude::*;
use vstd::std_specs::iter::IteratorSpec;

verus! {

/// The text of one decimal digit.
pub open spec fn digit_text(d: nat) -> Seq<char> {
    if d == 0 {
        "0"@
    } else if d == 1 {
        "1"@
    } else if d == 2 {
        "2"@
    } else if d == 3 {
        "3"@
    } else if d == 4 {
        "4"@
    } else if d == 5 {
        "5"@
    } else if d == 6 {
        "6"@
    } else if d == 7 {
        "7"@
    } else if d == 8 {
        "8"@
    } else {
        "9"@
    }
}

/// The decimal notation of `n`.
pub open spec fn decimal(n: nat) -> Seq<char>
    decreases n,
{
    if n < 10 {
        digit_text(n)
    } else {
        decimal(n / 10) + digit_text(n % 10)
    }
}

fn digit(d: u64) -> (r: &'static str)
    requires
        d < 10,
    ensures
        r@ == digit_text(d as nat),
{
    if d == 0 {
        "0"
    } else if d == 1 {
        "1"
    } else if d == 2 {
        "2"
    } else if d == 3 {
        "3"
    } else if d == 4 {
        "4"
    } else if d == 5 {
        "5"
    } else if d == 6 {
        "6"
    } else if d == 7 {
        "7"
    } else if d == 8 {
        "8"
    } else {
        "9"
    }
}

/// Appends the decimal notation of `n`.
fn push_decimal(out: &mut String, n: u64)
    ensures
        final(out)@ == old(out)@ + decimal(n as nat),
    decreases n,
{
    if n >= 10 {
        push_decimal(out, n / 10);
    }
    out.append(digit(n % 10));
    proof {
        if n >= 10 {
            assert(final(out)@ =~= old(out)@ + decimal(n as nat));
        }
    }
}

/// `a` comes before `b` in the order of `str`: compared character by character,
/// a proper prefix first.
pub open spec fn lex_less(a: Seq<char>, b: Seq<char>) -> bool
    decreases a.len(),
{
    if b.len() == 0 {
        false
    } else if a.len() == 0 {
        true
    } else if a[0] != b[0] {
        (a[0] as u32) < (b[0] as u32)
    } else {
        lex_less(a.drop_first(), b.drop_first())
    }
}

fn label_less(a: &String, b: &String) -> (r: bool)
    ensures
        r == lex_less(a@, b@),
{
    let sa = a.as_str();
    let sb = b.as_str();
    let na = sa.unicode_len();
    let mut ia = sa.chars();
    let mut ib = sb.chars();
    let mut k: usize = 0;
    proof {
        assert(a@.skip(0) =~= a@);
        assert(b@.skip(0) =~= b@);
    }
    loop
        invariant
            na == a@.len(),
            k <= na,
            k <= b@.len(),
            ia.obeys_prophetic_iter_laws(),
            ib.obeys_prophetic_iter_laws(),
            ia.remaining() == a@.skip(k as int),
            ib.remaining() == b@.skip(k as int),
            lex_less(a@, b@) == lex_less(a@.skip(k as int), b@.skip(k as int)),
        decreases na - k,
    {
        let ghost ra = a@.skip(k as int);
        let ghost rb = b@.skip(k as int);
        let ca = ia.next();
        let cb = ib.next();
        match (ca, cb) {
            (_, None) => {
                return false;
            },
            (None, Some(_)) => {
                return true;
            },
            (Some(x), Some(y)) => {
                if x != y {
                    return (x as u32) < (y as u32);
                }
                proof {
                    assert(ra.drop_first() =~= a@.skip(k + 1));
                    assert(rb.drop_first() =~= b@.skip(k + 1));
                }
                k += 1;
            },
        }
    }
}

/// `s`, with `x` put after the last element that comes before it.
pub open spec fn insert_sorted(s: Seq<Seq<char>>, x: Seq<char>) -> Seq<Seq<char>>
    decreases s.len(),
{
    if s.len() == 0 {
        seq![x]
    } else if lex_less(s.last(), x) {
        s.push(x)
    } else {
        insert_sorted(s.drop_last(), x).push(s.last())
    }
}

/// The labels in ascending order, by insertion.
pub open spec fn sort_labels(labels: Seq<Seq<char>>) -> Seq<Seq<char>>
    decreases labels.len(),
{
    if labels.len() == 0 {
        Seq::empty()
    } else {
        insert_sorted(sort_labels(labels.drop_last()), labels.last())
    }
}

fn insert_label(v: &mut Vec<String>, x: String)
    ensures
        strs(final(v)@) == insert_sorted(strs(old(v)@), x@),
{
    let ghost s = strs(v@);
    let mut j: usize = v.len();
    proof {
        assert(s.take(j as int) =~= s);
        assert(s.skip(j as int) =~= Seq::<Seq<char>>::empty());
        assert(insert_sorted(s, x@) =~= insert_sorted(s.take(j as int), x@) + s.skip(j as int));
    }
    while j > 0 && !label_less(&v[j - 1], &x)
        invariant
            j <= v.len(),
            s == strs(v@),
            insert_sorted(s, x@) == insert_sorted(s.take(j as int), x@) + s.skip(j as int),
        decreases j,
    {
        proof {
            let t = s.take(j as int);
            assert(t.drop_last() =~= s.take(j - 1));
            assert(t.last() == s[j - 1]);
            assert(s[j - 1] == v@[j - 1]@);
            assert(insert_sorted(t, x@) == insert_sorted(s.take(j - 1), x@).push(s[j - 1]));
            assert(insert_sorted(s.take(j - 1), x@).push(s[j - 1]) + s.skip(j as int) =~= insert_sorted(
                s.take(j - 1),
                x@,
            ) + s.skip(j - 1));
        }
        j -= 1;
    }
    proof {
        let t = s.take(j as int);
        if j > 0 {
            assert(t.last() == s[j - 1]);
            assert(s[j - 1] == v@[j - 1]@);
        }
        assert(insert_sorted(t, x@) =~= t.push(x@));
    }
    v.insert(j, x);
    proof {
        assert(strs(v@) =~= s.take(j as int).push(x@) + s.skip(j as int));
    }
}

/// Edge lines `dep --> id` for each dependency, each after `indent`.
pub open spec fn edge_lines(indent: Seq<char>, deps: Seq<u64>, id: u64) -> Seq<char>
    decreases deps.len(),
{
    if deps.len() == 0 {
        Seq::empty()
    } else {
        edge_lines(indent, deps.drop_last(), id) + indent + "t"@ + decimal(deps.last() as nat)
            + " --> t"@ + decimal(id as nat) + "\n"@
    }
}

/// One node line per task.
pub open spec fn task_lines(tasks: Seq<TaskView>) -> Seq<char>
    decreases tasks.len(),
{
    if tasks.len() == 0 {
        Seq::empty()
    } else {
        let t = tasks.last();
        task_lines(tasks.drop_last()) + "    t"@ + decimal(t.id as nat) + "[\"Task "@ + decimal(
            t.id as nat,
        ) + "\"]\n"@
    }
}

/// The edge lines of the tasks labelled `label`, in insertion order.
pub open spec fn member_edges(tasks: Seq<TaskView>, label: Seq<char>) -> Seq<char>
    decreases tasks.len(),
{
    if tasks.len() == 0 {
        Seq::empty()
    } else {
        let t = tasks.last();
        member_edges(tasks.drop_last(), label) + if t.group == Some(label) {
            edge_lines("        "@, t.deps, t.id)
        } else {
            Seq::empty()
        }
    }
}

/// One subgraph per label, in the order of `labels`.
pub open spec fn sections(labels: Seq<Seq<char>>, tasks: Seq<TaskView>) -> Seq<char>
    decreases labels.len(),
{
    if labels.len() == 0 {
        Seq::empty()
    } else {
        let l = labels.last();
        sections(labels.drop_last(), tasks) + "    subgraph "@ + l + "\n"@ + member_edges(tasks, l)
            + "    end\n"@
    }
}

/// The edge lines of the tasks without a label.
pub open spec fn lonely_edges(tasks: Seq<TaskView>) -> Seq<char>
    decreases tasks.len(),
{
    if tasks.len() == 0 {
        Seq::empty()
    } else {
        let t = tasks.last();
        lonely_edges(tasks.drop_last()) + if t.group is None {
            edge_lines("    "@, t.deps, t.id)
        } else {
            Seq::empty()
        }
    }
}

/// The flowchart: the header, a node per task, a subgraph per label in ascending
/// order, then the edges of the tasks without a label.
pub open spec fn mermaid(tasks: Seq<TaskView>) -> Seq<char> {
    "flowchart TB\n"@ + task_lines(tasks) + sections(sort_labels(labels_of(tasks)), tasks)
        + lonely_edges(tasks)
}

fn push_edges(out: &mut String, indent: &str, deps: &Vec<u64>, id: u64)
    ensures
        final(out)@ == old(out)@ + edge_lines(indent@, deps@, id),
{
    let mut j: usize = 0;
    proof {
        assert(deps@.take(0) =~= Seq::<u64>::empty());
        assert(out@ =~= old(out)@ + edge_lines(indent@, deps@.take(0), id));
    }
    while j < deps.len()
        invariant
            j <= deps.len(),
            out@ == old(out)@ + edge_lines(indent@, deps@.take(j as int), id),
        decreases deps.len() - j,
    {
        out.append(indent);
        out.append("t");
        push_decimal(out, deps[j]);
        out.append(" --> t");
        push_decimal(out, id);
        out.append("\n");
        proof {
            let t = deps@.take(j + 1);
            assert(t.drop_last() =~= deps@.take(j as int));
            assert(t.last() == deps@[j as int]);
        }
        j += 1;
        proof {
            assert(out@ =~= old(out)@ + edge_lines(indent@, deps@.take(j as int), id));
        }
    }
    proof {
        assert(deps@.take(j as int) =~= deps@);
    }
}

impl DependentSort {
    /// Draw a mermaid flowchart of the tasks and their dependencies.
    pub fn draw_mermaid(&self) -> (r: String)
        ensures
            r@ == mermaid(self@),
    {
        let tasks = self.tasks();
        let ghost all = self@;
        let n = tasks.len();
        let mut out = String::new();
        out.append("flowchart TB\n");
        let ghost head = out@;
        let mut k: usize = 0;
        proof {
            assert(all.take(0) =~= Seq::<TaskView>::empty());
            assert(out@ =~= head + task_lines(all.take(0)));
        }
        while k < n
            invariant
                n == tasks.len(),
                all == task_views(tasks@),
                k <= n,
                out@ == head + task_lines(all.take(k as int)),
            decreases n - k,
        {
            let id = tasks[k].id;
            out.append("    t");
            push_decimal(&mut out, id);
            out.append("[\"Task ");
            push_decimal(&mut out, id);
            out.append("\"]\n");
            proof {
                let t = all.take(k + 1);
                assert(t.drop_last() =~= all.take(k as int));
                assert(t.last().id == id);
            }
            k += 1;
            proof {
                assert(out@ =~= head + task_lines(all.take(k as int)));
            }
        }
        proof {
            assert(all.take(n as int) =~= all);
        }
        let labels = collect_labels(tasks);
        let mut sorted: Vec<String> = Vec::new();
        let mut k: usize = 0;
        proof {
            assert(strs(labels@).take(0) =~= Seq::<Seq<char>>::empty());
            assert(strs(sorted@) =~= sort_labels(strs(labels@).take(0)));
        }
        while k < labels.len()
            invariant
                k <= labels.len(),
                strs(sorted@) == sort_labels(strs(labels@).take(k as int)),
            decreases labels.len() - k,
        {
            proof {
                let t = strs(labels@).take(k + 1);
                assert(t.drop_last() =~= strs(labels@).take(k as int));
                assert(t.last() == labels@[k as int]@);
            }
            insert_label(&mut sorted, labels[k].clone());
            k += 1;
        }
        proof {
            assert(strs(labels@).take(k as int) =~= strs(labels@));
        }
        let ghost before_sections = out@;
        let ghost order = strs(sorted@);
        let mut p: usize = 0;
        proof {
            assert(order.take(0) =~= Seq::<Seq<char>>::empty());
            assert(out@ =~= before_sections + sections(order.take(0), all));
        }
        while p < sorted.len()
            invariant
                n == tasks.len(),
                all == task_views(tasks@),
                order == strs(sorted@),
                p <= sorted.len(),
                out@ == before_sections + sections(order.take(p as int), all),
            decreases sorted.len() - p,
        {
            let label = &sorted[p];
            let ghost start = out@;
            out.append("    subgraph ");
            out.append(label.as_str());
            out.append("\n");
            let ghost before_members = out@;
            let mut k: usize = 0;
            proof {
                assert(all.take(0) =~= Seq::<TaskView>::empty());
                assert(out@ =~= before_members + member_edges(all.take(0), label@));
            }
            while k < n
                invariant
                    n == tasks.len(),
                    all == task_views(tasks@),
                    k <= n,
                    out@ == before_members + member_edges(all.take(k as int), label@),
                decreases n - k,
            {
                let task = &tasks[k];
                let ghost prev = out@;
                let member = match &task.group {
                    Some(g) => *g == *label,
                    None => false,
                };
                if member {
                    push_edges(&mut out, "        ", &task.dependent_tasks, task.id);
                }
                proof {
                    let t = all.take(k + 1);
                    assert(t.drop_last() =~= all.take(k as int));
                    assert(t.last() == task@);
                    if !member {
                        assert(out@ =~= prev + Seq::<char>::empty());
                    }
                }
                k += 1;
                proof {
                    assert(out@ =~= before_members + member_edges(all.take(k as int), label@));
                }
            }
            out.append("    end\n");
            proof {
                assert(all.take(n as int) =~= all);
                let t = order.take(p + 1);
                assert(t.drop_last() =~= order.take(p as int));
                assert(t.last() == label@);
            }
            p += 1;
            proof {
                assert(out@ =~= before_sections + sections(order.take(p as int), all));
            }
        }
        proof {
            assert(order.take(p as int) =~= order);
        }
        let ghost before_lonely = out@;
        let mut k: usize = 0;
        proof {
            assert(all.take(0) =~= Seq::<TaskView>::empty());
            assert(out@ =~= before_lonely + lonely_edges(all.take(0)));
        }
        while k < n
            invariant
                n == tasks.len(),
                all == task_views(tasks@),
                k <= n,
                out@ == before_lonely + lonely_edges(all.take(k as int)),
            decreases n - k,
        {
            let task = &tasks[k];
            let ghost prev = out@;
            if task.group.is_none() {
                push_edges(&mut out, "    ", &task.dependent_tasks, task.id);
            }
            proof {
                let t = all.take(k + 1);
                assert(t.drop_last() =~= all.take(k as int));
                assert(t.last() == task@);
                if task.group.is_some() {
                    assert(out@ =~= prev + Seq::<char>::empty());
                }
            }
            k += 1;
            proof {
                assert(out@ =~= before_lonely + lonely_edges(all.take(k as int)));
            }
        }
        proof {
            assert(all.take(n as int) =~= all);
            assert(out@ =~= mermaid(all));
        }
        out
    }
}

} // verus!
