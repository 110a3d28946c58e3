use crate::model::{
    eff_tasks, find_task_ix, lemma_find_task_ix_some, task_ix_in, Backlog, Task, TaskState, TaskV,
};
use crate::validate::find_task_index;
use vstd::prelude::*;

verus! {

/// A dependency id counts as satisfied when it resolves to no task, or when
/// the task it resolves to (the first with that id) is done.
pub open spec fn dep_satisfied(eff: Seq<TaskV>, d: Seq<char>) -> bool {
    match find_task_ix(eff, d) {
        Some(k) => eff[k].state == TaskState::Done,
        None => true,
    }
}

/// A task is ready when it is still to do and every dependency is satisfied.
pub open spec fn is_ready(eff: Seq<TaskV>, t: TaskV) -> bool {
    t.state == TaskState::Todo && (forall|j: int|
        0 <= j < t.depends.len() ==> dep_satisfied(eff, #[trigger] t.depends[j]))
}

pub open spec fn ready_pred(eff: Seq<TaskV>) -> spec_fn(TaskV) -> bool {
    |t: TaskV| is_ready(eff, t)
}

/// The ready tasks, in effective-set order.
pub open spec fn ready_tasks_spec(b: crate::model::BacklogV) -> Seq<TaskV> {
    eff_tasks(b).filter(ready_pred(eff_tasks(b)))
}

/// Membership in a filtered sequence is membership plus the predicate.
pub proof fn lemma_filter_membership<A>(s: Seq<A>, pred: spec_fn(A) -> bool, x: A)
    ensures
        s.filter(pred).contains(x) <==> s.contains(x) && pred(x),
    decreases s.len(),
{
    reveal(Seq::filter);
    if s.len() == 0 {
        if s.filter(pred).contains(x) {
            let i = choose|i: int| 0 <= i < s.filter(pred).len() && s.filter(pred)[i] == x;
        }
        if s.contains(x) {
            let i = choose|i: int| 0 <= i < s.len() && s[i] == x;
        }
    } else {
        let dl = s.drop_last();
        let f = dl.filter(pred);
        lemma_filter_membership(dl, pred, x);
        if pred(s.last()) {
            assert(s.filter(pred) == f.push(s.last()));
            if f.push(s.last()).contains(x) {
                let i = choose|i: int|
                    0 <= i < f.push(s.last()).len() && f.push(s.last())[i] == x;
                if i < f.len() {
                    assert(f[i] == x);
                } else {
                    assert(x == s.last());
                    assert(s[s.len() - 1] == x);
                }
            }
            if s.contains(x) && pred(x) {
                let i = choose|i: int| 0 <= i < s.len() && s[i] == x;
                if i < s.len() - 1 {
                    assert(dl[i] == x);
                    assert(f.contains(x));
                    let k = choose|k: int| 0 <= k < f.len() && f[k] == x;
                    assert(f.push(s.last())[k] == x);
                } else {
                    assert(f.push(s.last())[f.len() as int] == x);
                }
            }
        } else {
            assert(s.filter(pred) == f);
            if s.contains(x) && pred(x) {
                let i = choose|i: int| 0 <= i < s.len() && s[i] == x;
                assert(i < s.len() - 1) by {
                    if i == s.len() - 1 {
                        assert(!pred(x));
                    }
                }
                assert(dl[i] == x);
            }
            if f.contains(x) {
                assert(dl.contains(x) && pred(x));
                let i = choose|i: int| 0 <= i < dl.len() && dl[i] == x;
                assert(s[i] == x);
            }
        }
    }
}

/// Readiness correctness: a task stands in the ready set exactly when it is
/// in the effective task set, its state is Todo, and every dependency id that
/// resolves to a task resolves to one whose state is Done.
pub proof fn lemma_readiness_correctness(b: crate::model::BacklogV, t: TaskV)
    ensures
        ready_tasks_spec(b).contains(t) <==> (eff_tasks(b).contains(t) && is_ready(
            eff_tasks(b),
            t,
        )),
{
    let eff = eff_tasks(b);
    lemma_filter_membership(eff, ready_pred(eff), t);
}

/// Whether the task at position i is ready.
fn task_is_ready(tasks: &Vec<&Task>, i: usize) -> (r: bool)
    requires
        i < tasks@.len(),
    ensures
        r == is_ready(tasks.deep_view(), tasks.deep_view()[i as int]),
{
    let ghost eff = tasks.deep_view();
    let t: &Task = tasks[i];
    assert(eff[i as int] == tasks@[i as int].deep_view());
    if !(matches!(t.state, TaskState::Todo)) {
        return false;
    }
    let nd: usize = t.depends.len();
    let mut d: usize = 0;
    while d < nd
        invariant
            i < tasks@.len(),
            eff == tasks.deep_view(),
            t == tasks@[i as int],
            eff[i as int] == tasks@[i as int].deep_view(),
            nd == t.depends@.len(),
            d <= nd,
            forall|d2: int|
                0 <= d2 < d ==> dep_satisfied(eff, #[trigger] eff[i as int].depends[d2]),
        decreases nd - d,
    {
        assert(eff[i as int].depends[d as int] == t.depends@[d as int]@);
        match find_task_index(tasks, &t.depends[d]) {
            Some(k) => {
                proof {
                    lemma_find_task_ix_some(eff, t.depends@[d as int]@, k as int);
                }
                assert(eff[k as int] == tasks@[k as int].deep_view());
                if !(matches!(tasks[k].state, TaskState::Done)) {
                    assert(!dep_satisfied(eff, eff[i as int].depends[d as int]));
                    return false;
                }
            },
            None => {
                proof {
                    crate::model::lemma_find_task_ix(eff, eff[i as int].depends[d as int]);
                }
            },
        }
        d += 1;
    }
    true
}

/// The tasks that are eligible to start: still to do, with every dependency
/// that names a task naming a done one; in effective-set order.
pub fn get_ready_tasks<'a>(backlog: &'a Backlog) -> (r: Vec<&'a Task>)
    ensures
        r.deep_view() == ready_tasks_spec(backlog@),
{
    let tasks = backlog.all_tasks();
    let ghost eff = eff_tasks(backlog@);
    let ghost pred = ready_pred(eff);
    let n: usize = tasks.len();
    let mut r: Vec<&Task> = Vec::new();
    proof {
        reveal(Seq::filter);
        assert(eff.take(0) =~= Seq::<TaskV>::empty());
        assert(r.deep_view() =~= eff.take(0).filter(pred));
    }
    let mut i: usize = 0;
    while i < n
        invariant
            n == tasks@.len(),
            eff == tasks.deep_view(),
            eff == eff_tasks(backlog@),
            pred == ready_pred(eff),
            i <= n,
            r@.len() == r.deep_view().len(),
            r.deep_view() == eff.take(i as int).filter(pred),
        decreases n - i,
    {
        let ghost prevv = r@;
        let ghost prevdv = r.deep_view();
        let ready = task_is_ready(&tasks, i);
        if ready {
            r.push(tasks[i]);
        }
        i += 1;
        proof {
            reveal(Seq::filter);
            let gi = i as int;
            let taken = eff.take(gi);
            assert(taken.drop_last() =~= eff.take(gi - 1));
            assert(taken.last() == eff[gi - 1]);
            assert(eff[gi - 1] == tasks@[gi - 1].deep_view());
            if ready {
                assert(taken.filter(pred) == eff.take(gi - 1).filter(pred).push(eff[gi - 1]));
                assert forall|m: int| 0 <= m < r@.len() implies r.deep_view()[m] == taken.filter(
                    pred,
                )[m] by {
                    if m < prevv.len() {
                        assert(r@[m] == prevv[m]);
                        assert(prevdv[m] == eff.take(gi - 1).filter(pred)[m]);
                    } else {
                        assert(r@[m].deep_view() == eff[gi - 1]);
                    }
                }
                assert(r.deep_view() =~= taken.filter(pred));
            } else {
                assert(taken.filter(pred) == eff.take(gi - 1).filter(pred));
            }
        }
    }
    proof {
        assert(eff.take(n as int) =~= eff);
    }
    r
}

} // verus!
