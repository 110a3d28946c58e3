use crate::model::{
    eff_tasks, find_task_ix, id_present, is_first_task_ix, lemma_find_task_ix,
    lemma_find_task_ix_some, task_ix_in, task_of, Backlog, BacklogError, Task, TaskV,
};
use vstd::prelude::*;
use vstd::seq_lib::*;
use vstd::set_lib::*;

verus! {

/// Dependency j of task i names no task of the effective set.
pub open spec fn dep_dangling(eff: Seq<TaskV>, i: int, j: int) -> bool {
    0 <= i < eff.len() && 0 <= j < eff[i].depends.len() && !id_present(eff, eff[i].depends[j])
}

/// Some dependency of some task is dangling.
pub open spec fn has_dangling(eff: Seq<TaskV>) -> bool {
    exists|i: int, j: int| dep_dangling(eff, i, j)
}

/// (i, j) is the first dangling dependency: tasks in effective order, and a
/// task's dependencies in their declared order.
pub open spec fn is_first_dangling(eff: Seq<TaskV>, i: int, j: int) -> bool {
    dep_dangling(eff, i, j) && (forall|i2: int, j2: int|
        #[trigger] dep_dangling(eff, i2, j2) ==> (i < i2 || (i == i2 && j <= j2)))
}

/// The dependency graph has an edge from the task with id u to the task with
/// id v: both ids name tasks, and u's task (the first with that id) lists v.
pub open spec fn edge(eff: Seq<TaskV>, u: Seq<char>, v: Seq<char>) -> bool {
    id_present(eff, u) && id_present(eff, v) && task_of(eff, u).depends.contains(v)
}

/// p is a concrete cycle: a closed, nonempty chain of edges.
pub open spec fn is_cycle(eff: Seq<TaskV>, p: Seq<Seq<char>>) -> bool {
    p.len() >= 2 && p[0] == p[p.len() - 1] && (forall|t: int|
        0 <= t < p.len() - 1 ==> edge(eff, #[trigger] p[t], p[t + 1]))
}

pub open spec fn has_cycle(eff: Seq<TaskV>) -> bool {
    exists|p: Seq<Seq<char>>| is_cycle(eff, p)
}

/// What validation reports, as a function of the effective task set:
/// success exactly on a dangling-free acyclic graph; the first dangling
/// dependency when one exists; else a concrete cycle when one exists.
pub open spec fn is_validate_result(eff: Seq<TaskV>, r: Result<(), BacklogError>) -> bool {
    &&& (r is Ok <==> !has_dangling(eff) && !has_cycle(eff))
    &&& (has_dangling(eff) ==> (r matches Err(BacklogError::DanglingDependency { task_id, missing })
        && exists|i: int, j: int|
        #[trigger] is_first_dangling(eff, i, j) && task_id@ == eff[i].id && missing@
            == eff[i].depends[j]))
    &&& (!has_dangling(eff) && has_cycle(eff) ==> (r matches Err(BacklogError::CycleDetected(p))
        && is_cycle(eff, p.deep_view())))
}

/// The position of the first task with the given id, or None; the id-based
/// lookup every caller shares.
pub(crate) fn find_task_index(tasks: &Vec<&Task>, id: &String) -> (r: Option<usize>)
    ensures
        match r {
            Some(k) => is_first_task_ix(tasks.deep_view(), id@, k as int),
            None => !id_present(tasks.deep_view(), id@),
        },
{
    let ghost eff = tasks.deep_view();
    let n: usize = tasks.len();
    let mut i: usize = 0;
    while i < n
        invariant
            n == tasks@.len(),
            eff == tasks.deep_view(),
            i <= n,
            forall|k: int| 0 <= k < i ==> eff[k].id != id@,
        decreases n - i,
    {
        if tasks[i].id == *id {
            assert(eff[i as int] == tasks@[i as int].deep_view());
            assert(eff[i as int].id == id@);
            return Some(i);
        }
        assert(eff[i as int] == tasks@[i as int].deep_view());
        i += 1;
    }
    proof {
        assert(eff.len() == tasks@.len());
        if id_present(eff, id@) {
            let w = choose|w: int| task_ix_in(eff, id@, w);
            assert(eff[w].id != id@);
        }
    }
    None
}

/// Task x still has a dependency that names a task which is not yet removed.
pub open spec fn blocked(eff: Seq<TaskV>, removed: Seq<bool>, x: int) -> bool {
    exists|d: int|
        0 <= d < eff[x].depends.len() && id_present(eff, #[trigger] eff[x].depends[d])
            && !removed[find_task_ix(eff, eff[x].depends[d]).unwrap()]
}

/// The state of the removal pass: removed marks exactly the members of order;
/// order lists distinct canonical task positions; and every listed task's
/// resolving dependencies stand earlier in the order.
pub open spec fn kahn_inv(eff: Seq<TaskV>, removed: Seq<bool>, order: Seq<int>) -> bool {
    &&& removed.len() == eff.len()
    &&& order.len() <= eff.len()
    &&& (forall|a: int, b: int| 0 <= a < b < order.len() ==> order[a] != order[b])
    &&& (forall|k: int|
        0 <= k < order.len() ==> 0 <= #[trigger] order[k] < eff.len() && is_first_task_ix(
            eff,
            eff[order[k]].id,
            order[k],
        ))
    &&& (forall|i: int| 0 <= i < eff.len() ==> (#[trigger] removed[i] <==> order.contains(i)))
    &&& (forall|k: int, d: int|
        0 <= k < order.len() && 0 <= d < eff[order[k]].depends.len() && id_present(
            eff,
            #[trigger] eff[order[k]].depends[d],
        ) ==> exists|k2: int|
            0 <= k2 < k && order[k2] == find_task_ix(eff, eff[order[k]].depends[d]).unwrap())
}

/// A sequence of distinct integers drawn from 0..n has at most n entries.
proof fn lemma_distinct_bounded(s: Seq<int>, n: int)
    requires
        0 <= n,
        forall|k: int| 0 <= k < s.len() ==> 0 <= #[trigger] s[k] < n,
        forall|a: int, b: int| 0 <= a < b < s.len() ==> s[a] != s[b],
    ensures
        s.len() <= n,
{
    assert(s.no_duplicates());
    s.unique_seq_to_set();
    assert(s.to_set().subset_of(set_int_range(0, n))) by {
        assert forall|x: int| s.to_set().contains(x) implies set_int_range(0, n).contains(x) by {
            assert(s.contains(x));
            let k = choose|k: int| 0 <= k < s.len() && s[k] == x;
            assert(0 <= s[k] < n);
        }
    }
    lemma_int_range(0, n);
    lemma_len_subset(s.to_set(), set_int_range(0, n));
}

/// The position of value v in the order.
pub open spec fn order_pos(order: Seq<int>, v: int) -> int {
    choose|k: int| 0 <= k < order.len() && order[k] == v
}

proof fn lemma_order_pos(order: Seq<int>, v: int)
    requires
        order.contains(v),
        forall|a: int, b: int| 0 <= a < b < order.len() ==> order[a] != order[b],
    ensures
        0 <= order_pos(order, v) < order.len(),
        order[order_pos(order, v)] == v,
        forall|k: int| 0 <= k < order.len() && order[k] == v ==> k == order_pos(order, v),
{
    let w = choose|k: int| 0 <= k < order.len() && order[k] == v;
    assert(0 <= order_pos(order, v) < order.len() && order[order_pos(order, v)] == v);
    assert forall|k: int| 0 <= k < order.len() && order[k] == v implies k == order_pos(
        order,
        v,
    ) by {
        let p = order_pos(order, v);
        if k < p {
            assert(order[k] != order[p]);
        }
        if p < k {
            assert(order[p] != order[k]);
        }
    }
}

/// When the order covers every canonical task, each edge leads to a strictly
/// earlier position in it.
proof fn lemma_edge_pos_decreases(eff: Seq<TaskV>, removed: Seq<bool>, order: Seq<int>, u: Seq<char>, v: Seq<char>)
    requires
        kahn_inv(eff, removed, order),
        forall|i: int|
            0 <= i < eff.len() && is_first_task_ix(eff, #[trigger] eff[i].id, i) ==> removed[i],
        edge(eff, u, v),
    ensures
        order.contains(find_task_ix(eff, u).unwrap()),
        order.contains(find_task_ix(eff, v).unwrap()),
        order_pos(order, find_task_ix(eff, v).unwrap()) < order_pos(
            order,
            find_task_ix(eff, u).unwrap(),
        ),
{
    lemma_find_task_ix(eff, u);
    lemma_find_task_ix(eff, v);
    let iu = find_task_ix(eff, u).unwrap();
    let iv = find_task_ix(eff, v).unwrap();
    assert(is_first_task_ix(eff, u, iu));
    assert(is_first_task_ix(eff, v, iv));
    assert(eff[iu].id == u);
    assert(removed[iu]);
    assert(removed[iv]);
    assert(order.contains(iu));
    assert(order.contains(iv));
    lemma_order_pos(order, iu);
    lemma_order_pos(order, iv);
    let k = order_pos(order, iu);
    assert(task_of(eff, u) == eff[iu]);
    assert(task_of(eff, u).depends.contains(v));
    let d = choose|d: int| 0 <= d < eff[iu].depends.len() && eff[iu].depends[d] == v;
    assert(eff[order[k]].depends[d] == v);
    assert(id_present(eff, eff[order[k]].depends[d]));
    let k2 = choose|k2: int|
        0 <= k2 < k && order[k2] == find_task_ix(eff, eff[order[k]].depends[d]).unwrap();
    assert(order[k2] == iv);
    assert(k2 == order_pos(order, iv));
}

/// Positions strictly decrease along any chain of edges.
proof fn lemma_chain_pos(
    eff: Seq<TaskV>,
    removed: Seq<bool>,
    order: Seq<int>,
    p: Seq<Seq<char>>,
    b: int,
)
    requires
        kahn_inv(eff, removed, order),
        forall|i: int|
            0 <= i < eff.len() && is_first_task_ix(eff, #[trigger] eff[i].id, i) ==> removed[i],
        0 < b < p.len(),
        forall|t: int| 0 <= t < p.len() - 1 ==> edge(eff, #[trigger] p[t], p[t + 1]),
    ensures
        order_pos(order, find_task_ix(eff, p[b]).unwrap()) <= order_pos(
            order,
            find_task_ix(eff, p[0]).unwrap(),
        ) - b,
    decreases b,
{
    if b == 1 {
        lemma_edge_pos_decreases(eff, removed, order, p[0], p[1]);
    } else {
        lemma_chain_pos(eff, removed, order, p, b - 1);
        lemma_edge_pos_decreases(eff, removed, order, p[b - 1], p[b]);
    }
}

/// A graph whose canonical tasks all stand in a topological order is acyclic.
proof fn lemma_all_removed_acyclic(eff: Seq<TaskV>, removed: Seq<bool>, order: Seq<int>)
    requires
        kahn_inv(eff, removed, order),
        forall|i: int|
            0 <= i < eff.len() && is_first_task_ix(eff, #[trigger] eff[i].id, i) ==> removed[i],
    ensures
        !has_cycle(eff),
{
    if has_cycle(eff) {
        let p = choose|p: Seq<Seq<char>>| is_cycle(eff, p);
        lemma_chain_pos(eff, removed, order, p, p.len() - 1);
        assert(p[0] == p[p.len() - 1]);
        assert(false);
    }
}

/// Whether every dependency of task i that names a task is already removed.
fn deps_all_removed(tasks: &Vec<&Task>, i: usize, removed: &Vec<bool>) -> (r: bool)
    requires
        i < tasks@.len(),
        removed@.len() == tasks@.len(),
    ensures
        r <==> !blocked(tasks.deep_view(), removed@, i as int),
{
    let ghost eff = tasks.deep_view();
    let t: &Task = tasks[i];
    assert(eff[i as int] == tasks@[i as int].deep_view());
    let nd: usize = t.depends.len();
    let mut d: usize = 0;
    while d < nd
        invariant
            i < tasks@.len(),
            removed@.len() == tasks@.len(),
            eff == tasks.deep_view(),
            t == tasks@[i as int],
            nd == t.depends@.len(),
            eff[i as int] == tasks@[i as int].deep_view(),
            d <= nd,
            forall|d2: int|
                0 <= d2 < d && id_present(eff, #[trigger] eff[i as int].depends[d2]) ==> removed@[
                    find_task_ix(eff, eff[i as int].depends[d2]).unwrap()
                ],
        decreases nd - d,
    {
        assert(eff[i as int].depends[d as int] == t.depends@[d as int]@);
        match find_task_index(tasks, &t.depends[d]) {
            Some(k) => {
                proof {
                    lemma_find_task_ix_some(eff, t.depends@[d as int]@, k as int);
                    assert(task_ix_in(eff, eff[i as int].depends[d as int], k as int));
                }
                if !removed[k] {
                    assert(blocked(eff, removed@, i as int));
                    return false;
                }
            },
            None => {
                proof {
                    lemma_find_task_ix(eff, eff[i as int].depends[d as int]);
                }
            },
        }
        d += 1;
    }
    proof {
        if blocked(eff, removed@, i as int) {
            let d2 = choose|d2: int|
                0 <= d2 < eff[i as int].depends.len() && id_present(
                    eff,
                    #[trigger] eff[i as int].depends[d2],
                ) && !removed@[find_task_ix(eff, eff[i as int].depends[d2]).unwrap()];
            assert(removed@[find_task_ix(eff, eff[i as int].depends[d2]).unwrap()]);
        }
    }
    true
}

/// Looks for a dependency cycle among the tasks; hands back one concrete
/// cycle path when the graph has one.
fn find_cycle(tasks: &Vec<&Task>) -> (r: Option<Vec<String>>)
    ensures
        match r {
            Some(p) => is_cycle(tasks.deep_view(), p.deep_view()),
            None => !has_cycle(tasks.deep_view()),
        },
{
    let ghost eff = tasks.deep_view();
    let n: usize = tasks.len();
    assert(eff.len() == n);

    let mut canon: Vec<bool> = Vec::new();
    let mut i: usize = 0;
    while i < n
        invariant
            n == tasks@.len(),
            eff == tasks.deep_view(),
            eff.len() == n,
            i <= n,
            canon@.len() == i,
            forall|x: int|
                0 <= x < i ==> (#[trigger] canon@[x] <==> is_first_task_ix(eff, eff[x].id, x)),
        decreases n - i,
    {
        let c = match find_task_index(tasks, &tasks[i].id) {
            Some(k) => k == i,
            None => false,
        };
        proof {
            assert(eff[i as int] == tasks@[i as int].deep_view());
            assert(tasks@[i as int].id@ == eff[i as int].id);
            if !c && is_first_task_ix(eff, eff[i as int].id, i as int) {
                assert(task_ix_in(eff, eff[i as int].id, i as int));
                assert(id_present(eff, eff[i as int].id));
                lemma_find_task_ix(eff, eff[i as int].id);
            }
            if c {
                assert(is_first_task_ix(eff, eff[i as int].id, i as int));
            }
        }
        canon.push(c);
        i += 1;
    }

    let mut removed: Vec<bool> = Vec::new();
    let mut i2: usize = 0;
    while i2 < n
        invariant
            i2 <= n,
            removed@.len() == i2,
            forall|x: int| 0 <= x < i2 ==> !(#[trigger] removed@[x]),
        decreases n - i2,
    {
        removed.push(false);
        i2 += 1;
    }
    let ghost mut order: Seq<int> = Seq::empty();
    proof {
        assert forall|x: int| 0 <= x < eff.len() implies (#[trigger] removed@[x] <==> order.contains(
            x,
        )) by {
            if order.contains(x) {
                let w = choose|w: int| 0 <= w < order.len() && order[w] == x;
            }
        }
        assert(kahn_inv(eff, removed@, order));
    }

    let mut progressed = true;
    while progressed
        invariant
            n == tasks@.len(),
            eff == tasks.deep_view(),
            eff.len() == n,
            canon@.len() == n,
            removed@.len() == n,
            forall|x: int|
                0 <= x < n ==> (#[trigger] canon@[x] <==> is_first_task_ix(eff, eff[x].id, x)),
            kahn_inv(eff, removed@, order),
            !progressed ==> (forall|x: int|
                0 <= x < n && #[trigger] canon@[x] && !removed@[x] ==> blocked(eff, removed@, x)),
        decreases n - order.len() + (if progressed {
            1int
        } else {
            0int
        }),
    {
        progressed = false;
        let ghost pass_order = order;
        let ghost pass_removed = removed@;
        let mut i3: usize = 0;
        while i3 < n
            invariant
                n == tasks@.len(),
                eff == tasks.deep_view(),
                eff.len() == n,
                canon@.len() == n,
                removed@.len() == n,
                i3 <= n,
                forall|x: int|
                    0 <= x < n ==> (#[trigger] canon@[x] <==> is_first_task_ix(eff, eff[x].id, x)),
                kahn_inv(eff, removed@, order),
                progressed ==> order.len() > pass_order.len(),
                order.len() >= pass_order.len(),
                !progressed ==> removed@ == pass_removed && order == pass_order,
                !progressed ==> (forall|x: int|
                    0 <= x < i3 && #[trigger] canon@[x] && !removed@[x] ==> blocked(
                        eff,
                        removed@,
                        x,
                    )),
            decreases n - i3,
        {
            if canon[i3] && !removed[i3] {
                if deps_all_removed(tasks, i3, &removed) {
                    let ghost pre_removed = removed@;
                    let ghost oldorder = order;
                    removed[i3] = true;
                    proof {
                        order = order.push(i3 as int);
                        assert(!oldorder.contains(i3 as int));
                        assert(removed@ == pre_removed.update(i3 as int, true));
                        assert forall|x: int| 0 <= x < eff.len() implies (#[trigger] removed@[x]
                            <==> order.contains(x)) by {
                            if x == i3 as int {
                                assert(order[order.len() - 1] == x);
                            } else {
                                if oldorder.contains(x) {
                                    let w = choose|w: int|
                                        0 <= w < oldorder.len() && oldorder[w] == x;
                                    assert(order[w] == x);
                                }
                                if order.contains(x) {
                                    let w = choose|w: int| 0 <= w < order.len() && order[w] == x;
                                    assert(w < oldorder.len());
                                    assert(oldorder[w] == x);
                                }
                            }
                        }
                        assert forall|a: int, b: int| 0 <= a < b < order.len() implies order[a]
                            != order[b] by {
                            if b == order.len() - 1 {
                                assert(order[a] == oldorder[a]);
                                if order[a] == i3 as int {
                                    assert(oldorder.contains(i3 as int));
                                }
                            }
                        }
                        lemma_distinct_bounded(order, n as int);
                        assert forall|k: int, d: int|
                            0 <= k < order.len() && 0 <= d < eff[order[k]].depends.len()
                                && id_present(eff, #[trigger] eff[order[k]].depends[d]) implies exists|
                            k2: int,
                        |
                            0 <= k2 < k && order[k2] == find_task_ix(
                                eff,
                                eff[order[k]].depends[d],
                            ).unwrap() by {
                            if k < order.len() - 1 {
                                assert(order[k] == oldorder[k]);
                                let k2 = choose|k2: int|
                                    0 <= k2 < k && oldorder[k2] == find_task_ix(
                                        eff,
                                        eff[oldorder[k]].depends[d],
                                    ).unwrap();
                                assert(order[k2] == oldorder[k2]);
                            } else {
                                assert(order[k] == i3 as int);
                                let dep = eff[i3 as int].depends[d];
                                lemma_find_task_ix(eff, dep);
                                let ix = find_task_ix(eff, dep).unwrap();
                                assert(!blocked(eff, pre_removed, i3 as int));
                                assert(pre_removed[ix]) by {
                                    if !pre_removed[ix] {
                                        assert(blocked(eff, pre_removed, i3 as int));
                                    }
                                }
                                assert(oldorder.contains(ix));
                                let k2 = choose|k2: int|
                                    0 <= k2 < oldorder.len() && oldorder[k2] == ix;
                                assert(order[k2] == ix);
                            }
                        }
                        assert(kahn_inv(eff, removed@, order));
                    }
                    progressed = true;
                }
            }
            i3 += 1;
        }
    }

    let mut start: usize = 0;
    while start < n && !(canon[start] && !removed[start])
        invariant
            n == canon@.len(),
            n == removed@.len(),
            start <= n,
            forall|x: int| 0 <= x < start ==> !(#[trigger] canon@[x] && !removed@[x]),
        decreases n - start,
    {
        start += 1;
    }
    if start == n {
        proof {
            assert forall|x: int|
                0 <= x < eff.len() && is_first_task_ix(eff, #[trigger] eff[x].id, x) implies removed@[x] by {
                assert(canon@[x]);
            }
            lemma_all_removed_acyclic(eff, removed@, order);
        }
        return None;
    }

    walk_cycle(tasks, &canon, &removed, start)
}

/// Follows still-blocked tasks dependency by dependency until one repeats,
/// which yields a concrete cycle.
fn walk_cycle(
    tasks: &Vec<&Task>,
    canon: &Vec<bool>,
    removed: &Vec<bool>,
    start: usize,
) -> (r: Option<Vec<String>>)
    requires
        canon@.len() == tasks@.len(),
        removed@.len() == tasks@.len(),
        start < tasks@.len(),
        forall|x: int|
            0 <= x < tasks@.len() ==> (#[trigger] canon@[x] <==> is_first_task_ix(
                tasks.deep_view(),
                tasks.deep_view()[x].id,
                x,
            )),
        forall|x: int|
            0 <= x < tasks@.len() && #[trigger] canon@[x] && !removed@[x] ==> blocked(
                tasks.deep_view(),
                removed@,
                x,
            ),
        canon@[start as int],
        !removed@[start as int],
    ensures
        match r {
            Some(p) => is_cycle(tasks.deep_view(), p.deep_view()),
            None => false,
        },
{
    let ghost eff = tasks.deep_view();
    let n: usize = tasks.len();
    let mut path: Vec<usize> = Vec::new();
    path.push(start);
    loop
        invariant
            n == tasks@.len(),
            eff == tasks.deep_view(),
            canon@.len() == n,
            removed@.len() == n,
            1 <= path@.len() <= n,
            forall|x: int|
                0 <= x < n ==> (#[trigger] canon@[x] <==> is_first_task_ix(eff, eff[x].id, x)),
            forall|t: int| 0 <= t < path@.len() ==> #[trigger] path@[t] < n,
            forall|t: int| 0 <= t < path@.len() ==> canon@[#[trigger] path@[t] as int],
            forall|t: int| 0 <= t < path@.len() ==> !removed@[#[trigger] path@[t] as int],
            forall|a: int, b: int| 0 <= a < b < path@.len() ==> path@[a] != path@[b],
            forall|t: int|
                0 <= t < path@.len() - 1 ==> edge(
                    eff,
                    #[trigger] eff[path@[t] as int].id,
                    eff[path@[t + 1] as int].id,
                ),
            forall|x: int|
                0 <= x < tasks@.len() && #[trigger] canon@[x] && !removed@[x] ==> blocked(
                    eff,
                    removed@,
                    x,
                ),
        decreases n - path@.len(),
    {
        let cur: usize = path[path.len() - 1];
        assert(cur == path@[path@.len() - 1]);
        assert(canon@[cur as int] && !removed@[cur as int]);
        assert(is_first_task_ix(eff, eff[cur as int].id, cur as int));
        assert(blocked(eff, removed@, cur as int));
        let curt: &Task = tasks[cur];
        assert(eff[cur as int] == tasks@[cur as int].deep_view());
        let nd: usize = curt.depends.len();
        let mut d: usize = 0;
        let mut next: usize = 0;
        let mut found = false;
        while d < nd && !found
            invariant
                n == tasks@.len(),
                eff == tasks.deep_view(),
                removed@.len() == n,
                cur < n,
                curt == tasks@[cur as int],
                nd == curt.depends@.len(),
                eff[cur as int] == tasks@[cur as int].deep_view(),
                d <= nd,
                is_first_task_ix(eff, eff[cur as int].id, cur as int),
                forall|x: int|
                    0 <= x < n ==> (#[trigger] canon@[x] <==> is_first_task_ix(eff, eff[x].id, x)),
                canon@.len() == n,
                blocked(eff, removed@, cur as int),
                !found ==> forall|d2: int|
                    0 <= d2 < d && id_present(eff, #[trigger] eff[cur as int].depends[d2])
                        ==> removed@[find_task_ix(eff, eff[cur as int].depends[d2]).unwrap()],
                found ==> next < n && !removed@[next as int] && is_first_task_ix(
                    eff,
                    eff[cur as int].id,
                    cur as int,
                ) && edge(eff, eff[cur as int].id, eff[next as int].id) && is_first_task_ix(
                    eff,
                    eff[next as int].id,
                    next as int,
                ),
            decreases nd - d,
        {
            assert(eff[cur as int].depends[d as int] == curt.depends@[d as int]@);
            match find_task_index(tasks, &curt.depends[d]) {
                Some(k) => {
                    proof {
                        lemma_find_task_ix_some(eff, curt.depends@[d as int]@, k as int);
                        assert(task_ix_in(eff, eff[cur as int].depends[d as int], k as int));
                    }
                    if !removed[k] {
                        next = k;
                        found = true;
                        proof {
                            let dep = eff[cur as int].depends[d as int];
                            assert(eff[k as int].id == dep);
                            assert(id_present(eff, eff[cur as int].id)) by {
                                assert(task_ix_in(eff, eff[cur as int].id, cur as int));
                            }
                            assert(task_of(eff, eff[cur as int].id) == eff[cur as int]) by {
                                lemma_find_task_ix_some(eff, eff[cur as int].id, cur as int);
                            }
                            assert(eff[cur as int].depends.contains(dep));
                            assert(is_first_task_ix(eff, eff[k as int].id, k as int));
                        }
                    }
                },
                None => {
                    proof {
                        lemma_find_task_ix(eff, eff[cur as int].depends[d as int]);
                    }
                },
            }
            d += 1;
        }
        proof {
            if !found {
                let d2 = choose|d2: int|
                    0 <= d2 < eff[cur as int].depends.len() && id_present(
                        eff,
                        #[trigger] eff[cur as int].depends[d2],
                    ) && !removed@[find_task_ix(eff, eff[cur as int].depends[d2]).unwrap()];
                assert(removed@[find_task_ix(eff, eff[cur as int].depends[d2]).unwrap()]);
                assert(false);
            }
        }
        assert(canon@[next as int]);

        let mut j: usize = 0;
        let mut rep = false;
        while j < path.len() && !rep
            invariant
                j <= path@.len(),
                next < n,
                !rep ==> forall|t: int| 0 <= t < j ==> path@[t] != next,
                rep ==> j < path@.len() && path@[j as int] == next,
            decreases path@.len() - j + (if rep {
                0int
            } else {
                1int
            }),
        {
            if path[j] == next {
                rep = true;
            } else {
                j += 1;
            }
        }
        if rep {
            let mut ids: Vec<String> = Vec::new();
            let mut t: usize = j;
            let plen: usize = path.len();
            while t < plen
                invariant
                    n == tasks@.len(),
                    eff == tasks.deep_view(),
                    j <= t <= plen,
                    plen == path@.len(),
                    forall|x: int| 0 <= x < path@.len() ==> #[trigger] path@[x] < n,
                    ids@.len() == t - j,
                    forall|x: int|
                        0 <= x < t - j ==> #[trigger] ids.deep_view()[x] == eff[path@[j + x] as int].id,
                decreases plen - t,
            {
                let ghost prev = ids.deep_view();
                ids.push(tasks[path[t]].id.clone());
                t += 1;
                proof {
                    assert(eff[path@[t - 1] as int] == tasks@[path@[t - 1] as int].deep_view());
                    assert forall|x: int| 0 <= x < t - j implies #[trigger] ids.deep_view()[x]
                        == eff[path@[j + x] as int].id by {
                        if x < t - 1 - j {
                            assert(ids@[x] == ids@.subrange(0, x + 1)[x]);
                            assert(ids.deep_view()[x] == prev[x]);
                        }
                    }
                }
            }
            let ghost prefix = ids.deep_view();
            let ghost prevv = ids@;
            let last: String = tasks[path[j]].id.clone();
            ids.push(last);
            proof {
                let pv = ids.deep_view();
                let gj = j as int;
                assert(eff[path@[gj] as int] == tasks@[path@[gj] as int].deep_view());
                assert(prefix.len() == plen - gj);
                assert(pv.len() == plen - gj + 1);
                assert forall|x: int| 0 <= x < prefix.len() implies pv[x] == prefix[x] by {
                    assert(ids@[x] == prevv[x]);
                }
                assert(pv[pv.len() - 1] == eff[path@[gj] as int].id);
                assert(prefix[0] == eff[path@[gj + 0] as int].id);
                assert(pv[0] == pv[pv.len() - 1]);
                assert(path@[gj] == next);
                assert forall|t2: int| 0 <= t2 < pv.len() - 1 implies edge(
                    eff,
                    #[trigger] pv[t2],
                    pv[t2 + 1],
                ) by {
                    if t2 < pv.len() - 2 {
                        assert(pv[t2] == prefix[t2]);
                        assert(prefix[t2] == eff[path@[gj + t2] as int].id);
                        assert(pv[t2 + 1] == prefix[t2 + 1]);
                        assert(prefix[t2 + 1] == eff[path@[gj + t2 + 1] as int].id);
                        assert(gj + t2 + 1 == gj + (t2 + 1));
                        assert(edge(
                            eff,
                            eff[path@[gj + t2] as int].id,
                            eff[path@[gj + t2 + 1] as int].id,
                        ));
                    } else {
                        assert(t2 == pv.len() - 2);
                        assert(gj + t2 == plen - 1);
                        assert(pv[t2] == prefix[t2]);
                        assert(prefix[t2] == eff[path@[gj + t2] as int].id);
                        assert(edge(eff, eff[path@[plen - 1] as int].id, eff[next as int].id));
                        assert(pv[t2 + 1] == eff[next as int].id);
                    }
                }
                assert(is_cycle(eff, pv));
            }
            return Some(ids);
        } else {
            proof {
                let newpath = path@.push(next);
                assert forall|a: int, b: int| 0 <= a < b < newpath.len() implies newpath[a]
                    != newpath[b] by {
                    if b < newpath.len() - 1 {
                    } else {
                        assert(newpath[a] == path@[a]);
                        assert(path@[a] != next);
                    }
                }
                assert forall|x: int| 0 <= x < newpath.len() implies 0 <= #[trigger] newpath[x]
                    < n as int by {}
                lemma_distinct_bounded(
                    Seq::new(newpath.len(), |x: int| newpath[x] as int),
                    n as int,
                );
            }
            path.push(next);
            assert(path@.len() <= n);
        }
    }
}

impl Backlog {
    /// Decides whether the backlog is internally consistent: no dependency
    /// names a missing task (reported first), and the dependency graph is
    /// acyclic. On success the graph is a DAG over existing ids.
    pub fn validate(&self) -> (r: Result<(), BacklogError>)
        ensures
            is_validate_result(eff_tasks(self@), r),
    {
        let tasks = self.all_tasks();
        let ghost eff = eff_tasks(self@);
        let n: usize = tasks.len();
        let mut i: usize = 0;
        while i < n
            invariant
                n == tasks@.len(),
                eff == tasks.deep_view(),
                eff == eff_tasks(self@),
                i <= n,
                forall|i2: int, j2: int| 0 <= i2 < i ==> !dep_dangling(eff, i2, j2),
            decreases n - i,
        {
            let t: &Task = tasks[i];
            assert(eff[i as int] == tasks@[i as int].deep_view());
            let nd: usize = t.depends.len();
            let mut j: usize = 0;
            while j < nd
                invariant
                    n == tasks@.len(),
                    eff == tasks.deep_view(),
                    eff == eff_tasks(self@),
                    i < n,
                    t == tasks@[i as int],
                    nd == t.depends@.len(),
                    eff[i as int] == tasks@[i as int].deep_view(),
                    j <= nd,
                    forall|i2: int, j2: int| 0 <= i2 < i ==> !dep_dangling(eff, i2, j2),
                    forall|j2: int| 0 <= j2 < j ==> !dep_dangling(eff, i as int, j2),
                decreases nd - j,
            {
                assert(eff[i as int].depends[j as int] == t.depends@[j as int]@);
                match find_task_index(&tasks, &t.depends[j]) {
                    Some(k) => {
                        proof {
                            assert(task_ix_in(eff, eff[i as int].depends[j as int], k as int));
                        }
                    },
                    None => {
                        let id_s = t.id.clone();
                        let missing_s = t.depends[j].clone();
                        proof {
                            let gi = i as int;
                            let gj = j as int;
                            assert(dep_dangling(eff, gi, gj));
                            assert(is_first_dangling(eff, gi, gj)) by {
                                assert forall|i2: int, j2: int|
                                    #[trigger] dep_dangling(eff, i2, j2) implies gi < i2 || (gi
                                    == i2 && gj <= j2) by {
                                    if i2 < gi {
                                        assert(!dep_dangling(eff, i2, j2));
                                    } else if i2 == gi && j2 < gj {
                                        assert(!dep_dangling(eff, i2, j2));
                                    }
                                }
                            }
                            assert(has_dangling(eff));
                            assert(id_s@ == eff[gi].id);
                            assert(missing_s@ == eff[gi].depends[gj]);
                        }
                        return Err(
                            BacklogError::DanglingDependency { task_id: id_s, missing: missing_s },
                        );
                    },
                }
                j += 1;
            }
            i += 1;
        }
        proof {
            assert(!has_dangling(eff)) by {
                if has_dangling(eff) {
                    let (i2, j2) = choose|i2: int, j2: int| dep_dangling(eff, i2, j2);
                    assert(!dep_dangling(eff, i2, j2));
                }
            }
        }
        match find_cycle(&tasks) {
            Some(p) => Err(BacklogError::CycleDetected(p)),
            None => Ok(()),
        }
    }
}

} // verus!
