use crate::model::{
    Backlog, BacklogV, DeliverableSpec, DeliverableV, Epic, EpicV, Task, TaskState, TaskV,
};
use crate::node::{entries_view, lemma_entries_view_index, lemma_nodes_view_index, nodes_view,
    Node, NodeV};
use crate::text::str_eq;
use vstd::prelude::*;
use vstd::string::StringExecFns;

verus! {

/// The value of the first entry whose key is the given string, if any.
pub open spec fn entry_lookup(es: Seq<(NodeV, NodeV)>, key: Seq<char>) -> Option<NodeV>
    decreases es.len(),
{
    if es.len() == 0 {
        None
    } else if es[0].0 matches NodeV::Str(k) && k == key {
        Some(es[0].1)
    } else {
        entry_lookup(es.drop_first(), key)
    }
}

/// A required string field.
pub open spec fn req_str(o: Option<NodeV>) -> Result<Seq<char>, ()> {
    match o {
        Some(NodeV::Str(s)) => Ok(s),
        _ => Err(()),
    }
}

/// An optional string field.
pub open spec fn opt_str(o: Option<NodeV>) -> Result<Option<Seq<char>>, ()> {
    match o {
        None => Ok(None),
        Some(NodeV::Str(s)) => Ok(Some(s)),
        Some(_) => Err(()),
    }
}

/// A list of strings.
pub open spec fn str_list_of(xs: Seq<NodeV>) -> Result<Seq<Seq<char>>, ()>
    decreases xs.len(),
{
    if xs.len() == 0 {
        Ok(Seq::empty())
    } else {
        match xs[0] {
            NodeV::Str(s) => match str_list_of(xs.drop_first()) {
                Ok(rest) => Ok(seq![s] + rest),
                Err(e) => Err(e),
            },
            _ => Err(()),
        }
    }
}

/// An optional list-of-strings field, empty when absent.
pub open spec fn opt_str_list(o: Option<NodeV>) -> Result<Seq<Seq<char>>, ()> {
    match o {
        None => Ok(Seq::empty()),
        Some(NodeV::List(xs)) => str_list_of(xs),
        Some(_) => Err(()),
    }
}

/// The state field: Todo when absent, else the matching state name.
pub open spec fn state_of(o: Option<NodeV>) -> Result<TaskState, ()> {
    match o {
        None => Ok(TaskState::Todo),
        Some(NodeV::Str(s)) => if s == "Todo"@ {
            Ok(TaskState::Todo)
        } else if s == "Done"@ {
            Ok(TaskState::Done)
        } else {
            Err(())
        },
        Some(_) => Err(()),
    }
}

/// The deliverable field: one path, or a list of paths.
pub open spec fn deliverable_of(o: Option<NodeV>) -> Result<Option<DeliverableV>, ()> {
    match o {
        None => Ok(None),
        Some(NodeV::Str(s)) => Ok(Some(DeliverableV::Single(s))),
        Some(NodeV::List(xs)) => match str_list_of(xs) {
            Ok(l) => Ok(Some(DeliverableV::Multiple(l))),
            Err(e) => Err(e),
        },
        Some(_) => Err(()),
    }
}

/// A task from its document mapping.
pub open spec fn task_of_node(n: NodeV) -> Result<TaskV, ()> {
    match n {
        NodeV::Mapping(es) => {
            match (req_str(entry_lookup(es, "id"@)), req_str(entry_lookup(es, "title"@)), opt_str_list(
                entry_lookup(es, "depends"@),
            ), state_of(entry_lookup(es, "state"@)), opt_str(entry_lookup(es, "description"@)), deliverable_of(
                entry_lookup(es, "deliverable"@),
            ), opt_str_list(entry_lookup(es, "done_when"@))) {
                (
                    Ok(id),
                    Ok(title),
                    Ok(depends),
                    Ok(state),
                    Ok(description),
                    Ok(deliverable),
                    Ok(done_when),
                ) => Ok(TaskV { id, title, depends, state, description, deliverable, done_when }),
                _ => Err(()),
            }
        },
        _ => Err(()),
    }
}

/// Tasks from a document list.
pub open spec fn tasks_of_nodes(xs: Seq<NodeV>) -> Result<Seq<TaskV>, ()>
    decreases xs.len(),
{
    if xs.len() == 0 {
        Ok(Seq::empty())
    } else {
        match (task_of_node(xs[0]), tasks_of_nodes(xs.drop_first())) {
            (Ok(t), Ok(rest)) => Ok(seq![t] + rest),
            _ => Err(()),
        }
    }
}

pub open spec fn opt_tasks(o: Option<NodeV>) -> Result<Seq<TaskV>, ()> {
    match o {
        None => Ok(Seq::empty()),
        Some(NodeV::List(xs)) => tasks_of_nodes(xs),
        Some(_) => Err(()),
    }
}

/// An epic from its document mapping.
pub open spec fn epic_of_node(n: NodeV) -> Result<EpicV, ()> {
    match n {
        NodeV::Mapping(es) => {
            match (req_str(entry_lookup(es, "id"@)), req_str(entry_lookup(es, "title"@)), opt_tasks(
                entry_lookup(es, "tasks"@),
            )) {
                (Ok(id), Ok(title), Ok(tasks)) => Ok(EpicV { id, title, tasks }),
                _ => Err(()),
            }
        },
        _ => Err(()),
    }
}

pub open spec fn epics_of_nodes(xs: Seq<NodeV>) -> Result<Seq<EpicV>, ()>
    decreases xs.len(),
{
    if xs.len() == 0 {
        Ok(Seq::empty())
    } else {
        match (epic_of_node(xs[0]), epics_of_nodes(xs.drop_first())) {
            (Ok(e), Ok(rest)) => Ok(seq![e] + rest),
            _ => Err(()),
        }
    }
}

pub open spec fn opt_epics(o: Option<NodeV>) -> Result<Seq<EpicV>, ()> {
    match o {
        None => Ok(Seq::empty()),
        Some(NodeV::List(xs)) => epics_of_nodes(xs),
        Some(_) => Err(()),
    }
}

/// Environment entries: string keys, arbitrary values carried through.
pub open spec fn env_of_entries(es: Seq<(NodeV, NodeV)>) -> Result<Seq<(Seq<char>, NodeV)>, ()>
    decreases es.len(),
{
    if es.len() == 0 {
        Ok(Seq::empty())
    } else {
        match es[0].0 {
            NodeV::Str(k) => match env_of_entries(es.drop_first()) {
                Ok(rest) => Ok(seq![(k, es[0].1)] + rest),
                Err(e) => Err(e),
            },
            _ => Err(()),
        }
    }
}

pub open spec fn opt_env(o: Option<NodeV>) -> Result<Seq<(Seq<char>, NodeV)>, ()> {
    match o {
        None => Ok(Seq::empty()),
        Some(NodeV::Mapping(es)) => env_of_entries(es),
        Some(_) => Err(()),
    }
}

/// The whole backlog from its document mapping: the project name is required;
/// everything else defaults when absent; unknown keys are ignored.
pub open spec fn backlog_of_node(n: NodeV) -> Result<BacklogV, ()> {
    match n {
        NodeV::Mapping(es) => {
            match (req_str(entry_lookup(es, "project"@)), opt_str(
                entry_lookup(es, "rust_version"@),
            ), opt_str_list(entry_lookup(es, "success_criteria"@)), opt_env(
                entry_lookup(es, "environment"@),
            ), opt_epics(entry_lookup(es, "epics"@)), opt_tasks(entry_lookup(es, "tasks"@))) {
                (
                    Ok(project),
                    Ok(rust_version),
                    Ok(success_criteria),
                    Ok(environment),
                    Ok(epics),
                    Ok(tasks),
                ) => Ok(
                    BacklogV { project, rust_version, success_criteria, environment, epics, tasks },
                ),
                _ => Err(()),
            }
        },
        _ => Err(()),
    }
}

/// The message every shape error carries.
fn shape_error() -> (r: String)
    ensures
        r@ == "document does not match the backlog shape"@,
{
    let mut m = String::new();
    m.append("document does not match the backlog shape");
    m
}

/// The value of the first entry with the given key.
fn lookup_key<'a>(es: &'a Vec<(Node, Node)>, key: &str) -> (r: Option<&'a Node>)
    ensures
        entry_lookup(entries_view(es@), key@) == (match r {
            Some(v) => Some(v@),
            None => None::<NodeV>,
        }),
{
    let ghost ev = entries_view(es@);
    proof {
        lemma_entries_view_index(es@);
    }
    let n: usize = es.len();
    let mut i: usize = 0;
    proof {
        assert(ev.subrange(0, ev.len() as int) =~= ev);
    }
    while i < n
        invariant
            n == es@.len(),
            ev == entries_view(es@),
            ev.len() == n,
            forall|x: int|
                0 <= x < n ==> #[trigger] ev[x] == (
                    crate::node::node_view(es@[x].0),
                    crate::node::node_view(es@[x].1),
                ),
            i <= n,
            entry_lookup(ev, key@) == entry_lookup(ev.subrange(i as int, ev.len() as int), key@),
        decreases n - i,
    {
        let ghost suffix = ev.subrange(i as int, ev.len() as int);
        proof {
            assert(suffix[0] == ev[i as int]);
            assert(suffix.drop_first() =~= ev.subrange(i + 1, ev.len() as int));
        }
        let hit = match &es[i].0 {
            Node::Str(s) => str_eq(s.as_str(), key),
            _ => false,
        };
        if hit {
            assert(entry_lookup(suffix, key@) == Some(ev[i as int].1));
            return Some(&es[i].1);
        }
        proof {
            assert(!(suffix[0].0 matches NodeV::Str(k) && k == key@));
            assert(entry_lookup(suffix, key@) == entry_lookup(suffix.drop_first(), key@));
        }
        i += 1;
    }
    proof {
        assert(ev.subrange(n as int, n as int) =~= Seq::<(NodeV, NodeV)>::empty());
    }
    None
}

/// A list of strings from a document list.
fn str_list_from(xs: &Vec<Node>) -> (r: Result<Vec<String>, String>)
    ensures
        match r {
            Ok(l) => str_list_of(nodes_view(xs@)) == Ok::<Seq<Seq<char>>, ()>(l.deep_view()),
            Err(e) => str_list_of(nodes_view(xs@)) is Err && e@
                == "document does not match the backlog shape"@,
        },
{
    let ghost nv = nodes_view(xs@);
    proof {
        lemma_nodes_view_index(xs@);
    }
    let n: usize = xs.len();
    let mut out: Vec<String> = Vec::new();
    let mut i: usize = 0;
    proof {
        assert(nv.subrange(0, nv.len() as int) =~= nv);
        assert(out.deep_view() =~= Seq::<Seq<char>>::empty());
        if str_list_of(nv) is Ok {
            assert(out.deep_view() + str_list_of(nv).unwrap() =~= str_list_of(nv).unwrap());
        }
    }
    while i < n
        invariant
            n == xs@.len(),
            nv == nodes_view(xs@),
            nv.len() == n,
            forall|x: int| 0 <= x < n ==> #[trigger] nv[x] == crate::node::node_view(xs@[x]),
            i <= n,
            out@.len() == i,
            forall|x: int| 0 <= x < i ==> nv[x] == NodeV::Str(#[trigger] out.deep_view()[x]),
            str_list_of(nv) is Ok ==> (str_list_of(nv.subrange(i as int, nv.len() as int))
                matches Ok(rest) && str_list_of(nv).unwrap() == out.deep_view() + rest),
            str_list_of(nv) is Err <==> str_list_of(nv.subrange(i as int, nv.len() as int)) is Err,
        decreases n - i,
    {
        let ghost suffix = nv.subrange(i as int, nv.len() as int);
        let ghost prevv = out@;
        let ghost prevdv = out.deep_view();
        proof {
            assert(suffix[0] == nv[i as int]);
            assert(suffix.drop_first() =~= nv.subrange(i + 1, nv.len() as int));
        }
        match &xs[i] {
            Node::Str(s) => {
                let c = s.clone();
                proof {
                    assert(nv[i as int] == NodeV::Str(s@));
                    assert(c@ == s@);
                }
                out.push(c);
            },
            _ => {
                assert(str_list_of(suffix) is Err);
                return Err(shape_error());
            },
        }
        i += 1;
        proof {
            assert forall|x: int| 0 <= x < i implies nv[x] == NodeV::Str(
                #[trigger] out.deep_view()[x],
            ) by {
                assert(out.deep_view()[x] == out@[x]@);
                if x < i - 1 {
                    assert(out@[x] == prevv[x]);
                    assert(prevdv[x] == prevv[x]@);
                }
            }
            if str_list_of(nv) is Ok {
                let full = str_list_of(nv).unwrap();
                let rest0 = str_list_of(nv.subrange(i - 1, nv.len() as int)).unwrap();
                assert(str_list_of(suffix.drop_first()) matches Ok(r2) && rest0 == seq![
                    nv[i - 1]->Str_0,
                ] + r2);
                assert(full =~= out.deep_view() + str_list_of(
                    nv.subrange(i as int, nv.len() as int),
                ).unwrap());
            }
            assert(str_list_of(suffix) is Err <==> str_list_of(
                nv.subrange(i as int, nv.len() as int),
            ) is Err);
        }
    }
    proof {
        assert(nv.subrange(n as int, n as int) =~= Seq::<NodeV>::empty());
        if str_list_of(nv) is Ok {
            assert(str_list_of(nv).unwrap() =~= out.deep_view());
        }
        if str_list_of(nv) is Err {
            assert(false);
        }
    }
    Ok(out)
}

/// A Node's view has the constructor of the Node.
proof fn lemma_view_variant(v: Node)
    ensures
        v is Str <==> crate::node::node_view(v) is Str,
        v is List <==> crate::node::node_view(v) is List,
        v is Mapping <==> crate::node::node_view(v) is Mapping,
        v is Other <==> crate::node::node_view(v) is Other,
{
    match v {
        Node::Str(s) => {
            assert(crate::node::node_view(v) == NodeV::Str(s@));
        },
        Node::List(xs) => {
            assert(crate::node::node_view(v) == NodeV::List(nodes_view(xs@)));
        },
        Node::Mapping(es) => {
            assert(crate::node::node_view(v) == NodeV::Mapping(entries_view(es@)));
        },
        Node::Other(w) => {
            assert(crate::node::node_view(v) == NodeV::Other(w));
        },
    }
}

/// A required string field of a mapping.
fn get_req_str(es: &Vec<(Node, Node)>, key: &str) -> (r: Result<String, String>)
    ensures
        match r {
            Ok(s) => req_str(entry_lookup(entries_view(es@), key@)) == Ok::<Seq<char>, ()>(s@),
            Err(e) => req_str(entry_lookup(entries_view(es@), key@)) is Err && e@
                == "document does not match the backlog shape"@,
        },
{
    match lookup_key(es, key) {
        Some(v) => match v {
            Node::Str(s) => Ok(s.clone()),
            _ => {
                proof {
                    lemma_view_variant(*v);
                }
                Err(shape_error())
            },
        },
        None => Err(shape_error()),
    }
}

/// An optional string field of a mapping.
fn get_opt_str(es: &Vec<(Node, Node)>, key: &str) -> (r: Result<Option<String>, String>)
    ensures
        match r {
            Ok(s) => opt_str(entry_lookup(entries_view(es@), key@)) == Ok::<
                Option<Seq<char>>,
                (),
            >(s.deep_view()),
            Err(e) => opt_str(entry_lookup(entries_view(es@), key@)) is Err && e@
                == "document does not match the backlog shape"@,
        },
{
    match lookup_key(es, key) {
        Some(v) => match v {
            Node::Str(s) => Ok(Some(s.clone())),
            _ => {
                proof {
                    lemma_view_variant(*v);
                }
                Err(shape_error())
            },
        },
        None => Ok(None),
    }
}

/// An optional list-of-strings field, empty when absent.
fn get_opt_str_list(es: &Vec<(Node, Node)>, key: &str) -> (r: Result<Vec<String>, String>)
    ensures
        match r {
            Ok(l) => opt_str_list(entry_lookup(entries_view(es@), key@)) == Ok::<
                Seq<Seq<char>>,
                (),
            >(l.deep_view()),
            Err(e) => opt_str_list(entry_lookup(entries_view(es@), key@)) is Err && e@
                == "document does not match the backlog shape"@,
        },
{
    match lookup_key(es, key) {
        Some(v) => match v {
            Node::List(xs) => str_list_from(xs),
            _ => {
                proof {
                    lemma_view_variant(*v);
                }
                Err(shape_error())
            },
        },
        None => {
            let l: Vec<String> = Vec::new();
            assert(l.deep_view() =~= Seq::<Seq<char>>::empty());
            Ok(l)
        },
    }
}

/// The state field of a task mapping.
fn get_state(es: &Vec<(Node, Node)>) -> (r: Result<TaskState, String>)
    ensures
        match r {
            Ok(st) => state_of(entry_lookup(entries_view(es@), "state"@)) == Ok::<TaskState, ()>(
                st,
            ),
            Err(e) => state_of(entry_lookup(entries_view(es@), "state"@)) is Err && e@
                == "document does not match the backlog shape"@,
        },
{
    match lookup_key(es, "state") {
        None => Ok(TaskState::Todo),
        Some(v) => match v {
            Node::Str(s) => {
                if str_eq(s.as_str(), "Todo") {
                    Ok(TaskState::Todo)
                } else if str_eq(s.as_str(), "Done") {
                    Ok(TaskState::Done)
                } else {
                    Err(shape_error())
                }
            },
            _ => {
                proof {
                    lemma_view_variant(*v);
                }
                Err(shape_error())
            },
        },
    }
}

/// The deliverable field of a task mapping.
fn get_deliverable(es: &Vec<(Node, Node)>) -> (r: Result<Option<DeliverableSpec>, String>)
    ensures
        match r {
            Ok(d) => deliverable_of(entry_lookup(entries_view(es@), "deliverable"@)) == Ok::<
                Option<DeliverableV>,
                (),
            >(d.deep_view()),
            Err(e) => deliverable_of(entry_lookup(entries_view(es@), "deliverable"@)) is Err && e@
                == "document does not match the backlog shape"@,
        },
{
    match lookup_key(es, "deliverable") {
        None => Ok(None),
        Some(v) => match v {
            Node::Str(s) => Ok(Some(DeliverableSpec::Single(s.clone()))),
            Node::List(xs) => match str_list_from(xs) {
                Ok(l) => Ok(Some(DeliverableSpec::Multiple(l))),
                Err(e) => Err(e),
            },
            _ => {
                proof {
                    lemma_view_variant(*v);
                }
                Err(shape_error())
            },
        },
    }
}

/// A task from a document node.
pub fn task_from_node(n: &Node) -> (r: Result<Task, String>)
    ensures
        match r {
            Ok(t) => task_of_node(n@) == Ok::<TaskV, ()>(t@),
            Err(e) => task_of_node(n@) is Err && e@
                == "document does not match the backlog shape"@,
        },
{
    let es: &Vec<(Node, Node)> = match n {
        Node::Mapping(es) => es,
        _ => {
            proof {
                lemma_view_variant(*n);
            }
            return Err(shape_error());
        },
    };
    assert(n@ == NodeV::Mapping(entries_view(es@)));
    let id = match get_req_str(es, "id") {
        Ok(s) => s,
        Err(e) => {
            return Err(e);
        },
    };
    let title = match get_req_str(es, "title") {
        Ok(s) => s,
        Err(e) => {
            return Err(e);
        },
    };
    let depends = match get_opt_str_list(es, "depends") {
        Ok(v) => v,
        Err(e) => {
            return Err(e);
        },
    };
    let state = match get_state(es) {
        Ok(st) => st,
        Err(e) => {
            return Err(e);
        },
    };
    let description = match get_opt_str(es, "description") {
        Ok(d) => d,
        Err(e) => {
            return Err(e);
        },
    };
    let deliverable = match get_deliverable(es) {
        Ok(d) => d,
        Err(e) => {
            return Err(e);
        },
    };
    let done_when = match get_opt_str_list(es, "done_when") {
        Ok(v) => v,
        Err(e) => {
            return Err(e);
        },
    };
    let t = Task { id, title, depends, state, description, deliverable, done_when };
    proof {
        assert(task_of_node(n@) == Ok::<TaskV, ()>(t@));
    }
    Ok(t)
}

/// Tasks from a document list node.
fn tasks_from_nodes(xs: &Vec<Node>) -> (r: Result<Vec<Task>, String>)
    ensures
        match r {
            Ok(l) => tasks_of_nodes(nodes_view(xs@)) == Ok::<Seq<TaskV>, ()>(l.deep_view()),
            Err(e) => tasks_of_nodes(nodes_view(xs@)) is Err && e@
                == "document does not match the backlog shape"@,
        },
{
    let ghost nv = nodes_view(xs@);
    proof {
        lemma_nodes_view_index(xs@);
    }
    let n: usize = xs.len();
    let mut out: Vec<Task> = Vec::new();
    let mut i: usize = 0;
    proof {
        assert(nv.subrange(0, nv.len() as int) =~= nv);
        assert(out.deep_view() =~= Seq::<TaskV>::empty());
        if tasks_of_nodes(nv) is Ok {
            assert(out.deep_view() + tasks_of_nodes(nv).unwrap() =~= tasks_of_nodes(nv).unwrap());
        }
    }
    while i < n
        invariant
            n == xs@.len(),
            nv == nodes_view(xs@),
            nv.len() == n,
            forall|x: int| 0 <= x < n ==> #[trigger] nv[x] == crate::node::node_view(xs@[x]),
            i <= n,
            out@.len() == i,
            forall|x: int|
                0 <= x < i ==> task_of_node(nv[x]) == Ok::<TaskV, ()>(
                    #[trigger] out.deep_view()[x],
                ),
            tasks_of_nodes(nv) is Ok ==> (tasks_of_nodes(nv.subrange(i as int, nv.len() as int))
                matches Ok(rest) && tasks_of_nodes(nv).unwrap() == out.deep_view() + rest),
            tasks_of_nodes(nv) is Err <==> tasks_of_nodes(nv.subrange(i as int, nv.len() as int))
                is Err,
        decreases n - i,
    {
        let ghost suffix = nv.subrange(i as int, nv.len() as int);
        let ghost prevv = out@;
        let ghost prevdv = out.deep_view();
        proof {
            assert(suffix[0] == nv[i as int]);
            assert(suffix.drop_first() =~= nv.subrange(i + 1, nv.len() as int));
        }
        match task_from_node(&xs[i]) {
            Ok(t) => {
                out.push(t);
            },
            Err(e) => {
                assert(tasks_of_nodes(suffix) is Err);
                return Err(e);
            },
        }
        i += 1;
        proof {
            assert forall|x: int| 0 <= x < i implies task_of_node(nv[x]) == Ok::<TaskV, ()>(
                #[trigger] out.deep_view()[x],
            ) by {
                assert(out.deep_view()[x] == out@[x]@);
                if x < i - 1 {
                    assert(out@[x] == prevv[x]);
                    assert(prevdv[x] == prevv[x]@);
                }
            }
            if tasks_of_nodes(nv) is Ok {
                let full = tasks_of_nodes(nv).unwrap();
                let rest0 = tasks_of_nodes(nv.subrange(i - 1, nv.len() as int)).unwrap();
                assert(tasks_of_nodes(suffix.drop_first()) matches Ok(r2) && rest0 == seq![
                    task_of_node(nv[i - 1]).unwrap(),
                ] + r2);
                assert(full =~= out.deep_view() + tasks_of_nodes(
                    nv.subrange(i as int, nv.len() as int),
                ).unwrap());
            }
            assert(tasks_of_nodes(suffix) is Err <==> tasks_of_nodes(
                nv.subrange(i as int, nv.len() as int),
            ) is Err);
        }
    }
    proof {
        assert(nv.subrange(n as int, n as int) =~= Seq::<NodeV>::empty());
        if tasks_of_nodes(nv) is Ok {
            assert(tasks_of_nodes(nv).unwrap() =~= out.deep_view());
        }
        if tasks_of_nodes(nv) is Err {
            assert(false);
        }
    }
    Ok(out)
}

/// An epic from a document node.
fn epic_from_node(n: &Node) -> (r: Result<Epic, String>)
    ensures
        match r {
            Ok(e) => epic_of_node(n@) == Ok::<EpicV, ()>(e@),
            Err(e) => epic_of_node(n@) is Err && e@
                == "document does not match the backlog shape"@,
        },
{
    let es: &Vec<(Node, Node)> = match n {
        Node::Mapping(es) => es,
        _ => {
            proof {
                lemma_view_variant(*n);
            }
            return Err(shape_error());
        },
    };
    assert(n@ == NodeV::Mapping(entries_view(es@)));
    let id = match get_req_str(es, "id") {
        Ok(s) => s,
        Err(e) => {
            return Err(e);
        },
    };
    let title = match get_req_str(es, "title") {
        Ok(s) => s,
        Err(e) => {
            return Err(e);
        },
    };
    let tasks = match lookup_key(es, "tasks") {
        None => {
            let l: Vec<Task> = Vec::new();
            assert(l.deep_view() =~= Seq::<TaskV>::empty());
            l
        },
        Some(v) => match v {
            Node::List(xs) => match tasks_from_nodes(xs) {
                Ok(l) => l,
                Err(e) => {
                    return Err(e);
                },
            },
            _ => {
                proof {
                    lemma_view_variant(*v);
                }
                return Err(shape_error());
            },
        },
    };
    let e = Epic { id, title, tasks };
    proof {
        assert(epic_of_node(n@) == Ok::<EpicV, ()>(e@));
    }
    Ok(e)
}

/// Epics from a document list node.
fn epics_from_nodes(xs: &Vec<Node>) -> (r: Result<Vec<Epic>, String>)
    ensures
        match r {
            Ok(l) => epics_of_nodes(nodes_view(xs@)) == Ok::<Seq<EpicV>, ()>(l.deep_view()),
            Err(e) => epics_of_nodes(nodes_view(xs@)) is Err && e@
                == "document does not match the backlog shape"@,
        },
{
    let ghost nv = nodes_view(xs@);
    proof {
        lemma_nodes_view_index(xs@);
    }
    let n: usize = xs.len();
    let mut out: Vec<Epic> = Vec::new();
    let mut i: usize = 0;
    proof {
        assert(nv.subrange(0, nv.len() as int) =~= nv);
        assert(out.deep_view() =~= Seq::<EpicV>::empty());
        if epics_of_nodes(nv) is Ok {
            assert(out.deep_view() + epics_of_nodes(nv).unwrap() =~= epics_of_nodes(nv).unwrap());
        }
    }
    while i < n
        invariant
            n == xs@.len(),
            nv == nodes_view(xs@),
            nv.len() == n,
            forall|x: int| 0 <= x < n ==> #[trigger] nv[x] == crate::node::node_view(xs@[x]),
            i <= n,
            out@.len() == i,
            forall|x: int|
                0 <= x < i ==> epic_of_node(nv[x]) == Ok::<EpicV, ()>(
                    #[trigger] out.deep_view()[x],
                ),
            epics_of_nodes(nv) is Ok ==> (epics_of_nodes(nv.subrange(i as int, nv.len() as int))
                matches Ok(rest) && epics_of_nodes(nv).unwrap() == out.deep_view() + rest),
            epics_of_nodes(nv) is Err <==> epics_of_nodes(nv.subrange(i as int, nv.len() as int))
                is Err,
        decreases n - i,
    {
        let ghost suffix = nv.subrange(i as int, nv.len() as int);
        let ghost prevv = out@;
        let ghost prevdv = out.deep_view();
        proof {
            assert(suffix[0] == nv[i as int]);
            assert(suffix.drop_first() =~= nv.subrange(i + 1, nv.len() as int));
        }
        match epic_from_node(&xs[i]) {
            Ok(e) => {
                out.push(e);
            },
            Err(e) => {
                assert(epics_of_nodes(suffix) is Err);
                return Err(e);
            },
        }
        i += 1;
        proof {
            assert forall|x: int| 0 <= x < i implies epic_of_node(nv[x]) == Ok::<EpicV, ()>(
                #[trigger] out.deep_view()[x],
            ) by {
                assert(out.deep_view()[x] == out@[x]@);
                if x < i - 1 {
                    assert(out@[x] == prevv[x]);
                    assert(prevdv[x] == prevv[x]@);
                }
            }
            if epics_of_nodes(nv) is Ok {
                let full = epics_of_nodes(nv).unwrap();
                let rest0 = epics_of_nodes(nv.subrange(i - 1, nv.len() as int)).unwrap();
                assert(epics_of_nodes(suffix.drop_first()) matches Ok(r2) && rest0 == seq![
                    epic_of_node(nv[i - 1]).unwrap(),
                ] + r2);
                assert(full =~= out.deep_view() + epics_of_nodes(
                    nv.subrange(i as int, nv.len() as int),
                ).unwrap());
            }
            assert(epics_of_nodes(suffix) is Err <==> epics_of_nodes(
                nv.subrange(i as int, nv.len() as int),
            ) is Err);
        }
    }
    proof {
        assert(nv.subrange(n as int, n as int) =~= Seq::<NodeV>::empty());
        if epics_of_nodes(nv) is Ok {
            assert(epics_of_nodes(nv).unwrap() =~= out.deep_view());
        }
        if epics_of_nodes(nv) is Err {
            assert(false);
        }
    }
    Ok(out)
}

/// Environment entries from a document mapping node.
fn env_from_entries(es: &Vec<(Node, Node)>) -> (r: Result<Vec<(String, Node)>, String>)
    ensures
        match r {
            Ok(l) => env_of_entries(entries_view(es@)) == Ok::<Seq<(Seq<char>, NodeV)>, ()>(
                l.deep_view(),
            ),
            Err(e) => env_of_entries(entries_view(es@)) is Err && e@
                == "document does not match the backlog shape"@,
        },
{
    let ghost ev = entries_view(es@);
    proof {
        lemma_entries_view_index(es@);
    }
    let n: usize = es.len();
    let mut out: Vec<(String, Node)> = Vec::new();
    let mut i: usize = 0;
    proof {
        assert(ev.subrange(0, ev.len() as int) =~= ev);
        assert(out.deep_view() =~= Seq::<(Seq<char>, NodeV)>::empty());
        if env_of_entries(ev) is Ok {
            assert(out.deep_view() + env_of_entries(ev).unwrap() =~= env_of_entries(ev).unwrap());
        }
    }
    while i < n
        invariant
            n == es@.len(),
            ev == entries_view(es@),
            ev.len() == n,
            forall|x: int|
                0 <= x < n ==> #[trigger] ev[x] == (
                    crate::node::node_view(es@[x].0),
                    crate::node::node_view(es@[x].1),
                ),
            i <= n,
            out@.len() == i,
            forall|x: int|
                0 <= x < i ==> ev[x].0 == NodeV::Str(#[trigger] out.deep_view()[x].0) && ev[x].1
                    == out.deep_view()[x].1,
            env_of_entries(ev) is Ok ==> (env_of_entries(ev.subrange(i as int, ev.len() as int))
                matches Ok(rest) && env_of_entries(ev).unwrap() == out.deep_view() + rest),
            env_of_entries(ev) is Err <==> env_of_entries(ev.subrange(i as int, ev.len() as int))
                is Err,
        decreases n - i,
    {
        let ghost suffix = ev.subrange(i as int, ev.len() as int);
        let ghost prevv = out@;
        let ghost prevdv = out.deep_view();
        proof {
            assert(suffix[0] == ev[i as int]);
            assert(suffix.drop_first() =~= ev.subrange(i + 1, ev.len() as int));
        }
        match &es[i].0 {
            Node::Str(k) => {
                let key = k.clone();
                let value = es[i].1.clone();
                proof {
                    assert(ev[i as int].0 == NodeV::Str(k@));
                    assert(key@ == k@);
                    assert(crate::node::node_view(value) == ev[i as int].1);
                }
                out.push((key, value));
            },
            _ => {
                proof {
                    lemma_view_variant(es@[i as int].0);
                }
                assert(env_of_entries(suffix) is Err);
                return Err(shape_error());
            },
        }
        i += 1;
        proof {
            assert forall|x: int| 0 <= x < i implies ev[x].0 == NodeV::Str(
                #[trigger] out.deep_view()[x].0,
            ) && ev[x].1 == out.deep_view()[x].1 by {
                assert(out.deep_view()[x] == (out@[x].0@, crate::node::node_view(out@[x].1)));
                if x < i - 1 {
                    assert(out@[x] == prevv[x]);
                    assert(prevdv[x] == (prevv[x].0@, crate::node::node_view(prevv[x].1)));
                }
            }
            if env_of_entries(ev) is Ok {
                let full = env_of_entries(ev).unwrap();
                let rest0 = env_of_entries(ev.subrange(i - 1, ev.len() as int)).unwrap();
                assert(env_of_entries(suffix.drop_first()) matches Ok(r2) && rest0 == seq![
                    (ev[i - 1].0->Str_0, ev[i - 1].1),
                ] + r2);
                assert(full =~= out.deep_view() + env_of_entries(
                    ev.subrange(i as int, ev.len() as int),
                ).unwrap());
            }
            assert(env_of_entries(suffix) is Err <==> env_of_entries(
                ev.subrange(i as int, ev.len() as int),
            ) is Err);
        }
    }
    proof {
        assert(ev.subrange(n as int, n as int) =~= Seq::<(NodeV, NodeV)>::empty());
        if env_of_entries(ev) is Ok {
            assert(env_of_entries(ev).unwrap() =~= out.deep_view());
        }
        if env_of_entries(ev) is Err {
            assert(false);
        }
    }
    Ok(out)
}

/// A backlog from a document node: the verified reading of the document
/// shape.
pub fn backlog_from_node(n: &Node) -> (r: Result<Backlog, String>)
    ensures
        match r {
            Ok(b) => backlog_of_node(n@) == Ok::<BacklogV, ()>(b@),
            Err(e) => backlog_of_node(n@) is Err && e@
                == "document does not match the backlog shape"@,
        },
{
    let es: &Vec<(Node, Node)> = match n {
        Node::Mapping(es) => es,
        _ => {
            proof {
                lemma_view_variant(*n);
            }
            return Err(shape_error());
        },
    };
    assert(n@ == NodeV::Mapping(entries_view(es@)));
    let project = match get_req_str(es, "project") {
        Ok(s) => s,
        Err(e) => {
            return Err(e);
        },
    };
    let rust_version = match get_opt_str(es, "rust_version") {
        Ok(v) => v,
        Err(e) => {
            return Err(e);
        },
    };
    let success_criteria = match get_opt_str_list(es, "success_criteria") {
        Ok(v) => v,
        Err(e) => {
            return Err(e);
        },
    };
    let environment = match lookup_key(es, "environment") {
        None => {
            let l: Vec<(String, Node)> = Vec::new();
            assert(l.deep_view() =~= Seq::<(Seq<char>, NodeV)>::empty());
            l
        },
        Some(v) => match v {
            Node::Mapping(es2) => match env_from_entries(es2) {
                Ok(l) => l,
                Err(e) => {
                    return Err(e);
                },
            },
            _ => {
                proof {
                    lemma_view_variant(*v);
                }
                return Err(shape_error());
            },
        },
    };
    let epics = match lookup_key(es, "epics") {
        None => {
            let l: Vec<Epic> = Vec::new();
            assert(l.deep_view() =~= Seq::<EpicV>::empty());
            l
        },
        Some(v) => match v {
            Node::List(xs) => match epics_from_nodes(xs) {
                Ok(l) => l,
                Err(e) => {
                    return Err(e);
                },
            },
            _ => {
                proof {
                    lemma_view_variant(*v);
                }
                return Err(shape_error());
            },
        },
    };
    let tasks = match lookup_key(es, "tasks") {
        None => {
            let l: Vec<Task> = Vec::new();
            assert(l.deep_view() =~= Seq::<TaskV>::empty());
            l
        },
        Some(v) => match v {
            Node::List(xs) => match tasks_from_nodes(xs) {
                Ok(l) => l,
                Err(e) => {
                    return Err(e);
                },
            },
            _ => {
                proof {
                    lemma_view_variant(*v);
                }
                return Err(shape_error());
            },
        },
    };
    let b = Backlog { project, rust_version, success_criteria, environment, epics, tasks };
    proof {
        assert(backlog_of_node(n@) == Ok::<BacklogV, ()>(b@));
    }
    Ok(b)
}

/// Looking a key up after appending one entry: an earlier entry still wins;
/// else the new entry answers for its own key.
proof fn lemma_entry_lookup_push(es: Seq<(NodeV, NodeV)>, k: Seq<char>, v: NodeV, key: Seq<char>)
    ensures
        entry_lookup(es.push((NodeV::Str(k), v)), key) == (if entry_lookup(es, key) is Some {
            entry_lookup(es, key)
        } else if k == key {
            Some(v)
        } else {
            None
        }),
    decreases es.len(),
{
    let x = (NodeV::Str(k), v);
    if es.len() == 0 {
        assert(es.push(x).drop_first() =~= Seq::<(NodeV, NodeV)>::empty());
        assert(es.push(x)[0] == x);
    } else {
        assert(es.push(x)[0] == es[0]);
        assert(es.push(x).drop_first() =~= es.drop_first().push(x));
        lemma_entry_lookup_push(es.drop_first(), k, v, key);
    }
}

/// The field names of the document shape are pairwise distinct, and the two
/// state names differ.
proof fn lemma_keys_distinct()
    ensures
        "id"@ != "title"@,
        "id"@ != "depends"@,
        "id"@ != "state"@,
        "id"@ != "description"@,
        "id"@ != "deliverable"@,
        "id"@ != "done_when"@,
        "id"@ != "tasks"@,
        "title"@ != "depends"@,
        "title"@ != "state"@,
        "title"@ != "description"@,
        "title"@ != "deliverable"@,
        "title"@ != "done_when"@,
        "title"@ != "tasks"@,
        "depends"@ != "state"@,
        "depends"@ != "description"@,
        "depends"@ != "deliverable"@,
        "depends"@ != "done_when"@,
        "state"@ != "description"@,
        "state"@ != "deliverable"@,
        "state"@ != "done_when"@,
        "description"@ != "deliverable"@,
        "description"@ != "done_when"@,
        "deliverable"@ != "done_when"@,
        "Todo"@ != "Done"@,
        "project"@ != "rust_version"@,
        "project"@ != "success_criteria"@,
        "project"@ != "environment"@,
        "project"@ != "epics"@,
        "project"@ != "tasks"@,
        "rust_version"@ != "success_criteria"@,
        "rust_version"@ != "environment"@,
        "rust_version"@ != "epics"@,
        "rust_version"@ != "tasks"@,
        "success_criteria"@ != "environment"@,
        "success_criteria"@ != "epics"@,
        "success_criteria"@ != "tasks"@,
        "environment"@ != "epics"@,
        "environment"@ != "tasks"@,
        "epics"@ != "tasks"@,
{
    reveal_strlit("id");
    reveal_strlit("title");
    reveal_strlit("depends");
    reveal_strlit("state");
    reveal_strlit("description");
    reveal_strlit("deliverable");
    reveal_strlit("done_when");
    reveal_strlit("project");
    reveal_strlit("rust_version");
    reveal_strlit("success_criteria");
    reveal_strlit("environment");
    reveal_strlit("epics");
    reveal_strlit("tasks");
    reveal_strlit("Todo");
    reveal_strlit("Done");
    assert("id"@.len() == 2);
    assert("title"@.len() == 5);
    assert("depends"@.len() == 7);
    assert("state"@.len() == 5);
    assert("description"@.len() == 11);
    assert("deliverable"@.len() == 11);
    assert("done_when"@.len() == 9);
    assert("project"@.len() == 7);
    assert("rust_version"@.len() == 12);
    assert("success_criteria"@.len() == 16);
    assert("environment"@.len() == 11);
    assert("epics"@.len() == 5);
    assert("tasks"@.len() == 5);
    assert("Todo"@.len() == 4);
    assert("Done"@.len() == 4);
    assert("title"@[1] != "tasks"@[1]);
    assert("title"@[1] != "epics"@[1]);
    assert("state"@[0] != "tasks"@[0]);
    assert("state"@[0] != "epics"@[0]);
    assert("description"@[2] != "environment"@[2]);
    assert("deliverable"@[1] != "environment"@[1]);
    assert("title"@[0] != "state"@[0]);
    assert("description"@[0] == 'd' && "deliverable"@[0] == 'd');
    assert("description"@[2] != "deliverable"@[2]);
    assert("Todo"@[0] != "Done"@[0]);
    assert("epics"@[0] != "tasks"@[0]);
    assert("title"@.len() != "id"@.len());
}

/// Appends one string-keyed entry to a document mapping under construction.
fn push_entry(es: &mut Vec<(Node, Node)>, key: &str, v: Node)
    ensures
        entries_view(final (es)@) == entries_view(old(es)@).push((NodeV::Str(key@), v@)),
{
    let ghost oldev = entries_view(old(es)@);
    proof {
        lemma_entries_view_index(old(es)@);
    }
    let mut k = String::new();
    k.append(key);
    es.push((Node::Str(k), v));
    proof {
        lemma_entries_view_index(es@);
        assert forall|x: int| 0 <= x < es@.len() implies entries_view(es@)[x] == oldev.push(
            (NodeV::Str(key@), v@),
        )[x] by {
            if x < es@.len() - 1 {
                assert(es@[x] == old(es)@[x]);
            } else {
                assert(es@[x].0 == Node::Str(k));
            }
        }
        assert(entries_view(es@) =~= oldev.push((NodeV::Str(key@), v@)));
    }
}

/// Appending a string node extends the string list it denotes.
proof fn lemma_str_list_push(xs: Seq<NodeV>, l: Seq<Seq<char>>, s: Seq<char>)
    requires
        str_list_of(xs) == Ok::<Seq<Seq<char>>, ()>(l),
    ensures
        str_list_of(xs.push(NodeV::Str(s))) == Ok::<Seq<Seq<char>>, ()>(l.push(s)),
    decreases xs.len(),
{
    let x = NodeV::Str(s);
    if xs.len() == 0 {
        assert(xs.push(x).drop_first() =~= Seq::<NodeV>::empty());
        assert(xs.push(x)[0] == x);
        assert(str_list_of(xs.push(x)) == Ok::<Seq<Seq<char>>, ()>(seq![s] + Seq::empty()));
        assert(seq![s] + Seq::<Seq<char>>::empty() =~= l.push(s));
    } else {
        assert(xs.push(x)[0] == xs[0]);
        assert(xs.push(x).drop_first() =~= xs.drop_first().push(x));
        let head = xs[0]->Str_0;
        let rest = str_list_of(xs.drop_first()).unwrap();
        assert(l == seq![head] + rest);
        lemma_str_list_push(xs.drop_first(), rest, s);
        assert(str_list_of(xs.push(x)) == Ok::<Seq<Seq<char>>, ()>(seq![head] + rest.push(s)));
        assert(seq![head] + rest.push(s) =~= l.push(s));
    }
}

/// Appending a task node extends the task list it denotes.
proof fn lemma_tasks_push(xs: Seq<NodeV>, l: Seq<TaskV>, x: NodeV, t: TaskV)
    requires
        tasks_of_nodes(xs) == Ok::<Seq<TaskV>, ()>(l),
        task_of_node(x) == Ok::<TaskV, ()>(t),
    ensures
        tasks_of_nodes(xs.push(x)) == Ok::<Seq<TaskV>, ()>(l.push(t)),
    decreases xs.len(),
{
    if xs.len() == 0 {
        assert(xs.push(x).drop_first() =~= Seq::<NodeV>::empty());
        assert(xs.push(x)[0] == x);
        assert(tasks_of_nodes(xs.push(x)) == Ok::<Seq<TaskV>, ()>(seq![t] + Seq::empty()));
        assert(seq![t] + Seq::<TaskV>::empty() =~= l.push(t));
    } else {
        assert(xs.push(x)[0] == xs[0]);
        assert(xs.push(x).drop_first() =~= xs.drop_first().push(x));
        let head = task_of_node(xs[0]).unwrap();
        let rest = tasks_of_nodes(xs.drop_first()).unwrap();
        assert(l == seq![head] + rest);
        lemma_tasks_push(xs.drop_first(), rest, x, t);
        assert(tasks_of_nodes(xs.push(x)) == Ok::<Seq<TaskV>, ()>(seq![head] + rest.push(t)));
        assert(seq![head] + rest.push(t) =~= l.push(t));
    }
}

/// Appending an epic node extends the epic list it denotes.
proof fn lemma_epics_push(xs: Seq<NodeV>, l: Seq<EpicV>, x: NodeV, e: EpicV)
    requires
        epics_of_nodes(xs) == Ok::<Seq<EpicV>, ()>(l),
        epic_of_node(x) == Ok::<EpicV, ()>(e),
    ensures
        epics_of_nodes(xs.push(x)) == Ok::<Seq<EpicV>, ()>(l.push(e)),
    decreases xs.len(),
{
    if xs.len() == 0 {
        assert(xs.push(x).drop_first() =~= Seq::<NodeV>::empty());
        assert(xs.push(x)[0] == x);
        assert(epics_of_nodes(xs.push(x)) == Ok::<Seq<EpicV>, ()>(seq![e] + Seq::empty()));
        assert(seq![e] + Seq::<EpicV>::empty() =~= l.push(e));
    } else {
        assert(xs.push(x)[0] == xs[0]);
        assert(xs.push(x).drop_first() =~= xs.drop_first().push(x));
        let head = epic_of_node(xs[0]).unwrap();
        let rest = epics_of_nodes(xs.drop_first()).unwrap();
        assert(l == seq![head] + rest);
        lemma_epics_push(xs.drop_first(), rest, x, e);
        assert(epics_of_nodes(xs.push(x)) == Ok::<Seq<EpicV>, ()>(seq![head] + rest.push(e)));
        assert(seq![head] + rest.push(e) =~= l.push(e));
    }
}

/// Appending a string-keyed entry extends the environment it denotes.
proof fn lemma_env_push(es: Seq<(NodeV, NodeV)>, l: Seq<(Seq<char>, NodeV)>, k: Seq<char>, v: NodeV)
    requires
        env_of_entries(es) == Ok::<Seq<(Seq<char>, NodeV)>, ()>(l),
    ensures
        env_of_entries(es.push((NodeV::Str(k), v))) == Ok::<Seq<(Seq<char>, NodeV)>, ()>(
            l.push((k, v)),
        ),
    decreases es.len(),
{
    let x = (NodeV::Str(k), v);
    if es.len() == 0 {
        assert(es.push(x).drop_first() =~= Seq::<(NodeV, NodeV)>::empty());
        assert(es.push(x)[0] == x);
        assert(env_of_entries(es.push(x)) == Ok::<Seq<(Seq<char>, NodeV)>, ()>(
            seq![(k, v)] + Seq::empty(),
        ));
        assert(seq![(k, v)] + Seq::<(Seq<char>, NodeV)>::empty() =~= l.push((k, v)));
    } else {
        assert(es.push(x)[0] == es[0]);
        assert(es.push(x).drop_first() =~= es.drop_first().push(x));
        let head = (es[0].0->Str_0, es[0].1);
        let rest = env_of_entries(es.drop_first()).unwrap();
        assert(l == seq![head] + rest);
        lemma_env_push(es.drop_first(), rest, k, v);
        assert(env_of_entries(es.push(x)) == Ok::<Seq<(Seq<char>, NodeV)>, ()>(
            seq![head] + rest.push((k, v)),
        ));
        assert(seq![head] + rest.push((k, v)) =~= l.push((k, v)));
    }
}

/// A list node of the given strings.
fn node_from_str_list(v: &Vec<String>) -> (r: Node)
    ensures
        r@ matches NodeV::List(ln) && str_list_of(ln) == Ok::<Seq<Seq<char>>, ()>(v.deep_view()),
{
    let n: usize = v.len();
    let mut out: Vec<Node> = Vec::new();
    let mut i: usize = 0;
    proof {
        assert(nodes_view(out@) =~= Seq::<NodeV>::empty());
        assert(v.deep_view().take(0) =~= Seq::<Seq<char>>::empty());
    }
    while i < n
        invariant
            n == v@.len(),
            i <= n,
            out@.len() == i,
            str_list_of(nodes_view(out@)) == Ok::<Seq<Seq<char>>, ()>(
                v.deep_view().take(i as int),
            ),
        decreases n - i,
    {
        let ghost prevnodes = nodes_view(out@);
        let ghost prevv = out@;
        let c = v[i].clone();
        proof {
            assert(c@ == v@[i as int]@);
        }
        out.push(Node::Str(c));
        i += 1;
        proof {
            lemma_nodes_view_index(out@);
            lemma_nodes_view_index(prevv);
            assert forall|x: int| 0 <= x < out@.len() implies nodes_view(out@)[x]
                == prevnodes.push(NodeV::Str(v.deep_view()[i - 1]))[x] by {
                if x < out@.len() - 1 {
                    assert(out@[x] == prevv[x]);
                    assert(prevnodes[x] == crate::node::node_view(prevv[x]));
                }
            }
            assert(nodes_view(out@) =~= prevnodes.push(NodeV::Str(v.deep_view()[i - 1])));
            lemma_str_list_push(prevnodes, v.deep_view().take(i - 1), v.deep_view()[i - 1]);
            assert(v.deep_view().take(i as int) =~= v.deep_view().take(i - 1).push(
                v.deep_view()[i - 1],
            ));
        }
    }
    proof {
        assert(v.deep_view().take(n as int) =~= v.deep_view());
    }
    Node::List(out)
}

/// The document node of a task, in the canonical field order; optional fields
/// are left out when empty.
pub fn task_to_node(t: &Task) -> (r: Node)
    ensures
        task_of_node(r@) == Ok::<TaskV, ()>(t@),
{
    proof {
        lemma_keys_distinct();
    }
    let mut es: Vec<(Node, Node)> = Vec::new();
    proof {
        assert(entries_view(es@) =~= Seq::<(NodeV, NodeV)>::empty());
    }
    let ghost e0 = entries_view(es@);
    push_entry(&mut es, "id", Node::Str(t.id.clone()));
    push_entry(&mut es, "title", Node::Str(t.title.clone()));
    push_entry(&mut es, "depends", node_from_str_list(&t.depends));
    let statename: &str = match t.state {
        TaskState::Todo => "Todo",
        TaskState::Done => "Done",
    };
    let mut st = String::new();
    st.append(statename);
    push_entry(&mut es, "state", Node::Str(st));
    let ghost ev4 = entries_view(es@);
    proof {
        assert forall|key: Seq<char>| true implies #[trigger] entry_lookup(ev4, key) == (if key
            == "id"@ {
            Some(NodeV::Str(t.id@))
        } else if key == "title"@ {
            Some(NodeV::Str(t.title@))
        } else if key == "depends"@ {
            Some(ev4[2].1)
        } else if key == "state"@ {
            Some(NodeV::Str(statename@))
        } else {
            None
        }) by {
            let ev1 = e0.push((NodeV::Str("id"@), NodeV::Str(t.id@)));
            let ev2 = ev1.push((NodeV::Str("title"@), NodeV::Str(t.title@)));
            let ev3 = ev2.push((NodeV::Str("depends"@), ev4[2].1));
            assert(entry_lookup(e0, key) is None);
            lemma_entry_lookup_push(e0, "id"@, NodeV::Str(t.id@), key);
            lemma_entry_lookup_push(ev1, "title"@, NodeV::Str(t.title@), key);
            lemma_entry_lookup_push(ev2, "depends"@, ev4[2].1, key);
            lemma_entry_lookup_push(ev3, "state"@, NodeV::Str(statename@), key);
            assert(ev4[2] == (NodeV::Str("depends"@), ev4[2].1));
        }
    }
    if let Some(d) = &t.description {
        push_entry(&mut es, "description", Node::Str(d.clone()));
    }
    let ghost ev5 = entries_view(es@);
    match &t.deliverable {
        Some(DeliverableSpec::Single(p)) => {
            push_entry(&mut es, "deliverable", Node::Str(p.clone()));
        },
        Some(DeliverableSpec::Multiple(ps)) => {
            push_entry(&mut es, "deliverable", node_from_str_list(ps));
        },
        None => {},
    }
    let ghost ev6 = entries_view(es@);
    if t.done_when.len() > 0 {
        push_entry(&mut es, "done_when", node_from_str_list(&t.done_when));
    }
    let ghost ev7 = entries_view(es@);
    proof {
        assert forall|key: Seq<char>| true implies #[trigger] entry_lookup(ev7, key) == (if key
            == "description"@ {
            match t@.description {
                Some(d) => Some(NodeV::Str(d)),
                None => None,
            }
        } else if key == "deliverable"@ && t.deliverable is Some {
            Some(ev6[ev6.len() - 1].1)
        } else if key == "done_when"@ && t.done_when@.len() > 0 {
            Some(ev7[ev7.len() - 1].1)
        } else {
            entry_lookup(ev4, key)
        }) by {
            if t.description is Some {
                lemma_entry_lookup_push(ev4, "description"@, NodeV::Str(t@.description.unwrap()), key);
            }
            match t@.deliverable {
                Some(DeliverableV::Single(p)) => {
                    lemma_entry_lookup_push(ev5, "deliverable"@, NodeV::Str(p), key);
                },
                Some(DeliverableV::Multiple(ps)) => {
                    lemma_entry_lookup_push(ev5, "deliverable"@, ev6[ev6.len() - 1].1, key);
                },
                None => {},
            }
            if t.done_when@.len() > 0 {
                lemma_entry_lookup_push(ev6, "done_when"@, ev7[ev7.len() - 1].1, key);
            }
        }
    }
    let r = Node::Mapping(es);
    proof {
        assert(r@ == NodeV::Mapping(ev7));
        assert(req_str(entry_lookup(ev7, "id"@)) == Ok::<Seq<char>, ()>(t@.id));
        assert(req_str(entry_lookup(ev7, "title"@)) == Ok::<Seq<char>, ()>(t@.title));
        assert(opt_str_list(entry_lookup(ev7, "depends"@)) == Ok::<Seq<Seq<char>>, ()>(t@.depends));
        assert(state_of(entry_lookup(ev7, "state"@)) == Ok::<TaskState, ()>(t@.state)) by {
            match t.state {
                TaskState::Todo => {
                    assert(statename@ == "Todo"@);
                },
                TaskState::Done => {
                    assert(statename@ == "Done"@);
                    assert(statename@ != "Todo"@);
                },
            }
        }
        assert(opt_str(entry_lookup(ev7, "description"@)) == Ok::<Option<Seq<char>>, ()>(
            t@.description,
        ));
        assert(deliverable_of(entry_lookup(ev7, "deliverable"@)) == Ok::<Option<DeliverableV>, ()>(
            t@.deliverable,
        ));
        assert(opt_str_list(entry_lookup(ev7, "done_when"@)) == Ok::<Seq<Seq<char>>, ()>(
            t@.done_when,
        )) by {
            if t.done_when@.len() == 0 {
                assert(t@.done_when =~= Seq::<Seq<char>>::empty());
            }
        }
        assert(task_of_node(r@) == Ok::<TaskV, ()>(t@));
    }
    r
}

/// The document node of a list of tasks.
fn tasks_to_node(ts: &Vec<Task>) -> (r: Node)
    ensures
        r@ matches NodeV::List(ln) && tasks_of_nodes(ln) == Ok::<Seq<TaskV>, ()>(ts.deep_view()),
{
    let n: usize = ts.len();
    let mut out: Vec<Node> = Vec::new();
    let mut i: usize = 0;
    proof {
        assert(nodes_view(out@) =~= Seq::<NodeV>::empty());
        assert(ts.deep_view().take(0) =~= Seq::<TaskV>::empty());
    }
    while i < n
        invariant
            n == ts@.len(),
            i <= n,
            out@.len() == i,
            tasks_of_nodes(nodes_view(out@)) == Ok::<Seq<TaskV>, ()>(ts.deep_view().take(i as int)),
        decreases n - i,
    {
        let ghost prevnodes = nodes_view(out@);
        let ghost prevv = out@;
        let node = task_to_node(&ts[i]);
        out.push(node);
        i += 1;
        proof {
            lemma_nodes_view_index(out@);
            lemma_nodes_view_index(prevv);
            assert forall|x: int| 0 <= x < out@.len() implies nodes_view(out@)[x] == prevnodes.push(
                crate::node::node_view(out@[i - 1]),
            )[x] by {
                if x < out@.len() - 1 {
                    assert(out@[x] == prevv[x]);
                }
            }
            assert(nodes_view(out@) =~= prevnodes.push(crate::node::node_view(out@[i - 1])));
            lemma_tasks_push(
                prevnodes,
                ts.deep_view().take(i - 1),
                crate::node::node_view(out@[i - 1]),
                ts.deep_view()[i - 1],
            );
            assert(ts.deep_view().take(i as int) =~= ts.deep_view().take(i - 1).push(
                ts.deep_view()[i - 1],
            ));
        }
    }
    proof {
        assert(ts.deep_view().take(n as int) =~= ts.deep_view());
    }
    Node::List(out)
}

/// The document node of one epic.
fn epic_to_node(e: &Epic) -> (r: Node)
    ensures
        epic_of_node(r@) == Ok::<EpicV, ()>(e@),
{
    proof {
        lemma_keys_distinct();
    }
    let mut es: Vec<(Node, Node)> = Vec::new();
    proof {
        assert(entries_view(es@) =~= Seq::<(NodeV, NodeV)>::empty());
    }
    let ghost e0 = entries_view(es@);
    push_entry(&mut es, "id", Node::Str(e.id.clone()));
    push_entry(&mut es, "title", Node::Str(e.title.clone()));
    push_entry(&mut es, "tasks", tasks_to_node(&e.tasks));
    let ghost ev = entries_view(es@);
    let r = Node::Mapping(es);
    proof {
        assert(r@ == NodeV::Mapping(ev));
        assert forall|key: Seq<char>| true implies #[trigger] entry_lookup(ev, key) == (if key
            == "id"@ {
            Some(NodeV::Str(e.id@))
        } else if key == "title"@ {
            Some(NodeV::Str(e.title@))
        } else if key == "tasks"@ {
            Some(ev[2].1)
        } else {
            None
        }) by {
            let ev1 = e0.push((NodeV::Str("id"@), NodeV::Str(e.id@)));
            let ev2 = ev1.push((NodeV::Str("title"@), NodeV::Str(e.title@)));
            assert(entry_lookup(e0, key) is None);
            lemma_entry_lookup_push(e0, "id"@, NodeV::Str(e.id@), key);
            lemma_entry_lookup_push(ev1, "title"@, NodeV::Str(e.title@), key);
            lemma_entry_lookup_push(ev2, "tasks"@, ev[2].1, key);
            assert(ev[2] == (NodeV::Str("tasks"@), ev[2].1));
        }
        assert(epic_of_node(r@) == Ok::<EpicV, ()>(e@));
    }
    r
}

/// The document node of a list of epics.
fn epics_to_node(es: &Vec<Epic>) -> (r: Node)
    ensures
        r@ matches NodeV::List(ln) && epics_of_nodes(ln) == Ok::<Seq<EpicV>, ()>(es.deep_view()),
{
    let n: usize = es.len();
    let mut out: Vec<Node> = Vec::new();
    let mut i: usize = 0;
    proof {
        assert(nodes_view(out@) =~= Seq::<NodeV>::empty());
        assert(es.deep_view().take(0) =~= Seq::<EpicV>::empty());
    }
    while i < n
        invariant
            n == es@.len(),
            i <= n,
            out@.len() == i,
            epics_of_nodes(nodes_view(out@)) == Ok::<Seq<EpicV>, ()>(
                es.deep_view().take(i as int),
            ),
        decreases n - i,
    {
        let ghost prevnodes = nodes_view(out@);
        let ghost prevv = out@;
        let node = epic_to_node(&es[i]);
        out.push(node);
        i += 1;
        proof {
            lemma_nodes_view_index(out@);
            lemma_nodes_view_index(prevv);
            assert forall|x: int| 0 <= x < out@.len() implies nodes_view(out@)[x] == prevnodes.push(
                crate::node::node_view(out@[i - 1]),
            )[x] by {
                if x < out@.len() - 1 {
                    assert(out@[x] == prevv[x]);
                }
            }
            assert(nodes_view(out@) =~= prevnodes.push(crate::node::node_view(out@[i - 1])));
            lemma_epics_push(
                prevnodes,
                es.deep_view().take(i - 1),
                crate::node::node_view(out@[i - 1]),
                es.deep_view()[i - 1],
            );
            assert(es.deep_view().take(i as int) =~= es.deep_view().take(i - 1).push(
                es.deep_view()[i - 1],
            ));
        }
    }
    proof {
        assert(es.deep_view().take(n as int) =~= es.deep_view());
    }
    Node::List(out)
}

/// The document node of the environment map.
fn env_to_node(env: &Vec<(String, Node)>) -> (r: Node)
    ensures
        r@ matches NodeV::Mapping(ev) && env_of_entries(ev) == Ok::<Seq<(Seq<char>, NodeV)>, ()>(
            env.deep_view(),
        ),
{
    let n: usize = env.len();
    let mut out: Vec<(Node, Node)> = Vec::new();
    let mut i: usize = 0;
    proof {
        assert(entries_view(out@) =~= Seq::<(NodeV, NodeV)>::empty());
        assert(env.deep_view().take(0) =~= Seq::<(Seq<char>, NodeV)>::empty());
    }
    while i < n
        invariant
            n == env@.len(),
            i <= n,
            out@.len() == i,
            env_of_entries(entries_view(out@)) == Ok::<Seq<(Seq<char>, NodeV)>, ()>(
                env.deep_view().take(i as int),
            ),
        decreases n - i,
    {
        let ghost preventries = entries_view(out@);
        let ghost prevv = out@;
        let key = env[i].0.clone();
        let value = env[i].1.clone();
        proof {
            assert(key@ == env@[i as int].0@);
            assert(crate::node::node_view(value) == crate::node::node_view(env@[i as int].1));
        }
        out.push((Node::Str(key), value));
        i += 1;
        proof {
            lemma_entries_view_index(out@);
            lemma_entries_view_index(prevv);
            assert forall|x: int| 0 <= x < out@.len() implies entries_view(out@)[x]
                == preventries.push(
                (NodeV::Str(env.deep_view()[i - 1].0), env.deep_view()[i - 1].1),
            )[x] by {
                if x < out@.len() - 1 {
                    assert(out@[x] == prevv[x]);
                }
            }
            assert(entries_view(out@) =~= preventries.push(
                (NodeV::Str(env.deep_view()[i - 1].0), env.deep_view()[i - 1].1),
            ));
            lemma_env_push(
                preventries,
                env.deep_view().take(i - 1),
                env.deep_view()[i - 1].0,
                env.deep_view()[i - 1].1,
            );
            assert(env.deep_view().take(i as int) =~= env.deep_view().take(i - 1).push(
                env.deep_view()[i - 1],
            ));
            assert((env.deep_view()[i - 1].0, env.deep_view()[i - 1].1) == env.deep_view()[i - 1]);
        }
    }
    proof {
        assert(env.deep_view().take(n as int) =~= env.deep_view());
    }
    Node::Mapping(out)
}

/// The document node of a whole backlog, in the canonical field order;
/// empty or absent parts are left out. Reading the node back yields the same
/// backlog value.
pub fn backlog_to_node(b: &Backlog) -> (r: Node)
    ensures
        backlog_of_node(r@) == Ok::<BacklogV, ()>(b@),
{
    proof {
        lemma_keys_distinct();
    }
    let mut es: Vec<(Node, Node)> = Vec::new();
    proof {
        assert(entries_view(es@) =~= Seq::<(NodeV, NodeV)>::empty());
    }
    let ghost e0 = entries_view(es@);
    push_entry(&mut es, "project", Node::Str(b.project.clone()));
    let ghost ev1 = entries_view(es@);
    proof {
        assert(ev1 == e0.push((NodeV::Str("project"@), NodeV::Str(b.project@))));
    }
    if let Some(rv) = &b.rust_version {
        push_entry(&mut es, "rust_version", Node::Str(rv.clone()));
    }
    let ghost ev2 = entries_view(es@);
    if b.success_criteria.len() > 0 {
        push_entry(&mut es, "success_criteria", node_from_str_list(&b.success_criteria));
    }
    let ghost ev3 = entries_view(es@);
    if b.environment.len() > 0 {
        push_entry(&mut es, "environment", env_to_node(&b.environment));
    }
    let ghost ev4 = entries_view(es@);
    if b.epics.len() > 0 {
        push_entry(&mut es, "epics", epics_to_node(&b.epics));
    }
    let ghost ev5 = entries_view(es@);
    if b.tasks.len() > 0 {
        push_entry(&mut es, "tasks", tasks_to_node(&b.tasks));
    }
    let ghost ev6 = entries_view(es@);
    let r = Node::Mapping(es);
    proof {
        assert(r@ == NodeV::Mapping(ev6));
        assert forall|key: Seq<char>| true implies #[trigger] entry_lookup(ev6, key) == (if key
            == "project"@ {
            Some(NodeV::Str(b.project@))
        } else if key == "rust_version"@ && b.rust_version is Some {
            Some(NodeV::Str(b@.rust_version.unwrap()))
        } else if key == "success_criteria"@ && b.success_criteria@.len() > 0 {
            Some(ev3[ev3.len() - 1].1)
        } else if key == "environment"@ && b.environment@.len() > 0 {
            Some(ev4[ev4.len() - 1].1)
        } else if key == "epics"@ && b.epics@.len() > 0 {
            Some(ev5[ev5.len() - 1].1)
        } else if key == "tasks"@ && b.tasks@.len() > 0 {
            Some(ev6[ev6.len() - 1].1)
        } else {
            None
        }) by {
            assert(entry_lookup(e0, key) is None);
            lemma_entry_lookup_push(e0, "project"@, NodeV::Str(b.project@), key);
            if b.rust_version is Some {
                lemma_entry_lookup_push(
                    ev1,
                    "rust_version"@,
                    NodeV::Str(b@.rust_version.unwrap()),
                    key,
                );
            }
            if b.success_criteria@.len() > 0 {
                lemma_entry_lookup_push(ev2, "success_criteria"@, ev3[ev3.len() - 1].1, key);
            }
            if b.environment@.len() > 0 {
                lemma_entry_lookup_push(ev3, "environment"@, ev4[ev4.len() - 1].1, key);
            }
            if b.epics@.len() > 0 {
                lemma_entry_lookup_push(ev4, "epics"@, ev5[ev5.len() - 1].1, key);
            }
            if b.tasks@.len() > 0 {
                lemma_entry_lookup_push(ev5, "tasks"@, ev6[ev6.len() - 1].1, key);
            }
        }
        assert(req_str(entry_lookup(ev6, "project"@)) == Ok::<Seq<char>, ()>(b@.project));
        assert(opt_str(entry_lookup(ev6, "rust_version"@)) == Ok::<Option<Seq<char>>, ()>(
            b@.rust_version,
        ));
        assert(opt_str_list(entry_lookup(ev6, "success_criteria"@)) == Ok::<Seq<Seq<char>>, ()>(
            b@.success_criteria,
        )) by {
            if b.success_criteria@.len() == 0 {
                assert(b@.success_criteria =~= Seq::<Seq<char>>::empty());
            }
        }
        assert(opt_env(entry_lookup(ev6, "environment"@)) == Ok::<Seq<(Seq<char>, NodeV)>, ()>(
            b@.environment,
        )) by {
            if b.environment@.len() == 0 {
                assert(b@.environment =~= Seq::<(Seq<char>, NodeV)>::empty());
            }
        }
        assert(opt_epics(entry_lookup(ev6, "epics"@)) == Ok::<Seq<EpicV>, ()>(b@.epics)) by {
            if b.epics@.len() == 0 {
                assert(b@.epics =~= Seq::<EpicV>::empty());
            }
        }
        assert(opt_tasks(entry_lookup(ev6, "tasks"@)) == Ok::<Seq<TaskV>, ()>(b@.tasks)) by {
            if b.tasks@.len() == 0 {
                assert(b@.tasks =~= Seq::<TaskV>::empty());
            }
        }
        assert(backlog_of_node(r@) == Ok::<BacklogV, ()>(b@));
    }
    r
}

} // verus!
