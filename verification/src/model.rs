use crate::node::{Node, NodeV};
use crate::text::str_eq;
use vstd::prelude::*;
use vstd::string::StringExecFns;

verus! {

/// The two completion states a task can be in.
#[derive(Clone, Copy, Debug, PartialEq, Eq, Structural)]
pub enum TaskState {
    /// The task is yet to be completed.
    Todo,
    /// The task has been completed.
    Done,
}

impl Default for TaskState {
    /// A task is yet to be done unless said otherwise.
    fn default() -> (r: Self)
        ensures
            r == TaskState::Todo,
    {
        TaskState::Todo
    }
}

/// The deliverable(s) of a task: one path, or a list of paths.
pub enum DeliverableSpec {
    Single(String),
    Multiple(Vec<String>),
}

pub enum DeliverableV {
    Single(Seq<char>),
    Multiple(Seq<Seq<char>>),
}

impl View for DeliverableSpec {
    type V = DeliverableV;

    open spec fn view(&self) -> DeliverableV {
        match self {
            DeliverableSpec::Single(s) => DeliverableV::Single(s@),
            DeliverableSpec::Multiple(v) => DeliverableV::Multiple(v.deep_view()),
        }
    }
}

impl DeepView for DeliverableSpec {
    type V = DeliverableV;

    open spec fn deep_view(&self) -> DeliverableV {
        self.view()
    }
}

/// A single unit of work in the backlog.
pub struct Task {
    /// Unique identifier, the sole cross-reference key.
    pub id: String,
    /// Human-readable title.
    pub title: String,
    /// Ids of the tasks this one requires to be complete first.
    pub depends: Vec<String>,
    /// Current completion state.
    pub state: TaskState,
    /// Optional free-text description.
    pub description: Option<String>,
    /// Optional deliverable specification.
    pub deliverable: Option<DeliverableSpec>,
    /// Free-text acceptance criteria.
    pub done_when: Vec<String>,
}

pub ghost struct TaskV {
    pub id: Seq<char>,
    pub title: Seq<char>,
    pub depends: Seq<Seq<char>>,
    pub state: TaskState,
    pub description: Option<Seq<char>>,
    pub deliverable: Option<DeliverableV>,
    pub done_when: Seq<Seq<char>>,
}

impl View for Task {
    type V = TaskV;

    open spec fn view(&self) -> TaskV {
        TaskV {
            id: self.id@,
            title: self.title@,
            depends: self.depends.deep_view(),
            state: self.state,
            description: self.description.deep_view(),
            deliverable: self.deliverable.deep_view(),
            done_when: self.done_when.deep_view(),
        }
    }
}

impl DeepView for Task {
    type V = TaskV;

    open spec fn deep_view(&self) -> TaskV {
        self.view()
    }
}

/// A named grouping of tasks; it has no dependencies or state of its own.
pub struct Epic {
    pub id: String,
    pub title: String,
    pub tasks: Vec<Task>,
}

pub ghost struct EpicV {
    pub id: Seq<char>,
    pub title: Seq<char>,
    pub tasks: Seq<TaskV>,
}

impl View for Epic {
    type V = EpicV;

    open spec fn view(&self) -> EpicV {
        EpicV { id: self.id@, title: self.title@, tasks: self.tasks.deep_view() }
    }
}

impl DeepView for Epic {
    type V = EpicV;

    open spec fn deep_view(&self) -> EpicV {
        self.view()
    }
}

/// The aggregate root: a project's whole backlog.
pub struct Backlog {
    /// Name of the project.
    pub project: String,
    /// Optional language version the project pins.
    pub rust_version: Option<String>,
    /// Free-text success criteria.
    pub success_criteria: Vec<String>,
    /// Opaque key-value settings, carried through untouched.
    pub environment: Vec<(String, Node)>,
    /// Task groups.
    pub epics: Vec<Epic>,
    /// Top-level tasks.
    pub tasks: Vec<Task>,
}

pub ghost struct BacklogV {
    pub project: Seq<char>,
    pub rust_version: Option<Seq<char>>,
    pub success_criteria: Seq<Seq<char>>,
    pub environment: Seq<(Seq<char>, NodeV)>,
    pub epics: Seq<EpicV>,
    pub tasks: Seq<TaskV>,
}

impl View for Backlog {
    type V = BacklogV;

    open spec fn view(&self) -> BacklogV {
        BacklogV {
            project: self.project@,
            rust_version: self.rust_version.deep_view(),
            success_criteria: self.success_criteria.deep_view(),
            environment: self.environment.deep_view(),
            epics: self.epics.deep_view(),
            tasks: self.tasks.deep_view(),
        }
    }
}

/// The tasks of a sequence of epics, concatenated in order.
pub open spec fn epics_tasks(epics: Seq<EpicV>) -> Seq<TaskV>
    decreases epics.len(),
{
    if epics.len() == 0 {
        Seq::empty()
    } else {
        epics[0].tasks + epics_tasks(epics.drop_first())
    }
}

/// The effective task set: top-level tasks first, then the tasks of each epic
/// in order.
pub open spec fn eff_tasks(b: BacklogV) -> Seq<TaskV> {
    b.tasks + epics_tasks(b.epics)
}

pub proof fn lemma_epics_tasks_take(epics: Seq<EpicV>, k: int)
    requires
        0 <= k < epics.len(),
    ensures
        epics_tasks(epics.take(k + 1)) == epics_tasks(epics.take(k)) + epics[k].tasks,
    decreases k,
{
    if k == 0 {
        assert(epics.take(0) =~= Seq::<EpicV>::empty());
        assert(epics.take(1).drop_first() =~= Seq::<EpicV>::empty());
        assert(epics.take(1)[0] == epics[0]);
        assert(epics_tasks(epics.take(1)) == epics[0].tasks + epics_tasks(
            Seq::<EpicV>::empty(),
        ));
        assert(epics_tasks(epics.take(1)) =~= epics_tasks(epics.take(0)) + epics[0].tasks);
    } else {
        lemma_epics_tasks_take(epics.drop_first(), k - 1);
        assert(epics.take(k + 1).drop_first() =~= epics.drop_first().take(k));
        assert(epics.take(k).drop_first() =~= epics.drop_first().take(k - 1));
        assert(epics_tasks(epics.take(k + 1)) =~= epics_tasks(epics.take(k)) + epics[k].tasks);
    }
}

/// i is a position of a task with the given id.
pub open spec fn task_ix_in(ts: Seq<TaskV>, id: Seq<char>, i: int) -> bool {
    0 <= i < ts.len() && ts[i].id == id
}

/// i is the first position of a task with the given id.
pub open spec fn is_first_task_ix(ts: Seq<TaskV>, id: Seq<char>, i: int) -> bool {
    task_ix_in(ts, id, i) && (forall|j: int| 0 <= j < i ==> ts[j].id != id)
}

/// Some task in ts carries the given id.
pub open spec fn id_present(ts: Seq<TaskV>, id: Seq<char>) -> bool {
    exists|i: int| task_ix_in(ts, id, i)
}

/// The position of the first task with the given id, if any.
pub open spec fn find_task_ix(ts: Seq<TaskV>, id: Seq<char>) -> Option<int> {
    if exists|i: int| is_first_task_ix(ts, id, i) {
        Some(choose|i: int| is_first_task_ix(ts, id, i))
    } else {
        None
    }
}

/// The task that a dependency id resolves to: the first task with that id.
pub open spec fn task_of(ts: Seq<TaskV>, id: Seq<char>) -> TaskV {
    ts[find_task_ix(ts, id).unwrap()]
}

pub proof fn lemma_first_task_ix_unique(ts: Seq<TaskV>, id: Seq<char>, i: int, j: int)
    requires
        is_first_task_ix(ts, id, i),
        is_first_task_ix(ts, id, j),
    ensures
        i == j,
{
    if i < j {
        assert(ts[i].id != id);
    }
    if j < i {
        assert(ts[j].id != id);
    }
}

proof fn lemma_first_task_ix_exists_rec(ts: Seq<TaskV>, id: Seq<char>, i0: int)
    requires
        task_ix_in(ts, id, i0),
    ensures
        exists|i: int| is_first_task_ix(ts, id, i),
    decreases i0,
{
    if forall|j: int| 0 <= j < i0 ==> ts[j].id != id {
        assert(is_first_task_ix(ts, id, i0));
    } else {
        let j = choose|j: int| 0 <= j < i0 && ts[j].id == id;
        lemma_first_task_ix_exists_rec(ts, id, j);
    }
}

/// An id is present exactly when it has a first position; and find_task_ix
/// names that position.
pub proof fn lemma_find_task_ix(ts: Seq<TaskV>, id: Seq<char>)
    ensures
        id_present(ts, id) <==> find_task_ix(ts, id) is Some,
        find_task_ix(ts, id) matches Some(i) ==> is_first_task_ix(ts, id, i),
{
    if id_present(ts, id) {
        let i0 = choose|i: int| task_ix_in(ts, id, i);
        lemma_first_task_ix_exists_rec(ts, id, i0);
    }
    if find_task_ix(ts, id) is Some {
        let i = choose|i: int| is_first_task_ix(ts, id, i);
        assert(task_ix_in(ts, id, i));
    }
}

pub proof fn lemma_find_task_ix_some(ts: Seq<TaskV>, id: Seq<char>, i: int)
    requires
        is_first_task_ix(ts, id, i),
    ensures
        find_task_ix(ts, id) == Some(i),
{
    let k = choose|k: int| is_first_task_ix(ts, id, k);
    lemma_first_task_ix_unique(ts, id, i, k);
}

/// The same task, with its state set to Done.
pub open spec fn set_done(t: TaskV) -> TaskV {
    TaskV { state: TaskState::Done, ..t }
}

/// k is the first epic holding a task with the given id.
pub open spec fn is_first_epic_with(epics: Seq<EpicV>, id: Seq<char>, k: int) -> bool {
    0 <= k < epics.len() && id_present(epics[k].tasks, id) && (forall|j: int|
        0 <= j < k ==> !id_present(epics[j].tasks, id))
}

/// The backlog after marking the task with the given id as done, if the id
/// names a task: the first top-level task with the id, else the first such
/// task of the first epic holding one. Exactly that task's state changes.
pub open spec fn mark_done_spec(b: BacklogV, id: Seq<char>) -> Option<BacklogV> {
    if find_task_ix(b.tasks, id) is Some {
        let i = find_task_ix(b.tasks, id).unwrap();
        Some(BacklogV { tasks: b.tasks.update(i, set_done(b.tasks[i])), ..b })
    } else if exists|k: int| is_first_epic_with(b.epics, id, k) {
        let k = choose|k: int| is_first_epic_with(b.epics, id, k);
        let e = b.epics[k];
        let i = find_task_ix(e.tasks, id).unwrap();
        Some(
            BacklogV {
                epics: b.epics.update(k, EpicV { tasks: e.tasks.update(i, set_done(e.tasks[i])), ..e }),
                ..b
            },
        )
    } else {
        None
    }
}

/// The errors the library surfaces, as values.
#[derive(Debug)]
pub enum BacklogError {
    /// The raw text was empty or whitespace only.
    EmptyInput,
    /// No recovery stage produced a strictly parseable document; carries the
    /// parser's message.
    ParseError(String),
    /// A task references a dependency id that names no task.
    DanglingDependency { task_id: String, missing: String },
    /// The dependency graph has a cycle; carries one concrete cycle path.
    CycleDetected(Vec<String>),
    /// The target of a state update names no task.
    TaskNotFound(String),
}

/// A cycle path joined with " -> ".
pub open spec fn join_arrow_spec(p: Seq<Seq<char>>) -> Seq<char>
    decreases p.len(),
{
    if p.len() == 0 {
        Seq::empty()
    } else if p.len() == 1 {
        p[0]
    } else {
        p[0] + " -> "@ + join_arrow_spec(p.drop_first())
    }
}

/// The human-readable message of each error.
pub open spec fn message_spec(e: BacklogError) -> Seq<char> {
    match e {
        BacklogError::EmptyInput => "Empty response from LLM"@,
        BacklogError::ParseError(d) => "Failed to parse YAML: "@ + d@,
        BacklogError::DanglingDependency { task_id, missing } => "Task "@ + task_id@
            + " depends on non-existent task "@ + missing@,
        BacklogError::CycleDetected(p) => "Dependency cycle detected: "@ + join_arrow_spec(
            p.deep_view(),
        ),
        BacklogError::TaskNotFound(id) => "Task with ID '"@ + id@ + "' not found in the backlog."@,
    }
}

fn join_arrow(p: &Vec<String>) -> (r: String)
    ensures
        r@ == join_arrow_spec(p.deep_view()),
{
    let ghost pv = p.deep_view();
    let mut r = String::new();
    if p.len() == 0 {
        return r;
    }
    let mut i: usize = 0;
    proof {
        assert(pv.subrange(0, pv.len() as int) =~= pv);
        assert(r@ + join_arrow_spec(pv) =~= join_arrow_spec(pv));
    }
    while i < p.len() - 1
        invariant
            p@.len() > 0,
            pv == p.deep_view(),
            i < pv.len(),
            join_arrow_spec(pv) == r@ + join_arrow_spec(pv.subrange(i as int, pv.len() as int)),
        decreases p@.len() - i,
    {
        let ghost before = r@;
        r.append(p[i].as_str());
        r.append(" -> ");
        i += 1;
        proof {
            let suffix = pv.subrange(i - 1, pv.len() as int);
            assert(suffix.drop_first() =~= pv.subrange(i as int, pv.len() as int));
            assert(suffix[0] == pv[i - 1]);
            assert(r@ =~= before + pv[i - 1] + " -> "@);
            assert(join_arrow_spec(pv) =~= r@ + join_arrow_spec(
                pv.subrange(i as int, pv.len() as int),
            ));
        }
    }
    r.append(p[i].as_str());
    proof {
        let suffix = pv.subrange(i as int, pv.len() as int);
        assert(suffix.len() == 1);
        assert(suffix[0] == pv[i as int]);
        assert(r@ =~= join_arrow_spec(pv));
    }
    r
}

impl BacklogError {
    /// The message a user sees for this error.
    pub fn message(&self) -> (r: String)
        ensures
            r@ == message_spec(*self),
    {
        match self {
            BacklogError::EmptyInput => {
                let mut m = String::new();
                m.append("Empty response from LLM");
                assert(m@ =~= message_spec(*self));
                m
            },
            BacklogError::ParseError(d) => {
                let mut m = String::new();
                m.append("Failed to parse YAML: ");
                m.append(d.as_str());
                assert(m@ =~= message_spec(*self));
                m
            },
            BacklogError::DanglingDependency { task_id, missing } => {
                let mut m = String::new();
                m.append("Task ");
                m.append(task_id.as_str());
                m.append(" depends on non-existent task ");
                m.append(missing.as_str());
                assert(m@ =~= message_spec(*self));
                m
            },
            BacklogError::CycleDetected(p) => {
                let mut m = String::new();
                m.append("Dependency cycle detected: ");
                let joined = join_arrow(p);
                m.append(joined.as_str());
                assert(m@ =~= message_spec(*self));
                m
            },
            BacklogError::TaskNotFound(id) => {
                let mut m = String::new();
                m.append("Task with ID '");
                m.append(id.as_str());
                m.append("' not found in the backlog.");
                assert(m@ =~= message_spec(*self));
                m
            },
        }
    }
}

impl Backlog {
    /// All tasks of the backlog: the top-level ones, then the epics' ones,
    /// epic by epic, in order.
    pub fn all_tasks(&self) -> (r: Vec<&Task>)
        ensures
            r.deep_view() == eff_tasks(self@),
    {
        let mut r: Vec<&Task> = Vec::new();
        let mut i: usize = 0;
        while i < self.tasks.len()
            invariant
                i <= self.tasks@.len(),
                r@.len() == i,
                r.deep_view() == self.tasks.deep_view().take(i as int),
            decreases self.tasks@.len() - i,
        {
            r.push(&self.tasks[i]);
            i += 1;
            assert(r.deep_view() =~= self.tasks.deep_view().take(i as int));
        }
        assert(self.tasks.deep_view().take(self.tasks@.len() as int) =~= self.tasks.deep_view());
        let mut k: usize = 0;
        proof {
            assert(self.epics.deep_view().take(0) =~= Seq::<EpicV>::empty());
            assert(r.deep_view() =~= self.tasks.deep_view() + epics_tasks(
                self.epics.deep_view().take(0),
            ));
        }
        while k < self.epics.len()
            invariant
                k <= self.epics@.len(),
                r@.len() == r.deep_view().len(),
                r.deep_view() == self.tasks.deep_view() + epics_tasks(
                    self.epics.deep_view().take(k as int),
                ),
            decreases self.epics@.len() - k,
        {
            let ghost base = r.deep_view();
            let ghost baselen = r@.len();
            let epic = &self.epics[k];
            let mut j: usize = 0;
            while j < epic.tasks.len()
                invariant
                    j <= epic.tasks@.len(),
                    epic == &self.epics@[k as int],
                    k < self.epics@.len(),
                    baselen == base.len(),
                    r@.len() == baselen + j,
                    forall|m: int| 0 <= m < baselen ==> #[trigger] r.deep_view()[m] == base[m],
                    forall|m: int|
                        baselen <= m < baselen + j ==> #[trigger] r.deep_view()[m] == epic
                            .tasks
                            .deep_view()[m - baselen],
                decreases epic.tasks@.len() - j,
            {
                let ghost prev = r@;
                let ghost prevdv = r.deep_view();
                r.push(&epic.tasks[j]);
                j += 1;
                proof {
                    assert forall|m: int| 0 <= m < baselen implies r.deep_view()[m] == base[m] by {
                        assert(r@[m] == prev[m]);
                        assert(prevdv[m] == base[m]);
                    }
                    assert forall|m: int|
                        baselen <= m < baselen + j implies r.deep_view()[m] == epic
                        .tasks
                        .deep_view()[m - baselen] by {
                        if m < baselen + j - 1 {
                            assert(r@[m] == prev[m]);
                            assert(prevdv[m] == epic.tasks.deep_view()[m - baselen]);
                        } else {
                            assert(r@[m].deep_view() == epic.tasks@[j - 1].deep_view());
                        }
                    }
                }
            }
            k += 1;
            proof {
                lemma_epics_tasks_take(self.epics.deep_view(), k - 1);
                assert(r.deep_view().len() == r@.len());
                assert(epic.tasks.deep_view().len() == epic.tasks@.len());
                assert(r.deep_view() =~= base + epic.tasks.deep_view());
                assert(r.deep_view() =~= self.tasks.deep_view() + epics_tasks(
                    self.epics.deep_view().take(k as int),
                ));
            }
        }
        proof {
            assert(self.epics.deep_view().take(self.epics@.len() as int) =~= self
                .epics
                .deep_view());
        }
        r
    }

    /// Marks the task with the given id as done, and nothing else; reports
    /// TaskNotFound and leaves the backlog unchanged when no task has the id.
    pub fn mark_task_done(&mut self, task_id: &str) -> (r: Result<(), BacklogError>)
        ensures
            match r {
                Ok(()) => mark_done_spec(old(self)@, task_id@) == Some(final (self)@),
                Err(e) => {
                    &&& final (self)@ == old(self)@
                    &&& mark_done_spec(old(self)@, task_id@) is None
                    &&& e matches BacklogError::TaskNotFound(m) && m@ == task_id@
                },
            },
    {
        let mut i: usize = 0;
        while i < self.tasks.len()
            invariant
                *self == *old(self),
                i <= self.tasks@.len(),
                forall|j: int| 0 <= j < i ==> self.tasks.deep_view()[j].id != task_id@,
            decreases self.tasks@.len() - i,
        {
            if str_eq(self.tasks[i].id.as_str(), task_id) {
                proof {
                    assert(is_first_task_ix(self@.tasks, task_id@, i as int));
                    lemma_find_task_ix_some(self@.tasks, task_id@, i as int);
                }
                let mut t = self.tasks.remove(i);
                t.state = TaskState::Done;
                self.tasks.insert(i, t);
                proof {
                    let oldv = old(self)@.tasks;
                    let target = oldv.update(i as int, set_done(oldv[i as int]));
                    assert(t@ == set_done(oldv[i as int]));
                    assert(self.tasks@.len() == old(self).tasks@.len());
                    assert forall|m: int| 0 <= m < self.tasks@.len() implies self
                        .tasks
                        .deep_view()[m] == target[m] by {
                        if m < i as int {
                            assert(self.tasks@[m] == old(self).tasks@[m]);
                        } else if m == i as int {
                            assert(self.tasks@[m] == t);
                        } else {
                            assert(self.tasks@[m] == old(self).tasks@[m]);
                        }
                    }
                    assert(self.tasks.deep_view() =~= target);
                    assert(self@ == BacklogV { tasks: target, ..old(self)@ });
                }
                return Ok(());
            }
            i += 1;
        }
        proof {
            lemma_find_task_ix(old(self)@.tasks, task_id@);
            if find_task_ix(old(self)@.tasks, task_id@) is Some {
                assert(id_present(old(self)@.tasks, task_id@));
                let w = choose|w: int| task_ix_in(old(self)@.tasks, task_id@, w);
                assert(old(self)@.tasks[w].id != task_id@);
            }
        }
        let mut k: usize = 0;
        while k < self.epics.len()
            invariant
                *self == *old(self),
                k <= self.epics@.len(),
                find_task_ix(old(self)@.tasks, task_id@) is None,
                forall|j: int|
                    0 <= j < k ==> !id_present(#[trigger] self.epics.deep_view()[j].tasks, task_id@),
            decreases self.epics@.len() - k,
        {
            let nk = self.epics[k].tasks.len();
            let mut j: usize = 0;
            while j < nk
                invariant
                    *self == *old(self),
                    k < self.epics@.len(),
                    nk == self.epics.deep_view()[k as int].tasks.len(),
                    j <= nk,
                    find_task_ix(old(self)@.tasks, task_id@) is None,
                    forall|x: int|
                        0 <= x < k ==> !id_present(
                            #[trigger] self.epics.deep_view()[x].tasks,
                            task_id@,
                        ),
                    forall|x: int|
                        0 <= x < j ==> self.epics.deep_view()[k as int].tasks[x].id != task_id@,
                decreases nk - j,
            {
                if str_eq(self.epics[k].tasks[j].id.as_str(), task_id) {
                    proof {
                        let oldb = old(self)@;
                        let ev = oldb.epics[k as int];
                        assert(ev.tasks == self.epics.deep_view()[k as int].tasks);
                        assert(ev.tasks[j as int].id == task_id@);
                        assert(task_ix_in(ev.tasks, task_id@, j as int));
                        assert(is_first_task_ix(ev.tasks, task_id@, j as int));
                        lemma_find_task_ix_some(ev.tasks, task_id@, j as int);
                        assert(id_present(ev.tasks, task_id@));
                        assert(is_first_epic_with(oldb.epics, task_id@, k as int));
                    }
                    let mut e = self.epics.remove(k);
                    let mut t = e.tasks.remove(j);
                    t.state = TaskState::Done;
                    e.tasks.insert(j, t);
                    self.epics.insert(k, e);
                    proof {
                        let oldb = old(self)@;
                        let ev = oldb.epics[k as int];
                        let etarget = ev.tasks.update(j as int, set_done(ev.tasks[j as int]));
                        let kk = choose|kk: int| is_first_epic_with(oldb.epics, task_id@, kk);
                        assert(kk == k as int) by {
                            if kk < k as int {
                                assert(!id_present(oldb.epics[kk].tasks, task_id@));
                            }
                            if kk > k as int {
                                assert(!id_present(oldb.epics[k as int].tasks, task_id@));
                            }
                        }
                        assert(t@ == set_done(ev.tasks[j as int]));
                        assert(e.tasks@.len() == old(self).epics@[k as int].tasks@.len());
                        assert forall|m: int| 0 <= m < e.tasks@.len() implies e
                            .tasks
                            .deep_view()[m] == etarget[m] by {
                            if m < j as int {
                                assert(e.tasks@[m] == old(self).epics@[k as int].tasks@[m]);
                            } else if m == j as int {
                                assert(e.tasks@[m] == t);
                            } else {
                                assert(e.tasks@[m] == old(self).epics@[k as int].tasks@[m]);
                            }
                        }
                        assert(e.tasks.deep_view() =~= etarget);
                        assert(e@ == EpicV { tasks: etarget, ..ev });
                        assert(self.epics@.len() == old(self).epics@.len());
                        assert forall|m: int| 0 <= m < self.epics@.len() implies self
                            .epics
                            .deep_view()[m] == oldb.epics.update(k as int, e@)[m] by {
                            if m < k as int {
                                assert(self.epics@[m] == old(self).epics@[m]);
                            } else if m == k as int {
                                assert(self.epics@[m] == e);
                            } else {
                                assert(self.epics@[m] == old(self).epics@[m]);
                            }
                        }
                        assert(self.epics.deep_view() =~= oldb.epics.update(k as int, e@));
                        assert(self@ == BacklogV {
                            epics: oldb.epics.update(k as int, EpicV { tasks: etarget, ..ev }),
                            ..oldb
                        });
                    }
                    return Ok(());
                }
                j += 1;
            }
            k += 1;
            proof {
                assert(!id_present(self.epics.deep_view()[k - 1].tasks, task_id@)) by {
                    if id_present(self.epics.deep_view()[k - 1].tasks, task_id@) {
                        let w = choose|w: int|
                            #[trigger] task_ix_in(self.epics.deep_view()[k - 1].tasks, task_id@, w);
                        assert(self.epics.deep_view()[k - 1].tasks[w].id != task_id@);
                    }
                }
            }
        }
        proof {
            if exists|kk: int| is_first_epic_with(old(self)@.epics, task_id@, kk) {
                let kk = choose|kk: int| is_first_epic_with(old(self)@.epics, task_id@, kk);
                assert(!id_present(old(self)@.epics[kk].tasks, task_id@));
            }
        }
        let mut owned = String::new();
        owned.append(task_id);
        Err(BacklogError::TaskNotFound(owned))
    }
}

} // verus!
