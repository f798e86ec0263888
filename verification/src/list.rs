use vstd::prelude::*;

use crate::task::{Status, Task, TaskPatch, TaskView, TaskPatchView, patched};
use crate::text::{decimal, push_decimal};

verus! {

/// Why an operation on the list was refused.
#[derive(Clone, Copy, Debug, PartialEq, Eq, Structural)]
pub enum ListError {
    /// `add_task` was given a parent id that no task has.
    ParentNotFound(u16),
    /// No task has the id that was asked for.
    TaskNotFound(u16),
}

/// The text that a list error is reported with.
pub open spec fn list_error_text(e: ListError) -> Seq<char> {
    match e {
        ListError::ParentNotFound(p) => "Parent ID "@ + decimal(p as nat) + " not found"@,
        ListError::TaskNotFound(id) => "Task ID "@ + decimal(id as nat) + " doesn't exist."@,
    }
}

impl ListError {
    /// The text this error is reported with.
    pub fn message(&self) -> (s: String)
        ensures
            s@ == list_error_text(*self),
    {
        let mut s = String::new();
        match self {
            ListError::ParentNotFound(p) => {
                s.append("Parent ID ");
                push_decimal(&mut s, *p);
                s.append(" not found");
            },
            ListError::TaskNotFound(id) => {
                s.append("Task ID ");
                push_decimal(&mut s, *id);
                s.append(" doesn't exist.");
            },
        }
        assert(s@ =~= list_error_text(*self));
        s
    }
}

/// The whole task list contained in the markdown file.
///
/// Ids are handed out from `next_id`, which starts at 1; nothing keeps
/// them apart from the ids of tasks read from a file.
#[derive(Debug)]
pub struct List {
    /// All tasks, in file order.
    pub tasks: Vec<Task>,
    pub next_id: u16,
}

pub struct ListView {
    pub tasks: Seq<TaskView>,
    pub next_id: u16,
}

impl View for List {
    type V = ListView;

    open spec fn view(&self) -> ListView {
        ListView { tasks: tasks_view(self.tasks@), next_id: self.next_id }
    }
}

pub open spec fn tasks_view(tasks: Seq<Task>) -> Seq<TaskView> {
    tasks.map_values(|t: Task| t@)
}

/// Some task has the id `id`.
pub open spec fn has_id(tasks: Seq<TaskView>, id: u16) -> bool {
    exists|i: int| 0 <= i < tasks.len() && tasks[i].id == id
}

/// `i` is the position of the first task with the id `id`.
pub open spec fn is_first_with_id(tasks: Seq<TaskView>, id: u16, i: int) -> bool {
    &&& 0 <= i < tasks.len()
    &&& tasks[i].id == id
    &&& forall|j: int| 0 <= j < i ==> tasks[j].id != id
}

/// The position of the first task with the id `id` (meaningful when `has_id`).
pub open spec fn index_of(tasks: Seq<TaskView>, id: u16) -> int {
    choose|i: int| is_first_with_id(tasks, id, i)
}

/// A parent given to `add_task` is acceptable: none, or the id of some task.
pub open spec fn parent_known(tasks: Seq<TaskView>, parent_id: Option<u16>) -> bool {
    match parent_id {
        None => true,
        Some(p) => has_id(tasks, p),
    }
}

/// The list after adding a task called `name`.
pub open spec fn spec_add(l: ListView, name: Seq<char>, parent_id: Option<u16>) -> ListView {
    ListView {
        tasks: l.tasks.push(TaskView { id: l.next_id, parent_id, name, status: Status::Todo }),
        next_id: (l.next_id + 1) as u16,
    }
}

/// The list after removing the first task with the id `id`.
pub open spec fn spec_remove(l: ListView, id: u16) -> ListView {
    ListView { tasks: l.tasks.remove(index_of(l.tasks, id)), next_id: l.next_id }
}

/// The list after applying `p` to the first task with the id `p.id`.
pub open spec fn spec_modify(l: ListView, p: TaskPatchView) -> ListView {
    let i = index_of(l.tasks, p.id);
    ListView { tasks: l.tasks.update(i, patched(l.tasks[i], p)), next_id: l.next_id }
}

pub proof fn lemma_first_index_unique(tasks: Seq<TaskView>, id: u16, i: int)
    requires
        is_first_with_id(tasks, id, i),
    ensures
        index_of(tasks, id) == i,
        has_id(tasks, id),
{
    let k = index_of(tasks, id);
    assert(is_first_with_id(tasks, id, k));
    if k < i {
        assert(tasks[k].id != id);
    } else if i < k {
        assert(tasks[i].id != id);
    }
}

/// Every task that carries an id is preceded by a first one.
pub proof fn lemma_has_id_first(tasks: Seq<TaskView>, id: u16)
    requires
        has_id(tasks, id),
    ensures
        is_first_with_id(tasks, id, index_of(tasks, id)),
    decreases tasks.len(),
{
    let w = choose|i: int| 0 <= i < tasks.len() && tasks[i].id == id;
    if tasks[0].id == id {
        lemma_first_index_unique(tasks, id, 0);
    } else {
        let rest = tasks.drop_first();
        assert(rest[w - 1].id == id);
        lemma_has_id_first(rest, id);
        let k = index_of(rest, id);
        assert forall|j: int| 0 <= j < k + 1 implies tasks[j].id != id by {
            if j > 0 {
                assert(tasks[j] == rest[j - 1]);
            }
        }
        lemma_first_index_unique(tasks, id, k + 1);
    }
}

impl List {
    /// An empty list whose first task will get the id 1.
    pub fn new() -> (l: List)
        ensures
            l@.tasks == Seq::<TaskView>::empty(),
            l@.next_id == 1,
    {
        let l = List { tasks: Vec::new(), next_id: 1 };
        assert(l@.tasks =~= Seq::<TaskView>::empty());
        l
    }

    /// The position of the first task with the id `id`, if any.
    fn find_index(&self, id: u16) -> (r: Option<usize>)
        ensures
            r is None <==> !has_id(self@.tasks, id),
            r matches Some(i) ==> is_first_with_id(self@.tasks, id, i as int) && i == index_of(
                self@.tasks,
                id,
            ),
    {
        let n = self.tasks.len();
        let mut i: usize = 0;
        while i < n
            invariant
                n == self.tasks.len(),
                self@.tasks.len() == n,
                i <= n,
                forall|j: int| 0 <= j < i ==> self@.tasks[j].id != id,
            decreases n - i,
        {
            if self.tasks[i].id == id {
                proof {
                    lemma_first_index_unique(self@.tasks, id, i as int);
                }
                return Some(i);
            }
            i = i + 1;
        }
        None
    }

    /// Adds a task called `name` with the next free id, under `parent_id` if that is
    /// given. A parent that no task has is refused and leaves the list as it was.
    pub fn add_task(&mut self, name: &str, parent_id: Option<u16>) -> (r: Result<(), ListError>)
        requires
            parent_known(old(self)@.tasks, parent_id) ==> old(self).next_id < u16::MAX,
        ensures
            r is Ok <==> parent_known(old(self)@.tasks, parent_id),
            r is Ok ==> final(self)@ == spec_add(old(self)@, name@, parent_id),
            r is Err ==> final(self)@ == old(self)@ && r == Err::<(), ListError>(
                ListError::ParentNotFound(parent_id->0),
            ),
    {
        if let Some(p) = parent_id {
            if self.find_index(p).is_none() {
                return Err(ListError::ParentNotFound(p));
            }
        }
        let ghost old_tasks = self.tasks@;
        self.tasks.push(
            Task { id: self.next_id, parent_id, name: name.to_owned(), status: Status::Todo },
        );
        self.next_id = self.next_id + 1;
        assert(tasks_view(self.tasks@) =~= tasks_view(old_tasks).push(
            TaskView { id: (self.next_id - 1) as u16, parent_id, name: name@, status: Status::Todo },
        ));
        Ok(())
    }

    /// Removes the first task with the id `id`.
    pub fn remove_task(&mut self, id: u16) -> (r: Result<(), ListError>)
        ensures
            r is Ok <==> has_id(old(self)@.tasks, id),
            r is Ok ==> final(self)@ == spec_remove(old(self)@, id),
            r is Err ==> final(self)@ == old(self)@ && r == Err::<(), ListError>(
                ListError::TaskNotFound(id),
            ),
    {
        match self.find_index(id) {
            None => Err(ListError::TaskNotFound(id)),
            Some(i) => {
                let ghost old_tasks = self.tasks@;
                self.tasks.remove(i);
                assert(tasks_view(self.tasks@) =~= tasks_view(old_tasks).remove(i as int));
                Ok(())
            },
        }
    }

    /// All tasks, in order.
    pub fn list_tasks(&self) -> (r: &[Task])
        ensures
            r@ == self.tasks@,
    {
        self.tasks.as_slice()
    }

    /// Applies `patch` to the first task with the id `patch.id`.
    pub fn modify_task(&mut self, patch: TaskPatch) -> (r: Result<(), ListError>)
        ensures
            r is Ok <==> has_id(old(self)@.tasks, patch.id),
            r is Ok ==> final(self)@ == spec_modify(old(self)@, patch@),
            r is Err ==> final(self)@ == old(self)@ && r == Err::<(), ListError>(
                ListError::TaskNotFound(patch.id),
            ),
    {
        match self.find_index(patch.id) {
            None => Err(ListError::TaskNotFound(patch.id)),
            Some(i) => {
                let ghost old_tasks = self.tasks@;
                let ghost pv = patch@;
                let name = match patch.name {
                    Some(n) => n,
                    None => self.tasks[i].name.clone(),
                };
                let status = match patch.status {
                    Some(s) => s,
                    None => self.tasks[i].status,
                };
                let parent_id = match patch.parent_id {
                    Some(p) => p,
                    None => self.tasks[i].parent_id,
                };
                let task = Task { id: self.tasks[i].id, parent_id, name, status };
                assert(task@ == patched(tasks_view(old_tasks)[i as int], pv));
                self.tasks.set(i, task);
                assert(tasks_view(self.tasks@) =~= tasks_view(old_tasks).update(
                    i as int,
                    patched(tasks_view(old_tasks)[i as int], pv),
                ));
                Ok(())
            },
        }
    }

    /// The first task with the id `id`.
    pub fn get_task(&self, id: u16) -> (r: Result<&Task, ListError>)
        ensures
            r is Ok <==> has_id(self@.tasks, id),
            r matches Ok(t) ==> t@ == self@.tasks[index_of(self@.tasks, id)],
            r matches Err(e) ==> e == ListError::TaskNotFound(id),
    {
        match self.find_index(id) {
            None => Err(ListError::TaskNotFound(id)),
            Some(i) => Ok(&self.tasks[i]),
        }
    }
}


/// Reading a task back by its id after changing it gives the changed task: a patch
/// keeps the id, so the same task is still the first with that id.
pub proof fn lemma_modify_then_get(l: ListView, p: TaskPatchView)
    requires
        has_id(l.tasks, p.id),
    ensures
        has_id(spec_modify(l, p).tasks, p.id),
        index_of(spec_modify(l, p).tasks, p.id) == index_of(l.tasks, p.id),
        spec_modify(l, p).tasks[index_of(spec_modify(l, p).tasks, p.id)] == patched(
            l.tasks[index_of(l.tasks, p.id)],
            p,
        ),
{
    lemma_has_id_first(l.tasks, p.id);
    let i = index_of(l.tasks, p.id);
    let nt = spec_modify(l, p).tasks;
    assert forall|j: int| 0 <= j < i implies nt[j].id != p.id by {
        assert(nt[j] == l.tasks[j]);
    }
    lemma_first_index_unique(nt, p.id, i);
}

/// A patch that sets nothing leaves the list as it was.
pub proof fn lemma_empty_patch(l: ListView, id: u16)
    requires
        has_id(l.tasks, id),
    ensures
        spec_modify(l, TaskPatchView { id, parent_id: None, name: None, status: None }) == l,
{
    lemma_has_id_first(l.tasks, id);
    let p = TaskPatchView { id, parent_id: None, name: None, status: None };
    let i = index_of(l.tasks, id);
    assert(patched(l.tasks[i], p) == l.tasks[i]);
    assert(spec_modify(l, p).tasks =~= l.tasks);
}

/// A task just added can be read back by the id it was given, as long as no task
/// already carried that id.
pub proof fn lemma_add_then_get(l: ListView, name: Seq<char>, parent_id: Option<u16>)
    requires
        !has_id(l.tasks, l.next_id),
    ensures
        has_id(spec_add(l, name, parent_id).tasks, l.next_id),
        spec_add(l, name, parent_id).tasks[index_of(spec_add(l, name, parent_id).tasks, l.next_id)]
            == (TaskView { id: l.next_id, parent_id, name, status: Status::Todo }),
{
    let nt = spec_add(l, name, parent_id).tasks;
    let i = l.tasks.len() as int;
    assert forall|j: int| 0 <= j < i implies nt[j].id != l.next_id by {
        assert(nt[j] == l.tasks[j]);
    }
    lemma_first_index_unique(nt, l.next_id, i);
}

/// Removing the task just added, by the id it was given, gives back the tasks from
/// before, as long as no task already carried that id.
pub proof fn lemma_add_then_remove(l: ListView, name: Seq<char>, parent_id: Option<u16>)
    requires
        !has_id(l.tasks, l.next_id),
    ensures
        spec_remove(spec_add(l, name, parent_id), l.next_id).tasks == l.tasks,
{
    lemma_add_then_get(l, name, parent_id);
    let nt = spec_add(l, name, parent_id).tasks;
    lemma_has_id_first(nt, l.next_id);
    let k = index_of(nt, l.next_id);
    if k < l.tasks.len() {
        assert(nt[k] == l.tasks[k]);
        assert(has_id(l.tasks, l.next_id));
    }
    assert(nt.remove(k) =~= l.tasks);
}


/// The tasks whose parent is `parent`, in list order.
pub open spec fn with_parent(ts: Seq<TaskView>, parent: Option<u16>) -> Seq<TaskView>
    decreases ts.len(),
{
    if ts.len() == 0 {
        Seq::empty()
    } else {
        let sub = with_parent(ts.drop_last(), parent);
        if ts.last().parent_id == parent {
            sub.push(ts.last())
        } else {
            sub
        }
    }
}

fn copy_task(t: &Task) -> (r: Task)
    ensures
        r@ == t@,
{
    Task { id: t.id, parent_id: t.parent_id, name: t.name.clone(), status: t.status }
}

impl List {
    fn tasks_with_parent(&self, parent: Option<u16>) -> (r: Vec<Task>)
        ensures
            tasks_view(r@) == with_parent(self@.tasks, parent),
    {
        let mut r: Vec<Task> = Vec::new();
        let n = self.tasks.len();
        assert(self@.tasks.take(0) =~= Seq::<TaskView>::empty());
        assert(tasks_view(r@) =~= Seq::<TaskView>::empty());
        for i in 0..n
            invariant
                n == self.tasks.len(),
                tasks_view(r@) == with_parent(self@.tasks.take(i as int), parent),
        {
            let ghost before = tasks_view(r@);
            let ghost pre = self@.tasks.take(i as int);
            assert(self@.tasks.take(i + 1).drop_last() =~= pre);
            assert(self@.tasks.take(i + 1).last() == self@.tasks[i as int]);
            if self.tasks[i].parent_id == parent {
                r.push(copy_task(&self.tasks[i]));
                assert(tasks_view(r@) =~= before.push(self@.tasks[i as int]));
            }
        }
        assert(self@.tasks.take(n as int) =~= self@.tasks);
        r
    }

    /// The tasks that have no parent, in order.
    pub fn toplevel_tasks(&self) -> (r: Vec<Task>)
        ensures
            tasks_view(r@) == with_parent(self@.tasks, None),
    {
        self.tasks_with_parent(None)
    }

    /// The tasks directly under the task `id`, in order.
    pub fn tasks_of_parent(&self, id: u16) -> (r: Vec<Task>)
        ensures
            tasks_view(r@) == with_parent(self@.tasks, Some(id)),
    {
        self.tasks_with_parent(Some(id))
    }
}


/// Adding a task puts it at the end, with the next id, no change of status (to do),
/// the given parent and name, and keeps every task before it where it was.
pub proof fn lemma_add_appends(l: ListView, name: Seq<char>, parent_id: Option<u16>)
    requires
        l.next_id < u16::MAX,
    ensures
        spec_add(l, name, parent_id).tasks.len() == l.tasks.len() + 1,
        forall|j: int| 0 <= j < l.tasks.len() ==> spec_add(l, name, parent_id).tasks[j] == l.tasks[j],
        spec_add(l, name, parent_id).tasks[l.tasks.len() as int].id == l.next_id,
        spec_add(l, name, parent_id).tasks[l.tasks.len() as int].parent_id == parent_id,
        spec_add(l, name, parent_id).tasks[l.tasks.len() as int].name == name,
        spec_add(l, name, parent_id).tasks[l.tasks.len() as int].status == Status::Todo,
        spec_add(l, name, parent_id).next_id == l.next_id + 1,
{
}

/// A parent is accepted exactly when some task carries its id, whatever that task's
/// status, name or place; no parent is always accepted.
pub proof fn lemma_parent_rule(tasks: Seq<TaskView>, parent_id: Option<u16>)
    ensures
        parent_known(tasks, parent_id) <==> (parent_id is None || exists|j: int|
            0 <= j < tasks.len() && tasks[j].id == parent_id->0),
{
}

/// Removing a task takes out exactly the first task with that id: the tasks before
/// it stay where they were, the tasks after it move down by one, in the same order.
pub proof fn lemma_remove_keeps_order(l: ListView, id: u16, i: int)
    requires
        0 <= i < l.tasks.len(),
        l.tasks[i].id == id,
        forall|j: int| 0 <= j < i ==> l.tasks[j].id != id,
    ensures
        spec_remove(l, id).tasks.len() == l.tasks.len() - 1,
        forall|j: int| 0 <= j < i ==> spec_remove(l, id).tasks[j] == l.tasks[j],
        forall|j: int| i <= j < l.tasks.len() - 1 ==> spec_remove(l, id).tasks[j] == l.tasks[j + 1],
        spec_remove(l, id).next_id == l.next_id,
{
    lemma_first_index_unique(l.tasks, id, i);
}

/// Changing a task touches only the first task with the patch's id, keeps its id, and
/// sets each of its fields to the patch's value where the patch has one; every other
/// task and the next id stay as they were.
pub proof fn lemma_modify_changes_one_task(l: ListView, p: TaskPatchView, i: int)
    requires
        0 <= i < l.tasks.len(),
        l.tasks[i].id == p.id,
        forall|j: int| 0 <= j < i ==> l.tasks[j].id != p.id,
    ensures
        spec_modify(l, p).tasks.len() == l.tasks.len(),
        forall|j: int| 0 <= j < l.tasks.len() && j != i ==> spec_modify(l, p).tasks[j] == l.tasks[j],
        spec_modify(l, p).tasks[i].id == l.tasks[i].id,
        spec_modify(l, p).tasks[i].name == (match p.name {
            Some(n) => n,
            None => l.tasks[i].name,
        }),
        spec_modify(l, p).tasks[i].status == (match p.status {
            Some(st) => st,
            None => l.tasks[i].status,
        }),
        spec_modify(l, p).tasks[i].parent_id == (match p.parent_id {
            Some(parent) => parent,
            None => l.tasks[i].parent_id,
        }),
        spec_modify(l, p).next_id == l.next_id,
{
    lemma_first_index_unique(l.tasks, p.id, i);
}


/// A task is found by its id exactly when some task of the list carries that id; the
/// task found is the first one that does.
pub proof fn lemma_lookup_finds_first(tasks: Seq<TaskView>, id: u16, i: int)
    requires
        0 <= i < tasks.len(),
        tasks[i].id == id,
        forall|j: int| 0 <= j < i ==> tasks[j].id != id,
    ensures
        has_id(tasks, id),
        index_of(tasks, id) == i,
{
    lemma_first_index_unique(tasks, id, i);
}

/// No task is found by an id that no task carries.
pub proof fn lemma_lookup_misses(tasks: Seq<TaskView>, id: u16)
    requires
        forall|j: int| 0 <= j < tasks.len() ==> tasks[j].id != id,
    ensures
        !has_id(tasks, id),
{
}

/// The tasks under a parent are exactly those of the list with that parent, in list
/// order: every one of them has that parent, and every task of the list with that
/// parent is among them, with its place in the list.
pub proof fn lemma_with_parent(ts: Seq<TaskView>, parent: Option<u16>)
    ensures
        with_parent(ts, parent).len() <= ts.len(),
        forall|k: int|
            0 <= k < with_parent(ts, parent).len() ==> (#[trigger] with_parent(ts, parent)[k]).parent_id
                == parent,
        forall|j: int|
            0 <= j < ts.len() && ts[j].parent_id == parent ==> with_parent(ts, parent).contains(
                #[trigger] ts[j],
            ),
        forall|k: int|
            0 <= k < with_parent(ts, parent).len() ==> ts.contains(
                #[trigger] with_parent(ts, parent)[k],
            ),
    decreases ts.len(),
{
    if ts.len() > 0 {
        let u = ts.drop_last();
        lemma_with_parent(u, parent);
        let sub = with_parent(u, parent);
        let r = with_parent(ts, parent);
        assert forall|j: int| 0 <= j < ts.len() && ts[j].parent_id == parent implies r.contains(
            #[trigger] ts[j],
        ) by {
            if j < u.len() {
                assert(ts[j] == u[j]);
                let k = choose|k: int| 0 <= k < sub.len() && sub[k] == u[j];
                assert(r[k] == sub[k]);
            } else {
                assert(r[r.len() - 1] == ts[j]);
            }
        }
        assert forall|k: int| 0 <= k < r.len() implies ts.contains(#[trigger] r[k]) by {
            if k < sub.len() {
                assert(r[k] == sub[k]);
                let j = choose|j: int| 0 <= j < u.len() && u[j] == sub[k];
                assert(ts[j] == u[j]);
            } else {
                assert(r[k] == ts[ts.len() - 1]);
            }
        }
        assert forall|k: int| 0 <= k < r.len() implies (#[trigger] r[k]).parent_id == parent by {
            if k < sub.len() {
                assert(r[k] == sub[k]);
            }
        }
    }
}

} // verus!
