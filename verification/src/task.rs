use vstd::prelude::*;

verus! {

/// Whether a task is still open or finished.
#[derive(Clone, Copy, Debug, PartialEq, Eq, Structural)]
pub enum Status {
    Todo,
    Done,
}

/// A single task. `parent_id` names the task it belongs under, if any.
#[derive(Debug, Clone)]
pub struct Task {
    pub id: u16,
    pub parent_id: Option<u16>,
    pub name: String,
    pub status: Status,
}

/// The mathematical value of a task: its name taken as a sequence of characters.
pub struct TaskView {
    pub id: u16,
    pub parent_id: Option<u16>,
    pub name: Seq<char>,
    pub status: Status,
}

impl View for Task {
    type V = TaskView;

    open spec fn view(&self) -> TaskView {
        TaskView { id: self.id, parent_id: self.parent_id, name: self.name@, status: self.status }
    }
}

/// A change to apply to the task `id`: each field that is `Some` replaces the task's own.
/// `parent_id: Some(None)` detaches the task from its parent.
pub struct TaskPatch {
    pub id: u16,
    pub parent_id: Option<Option<u16>>,
    pub name: Option<String>,
    pub status: Option<Status>,
}

pub struct TaskPatchView {
    pub id: u16,
    pub parent_id: Option<Option<u16>>,
    pub name: Option<Seq<char>>,
    pub status: Option<Status>,
}

impl View for TaskPatch {
    type V = TaskPatchView;

    open spec fn view(&self) -> TaskPatchView {
        TaskPatchView {
            id: self.id,
            parent_id: self.parent_id,
            name: match self.name {
                Some(n) => Some(n@),
                None => None,
            },
            status: self.status,
        }
    }
}

impl Default for TaskPatch {
    fn default() -> (p: TaskPatch)
        ensures
            p.id == 0,
            p.parent_id is None,
            p.name is None,
            p.status is None,
    {
        TaskPatch { id: 0, parent_id: None, name: None, status: None }
    }
}

impl TaskPatch {
    /// A patch for the task `id` that changes nothing yet.
    pub fn new(id: u16) -> (p: TaskPatch)
        ensures
            p@ == (TaskPatchView { id, parent_id: None, name: None, status: None }),
    {
        TaskPatch { id, parent_id: None, name: None, status: None }
    }

    /// The same patch, now also setting the status.
    pub fn status(self, status: Status) -> (p: TaskPatch)
        ensures
            p@ == (TaskPatchView { status: Some(status), ..self@ }),
    {
        TaskPatch { status: Some(status), ..self }
    }
}

/// What a patch makes of a task.
pub open spec fn patched(t: TaskView, p: TaskPatchView) -> TaskView {
    TaskView {
        id: t.id,
        parent_id: match p.parent_id {
            Some(parent) => parent,
            None => t.parent_id,
        },
        name: match p.name {
            Some(n) => n,
            None => t.name,
        },
        status: match p.status {
            Some(s) => s,
            None => t.status,
        },
    }
}

} // verus!
