//! What each command of the command line does to the list, and what it asks to be
//! written and printed. Reading and writing the file and printing are left to the caller.
use vstd::prelude::*;

use crate::list::{
    List, ListError, ListView, list_error_text, has_id, index_of, parent_known, spec_add, spec_modify, spec_remove,
    lemma_modify_then_get,
};
use crate::markdown::{MdParse, md_text, parse_md};
use crate::task::{Status, TaskPatch, TaskPatchView, TaskView};

verus! {

/// A command given on the command line.
pub enum Command {
    /// Adds a task, under `parent` if given.
    Add { name: String, parent: Option<u16> },
    /// Removes a task.
    Remove { id: u16 },
    /// Renames a task, moves it under another parent, or detaches it from its parent.
    Modify { id: u16, name: Option<String>, parent: Option<u16>, remove_parent: bool },
    /// Marks the task as done.
    Done { id: u16 },
    /// Shows the list.
    List,
}

pub enum CommandView {
    Add { name: Seq<char>, parent: Option<u16> },
    Remove { id: u16 },
    Modify { id: u16, name: Option<Seq<char>>, parent: Option<u16>, remove_parent: bool },
    Done { id: u16 },
    List,
}

impl View for Command {
    type V = CommandView;

    open spec fn view(&self) -> CommandView {
        match self {
            Command::Add { name, parent } => CommandView::Add { name: name@, parent: *parent },
            Command::Remove { id } => CommandView::Remove { id: *id },
            Command::Modify { id, name, parent, remove_parent } => CommandView::Modify {
                id: *id,
                name: match name {
                    Some(n) => Some(n@),
                    None => None,
                },
                parent: *parent,
                remove_parent: *remove_parent,
            },
            Command::Done { id } => CommandView::Done { id: *id },
            Command::List => CommandView::List,
        }
    }
}

/// Why a run of the program fails.
#[derive(Clone, Copy, Debug, PartialEq, Eq, Structural)]
pub enum CliError {
    /// There is no task file to read.
    MissingFile,
    /// The task file could not be read as a task list.
    Parse,
    /// The list refused the command.
    List(ListError),
}

/// The text that a run error is reported with.
pub open spec fn cli_error_text(e: CliError) -> Seq<char> {
    match e {
        CliError::MissingFile => "TSK.md does not exist in current directory."@,
        CliError::Parse => "Parsing of file failed!"@,
        CliError::List(l) => list_error_text(l),
    }
}

impl CliError {
    /// The text this error is reported with.
    pub fn message(&self) -> (s: String)
        ensures
            s@ == cli_error_text(*self),
    {
        match self {
            CliError::MissingFile => String::from_str("TSK.md does not exist in current directory."),
            CliError::Parse => String::from_str("Parsing of file failed!"),
            CliError::List(l) => l.message(),
        }
    }
}

/// What the caller is to do after a command.
pub enum Plan {
    /// Open the interactive screen.
    Tui,
    /// Print this text.
    Print(String),
    /// Write `markdown` to the task file, then print `message` if there is one.
    Save { markdown: String, message: Option<String> },
}

pub enum PlanView {
    Tui,
    Print(Seq<char>),
    Save { markdown: Seq<char>, message: Option<Seq<char>> },
}

impl View for Plan {
    type V = PlanView;

    open spec fn view(&self) -> PlanView {
        match self {
            Plan::Tui => PlanView::Tui,
            Plan::Print(s) => PlanView::Print(s@),
            Plan::Save { markdown, message } => PlanView::Save {
                markdown: markdown@,
                message: match message {
                    Some(m) => Some(m@),
                    None => None,
                },
            },
        }
    }
}

/// `'name'` between the given words: the messages printed after a change.
pub open spec fn quoted(prefix: Seq<char>, name: Seq<char>) -> Seq<char> {
    prefix + name + seq!['\'']
}

/// The patch that `modify` makes: `remove_parent` wins over `parent`.
pub open spec fn modify_patch(
    id: u16,
    name: Option<Seq<char>>,
    parent: Option<u16>,
    remove_parent: bool,
) -> TaskPatchView {
    TaskPatchView {
        id,
        parent_id: if remove_parent {
            Some(None)
        } else {
            match parent {
                Some(p) => Some(Some(p)),
                None => None,
            }
        },
        name,
        status: None,
    }
}

/// The patch that `done` makes.
pub open spec fn done_patch(id: u16) -> TaskPatchView {
    TaskPatchView { id, parent_id: None, name: None, status: Some(Status::Done) }
}

/// The name of the first task with the id `id`.
pub open spec fn name_of(l: ListView, id: u16) -> Seq<char> {
    l.tasks[index_of(l.tasks, id)].name
}

/// What a command does to a list: the new list and the plan, or the error.
pub open spec fn command_outcome(c: CommandView, l: ListView) -> Result<(ListView, PlanView), CliError> {
    match c {
        CommandView::Add { name, parent } => if parent_known(l.tasks, parent) {
            let nl = spec_add(l, name, parent);
            Ok((nl, PlanView::Save { markdown: md_text(nl.tasks), message: None }))
        } else {
            Err(CliError::List(ListError::ParentNotFound(parent->0)))
        },
        CommandView::Remove { id } => if has_id(l.tasks, id) {
            let nl = spec_remove(l, id);
            Ok(
                (
                    nl,
                    PlanView::Save {
                        markdown: md_text(nl.tasks),
                        message: Some(quoted("Removed task '"@, name_of(l, id))),
                    },
                ),
            )
        } else {
            Err(CliError::List(ListError::TaskNotFound(id)))
        },
        CommandView::Modify { id, name, parent, remove_parent } => if has_id(l.tasks, id) {
            let nl = spec_modify(l, modify_patch(id, name, parent, remove_parent));
            Ok(
                (
                    nl,
                    PlanView::Save {
                        markdown: md_text(nl.tasks),
                        message: Some(quoted("Modified task '"@, name_of(nl, id))),
                    },
                ),
            )
        } else {
            Err(CliError::List(ListError::TaskNotFound(id)))
        },
        CommandView::Done { id } => if has_id(l.tasks, id) {
            let nl = spec_modify(l, done_patch(id));
            Ok(
                (
                    nl,
                    PlanView::Save {
                        markdown: md_text(nl.tasks),
                        message: Some(quoted("Set task as done: '"@, name_of(nl, id))),
                    },
                ),
            )
        } else {
            Err(CliError::List(ListError::TaskNotFound(id)))
        },
        CommandView::List => Ok((l, PlanView::Print(md_text(l.tasks)))),
    }
}

/// A command that the list can carry out without running out of ids.
pub open spec fn command_fits(c: CommandView, l: ListView) -> bool {
    match c {
        CommandView::Add { parent, .. } => parent_known(l.tasks, parent) ==> l.next_id < u16::MAX,
        _ => true,
    }
}

fn quote(prefix: &str, name: &str) -> (s: String)
    ensures
        s@ == quoted(prefix@, name@),
{
    proof {
        reveal_strlit("'");
    }
    let mut s = String::new();
    s.append(prefix);
    s.append(name);
    s.append("'");
    assert(s@ =~= quoted(prefix@, name@));
    s
}

/// Carries out `command` on `list` and says what to write and print.
pub fn run_cli(command: &Command, list: &mut List) -> (r: Result<Plan, CliError>)
    requires
        command_fits(command@, old(list)@),
    ensures
        match command_outcome(command@, old(list)@) {
            Ok((nl, plan)) => r matches Ok(p) && p@ == plan && final(list)@ == nl,
            Err(e) => r == Err::<Plan, CliError>(e) && final(list)@ == old(list)@,
        },
{
    proof {
        reveal_strlit("Removed task '");
        reveal_strlit("Modified task '");
        reveal_strlit("Set task as done: '");
    }
    match command {
        Command::Add { name, parent } => {
            match list.add_task(name.as_str(), *parent) {
                Err(e) => Err(CliError::List(e)),
                Ok(()) => Ok(Plan::Save { markdown: list.save_to_md(), message: None }),
            }
        },
        Command::Remove { id } => {
            let name = match list.get_task(*id) {
                Err(e) => {
                    return Err(CliError::List(e));
                },
                Ok(task) => task.name.clone(),
            };
            match list.remove_task(*id) {
                Err(e) => Err(CliError::List(e)),
                Ok(()) => {
                    let markdown = list.save_to_md();
                    Ok(
                        Plan::Save {
                            markdown,
                            message: Some(quote("Removed task '", name.as_str())),
                        },
                    )
                },
            }
        },
        Command::Modify { id, name, parent, remove_parent } => {
            let parent_id = if *remove_parent {
                Some(None)
            } else {
                match parent {
                    Some(p) => Some(Some(*p)),
                    None => None,
                }
            };
            let new_name = match name {
                Some(n) => Some(n.clone()),
                None => None,
            };
            let patch = TaskPatch { id: *id, parent_id, name: new_name, status: None };
            let ghost pv = patch@;
            assert(pv == modify_patch(*id, command@->Modify_name, *parent, *remove_parent));
            match list.modify_task(patch) {
                Err(e) => Err(CliError::List(e)),
                Ok(()) => {
                    let markdown = list.save_to_md();
                    proof {
                        lemma_modify_then_get(old(list)@, pv);
                    }
                    match list.get_task(*id) {
                        Err(e) => Err(CliError::List(e)),
                        Ok(task) => Ok(
                            Plan::Save {
                                markdown,
                                message: Some(quote("Modified task '", task.name.as_str())),
                            },
                        ),
                    }
                },
            }
        },
        Command::Done { id } => {
            let patch = TaskPatch { id: *id, parent_id: None, name: None, status: Some(Status::Done) };
            assert(patch@ == done_patch(*id));
            match list.modify_task(patch) {
                Err(e) => Err(CliError::List(e)),
                Ok(()) => {
                    let markdown = list.save_to_md();
                    proof {
                        lemma_modify_then_get(old(list)@, done_patch(*id));
                    }
                    match list.get_task(*id) {
                        Err(e) => Err(CliError::List(e)),
                        Ok(task) => Ok(
                            Plan::Save {
                                markdown,
                                message: Some(quote("Set task as done: '", task.name.as_str())),
                            },
                        ),
                    }
                },
            }
        },
        Command::List => Ok(Plan::Print(list.save_to_md())),
    }
}


/// Reads the list from the text of the task file; `None` stands for a missing file.
pub fn read_list_from_md(file: Option<&str>) -> (r: Result<List, CliError>)
    requires
        file matches Some(t) ==> !(parse_md(t@) is IdTooLarge),
    ensures
        file is None ==> r == Err::<List, CliError>(CliError::MissingFile),
        file matches Some(t) ==> {
            &&& r is Ok <==> parse_md(t@) is Tasks
            &&& r matches Ok(l) ==> parse_md(t@) == MdParse::Tasks(l@.tasks) && l@.next_id == 1
            &&& r is Err ==> r == Err::<List, CliError>(CliError::Parse)
        },
{
    match file {
        None => Err(CliError::MissingFile),
        Some(text) => match List::parse_from_md(text) {
            Ok(l) => Ok(l),
            Err(_) => Err(CliError::Parse),
        },
    }
}

/// What a run of the program comes to: the screen without a command; otherwise the
/// outcome of the command on the list read from the file.
pub open spec fn run_outcome(command: Option<CommandView>, file: Option<Seq<char>>) -> Result<
    PlanView,
    CliError,
> {
    match command {
        None => Ok(PlanView::Tui),
        Some(c) => match file {
            None => Err(CliError::MissingFile),
            Some(t) => match parse_md(t) {
                MdParse::Tasks(ts) => match command_outcome(c, ListView { tasks: ts, next_id: 1 }) {
                    Ok((_, plan)) => Ok(plan),
                    Err(e) => Err(e),
                },
                _ => Err(CliError::Parse),
            },
        },
    }
}

pub open spec fn command_view(command: Option<Command>) -> Option<CommandView> {
    match command {
        Some(c) => Some(c@),
        None => None,
    }
}

pub open spec fn file_view(file: Option<&str>) -> Option<Seq<char>> {
    match file {
        Some(t) => Some(t@),
        None => None,
    }
}

/// Runs the program on a parsed command line: without a command it asks for the
/// interactive screen; with one, it reads the list from `file` (the text of the task
/// file, if it exists) and carries the command out.
pub fn run(command: Option<Command>, file: Option<&str>) -> (r: Result<Plan, CliError>)
    requires
        command is Some ==> (file matches Some(t) ==> !(parse_md(t@) is IdTooLarge)),
    ensures
        match run_outcome(command_view(command), file_view(file)) {
            Ok(plan) => r matches Ok(p) && p@ == plan,
            Err(e) => r == Err::<Plan, CliError>(e),
        },
{
    match command {
        None => Ok(Plan::Tui),
        Some(c) => {
            let mut list = read_list_from_md(file)?;
            run_cli(&c, &mut list)
        },
    }
}


/// `modify` on a task that exists changes only the first task with that id: its name
/// when a new one is given, its parent when one is given, no parent at all only when
/// asked to remove it, and nothing else; the id and status stay. It saves the changed
/// list and reports the task by its new name.
pub proof fn lemma_modify_command(
    l: ListView,
    id: u16,
    name: Option<Seq<char>>,
    parent: Option<u16>,
    remove_parent: bool,
    i: int,
)
    requires
        0 <= i < l.tasks.len(),
        l.tasks[i].id == id,
        forall|j: int| 0 <= j < i ==> l.tasks[j].id != id,
    ensures
        command_outcome(CommandView::Modify { id, name, parent, remove_parent }, l) matches Ok(
            (nl, plan),
        ) && {
            &&& nl.tasks.len() == l.tasks.len()
            &&& nl.next_id == l.next_id
            &&& forall|j: int| 0 <= j < l.tasks.len() && j != i ==> nl.tasks[j] == l.tasks[j]
            &&& nl.tasks[i].id == id
            &&& nl.tasks[i].status == l.tasks[i].status
            &&& nl.tasks[i].name == (match name {
                Some(n) => n,
                None => l.tasks[i].name,
            })
            &&& nl.tasks[i].parent_id == (if remove_parent {
                None
            } else {
                match parent {
                    Some(p) => Some(p),
                    None => l.tasks[i].parent_id,
                }
            })
            &&& plan == PlanView::Save {
                markdown: md_text(nl.tasks),
                message: Some("Modified task '"@ + nl.tasks[i].name + seq!['\'']),
            }
        },
{
    let p = modify_patch(id, name, parent, remove_parent);
    crate::list::lemma_modify_changes_one_task(l, p, i);
    crate::list::lemma_first_index_unique(l.tasks, id, i);
    crate::list::lemma_modify_then_get(l, p);
}

/// `done` on a task that exists marks the first task with that id as done and changes
/// nothing else: its id, name and parent stay, and so do all other tasks. It saves
/// the changed list and reports the task by name.
pub proof fn lemma_done_command(l: ListView, id: u16, i: int)
    requires
        0 <= i < l.tasks.len(),
        l.tasks[i].id == id,
        forall|j: int| 0 <= j < i ==> l.tasks[j].id != id,
    ensures
        command_outcome(CommandView::Done { id }, l) matches Ok((nl, plan)) && {
            &&& nl.tasks.len() == l.tasks.len()
            &&& nl.next_id == l.next_id
            &&& forall|j: int| 0 <= j < l.tasks.len() && j != i ==> nl.tasks[j] == l.tasks[j]
            &&& nl.tasks[i].id == l.tasks[i].id
            &&& nl.tasks[i].name == l.tasks[i].name
            &&& nl.tasks[i].parent_id == l.tasks[i].parent_id
            &&& nl.tasks[i].status == Status::Done
            &&& plan == PlanView::Save {
                markdown: md_text(nl.tasks),
                message: Some("Set task as done: '"@ + l.tasks[i].name + seq!['\'']),
            }
        },
{
    let p = done_patch(id);
    crate::list::lemma_modify_changes_one_task(l, p, i);
    crate::list::lemma_first_index_unique(l.tasks, id, i);
    crate::list::lemma_modify_then_get(l, p);
}

/// `remove` on a task that exists takes out the first task with that id, keeps the
/// others in order, saves, and reports the removed task by name.
pub proof fn lemma_remove_command(l: ListView, id: u16, i: int)
    requires
        0 <= i < l.tasks.len(),
        l.tasks[i].id == id,
        forall|j: int| 0 <= j < i ==> l.tasks[j].id != id,
    ensures
        command_outcome(CommandView::Remove { id }, l) matches Ok((nl, plan)) && {
            &&& nl.tasks.len() == l.tasks.len() - 1
            &&& nl.next_id == l.next_id
            &&& forall|j: int| 0 <= j < i ==> nl.tasks[j] == l.tasks[j]
            &&& forall|j: int| i <= j < l.tasks.len() - 1 ==> nl.tasks[j] == l.tasks[j + 1]
            &&& plan == PlanView::Save {
                markdown: md_text(nl.tasks),
                message: Some("Removed task '"@ + l.tasks[i].name + seq!['\'']),
            }
        },
{
    crate::list::lemma_remove_keeps_order(l, id, i);
    crate::list::lemma_first_index_unique(l.tasks, id, i);
}

/// `add` succeeds exactly when no parent is given or some task carries the parent's
/// id (whatever its status); it then appends the new task, to do, with the next id,
/// and saves. Otherwise it fails with the parent id and changes nothing.
pub proof fn lemma_add_command(l: ListView, name: Seq<char>, parent: Option<u16>)
    requires
        l.next_id < u16::MAX,
    ensures
        (parent is None || exists|j: int| 0 <= j < l.tasks.len() && l.tasks[j].id == parent->0)
            ==> (command_outcome(CommandView::Add { name, parent }, l) matches Ok((nl, plan)) && {
            &&& nl.tasks.len() == l.tasks.len() + 1
            &&& forall|j: int| 0 <= j < l.tasks.len() ==> nl.tasks[j] == l.tasks[j]
            &&& nl.tasks[l.tasks.len() as int] == (TaskView {
                id: l.next_id,
                parent_id: parent,
                name,
                status: Status::Todo,
            })
            &&& nl.next_id == l.next_id + 1
            &&& plan == PlanView::Save { markdown: md_text(nl.tasks), message: None }
        }),
        !(parent is None || exists|j: int| 0 <= j < l.tasks.len() && l.tasks[j].id == parent->0)
            ==> command_outcome(CommandView::Add { name, parent }, l) == Err::<
            (ListView, PlanView),
            CliError,
        >(CliError::List(ListError::ParentNotFound(parent->0))),
{
    crate::list::lemma_parent_rule(l.tasks, parent);
    crate::list::lemma_add_appends(l, name, parent);
}

/// A command on an id that no task carries fails with that id.
pub proof fn lemma_unknown_task(l: ListView, c: CommandView, id: u16)
    requires
        forall|j: int| 0 <= j < l.tasks.len() ==> l.tasks[j].id != id,
        (match c {
            CommandView::Remove { id: r } => r == id,
            CommandView::Done { id: r } => r == id,
            CommandView::Modify { id: r, .. } => r == id,
            _ => false,
        }),
    ensures
        command_outcome(c, l) == Err::<(ListView, PlanView), CliError>(
            CliError::List(ListError::TaskNotFound(id)),
        ),
{
}


/// `list` prints the tasks as markdown lines and changes nothing.
pub proof fn lemma_list_command(l: ListView)
    ensures
        command_outcome(CommandView::List, l) == Ok::<(ListView, PlanView), CliError>(
            (l, PlanView::Print(md_text(l.tasks))),
        ),
{
}

/// Without a command the screen opens, whatever the file; with one, a missing file is
/// an error, and so is a file that cannot be read as a task list.
pub proof fn lemma_run_outcomes(c: CommandView, t: Seq<char>)
    ensures
        run_outcome(None, Some(t)) == Ok::<PlanView, CliError>(PlanView::Tui),
        run_outcome(None, None) == Ok::<PlanView, CliError>(PlanView::Tui),
        run_outcome(Some(c), None) == Err::<PlanView, CliError>(CliError::MissingFile),
        parse_md(t) is Malformed ==> run_outcome(Some(c), Some(t)) == Err::<PlanView, CliError>(
            CliError::Parse,
        ),
{
}

} // verus!
