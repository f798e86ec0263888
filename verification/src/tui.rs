//! The interactive screen: columns of tasks, the left one for the parent level, the
//! middle one where the selection moves, and a preview of the selected task's
//! children on the right. Drawing and reading keys are left to the caller; this is
//! what a key press does to the screen's state and to the list.
use vstd::prelude::*;

use crate::list::{List, ListView, has_id, index_of, spec_modify, spec_remove, tasks_view, with_parent};
use crate::markdown::md_text;
use crate::task::{Status, Task, TaskPatch, TaskPatchView, TaskView};

verus! {

/// The selection of one column as the list widget keeps it: the selected row, if
/// any, and the first row shown. The widget moves the selection back onto the last
/// row when it draws a column whose selection lies past its end.
#[derive(Clone, Copy, Debug, PartialEq, Eq, Structural)]
pub struct Selection {
    pub selected: Option<usize>,
    pub offset: usize,
}

/// Selecting the row after the selected one, or the first row when none is selected.
pub open spec fn spec_select_next(s: Selection) -> Selection {
    Selection {
        selected: Some(
            match s.selected {
                None => 0,
                Some(i) => if i == usize::MAX { i } else { (i + 1) as usize },
            },
        ),
        offset: s.offset,
    }
}

/// Selecting the row before the selected one, or the last row (the largest index,
/// moved back when drawn) when none is selected.
pub open spec fn spec_select_previous(s: Selection) -> Selection {
    Selection {
        selected: Some(
            match s.selected {
                None => usize::MAX,
                Some(i) => if i == 0 { 0 } else { (i - 1) as usize },
            },
        ),
        offset: s.offset,
    }
}

impl Selection {
    /// Nothing selected, showing from the first row.
    pub fn unselected() -> (s: Selection)
        ensures
            s == (Selection { selected: None, offset: 0 }),
    {
        Selection { selected: None, offset: 0 }
    }

    pub fn select_next(&mut self)
        ensures
            *final(self) == spec_select_next(*old(self)),
    {
        let next = match self.selected {
            None => 0,
            Some(i) => i.saturating_add(1),
        };
        self.selected = Some(next);
    }

    pub fn select_previous(&mut self)
        ensures
            *final(self) == spec_select_previous(*old(self)),
    {
        let previous = match self.selected {
            None => usize::MAX,
            Some(i) => i.saturating_sub(1),
        };
        self.selected = Some(previous);
    }
}

/// One column: the ids of the tasks it shows, and its selection.
pub struct ListFrame {
    pub selection: Selection,
    pub task_ids: Vec<u16>,
}

pub struct FrameView {
    pub selection: Selection,
    pub task_ids: Seq<u16>,
}

impl View for ListFrame {
    type V = FrameView;

    open spec fn view(&self) -> FrameView {
        FrameView { selection: self.selection, task_ids: self.task_ids@ }
    }
}

/// The ids of the tasks, in order.
pub open spec fn ids(ts: Seq<TaskView>) -> Seq<u16> {
    ts.map_values(|t: TaskView| t.id)
}

/// A fresh column on the given ids, with its first row selected if `preselect`.
pub open spec fn fresh_frame(task_ids: Seq<u16>, preselect: bool) -> FrameView {
    FrameView {
        selection: Selection { selected: if preselect { Some(0) } else { None }, offset: 0 },
        task_ids,
    }
}

/// The ids of the tasks in a vector, in order.
pub fn task_vec_to_ids(vec: &Vec<Task>) -> (r: Vec<u16>)
    ensures
        r@ == ids(tasks_view(vec@)),
{
    task_slice_to_ids(vec.as_slice())
}

/// The ids of the tasks in a slice, in order.
pub fn task_slice_to_ids(slice: &[Task]) -> (r: Vec<u16>)
    ensures
        r@ == ids(tasks_view(slice@)),
{
    let mut r: Vec<u16> = Vec::new();
    for i in 0..slice.len()
        invariant
            r@ == ids(tasks_view(slice@)).take(i as int),
    {
        r.push(slice[i].id);
        assert(r@ =~= ids(tasks_view(slice@)).take(i + 1));
    }
    assert(ids(tasks_view(slice@)).take(slice@.len() as int) =~= ids(tasks_view(slice@)));
    r
}

impl ListFrame {
    pub fn new(task_ids: Vec<u16>, preselect: bool) -> (f: ListFrame)
        ensures
            f@ == fresh_frame(task_ids@, preselect),
    {
        let selection = if preselect {
            Selection { selected: Some(0), offset: 0 }
        } else {
            Selection::unselected()
        };
        ListFrame { selection, task_ids }
    }
}

/// The mark a row shows for a task's status.
pub open spec fn row_mark(s: Status) -> Seq<char> {
    match s {
        Status::Todo => " "@,
        Status::Done => "✓"@,
    }
}

/// The row that shows a task: its mark in brackets, then its name.
pub open spec fn row_text(t: TaskView) -> Seq<char> {
    "["@ + row_mark(t.status) + "] "@ + t.name
}

/// The rows a column shows: every task of the list whose id the column holds, in
/// list order.
pub open spec fn shown_rows(ts: Seq<TaskView>, task_ids: Seq<u16>) -> Seq<Seq<char>>
    decreases ts.len(),
{
    if ts.len() == 0 {
        Seq::empty()
    } else {
        let sub = shown_rows(ts.drop_last(), task_ids);
        if task_ids.contains(ts.last().id) {
            sub.push(row_text(ts.last()))
        } else {
            sub
        }
    }
}

pub open spec fn strings_view(v: Seq<String>) -> Seq<Seq<char>> {
    v.map_values(|s: String| s@)
}

fn holds_id(task_ids: &Vec<u16>, id: u16) -> (r: bool)
    ensures
        r == task_ids@.contains(id),
{
    for i in 0..task_ids.len()
        invariant
            forall|j: int| 0 <= j < i ==> task_ids@[j] != id,
    {
        if task_ids[i] == id {
            assert(task_ids@[i as int] == id);
            return true;
        }
    }
    false
}

fn row_of(t: &Task) -> (s: String)
    ensures
        s@ == row_text(t@),
{
    let mut s = String::new();
    s.append("[");
    match t.status {
        Status::Todo => s.append(" "),
        Status::Done => s.append("✓"),
    }
    s.append("] ");
    s.append(t.name.as_str());
    assert(s@ =~= row_text(t@));
    s
}

impl ListFrame {
    /// The rows this column shows of `task_list`.
    pub fn rows(&self, task_list: &List) -> (r: Vec<String>)
        ensures
            strings_view(r@) == shown_rows(task_list@.tasks, self.task_ids@),
    {
        let tasks = task_list.list_tasks();
        let ghost ts = task_list@.tasks;
        let mut r: Vec<String> = Vec::new();
        assert(ts.take(0) =~= Seq::<TaskView>::empty());
        assert(strings_view(r@) =~= Seq::<Seq<char>>::empty());
        for i in 0..tasks.len()
            invariant
                tasks@ == task_list.tasks@,
                ts == task_list@.tasks,
                strings_view(r@) == shown_rows(ts.take(i as int), self.task_ids@),
        {
            let ghost before = strings_view(r@);
            assert(ts.take(i + 1).drop_last() =~= ts.take(i as int));
            assert(ts.take(i + 1).last() == ts[i as int]);
            assert(ts[i as int] == tasks@[i as int]@);
            if holds_id(&self.task_ids, tasks[i].id) {
                r.push(row_of(&tasks[i]));
                assert(strings_view(r@) =~= before.push(row_text(ts[i as int])));
            }
        }
        assert(ts.take(tasks@.len() as int) =~= ts);
        r
    }
}

/// The state of the interactive screen.
pub struct App {
    pub exit: bool,
    pub list: List,
    /// The columns opened so far; the last one is where the selection moves.
    pub frames: Vec<ListFrame>,
    /// The children of the selected task, when it has any.
    pub preview_frame: Option<ListFrame>,
}

pub struct AppView {
    pub exit: bool,
    pub list: ListView,
    pub frames: Seq<FrameView>,
    pub preview: Option<FrameView>,
}

pub open spec fn frames_view(frames: Seq<ListFrame>) -> Seq<FrameView> {
    frames.map_values(|f: ListFrame| f@)
}

impl View for App {
    type V = AppView;

    open spec fn view(&self) -> AppView {
        AppView {
            exit: self.exit,
            list: self.list@,
            frames: frames_view(self.frames@),
            preview: match self.preview_frame {
                Some(f) => Some(f@),
                None => None,
            },
        }
    }
}

/// A key the screen reacts to.
#[derive(Clone, Copy, Debug, PartialEq, Eq, Structural)]
pub enum Key {
    Char(char),
    Other,
}

/// The task under the selection of the last column, if the selection lies on a row
/// that names a task of the list.
pub open spec fn selected_task(a: AppView) -> Option<TaskView> {
    let f = a.frames.last();
    match f.selection.selected {
        Some(i) => if i < f.task_ids.len() && has_id(a.list.tasks, f.task_ids[i as int]) {
            Some(a.list.tasks[index_of(a.list.tasks, f.task_ids[i as int])])
        } else {
            None
        },
        None => None,
    }
}

/// The preview column for the current selection: the selected task's children, when
/// it has any.
pub open spec fn preview_for(a: AppView) -> Option<FrameView> {
    match selected_task(a) {
        Some(t) => {
            let children = with_parent(a.list.tasks, Some(t.id));
            if children.len() == 0 {
                None
            } else {
                Some(fresh_frame(ids(children), false))
            }
        },
        None => None,
    }
}

pub open spec fn with_preview(a: AppView) -> AppView {
    AppView { preview: preview_for(a), ..a }
}

/// The screen as it opens on a list: one column of the top-level tasks, its first row
/// selected.
pub open spec fn spec_open(l: ListView) -> AppView {
    with_preview(
        AppView {
            exit: false,
            list: l,
            frames: seq![fresh_frame(ids(with_parent(l.tasks, None)), true)],
            preview: None,
        },
    )
}

/// Moving one level down, into the children of the selected task.
pub open spec fn spec_enter(a: AppView) -> AppView {
    match selected_task(a) {
        Some(t) => with_preview(
            AppView {
                frames: a.frames.push(fresh_frame(ids(with_parent(a.list.tasks, Some(t.id))), true)),
                ..a
            },
        ),
        None => a,
    }
}

/// Moving one level up, unless at the top level.
pub open spec fn spec_leave(a: AppView) -> AppView {
    if a.frames.len() <= 1 {
        a
    } else {
        with_preview(AppView { frames: a.frames.drop_last(), ..a })
    }
}

/// Changing the selection of the last column.
pub open spec fn spec_move(a: AppView, sel: Selection) -> AppView {
    with_preview(
        AppView {
            frames: a.frames.update(
                a.frames.len() - 1,
                FrameView { selection: sel, task_ids: a.frames.last().task_ids },
            ),
            ..a
        },
    )
}

/// The other status.
pub open spec fn flipped(s: Status) -> Status {
    match s {
        Status::Done => Status::Todo,
        Status::Todo => Status::Done,
    }
}

/// What a key press does: the new state, and the markdown to write to the task file
/// when the list changed.
pub open spec fn spec_handle_key(a: AppView, key: Key) -> (AppView, Option<Seq<char>>) {
    match key {
        Key::Char('q') => (AppView { exit: true, ..a }, None),
        Key::Char('j') => (spec_move(a, spec_select_next(a.frames.last().selection)), None),
        Key::Char('k') => (spec_move(a, spec_select_previous(a.frames.last().selection)), None),
        Key::Char('l') => (spec_enter(a), None),
        Key::Char('h') => (spec_leave(a), None),
        Key::Char(' ') => match selected_task(a) {
            Some(t) => {
                let p = TaskPatchView {
                    id: t.id,
                    parent_id: None,
                    name: None,
                    status: Some(flipped(t.status)),
                };
                let nl = spec_modify(a.list, p);
                (AppView { list: nl, ..a }, Some(md_text(nl.tasks)))
            },
            None => (a, None),
        },
        Key::Char('d') => match selected_task(a) {
            Some(t) => {
                let nl = spec_remove(a.list, t.id);
                (AppView { list: nl, ..a }, Some(md_text(nl.tasks)))
            },
            None => (a, None),
        },
        _ => (a, None),
    }
}

/// The selected task is the first of the list with its id.
pub proof fn lemma_selected_task(a: AppView)
    requires
        a.frames.len() >= 1,
    ensures
        selected_task(a) matches Some(t) ==> has_id(a.list.tasks, t.id) && a.list.tasks[index_of(
            a.list.tasks,
            t.id,
        )] == t,
{
    let f = a.frames.last();
    if let Some(i) = f.selection.selected {
        if i < f.task_ids.len() && has_id(a.list.tasks, f.task_ids[i as int]) {
            crate::list::lemma_has_id_first(a.list.tasks, f.task_ids[i as int]);
        }
    }
}

impl App {
    /// The screen keeps at least one column open.
    pub open spec fn wf(&self) -> bool {
        self.frames@.len() >= 1
    }

    /// Opens the screen on a list.
    pub fn new(list: List) -> (app: App)
        ensures
            app.wf(),
            app@ == spec_open(list@),
    {
        let tasks = list.toplevel_tasks();
        let mut frames: Vec<ListFrame> = Vec::new();
        frames.push(ListFrame::new(task_vec_to_ids(&tasks), true));
        let mut app = App { exit: false, list, frames, preview_frame: None };
        assert(frames_view(app.frames@) =~= seq![fresh_frame(ids(with_parent(list@.tasks, None)), true)]);
        app.set_preview_frame();
        app
    }

    /// The columns to draw: the one before the last on the left, when there is one,
    /// and the last one in the middle; the preview goes on the right.
    pub fn shown_columns(&self) -> (r: (Option<usize>, usize))
        requires
            self.wf(),
        ensures
            r.0 == (if self.frames@.len() > 1 {
                Some((self.frames@.len() - 2) as usize)
            } else {
                None::<usize>
            }),
            r.1 == self.frames@.len() - 1,
    {
        let length = self.frames.len();
        let left = if length > 1 { Some(length - 2) } else { None };
        (left, length - 1)
    }

    pub fn current_main_frame(&self) -> (f: &ListFrame)
        requires
            self.wf(),
        ensures
            f@ == self@.frames.last(),
    {
        &self.frames[self.frames.len() - 1]
    }

    /// The task under the selection of the last column.
    pub fn current_selected_task(&self) -> (r: Option<&Task>)
        requires
            self.wf(),
        ensures
            match selected_task(self@) {
                Some(t) => r matches Some(task) && task@ == t,
                None => r is None,
            },
    {
        let main_frame = self.current_main_frame();
        match main_frame.selection.selected {
            Some(idx) => {
                if idx < main_frame.task_ids.len() {
                    match self.list.get_task(main_frame.task_ids[idx]) {
                        Ok(t) => Some(t),
                        Err(_) => None,
                    }
                } else {
                    None
                }
            },
            None => None,
        }
    }

    /// Opens a column on the children of the selected task.
    pub fn add_frame_from_selected(&mut self)
        requires
            old(self).wf(),
        ensures
            final(self).wf(),
            final(self)@ == spec_enter(old(self)@),
    {
        let tasks = match self.current_selected_task() {
            Some(parent_task) => self.list.tasks_of_parent(parent_task.id),
            None => {
                return;
            },
        };
        let ghost before = frames_view(self.frames@);
        let new_frame = ListFrame::new(task_vec_to_ids(&tasks), true);
        let ghost nf = new_frame@;
        self.frames.push(new_frame);
        assert(frames_view(self.frames@) =~= before.push(nf));
        self.set_preview_frame();
    }

    /// Shows the children of the selected task on the right, if it has any.
    pub fn set_preview_frame(&mut self)
        requires
            old(self).wf(),
        ensures
            final(self).wf(),
            final(self)@ == with_preview(old(self)@),
    {
        let tasks = match self.current_selected_task() {
            Some(parent_task) => self.list.tasks_of_parent(parent_task.id),
            None => {
                self.preview_frame = None;
                return;
            },
        };
        if tasks.len() == 0 {
            self.preview_frame = None;
            return;
        }
        let new_frame = ListFrame::new(task_vec_to_ids(&tasks), false);
        self.preview_frame = Some(new_frame);
    }

    /// Closes the last column, unless it is the only one.
    pub fn remove_frame(&mut self)
        requires
            old(self).wf(),
        ensures
            final(self).wf(),
            final(self)@ == spec_leave(old(self)@),
    {
        if self.frames.len() <= 1 {
            return;
        }
        let ghost before = frames_view(self.frames@);
        self.frames.pop();
        assert(frames_view(self.frames@) =~= before.drop_last());
        self.set_preview_frame();
    }

    fn move_selection(&mut self, down: bool)
        requires
            old(self).wf(),
        ensures
            final(self).wf(),
            final(self)@ == spec_move(
                old(self)@,
                if down {
                    spec_select_next(old(self)@.frames.last().selection)
                } else {
                    spec_select_previous(old(self)@.frames.last().selection)
                },
            ),
    {
        let ghost before = frames_view(self.frames@);
        let mut frame = self.frames.pop().unwrap();
        if down {
            frame.selection.select_next();
        } else {
            frame.selection.select_previous();
        }
        let ghost nf = frame@;
        self.frames.push(frame);
        assert(frames_view(self.frames@) =~= before.update(before.len() - 1, nf));
        self.set_preview_frame();
    }

    /// Reacts to a key press. Returns the markdown to write to the task file when the
    /// list changed.
    pub fn handle_key_event(&mut self, key: Key) -> (r: Option<String>)
        requires
            old(self).wf(),
        ensures
            final(self).wf(),
            final(self)@ == spec_handle_key(old(self)@, key).0,
            match spec_handle_key(old(self)@, key).1 {
                Some(md) => r matches Some(s) && s@ == md,
                None => r is None,
            },
    {
        match key {
            Key::Char('q') => {
                self.exit();
                None
            },
            Key::Char('j') => {
                self.move_selection(true);
                None
            },
            Key::Char('k') => {
                self.move_selection(false);
                None
            },
            Key::Char('l') => {
                self.add_frame_from_selected();
                None
            },
            Key::Char('h') => {
                self.remove_frame();
                None
            },
            Key::Char(' ') => {
                proof {
                    lemma_selected_task(self@);
                }
                let (id, status) = match self.current_selected_task() {
                    Some(task) => (
                        task.id,
                        if task.status == Status::Done {
                            Status::Todo
                        } else {
                            Status::Done
                        },
                    ),
                    None => {
                        return None;
                    },
                };
                let patch = TaskPatch::new(id).status(status);
                let _ = self.list.modify_task(patch);
                Some(self.list.save_to_md())
            },
            Key::Char('d') => {
                proof {
                    lemma_selected_task(self@);
                }
                let id = match self.current_selected_task() {
                    Some(task) => task.id,
                    None => {
                        return None;
                    },
                };
                let _ = self.list.remove_task(id);
                Some(self.list.save_to_md())
            },
            _ => None,
        }
    }

    pub fn exit(&mut self)
        ensures
            final(self)@ == (AppView { exit: true, ..old(self)@ }),
            final(self).frames@ == old(self).frames@,
    {
        self.exit = true;
    }
}


/// Going down into the selected task and straight back up gives back the screen as it
/// was, as long as its preview showed the current selection.
pub proof fn lemma_enter_then_leave(a: AppView)
    requires
        a.frames.len() >= 1,
        selected_task(a) is Some,
        a.preview == preview_for(a),
    ensures
        spec_leave(spec_enter(a)) == a,
{
    let b = spec_enter(a);
    assert(b.frames.len() == a.frames.len() + 1);
    assert(b.frames.drop_last() =~= a.frames);
    let c = AppView { frames: b.frames.drop_last(), ..b };
    assert(c.list == a.list && c.frames == a.frames);
    assert(selected_task(c) == selected_task(a));
    assert(preview_for(c) == preview_for(a));
}

/// Moving the selection down and back up gives back the screen, when a row is
/// selected that is not the largest index, and the preview showed the selection.
pub proof fn lemma_down_then_up(a: AppView)
    requires
        a.frames.len() >= 1,
        a.frames.last().selection.selected matches Some(i) && i < usize::MAX,
        a.preview == preview_for(a),
    ensures
        spec_handle_key(spec_handle_key(a, Key::Char('j')).0, Key::Char('k')).0 == a,
{
    let b = spec_handle_key(a, Key::Char('j')).0;
    let c = spec_handle_key(b, Key::Char('k')).0;
    let last = a.frames.len() - 1;
    assert(b.frames.last().selection == spec_select_next(a.frames.last().selection));
    assert(spec_select_previous(spec_select_next(a.frames.last().selection)) == a.frames.last().selection);
    assert(c.frames =~= a.frames);
    let d = AppView {
        frames: b.frames.update(
            b.frames.len() - 1,
            FrameView { selection: a.frames.last().selection, task_ids: b.frames.last().task_ids },
        ),
        ..b
    };
    assert(d.frames =~= a.frames);
    assert(selected_task(d) == selected_task(a));
}

/// Flipping the status of the selected task twice gives back the list as it was.
pub proof fn lemma_toggle_twice(a: AppView)
    requires
        a.frames.len() >= 1,
        selected_task(a) is Some,
    ensures
        spec_handle_key(spec_handle_key(a, Key::Char(' ')).0, Key::Char(' ')).0.list == a.list,
{
    lemma_selected_task(a);
    let t = selected_task(a)->0;
    let p1 = TaskPatchView { id: t.id, parent_id: None, name: None, status: Some(flipped(t.status)) };
    let b = spec_handle_key(a, Key::Char(' ')).0;
    assert(b.list == spec_modify(a.list, p1));
    crate::list::lemma_modify_then_get(a.list, p1);
    let f = a.frames.last();
    let fid = f.task_ids[f.selection.selected->0 as int];
    crate::list::lemma_has_id_first(a.list.tasks, fid);
    let i = index_of(a.list.tasks, fid);
    assert(index_of(a.list.tasks, t.id) == i);
    // The same task stays selected, with its status flipped.
    assert(b.list.tasks[i].id == fid);
    assert forall|j: int| 0 <= j < i implies b.list.tasks[j].id != fid by {
        assert(b.list.tasks[j] == a.list.tasks[j]);
    }
    crate::list::lemma_first_index_unique(b.list.tasks, fid, i);
    assert(b.frames == a.frames);
    let t1 = selected_task(b)->0;
    assert(t1 == crate::task::patched(t, p1));
    let p2 = TaskPatchView { id: t1.id, parent_id: None, name: None, status: Some(flipped(t1.status)) };
    assert(flipped(flipped(t.status)) == t.status);
    lemma_selected_task(b);
    assert(index_of(b.list.tasks, t1.id) == i);
    assert(spec_modify(b.list, p2).tasks =~= a.list.tasks);
}


/// `d` removes exactly the first task that carries the id under the selection of the
/// last column: the tasks before it stay, the tasks after it move down by one, the
/// columns stay as they are, and the new list is to be saved.
pub proof fn lemma_delete_key(a: AppView, k: usize, i: int)
    requires
        a.frames.len() >= 1,
        a.frames.last().selection.selected == Some(k),
        0 <= k < a.frames.last().task_ids.len(),
        0 <= i < a.list.tasks.len(),
        a.list.tasks[i].id == a.frames.last().task_ids[k as int],
        forall|j: int| 0 <= j < i ==> a.list.tasks[j].id != a.frames.last().task_ids[k as int],
    ensures
        spec_handle_key(a, Key::Char('d')).0.list.tasks.len() == a.list.tasks.len() - 1,
        forall|j: int| 0 <= j < i ==> spec_handle_key(a, Key::Char('d')).0.list.tasks[j] == a.list.tasks[j],
        forall|j: int|
            i <= j < a.list.tasks.len() - 1 ==> spec_handle_key(a, Key::Char('d')).0.list.tasks[j]
                == a.list.tasks[j + 1],
        spec_handle_key(a, Key::Char('d')).0.list.next_id == a.list.next_id,
        spec_handle_key(a, Key::Char('d')).0.frames == a.frames,
        spec_handle_key(a, Key::Char('d')).0.preview == a.preview,
        spec_handle_key(a, Key::Char('d')).0.exit == a.exit,
        spec_handle_key(a, Key::Char('d')).1 == Some(md_text(spec_handle_key(a, Key::Char('d')).0.list.tasks)),
{
    let fid = a.frames.last().task_ids[k as int];
    crate::list::lemma_first_index_unique(a.list.tasks, fid, i);
    lemma_selected_task(a);
    crate::list::lemma_remove_keeps_order(a.list, fid, i);
}

/// Space flips the status of exactly the first task that carries the id under the
/// selection of the last column, and changes nothing else of the list or the
/// columns; the new list is to be saved.
pub proof fn lemma_space_key(a: AppView, k: usize, i: int)
    requires
        a.frames.len() >= 1,
        a.frames.last().selection.selected == Some(k),
        0 <= k < a.frames.last().task_ids.len(),
        0 <= i < a.list.tasks.len(),
        a.list.tasks[i].id == a.frames.last().task_ids[k as int],
        forall|j: int| 0 <= j < i ==> a.list.tasks[j].id != a.frames.last().task_ids[k as int],
    ensures
        spec_handle_key(a, Key::Char(' ')).0.list.tasks.len() == a.list.tasks.len(),
        forall|j: int|
            0 <= j < a.list.tasks.len() && j != i ==> spec_handle_key(a, Key::Char(' ')).0.list.tasks[j]
                == a.list.tasks[j],
        spec_handle_key(a, Key::Char(' ')).0.list.tasks[i].id == a.list.tasks[i].id,
        spec_handle_key(a, Key::Char(' ')).0.list.tasks[i].name == a.list.tasks[i].name,
        spec_handle_key(a, Key::Char(' ')).0.list.tasks[i].parent_id == a.list.tasks[i].parent_id,
        spec_handle_key(a, Key::Char(' ')).0.list.tasks[i].status == (if a.list.tasks[i].status
            == Status::Done {
            Status::Todo
        } else {
            Status::Done
        }),
        spec_handle_key(a, Key::Char(' ')).0.list.next_id == a.list.next_id,
        spec_handle_key(a, Key::Char(' ')).0.frames == a.frames,
        spec_handle_key(a, Key::Char(' ')).0.preview == a.preview,
        spec_handle_key(a, Key::Char(' ')).0.exit == a.exit,
        spec_handle_key(a, Key::Char(' ')).1 == Some(md_text(spec_handle_key(a, Key::Char(' ')).0.list.tasks)),
{
    let fid = a.frames.last().task_ids[k as int];
    crate::list::lemma_first_index_unique(a.list.tasks, fid, i);
    lemma_selected_task(a);
    let t = a.list.tasks[i];
    let p = TaskPatchView { id: t.id, parent_id: None, name: None, status: Some(flipped(t.status)) };
    crate::list::lemma_modify_changes_one_task(a.list, p, i);
}

/// `d` and space change nothing when the selection of the last column names no task
/// of the list.
pub proof fn lemma_change_keys_without_selection(a: AppView, key: Key)
    requires
        a.frames.len() >= 1,
        key == Key::Char('d') || key == Key::Char(' '),
        match a.frames.last().selection.selected {
            None => true,
            Some(k) => k >= a.frames.last().task_ids.len() || forall|j: int|
                0 <= j < a.list.tasks.len() ==> a.list.tasks[j].id != a.frames.last().task_ids[k as int],
        },
    ensures
        spec_handle_key(a, key).0 == a,
        spec_handle_key(a, key).1 is None,
{
}


/// The screen opens on one column holding the ids of the top-level tasks in list order,
/// with its first row selected, not quitting, on the given list.
pub proof fn lemma_open(l: ListView)
    ensures
        spec_open(l).frames == seq![
            FrameView {
                selection: Selection { selected: Some(0), offset: 0 },
                task_ids: ids(with_parent(l.tasks, None)),
            },
        ],
        !spec_open(l).exit,
        spec_open(l).list == l,
        spec_open(l).preview == preview_for(spec_open(l)),
{
}

/// `j` selects the next row of the last column (the first row when none is selected;
/// the largest index stays), and `k` the row before (the largest index when none is
/// selected; the first row stays). Nothing else changes but the preview, which
/// follows the new selection; nothing is to be saved.
pub proof fn lemma_move_keys(a: AppView)
    requires
        a.frames.len() >= 1,
    ensures
        ({
            let (b, out) = spec_handle_key(a, Key::Char('j'));
            &&& out is None
            &&& b.list == a.list && b.exit == a.exit
            &&& b.frames.len() == a.frames.len()
            &&& forall|k: int| 0 <= k < a.frames.len() - 1 ==> b.frames[k] == a.frames[k]
            &&& b.frames.last().task_ids == a.frames.last().task_ids
            &&& b.frames.last().selection.offset == a.frames.last().selection.offset
            &&& b.frames.last().selection.selected == Some(
                match a.frames.last().selection.selected {
                    None => 0usize,
                    Some(i) => if i == usize::MAX { i } else { (i + 1) as usize },
                },
            )
            &&& b.preview == preview_for(b)
        }),
        ({
            let (b, out) = spec_handle_key(a, Key::Char('k'));
            &&& out is None
            &&& b.list == a.list && b.exit == a.exit
            &&& b.frames.len() == a.frames.len()
            &&& forall|k: int| 0 <= k < a.frames.len() - 1 ==> b.frames[k] == a.frames[k]
            &&& b.frames.last().task_ids == a.frames.last().task_ids
            &&& b.frames.last().selection.offset == a.frames.last().selection.offset
            &&& b.frames.last().selection.selected == Some(
                match a.frames.last().selection.selected {
                    None => usize::MAX,
                    Some(i) => if i == 0 { 0usize } else { (i - 1) as usize },
                },
            )
            &&& b.preview == preview_for(b)
        }),
{
}

/// `l` on a selected task opens a new last column holding the ids of that task's
/// children in list order, with its first row selected; without a selected task it
/// changes nothing. The list is not changed and nothing is to be saved.
pub proof fn lemma_enter_key(a: AppView)
    requires
        a.frames.len() >= 1,
    ensures
        spec_handle_key(a, Key::Char('l')).1 is None,
        selected_task(a) matches Some(t) ==> {
            let b = spec_handle_key(a, Key::Char('l')).0;
            &&& b.frames == a.frames.push(
                FrameView {
                    selection: Selection { selected: Some(0), offset: 0 },
                    task_ids: ids(with_parent(a.list.tasks, Some(t.id))),
                },
            )
            &&& b.list == a.list && b.exit == a.exit
            &&& b.preview == preview_for(b)
        },
        selected_task(a) is None ==> spec_handle_key(a, Key::Char('l')).0 == a,
{
}

/// `h` closes the last column when there is more than one, and otherwise changes
/// nothing. The list is not changed and nothing is to be saved.
pub proof fn lemma_leave_key(a: AppView)
    requires
        a.frames.len() >= 1,
    ensures
        spec_handle_key(a, Key::Char('h')).1 is None,
        a.frames.len() > 1 ==> {
            let b = spec_handle_key(a, Key::Char('h')).0;
            &&& b.frames == a.frames.drop_last()
            &&& b.list == a.list && b.exit == a.exit
            &&& b.preview == preview_for(b)
        },
        a.frames.len() == 1 ==> spec_handle_key(a, Key::Char('h')).0 == a,
{
}

/// `q` asks to quit and changes nothing else; a key the screen does not use changes
/// nothing at all.
pub proof fn lemma_quit_and_other_keys(a: AppView, c: char)
    requires
        c != 'q' && c != 'j' && c != 'k' && c != 'l' && c != 'h' && c != ' ' && c != 'd',
    ensures
        spec_handle_key(a, Key::Char('q')).0 == (AppView { exit: true, ..a }),
        spec_handle_key(a, Key::Char('q')).1 is None,
        spec_handle_key(a, Key::Char(c)) == (a, None::<Seq<char>>),
        spec_handle_key(a, Key::Other) == (a, None::<Seq<char>>),
{
}

} // verus!
