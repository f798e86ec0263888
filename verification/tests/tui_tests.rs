use tsk::list::List;
use tsk::task::Status;
use tsk::tui::{task_slice_to_ids, task_vec_to_ids, App, Key, ListFrame, Selection};

fn sample() -> List {
    List::parse_from_md("- [ ] 1: home\n- [x] 1/2: dishes\n- [ ] 1/3: laundry\n- [ ] 4: work\n").unwrap()
}

fn selected(app: &App) -> Option<usize> {
    app.frames.last().unwrap().selection.selected
}

#[test]
fn opens_on_the_top_level_with_a_preview() {
    let app = App::new(sample());
    assert!(!app.exit);
    assert_eq!(app.frames.len(), 1);
    assert_eq!(app.frames[0].task_ids, vec![1, 4]);
    assert_eq!(selected(&app), Some(0));
    let preview = app.preview_frame.as_ref().unwrap();
    assert_eq!(preview.task_ids, vec![2, 3]);
    assert_eq!(preview.selection.selected, None);
    assert_eq!(app.current_selected_task().unwrap().name, "home");
}

#[test]
fn moving_down_and_up() {
    let mut app = App::new(sample());
    assert!(app.handle_key_event(Key::Char('j')).is_none());
    assert_eq!(selected(&app), Some(1));
    assert_eq!(app.current_selected_task().unwrap().id, 4);
    assert!(app.preview_frame.is_none());
    app.handle_key_event(Key::Char('j'));
    // Past the end until the widget draws it again: no task is selected.
    assert_eq!(selected(&app), Some(2));
    assert!(app.current_selected_task().is_none());
    app.handle_key_event(Key::Char('k'));
    app.handle_key_event(Key::Char('k'));
    assert_eq!(selected(&app), Some(0));
    app.handle_key_event(Key::Char('k'));
    assert_eq!(selected(&app), Some(0));
    assert_eq!(app.preview_frame.as_ref().unwrap().task_ids, vec![2, 3]);
}

#[test]
fn entering_and_leaving_a_task() {
    let mut app = App::new(sample());
    app.handle_key_event(Key::Char('l'));
    assert_eq!(app.frames.len(), 2);
    assert_eq!(app.frames[1].task_ids, vec![2, 3]);
    assert_eq!(app.current_selected_task().unwrap().name, "dishes");
    assert!(app.preview_frame.is_none());
    app.handle_key_event(Key::Char('h'));
    assert_eq!(app.frames.len(), 1);
    assert_eq!(app.preview_frame.as_ref().unwrap().task_ids, vec![2, 3]);
    app.handle_key_event(Key::Char('h'));
    assert_eq!(app.frames.len(), 1);
}

#[test]
fn space_flips_the_status_and_asks_to_save() {
    let mut app = App::new(sample());
    app.handle_key_event(Key::Char('l'));
    let md = app.handle_key_event(Key::Char(' ')).unwrap();
    assert_eq!(md, "- [ ] 1: home\n- [ ] 1/2: dishes\n- [ ] 1/3: laundry\n- [ ] 4: work\n");
    assert_eq!(app.list.get_task(2).unwrap().status, Status::Todo);
    let md = app.handle_key_event(Key::Char(' ')).unwrap();
    assert_eq!(md, sample().save_to_md());
}

#[test]
fn d_deletes_the_selected_task() {
    let mut app = App::new(sample());
    app.handle_key_event(Key::Char('j'));
    let md = app.handle_key_event(Key::Char('d')).unwrap();
    assert_eq!(md, "- [ ] 1: home\n- [x] 1/2: dishes\n- [ ] 1/3: laundry\n");
    // The column still holds the id, but no task carries it any more.
    assert!(app.current_selected_task().is_none());
    assert!(app.handle_key_event(Key::Char('d')).is_none());
}

#[test]
fn q_quits_and_other_keys_do_nothing() {
    let mut app = App::new(sample());
    assert!(app.handle_key_event(Key::Other).is_none());
    assert!(app.handle_key_event(Key::Char('z')).is_none());
    assert!(!app.exit);
    assert!(app.handle_key_event(Key::Char('q')).is_none());
    assert!(app.exit);
}

#[test]
fn rows_show_marks_and_names_in_list_order() {
    let list = sample();
    let frame = ListFrame::new(vec![3, 2, 9], false);
    assert_eq!(frame.rows(&list), vec!["[✓] dishes".to_string(), "[ ] laundry".to_string()]);
}

#[test]
fn selection_moves_like_the_widget() {
    let mut s = Selection::unselected();
    s.select_next();
    assert_eq!(s.selected, Some(0));
    let mut s = Selection::unselected();
    s.select_previous();
    assert_eq!(s.selected, Some(usize::MAX));
    let mut s = Selection { selected: Some(usize::MAX), offset: 3 };
    s.select_next();
    assert_eq!(s, Selection { selected: Some(usize::MAX), offset: 3 });
}

#[test]
fn ids_of_tasks() {
    let list = sample();
    assert_eq!(task_vec_to_ids(&list.tasks), vec![1, 2, 3, 4]);
    assert_eq!(task_slice_to_ids(list.list_tasks()), vec![1, 2, 3, 4]);
    assert_eq!(task_vec_to_ids(&list.toplevel_tasks()), vec![1, 4]);
    assert_eq!(task_vec_to_ids(&list.tasks_of_parent(1)), vec![2, 3]);
    assert!(list.tasks_of_parent(4).is_empty());
}

#[test]
fn columns_shown() {
    let mut app = App::new(sample());
    assert_eq!(app.shown_columns(), (None, 0));
    app.handle_key_event(Key::Char('l'));
    assert_eq!(app.shown_columns(), (Some(0), 1));
}
