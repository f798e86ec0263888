use tsk::list::{List, ListError};
use tsk::task::{Status, TaskPatch};

#[test]
fn create_new_empty_list() {
    let list = List::new();
    assert!(list.tasks.is_empty());
}

#[test]
fn add_task_to_list_sets_correct_name_and_id() {
    let mut list = List::new();
    let _ = list.add_task("Test", None);
    let task = list.tasks.iter().find(|x| x.name == "Test").unwrap();
    assert_eq!(task.name, "Test");
    assert_eq!(task.id, 1);
}

#[test]
fn add_two_tasks_to_list() {
    let mut list = List::new();
    let _ = list.add_task("Test", None);
    let _ = list.add_task("Test2", None);
    let task = list.tasks.iter().find(|x| x.name == "Test").unwrap();
    let task2 = list.tasks.iter().find(|x| x.name == "Test2").unwrap();
    assert_eq!(task.name, "Test");
    assert_eq!(task2.name, "Test2");
}

#[test]
fn adding_task_with_invalid_parent_returns_error() {
    let mut list = List::new();
    let _ = list.add_task("Test", None);
    let ret = list.add_task("Test2", Some(3));
    assert!(ret.is_err())
}

#[test]
fn parse_simple_file() {
    let res = List::parse_from_md("- [x] 123: abc\n lalalald\n- [ ] 1234: abcd");
    assert!(res.is_ok());
}

#[test]
fn save_simple_file() {
    let mut list = List::new();
    let _ = list.add_task("Test", None);
    let _ = list.add_task("Test2", None);
    let _ = list.modify_task(TaskPatch {
        id: 1,
        parent_id: None,
        name: None,
        status: Some(Status::Done),
    });
    println!("{}", list.save_to_md());
}

#[test]
fn ids_are_handed_out_in_order() {
    let mut list = List::new();
    assert_eq!(list.next_id, 1);
    list.add_task("a", None).unwrap();
    list.add_task("b", Some(1)).unwrap();
    assert_eq!(list.tasks[0].id, 1);
    assert_eq!(list.tasks[1].id, 2);
    assert_eq!(list.tasks[1].parent_id, Some(1));
    assert_eq!(list.tasks[1].status, Status::Todo);
    assert_eq!(list.next_id, 3);
}

#[test]
fn invalid_parent_leaves_list_unchanged() {
    let mut list = List::new();
    list.add_task("a", None).unwrap();
    assert_eq!(list.add_task("b", Some(7)), Err(ListError::ParentNotFound(7)));
    assert_eq!(list.tasks.len(), 1);
    assert_eq!(list.next_id, 2);
}

#[test]
fn remove_takes_out_the_first_task_with_the_id() {
    let mut list = List::new();
    list.add_task("a", None).unwrap();
    list.add_task("b", None).unwrap();
    list.add_task("c", None).unwrap();
    assert_eq!(list.remove_task(2), Ok(()));
    let names: Vec<&str> = list.tasks.iter().map(|t| t.name.as_str()).collect();
    assert_eq!(names, vec!["a", "c"]);
    assert_eq!(list.remove_task(2), Err(ListError::TaskNotFound(2)));
    assert_eq!(list.tasks.len(), 2);
}

#[test]
fn remove_with_duplicate_ids_takes_the_first() {
    let mut list = List::parse_from_md("- [ ] 4: first\n- [x] 4: second\n").unwrap();
    assert_eq!(list.remove_task(4), Ok(()));
    assert_eq!(list.tasks.len(), 1);
    assert_eq!(list.tasks[0].name, "second");
}

#[test]
fn add_then_remove_gives_back_the_tasks() {
    let mut list = List::new();
    list.add_task("a", None).unwrap();
    list.add_task("b", Some(1)).unwrap();
    let before = list.save_to_md();
    let id = list.next_id;
    list.add_task("c", Some(2)).unwrap();
    list.remove_task(id).unwrap();
    assert_eq!(list.save_to_md(), before);
}

#[test]
fn modify_then_get_gives_the_patched_task() {
    let mut list = List::new();
    list.add_task("a", None).unwrap();
    list.add_task("b", None).unwrap();
    let patch = TaskPatch {
        id: 2,
        parent_id: Some(Some(1)),
        name: Some("renamed".to_string()),
        status: Some(Status::Done),
    };
    assert_eq!(list.modify_task(patch), Ok(()));
    let t = list.get_task(2).unwrap();
    assert_eq!(t.name, "renamed");
    assert_eq!(t.parent_id, Some(1));
    assert_eq!(t.status, Status::Done);
    let detach = TaskPatch { id: 2, parent_id: Some(None), name: None, status: None };
    list.modify_task(detach).unwrap();
    assert_eq!(list.get_task(2).unwrap().parent_id, None);
    assert_eq!(list.get_task(2).unwrap().name, "renamed");
}

#[test]
fn modify_unknown_task_is_an_error() {
    let mut list = List::new();
    list.add_task("a", None).unwrap();
    let patch = TaskPatch { id: 9, parent_id: None, name: None, status: Some(Status::Done) };
    assert_eq!(list.modify_task(patch), Err(ListError::TaskNotFound(9)));
    assert_eq!(list.tasks[0].status, Status::Todo);
}

#[test]
fn empty_patch_changes_nothing() {
    let mut list = List::new();
    list.add_task("a", None).unwrap();
    let before = list.save_to_md();
    list.modify_task(TaskPatch::new(1)).unwrap();
    assert_eq!(list.save_to_md(), before);
    let d = TaskPatch::default();
    assert_eq!(d.id, 0);
    assert!(d.name.is_none() && d.status.is_none() && d.parent_id.is_none());
}

#[test]
fn patch_builder_sets_status() {
    let p = TaskPatch::new(5).status(Status::Done);
    assert_eq!(p.id, 5);
    assert_eq!(p.status, Some(Status::Done));
    assert!(p.name.is_none() && p.parent_id.is_none());
}

#[test]
fn get_task_finds_and_misses() {
    let mut list = List::new();
    list.add_task("a", None).unwrap();
    assert_eq!(list.get_task(1).unwrap().name, "a");
    assert_eq!(list.get_task(2).err(), Some(ListError::TaskNotFound(2)));
    assert_eq!(list.list_tasks().len(), 1);
    assert_eq!(list.list_tasks()[0].id, 1);
}
