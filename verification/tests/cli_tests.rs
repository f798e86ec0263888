use tsk::cli::{run, run_cli, read_list_from_md, CliError, Command, Plan};
use tsk::list::{List, ListError};
use tsk::task::Status;

fn save_parts(plan: Plan) -> (String, Option<String>) {
    match plan {
        Plan::Save { markdown, message } => (markdown, message),
        _ => panic!("expected a save"),
    }
}

#[test]
fn no_command_opens_the_screen() {
    assert!(matches!(run(None, None), Ok(Plan::Tui)));
    assert!(matches!(run(None, Some("garbage")), Ok(Plan::Tui)));
}

#[test]
fn a_command_needs_the_file() {
    let r = run(Some(Command::List), None);
    assert!(matches!(r, Err(CliError::MissingFile)));
    assert_eq!(CliError::MissingFile.message(), "TSK.md does not exist in current directory.");
    let r = run(Some(Command::List), Some("- [ ] 1: cut short\n- [x] 2"));
    assert!(matches!(r, Err(CliError::Parse)));
    match run(Some(Command::List), Some("- [ ] 1: a\ntrailing words")).ok().unwrap() {
        Plan::Print(s) => assert_eq!(s, "- [ ] 1: a\n"),
        _ => panic!("expected a print"),
    }
    assert_eq!(CliError::Parse.message(), "Parsing of file failed!");
    assert!(matches!(read_list_from_md(None), Err(CliError::MissingFile)));
}

#[test]
fn add_saves_the_new_list() {
    let file = "# my tasks\n- [ ] 1: first\n";
    let plan = run(Some(Command::Add { name: "second".to_string(), parent: Some(1) }), Some(file));
    let (markdown, message) = save_parts(plan.ok().unwrap());
    // New ids start at 1 again for a list read from a file.
    assert_eq!(markdown, "- [ ] 1: first\n- [ ] 1/1: second\n");
    assert!(message.is_none());
}

#[test]
fn add_with_unknown_parent_fails() {
    let r = run(Some(Command::Add { name: "x".to_string(), parent: Some(4) }), Some(""));
    assert!(matches!(r, Err(CliError::List(ListError::ParentNotFound(4)))));
    assert_eq!(ListError::ParentNotFound(4).message(), "Parent ID 4 not found");
}

#[test]
fn remove_reports_the_name() {
    let file = "- [ ] 1: first\n- [x] 2: second\n";
    let (markdown, message) =
        save_parts(run(Some(Command::Remove { id: 2 }), Some(file)).ok().unwrap());
    assert_eq!(markdown, "- [ ] 1: first\n");
    assert_eq!(message.unwrap(), "Removed task 'second'");
    let r = run(Some(Command::Remove { id: 3 }), Some(file));
    assert!(matches!(r, Err(CliError::List(ListError::TaskNotFound(3)))));
    assert_eq!(
        CliError::List(ListError::TaskNotFound(3)).message(),
        "Task ID 3 doesn't exist."
    );
}

#[test]
fn modify_renames_and_moves() {
    let file = "- [ ] 1: a\n- [ ] 2: b\n";
    let cmd = Command::Modify { id: 2, name: Some("c".to_string()), parent: Some(1), remove_parent: false };
    let (markdown, message) = save_parts(run(Some(cmd), Some(file)).ok().unwrap());
    assert_eq!(markdown, "- [ ] 1: a\n- [ ] 1/2: c\n");
    assert_eq!(message.unwrap(), "Modified task 'c'");
    let cmd = Command::Modify { id: 2, name: None, parent: Some(1), remove_parent: true };
    let (markdown, _) = save_parts(run(Some(cmd), Some("- [ ] 1/2: b\n")).ok().unwrap());
    assert_eq!(markdown, "- [ ] 2: b\n");
}

#[test]
fn done_marks_the_task() {
    let mut list = List::parse_from_md("- [ ] 5: a\n").unwrap();
    let plan = run_cli(&Command::Done { id: 5 }, &mut list).ok().unwrap();
    let (markdown, message) = save_parts(plan);
    assert_eq!(markdown, "- [x] 5: a\n");
    assert_eq!(message.unwrap(), "Set task as done: 'a'");
    assert_eq!(list.tasks[0].status, Status::Done);
    assert!(matches!(run_cli(&Command::Done { id: 6 }, &mut list), Err(CliError::List(ListError::TaskNotFound(6)))));
}

#[test]
fn list_prints_the_tasks() {
    match run(Some(Command::List), Some("junk\n- [x] 1: a\n")).ok().unwrap() {
        Plan::Print(s) => assert_eq!(s, "- [x] 1: a\n"),
        _ => panic!("expected a print"),
    }
}
