use std::cell::Cell;

use nom::{
    IResult, Parser,
    branch::alt,
    bytes::tag,
    character::complete::{anychar, digit1, line_ending, space0},
    combinator::{eof, opt},
    error::{Error, ErrorKind},
    multi::many_till,
    sequence::{delimited, preceded, terminated},
};
use tsk::list::List;
use tsk::markdown::ParseOutcome;
use tsk::task::Status;

type Row = (u16, Option<u16>, String, Status);

#[derive(Debug, PartialEq)]
enum Expected {
    Tasks(Vec<Row>),
    Malformed,
    IdTooLarge,
}

/// The task-line grammar written with nom's combinators, used as an independent
/// reference for the library's reader. A line that does not start with `- [` is
/// skipped even when it is the last one and has no line ending, so the opening
/// `- [` is matched with the complete `tag`, and such a line is skipped with the
/// complete `take_till`. Everything else is read in streaming mode, where a last
/// line that starts with `- [` and is no whole task line is an error.
fn nom_task_line<'a>(too_large: &Cell<bool>, input: &'a str) -> IResult<&'a str, Row> {
    {
        let (rem, _) = space0.parse(input)?;
        let (rem, (_, status, _)) = (nom::bytes::complete::tag("- ["), alt((tag(" "), tag("x"))), tag("]")).parse(rem)?;
        let (rem, (first, second)) = delimited(
            space0,
            (digit1, opt(preceded(tag("/"), digit1))),
            (tag(":"), space0),
        )
        .parse(rem)?;
        let ids = match second {
            None => first.parse::<u16>().ok().map(|i| (i, None)),
            Some(s) => match (s.parse::<u16>(), first.parse::<u16>()) {
                (Ok(a), Ok(b)) => Some((a, Some(b))),
                _ => None,
            },
        };
        let (id, parent) = match ids {
            Some(x) => x,
            None => {
                too_large.set(true);
                return Err(nom::Err::Failure(Error::new(rem, ErrorKind::Fail)));
            }
        };
        let (rem, (name, _)) = many_till(anychar, alt((line_ending, eof))).parse(rem)?;
        let status = if status == " " { Status::Todo } else { Status::Done };
        Ok((rem, (id, parent, name.iter().collect(), status)))
    }
}

fn nom_skip_line(input: &str) -> IResult<&str, &str> {
    let (after, _) = space0.parse(input)?;
    if after.starts_with("- [") {
        terminated(nom::bytes::take_till(|c| c == '\n'), alt((line_ending, eof))).parse(input)
    } else {
        terminated(nom::bytes::complete::take_till(|c| c == '\n'), alt((line_ending, eof)))
            .parse(input)
    }
}

fn nom_reading(text: &str) -> Expected {
    let too_large = Cell::new(false);
    let task_line = |i| nom_task_line(&too_large, i);
    let skip_line = nom_skip_line;
    let parse_line = alt((nom::combinator::map(task_line, Some), nom::combinator::map(skip_line, |_| None)));
    let result = many_till(parse_line, eof).parse(text);
    let outcome = match result {
        Err(_) => {
            if too_large.get() {
                Expected::IdTooLarge
            } else {
                Expected::Malformed
            }
        }
        Ok((_, (rows, _))) => Expected::Tasks(rows.into_iter().flatten().collect()),
    };
    outcome
}

fn library_reading(text: &str) -> Expected {
    match List::parse_outcome(text) {
        ParseOutcome::Tasks(ts) => Expected::Tasks(
            ts.into_iter().map(|t| (t.id, t.parent_id, t.name, t.status)).collect(),
        ),
        ParseOutcome::Malformed => Expected::Malformed,
        ParseOutcome::IdTooLarge => Expected::IdTooLarge,
    }
}

fn row(id: u16, parent: Option<u16>, name: &str, status: Status) -> Row {
    (id, parent, name.to_string(), status)
}

#[test]
fn reads_the_simple_file() {
    let text = "- [x] 123: abc\n lalalald\n- [ ] 1234: abcd";
    assert_eq!(
        library_reading(text),
        Expected::Tasks(vec![
            row(123, None, "abc", Status::Done),
            row(1234, None, "abcd", Status::Todo)
        ])
    );
    let list = List::parse_from_md(text).unwrap();
    assert_eq!(list.next_id, 1);
    assert_eq!(list.tasks.len(), 2);
}

#[test]
fn reads_parents_indentation_and_crlf() {
    let text = "\t  - [x] 2/3:   name  \r\nplain\n- [ ]7: \n";
    assert_eq!(
        library_reading(text),
        Expected::Tasks(vec![row(3, Some(2), "name  ", Status::Done), row(7, None, "", Status::Todo)])
    );
}

#[test]
fn empty_text_is_an_empty_list() {
    assert_eq!(library_reading(""), Expected::Tasks(vec![]));
    assert_eq!(library_reading("\n\n"), Expected::Tasks(vec![]));
}

#[test]
fn a_last_line_that_is_no_task_is_skipped() {
    assert_eq!(library_reading("hello"), Expected::Tasks(vec![]));
    assert_eq!(library_reading("x"), Expected::Tasks(vec![]));
    assert_eq!(library_reading("hello\n"), Expected::Tasks(vec![]));
    assert_eq!(library_reading("  "), Expected::Tasks(vec![]));
    assert_eq!(library_reading("-"), Expected::Tasks(vec![]));
    assert_eq!(library_reading("- "), Expected::Tasks(vec![]));
    assert_eq!(library_reading("\t- "), Expected::Tasks(vec![]));
    let list = List::parse_from_md("- [ ] 1: a\nnotes").unwrap();
    assert_eq!(list.tasks.len(), 1);
    assert_eq!(list.tasks[0].id, 1);
    assert_eq!(list.tasks[0].name, "a");
    assert!(List::parse_from_md("notes").unwrap().tasks.is_empty());
}

#[test]
fn a_last_line_opening_like_a_task_must_be_one() {
    assert_eq!(library_reading("- [ ] 1"), Expected::Malformed);
    assert_eq!(library_reading("- ["), Expected::Malformed);
    assert_eq!(library_reading("- [x"), Expected::Malformed);
    assert_eq!(library_reading("- [ ] 1/2"), Expected::Malformed);
    // A last line that starts with `- [` without being a task line is an error too,
    // but with a line break after it, it is skipped.
    assert_eq!(library_reading("- [ ] 1/"), Expected::Malformed);
    assert_eq!(library_reading("- [ ]"), Expected::Malformed);
    assert_eq!(library_reading("- [y] x"), Expected::Malformed);
    assert_eq!(library_reading("- [ ] 1: a\n  - [y] x"), Expected::Malformed);
    assert_eq!(library_reading("- [y] x\n"), Expected::Tasks(vec![]));
    assert_eq!(library_reading("- [ ] 1/\n"), Expected::Tasks(vec![]));
    assert!(List::parse_from_md("- [ ] 12").is_err());
}

#[test]
fn too_large_ids() {
    assert_eq!(library_reading("- [ ] 70000: a\n"), Expected::IdTooLarge);
    assert_eq!(library_reading("- [ ] 1/65536: a\n"), Expected::IdTooLarge);
    assert_eq!(library_reading("- [ ] 65536/1: a\n"), Expected::IdTooLarge);
    assert_eq!(
        library_reading("- [ ] 65535/00001: a\n"),
        Expected::Tasks(vec![row(1, Some(65535), "a", Status::Todo)])
    );
    // Without the colon the line is no task line, so the number is never read.
    assert_eq!(library_reading("- [ ] 70000 a\n"), Expected::Tasks(vec![]));
}

#[test]
fn writes_one_line_per_task() {
    let mut list = List::new();
    list.add_task("Test", None).unwrap();
    list.add_task("Test2", Some(1)).unwrap();
    list.modify_task(tsk::task::TaskPatch::new(1).status(Status::Done)).unwrap();
    assert_eq!(list.save_to_md(), "- [x] 1: Test\n- [ ] 1/2: Test2\n");
    assert_eq!(List::new().save_to_md(), "");
}

#[test]
fn reading_back_what_was_written() {
    let text = "junk\n  - [x] 10/20: a b c\n- [ ] 65535: z\r\n# heading\n- [ ] 3: émoji ✓\n";
    let list = List::parse_from_md(text).unwrap();
    let written = list.save_to_md();
    assert_eq!(written, "- [x] 10/20: a b c\n- [ ] 65535: z\n- [ ] 3: émoji ✓\n");
    let again = List::parse_from_md(&written).unwrap();
    assert_eq!(again.save_to_md(), written);
    assert_eq!(library_reading(&written), library_reading(text));
}

#[test]
fn agrees_with_the_nom_grammar_on_chosen_texts() {
    let texts = [
        "",
        "\n",
        "- [x] 123: abc\n lalalald\n- [ ] 1234: abcd",
        "- [ ] 1: a",
        "- [ ] 1:",
        "- [ ] 1",
        "- [ ] 1/",
        "- [ ] 1/:",
        "- [ ] 1/2",
        "- [ ] 1/2: x\n",
        "- [y] 1: a\nrest\n",
        "- [ ]: a\n",
        "-",
        "- ",
        "- [",
        "- [ ",
        "  ",
        "  \n",
        "\t- [x]\t 5:\tname\r\n",
        "- [x] 5: a\r",
        "- [x] 5: a\r\r\n",
        "x\r\n- [ ] 2: b",
        "- [ ] 99999: big\n",
        "- [ ] 99999 big\n- [ ] 1: fine\n",
        "é- [ ] 1: a\n",
        "- [ ] 1: é\n- [x] 2/3: ü",
    ];
    for t in texts {
        assert_eq!(library_reading(t), nom_reading(t), "text {:?}", t);
    }
}

#[test]
fn agrees_with_the_nom_grammar_on_generated_texts() {
    let pieces = [
        "-", " ", "[", "]", "x", "1", "23", "70000", "/", ":", "\n", "\r", "\t", "a", "é", "- [", "- [ ] ",
        "- [x] ", "4: ", "5/6: ",
    ];
    let mut state: u64 = 0x2545_F491_4F6C_DD1D;
    for _ in 0..20000 {
        state = state.wrapping_mul(6364136223846793005).wrapping_add(1442695040888963407);
        let len = (state >> 59) as usize;
        let mut text = String::new();
        for _ in 0..len {
            state = state.wrapping_mul(6364136223846793005).wrapping_add(1442695040888963407);
            text.push_str(pieces[((state >> 33) as usize) % pieces.len()]);
        }
        assert_eq!(library_reading(&text), nom_reading(&text), "text {:?}", text);
    }
}

#[test]
fn a_name_ending_in_a_carriage_return_loses_it_when_rewritten() {
    let list = List::parse_from_md("- [ ] 1: a\r").unwrap();
    assert_eq!(list.tasks[0].name, "a\r");
    let again = List::parse_from_md(&list.save_to_md()).unwrap();
    assert_eq!(again.tasks[0].name, "a");
}
