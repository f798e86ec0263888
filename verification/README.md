# tsk

A small task manager that keeps its TODOs in `./TSK.md`, a human-readable
markdown file with one task per line:

```txt
- [ ] <ID>: <NAME>
- [x] <ID>: <NAME>
- [x] <PARENT_ID>/<ID>: <NAME>
```

Lines may be indented by spaces or tabs; every other line is skipped when the
file is read, and dropped when the program writes the file back in its own
format. A last line without a line break that starts with `- [` must be a whole
task line, or the file is refused.

Layout:

- `src/` is the library, verified with Verus:
  - `task.rs`: tasks, statuses and patches, with their mathematical views;
  - `list.rs`: the task list and its operations (add, remove, modify, get,
    children), with the laws that relate them;
  - `text.rs`: decimal numbers as text;
  - `markdown.rs`: the file format as a specification, the reader and writer
    proved against it, and the proof that writing then reading gives the tasks back;
  - `cli.rs`: what each command does to the list and what is to be written and printed;
  - `tui.rs`: the state of the interactive screen and what each key does to it.
- `app/` is the program around it: argument parsing with clap, reading and
  writing the file, printing, and drawing the screen with ratatui.
- `tests/` runs the library on concrete inputs, including a comparison of the
  reader against the same grammar written with nom's combinators.
