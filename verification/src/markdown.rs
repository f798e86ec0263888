//! The markdown file format: one task per line,
//! `- [ ] <ID>: <NAME>`, `- [x] <ID>: <NAME>` or `- [x] <PARENT_ID>/<ID>: <NAME>`,
//! optionally indented by spaces or tabs; every other line is skipped.
use vstd::prelude::*;

use crate::list::{List, tasks_view};
use crate::task::{Status, Task, TaskView};
use crate::text::{decimal, is_digit, push_decimal, seq_number, lemma_decimal};

verus! {

/// How a fixed character is met at a position: it is there, another one is
/// there, or the text ends before it.
#[derive(Clone, Copy, Debug, PartialEq, Eq, Structural)]
pub enum Match {
    Found,
    Mismatch,
    EndOfText,
}

/// What reading one line as a task gives.
pub enum LineParse {
    /// A task, and the position just after its line ending.
    Task(TaskView, int),
    /// The line is not a task line.
    NotTask,
    /// The text ends inside a line that starts like a task line (with `- [`) but is cut
    /// short before its colon.
    EndOfText,
    /// A task line whose id or parent id does not fit in 16 bits.
    IdTooLarge,
}

/// What reading a whole file gives.
pub enum MdParse {
    Tasks(Seq<TaskView>),
    Malformed,
    IdTooLarge,
}

pub open spec fn is_blank(c: char) -> bool {
    c == ' ' || c == '\t'
}

/// The first position from `p` on that does not hold a space or a tab.
pub open spec fn skip_blanks(t: Seq<char>, p: int) -> int
    decreases t.len() - p,
{
    if 0 <= p < t.len() && is_blank(t[p]) {
        skip_blanks(t, p + 1)
    } else {
        p
    }
}

/// The first position from `p` on that does not hold a decimal digit.
pub open spec fn skip_digits(t: Seq<char>, p: int) -> int
    decreases t.len() - p,
{
    if 0 <= p < t.len() && is_digit(t[p]) {
        skip_digits(t, p + 1)
    } else {
        p
    }
}

/// The number written by the digits in `[a, b)`.
pub open spec fn number(t: Seq<char>, a: int, b: int) -> nat {
    seq_number(t.subrange(a, b))
}

pub open spec fn match_char(t: Seq<char>, p: int, c: char) -> Match {
    if p >= t.len() {
        Match::EndOfText
    } else if t[p] == c {
        Match::Found
    } else {
        Match::Mismatch
    }
}

/// Matching `- [` at `p`.
pub open spec fn match_open(t: Seq<char>, p: int) -> Match {
    match match_char(t, p, '-') {
        Match::Found => match match_char(t, p + 1, ' ') {
            Match::Found => match_char(t, p + 2, '['),
            m => m,
        },
        m => m,
    }
}

/// Where the line that goes on at `g` ends: the end of its text, and the position after
/// its line ending (`\n` or `\r\n`); both are the end of the text on the last line.
pub open spec fn line_end(t: Seq<char>, g: int) -> (int, int)
    decreases t.len() - g,
{
    if g < 0 || g >= t.len() {
        (t.len() as int, t.len() as int)
    } else if t[g] == '\n' {
        (g, g + 1)
    } else if t[g] == '\r' && g + 1 < t.len() && t[g + 1] == '\n' {
        (g, g + 2)
    } else {
        line_end(t, g + 1)
    }
}

/// The position after the first `\n` from `p` on, if there is one.
pub open spec fn next_line(t: Seq<char>, p: int) -> Option<int>
    decreases t.len() - p,
{
    if p < 0 || p >= t.len() {
        None
    } else if t[p] == '\n' {
        Some(p + 1)
    } else {
        next_line(t, p + 1)
    }
}

/// Reading the line that starts at `p` as a task line.
pub open spec fn parse_line(t: Seq<char>, p: int) -> LineParse {
    let a = skip_blanks(t, p);
    match match_open(t, a) {
        Match::EndOfText => LineParse::NotTask,
        Match::Mismatch => LineParse::NotTask,
        Match::Found => {
            let b = a + 3;
            if b >= t.len() {
                LineParse::EndOfText
            } else if t[b] != ' ' && t[b] != 'x' {
                LineParse::NotTask
            } else {
                let status = if t[b] == ' ' { Status::Todo } else { Status::Done };
                match match_char(t, b + 1, ']') {
                    Match::EndOfText => LineParse::EndOfText,
                    Match::Mismatch => LineParse::NotTask,
                    Match::Found => {
                        let d = skip_blanks(t, b + 2);
                        let e = skip_digits(t, d);
                        if e == d {
                            LineParse::NotTask
                        } else if e >= t.len() {
                            LineParse::EndOfText
                        } else {
                            let e2 = skip_digits(t, e + 1);
                            let has_second = t[e] == '/' && e2 > e + 1;
                            let f = if has_second { e2 } else { e };
                            match match_char(t, f, ':') {
                                Match::EndOfText => LineParse::EndOfText,
                                Match::Mismatch => LineParse::NotTask,
                                Match::Found => {
                                    let first = number(t, d, e);
                                    let second = number(t, e + 1, e2);
                                    if first > u16::MAX || (has_second && second > u16::MAX) {
                                        LineParse::IdTooLarge
                                    } else {
                                        let g = skip_blanks(t, f + 1);
                                        let (name_end, next) = line_end(t, g);
                                        LineParse::Task(
                                            TaskView {
                                                id: if has_second { second as u16 } else { first as u16 },
                                                parent_id: if has_second { Some(first as u16) } else { None },
                                                name: t.subrange(g, name_end),
                                                status,
                                            },
                                            next,
                                        )
                                    }
                                },
                            }
                        }
                    },
                }
            }
        },
    }
}

pub proof fn lemma_skip_blanks(t: Seq<char>, p: int)
    requires
        0 <= p <= t.len(),
    ensures
        p <= skip_blanks(t, p) <= t.len(),
        skip_blanks(t, p) < t.len() ==> !is_blank(t[skip_blanks(t, p)]),
        forall|k: int| p <= k < skip_blanks(t, p) ==> is_blank(#[trigger] t[k]),
    decreases t.len() - p,
{
    if p < t.len() && is_blank(t[p]) {
        lemma_skip_blanks(t, p + 1);
    }
}

pub proof fn lemma_skip_digits(t: Seq<char>, p: int)
    requires
        0 <= p <= t.len(),
    ensures
        p <= skip_digits(t, p) <= t.len(),
        skip_digits(t, p) < t.len() ==> !is_digit(t[skip_digits(t, p)]),
        forall|k: int| p <= k < skip_digits(t, p) ==> is_digit(#[trigger] t[k]),
    decreases t.len() - p,
{
    if p < t.len() && is_digit(t[p]) {
        lemma_skip_digits(t, p + 1);
    }
}

pub proof fn lemma_line_end(t: Seq<char>, g: int)
    requires
        0 <= g <= t.len(),
    ensures
        g <= line_end(t, g).0 <= line_end(t, g).1 <= t.len(),
        line_end(t, g).1 > g || g == t.len(),
        forall|j: int| g <= j < line_end(t, g).0 ==> #[trigger] t[j] != '\n',
    decreases t.len() - g,
{
    if g < t.len() && t[g] != '\n' && !(t[g] == '\r' && g + 1 < t.len() && t[g + 1] == '\n') {
        lemma_line_end(t, g + 1);
    }
}

pub proof fn lemma_next_line(t: Seq<char>, p: int)
    requires
        0 <= p <= t.len(),
    ensures
        next_line(t, p) matches Some(q) ==> {
            &&& p < q <= t.len()
            &&& t[q - 1] == '\n'
            &&& forall|j: int| p <= j < q - 1 ==> #[trigger] t[j] != '\n'
        },
        next_line(t, p) is None ==> forall|j: int| p <= j < t.len() ==> #[trigger] t[j] != '\n',
    decreases t.len() - p,
{
    if p < t.len() && t[p] != '\n' {
        lemma_next_line(t, p + 1);
    }
}

/// A task line, when read, always moves past the position it started at.
pub proof fn lemma_line_progress(t: Seq<char>, p: int)
    requires
        0 <= p < t.len(),
    ensures
        parse_line(t, p) matches LineParse::Task(_, q) ==> p < q <= t.len(),
        next_line(t, p) matches Some(q) ==> p < q <= t.len(),
{
    lemma_next_line(t, p);
    lemma_skip_blanks(t, p);
    let a = skip_blanks(t, p);
    if match_open(t, a) == Match::Found && a + 3 < t.len() && match_char(t, a + 4, ']')
        == Match::Found {
        lemma_skip_blanks(t, a + 5);
        let d = skip_blanks(t, a + 5);
        lemma_skip_digits(t, d);
        let e = skip_digits(t, d);
        if e < t.len() {
            lemma_skip_digits(t, e + 1);
            let e2 = skip_digits(t, e + 1);
            let has_second = t[e] == '/' && e2 > e + 1;
            let f = if has_second { e2 } else { e };
            if f < t.len() {
                lemma_skip_blanks(t, f + 1);
                lemma_line_end(t, skip_blanks(t, f + 1));
            }
        }
    }
}

/// The shape of a line read as a task, stated directly: spaces or tabs, `- [`, a space
/// or `x` for the status, `]`, spaces or tabs, the id in digits or `parent/id`, `:`,
/// spaces or tabs, and then the name, which runs up to the line ending.
pub open spec fn task_line_shape(t: Seq<char>, p: int, x: TaskView, q: int, a: int, d: int, e: int, f: int, g: int) -> bool {
    &&& p <= a && a + 5 <= d && d < e && e <= f && f < g && g <= t.len()
    &&& forall|k: int| p <= k < a ==> is_blank(#[trigger] t[k])
    &&& t[a] == '-' && t[a + 1] == ' ' && t[a + 2] == '[' && t[a + 3] == status_mark(x.status)
        && t[a + 4] == ']'
    &&& forall|k: int| a + 5 <= k < d ==> is_blank(#[trigger] t[k])
    &&& forall|k: int| d <= k < e ==> is_digit(#[trigger] t[k])
    &&& match x.parent_id {
        None => f == e && x.id as nat == number(t, d, e),
        Some(pid) => {
            &&& pid as nat == number(t, d, e)
            &&& t[e] == '/' && e + 1 < f
            &&& forall|k: int| e + 1 <= k < f ==> is_digit(#[trigger] t[k])
            &&& x.id as nat == number(t, e + 1, f)
        },
    }
    &&& t[f] == ':'
    &&& forall|k: int| f + 1 <= k < g ==> is_blank(#[trigger] t[k])
    &&& x.name == t.subrange(g, line_end(t, g).0)
    &&& q == line_end(t, g).1
}

proof fn lemma_skip_blanks_run(t: Seq<char>, a: int, b: int)
    requires
        0 <= a <= b <= t.len(),
        forall|k: int| a <= k < b ==> is_blank(#[trigger] t[k]),
        b < t.len() ==> !is_blank(t[b]),
    ensures
        skip_blanks(t, a) == b,
    decreases b - a,
{
    if a < b {
        lemma_skip_blanks_run(t, a + 1, b);
    }
}

proof fn lemma_skip_digits_upto(t: Seq<char>, a: int, b: int)
    requires
        0 <= a <= b < t.len(),
        forall|k: int| a <= k < b ==> is_digit(#[trigger] t[k]),
        !is_digit(t[b]),
    ensures
        skip_digits(t, a) == b,
    decreases b - a,
{
    if a < b {
        lemma_skip_digits_upto(t, a + 1, b);
    }
}

/// A line of that shape, whose blank runs go as far as they can, is read as that task.
pub proof fn lemma_shape_is_task_line(
    t: Seq<char>,
    p: int,
    x: TaskView,
    q: int,
    a: int,
    d: int,
    e: int,
    f: int,
    g: int,
)
    requires
        0 <= p,
        task_line_shape(t, p, x, q, a, d, e, f, g),
        g < t.len() ==> !is_blank(t[g]),
    ensures
        parse_line(t, p) == LineParse::Task(x, q),
{
    lemma_skip_blanks_run(t, p, a);
    assert(t[a + 3] == ' ' || t[a + 3] == 'x');
    assert(is_digit(t[d]));
    lemma_skip_blanks_run(t, a + 5, d);
    lemma_skip_blanks_run(t, f + 1, g);
    lemma_skip_digits(t, d);
    lemma_skip_digits(t, e + 1);
    match x.parent_id {
        None => {
            lemma_skip_digits_upto(t, d, e);
        },
        Some(pid) => {
            lemma_skip_digits_upto(t, d, e);
            lemma_skip_digits_upto(t, e + 1, f);
        },
    }
    assert(match_open(t, a) == Match::Found);
    assert(x.status == if t[a + 3] == ' ' { Status::Todo } else { Status::Done });
}

/// `r` with the tasks `acc` put in front, when it holds tasks.
pub open spec fn prepend(acc: Seq<TaskView>, r: MdParse) -> MdParse {
    match r {
        MdParse::Tasks(s) => MdParse::Tasks(acc + s),
        other => other,
    }
}

/// The line at `p` starts, after spaces and tabs, with `- [`.
pub open spec fn opens_like_task(t: Seq<char>, p: int) -> bool {
    match_open(t, skip_blanks(t, p)) == Match::Found
}

/// Reading the text from `p` on: task lines become tasks, and every other line that
/// ends in a line break is skipped. The last line, when it has no line break, is
/// skipped too if it does not start (after spaces and tabs) with `- [`; if it starts
/// with `- [` without being a whole task line, the text is malformed.
pub open spec fn parse_md_from(t: Seq<char>, p: int) -> MdParse
    decreases t.len() - p,
{
    if !(0 <= p < t.len()) {
        MdParse::Tasks(Seq::empty())
    } else {
        proof {
            lemma_line_progress(t, p);
        }
        match parse_line(t, p) {
            LineParse::Task(task, q) => prepend(seq![task], parse_md_from(t, q)),
            LineParse::NotTask => match next_line(t, p) {
                Some(q) => parse_md_from(t, q),
                None => if opens_like_task(t, p) {
                    MdParse::Malformed
                } else {
                    MdParse::Tasks(Seq::empty())
                },
            },
            LineParse::EndOfText => MdParse::Malformed,
            LineParse::IdTooLarge => MdParse::IdTooLarge,
        }
    }
}

/// Reading a whole markdown text.
pub open spec fn parse_md(t: Seq<char>) -> MdParse {
    parse_md_from(t, 0)
}


/// What reading one line gives, with the task built.
pub enum LineOutcome {
    Task(Task, usize),
    NotTask,
    EndOfText,
    IdTooLarge,
}

impl View for LineOutcome {
    type V = LineParse;

    open spec fn view(&self) -> LineParse {
        match self {
            LineOutcome::Task(t, q) => LineParse::Task(t@, *q as int),
            LineOutcome::NotTask => LineParse::NotTask,
            LineOutcome::EndOfText => LineParse::EndOfText,
            LineOutcome::IdTooLarge => LineParse::IdTooLarge,
        }
    }
}

/// What reading a markdown text gives.
pub enum ParseOutcome {
    Tasks(Vec<Task>),
    Malformed,
    IdTooLarge,
}

impl View for ParseOutcome {
    type V = MdParse;

    open spec fn view(&self) -> MdParse {
        match self {
            ParseOutcome::Tasks(ts) => MdParse::Tasks(tasks_view(ts@)),
            ParseOutcome::Malformed => MdParse::Malformed,
            ParseOutcome::IdTooLarge => MdParse::IdTooLarge,
        }
    }
}

/// The characters of `s`.
pub fn to_chars(s: &str) -> (v: Vec<char>)
    ensures
        v@ == s@,
{
    let mut v: Vec<char> = Vec::new();
    for c in it: s.chars()
        invariant
            v@ == it.seq().take(it.index() as int),
    {
        v.push(c);
    }
    v
}

fn skip_blanks_at(v: &Vec<char>, p: usize) -> (r: usize)
    requires
        p <= v.len(),
    ensures
        r == skip_blanks(v@, p as int),
        p <= r <= v.len(),
{
    let mut i = p;
    while i < v.len() && (v[i] == ' ' || v[i] == '\t')
        invariant
            p <= i <= v.len(),
            skip_blanks(v@, i as int) == skip_blanks(v@, p as int),
        decreases v.len() - i,
    {
        i = i + 1;
    }
    i
}

fn skip_digits_at(v: &Vec<char>, p: usize) -> (r: usize)
    requires
        p <= v.len(),
    ensures
        r == skip_digits(v@, p as int),
        p <= r <= v.len(),
        forall|k: int| p <= k < r ==> is_digit(#[trigger] v@[k]),
{
    let mut i = p;
    while i < v.len() && ('0' <= v[i] && v[i] <= '9')
        invariant
            p <= i <= v.len(),
            skip_digits(v@, i as int) == skip_digits(v@, p as int),
            forall|k: int| p <= k < i ==> is_digit(#[trigger] v@[k]),
        decreases v.len() - i,
    {
        i = i + 1;
    }
    i
}

/// A longer run of digits never writes a smaller number.
pub proof fn lemma_number_grows(t: Seq<char>, a: int, i: int, j: int)
    requires
        0 <= a <= i <= j <= t.len(),
    ensures
        number(t, a, i) <= number(t, a, j),
    decreases j - i,
{
    if i < j {
        lemma_number_grows(t, a, i, j - 1);
        assert(t.subrange(a, j).drop_last() =~= t.subrange(a, j - 1));
    }
}

/// The number written by the digits in `[a, b)`, if it fits in 16 bits.
fn number_at(v: &Vec<char>, a: usize, b: usize) -> (r: Option<u16>)
    requires
        a <= b <= v.len(),
        forall|k: int| a <= k < b ==> is_digit(#[trigger] v@[k]),
    ensures
        r is None <==> number(v@, a as int, b as int) > u16::MAX,
        r matches Some(n) ==> n as nat == number(v@, a as int, b as int),
{
    let mut acc: u32 = 0;
    let mut i = a;
    assert(v@.subrange(a as int, a as int) =~= Seq::<char>::empty());
    while i < b
        invariant
            a <= i <= b <= v.len(),
            forall|k: int| a <= k < b ==> is_digit(#[trigger] v@[k]),
            acc as nat == number(v@, a as int, i as int),
            acc <= u16::MAX,
        decreases b - i,
    {
        assert(is_digit(v@[i as int]));
        let d = (v[i] as u32) - ('0' as u32);
        assert(v@.subrange(a as int, i + 1).drop_last() =~= v@.subrange(a as int, i as int));
        let next = acc * 10 + d;
        if next > 65535 {
            proof {
                lemma_number_grows(v@, a as int, i + 1, b as int);
            }
            return None;
        }
        acc = next;
        i = i + 1;
    }
    Some(acc as u16)
}

fn match_char_at(v: &Vec<char>, p: usize, c: char) -> (r: Match)
    ensures
        r == match_char(v@, p as int, c),
{
    if p >= v.len() {
        Match::EndOfText
    } else if v[p] == c {
        Match::Found
    } else {
        Match::Mismatch
    }
}

fn match_open_at(v: &Vec<char>, p: usize) -> (r: Match)
    requires
        p <= v.len(),
    ensures
        r == match_open(v@, p as int),
{
    match match_char_at(v, p, '-') {
        Match::Found => match match_char_at(v, p + 1, ' ') {
            Match::Found => match_char_at(v, p + 2, '['),
            m => m,
        },
        m => m,
    }
}

fn line_end_at(v: &Vec<char>, g: usize) -> (r: (usize, usize))
    requires
        g <= v.len(),
    ensures
        r.0 as int == line_end(v@, g as int).0,
        r.1 as int == line_end(v@, g as int).1,
        g <= r.0 <= r.1 <= v.len(),
{
    let n = v.len();
    let mut i = g;
    while i < n
        invariant
            n == v.len(),
            g <= i <= n,
            line_end(v@, i as int) == line_end(v@, g as int),
        decreases n - i,
    {
        if v[i] == '\n' {
            return (i, i + 1);
        }
        if v[i] == '\r' && i + 1 < n && v[i + 1] == '\n' {
            return (i, i + 2);
        }
        i = i + 1;
    }
    (n, n)
}

fn next_line_at(v: &Vec<char>, p: usize) -> (r: Option<usize>)
    requires
        p <= v.len(),
    ensures
        r matches Some(q) ==> next_line(v@, p as int) == Some(q as int),
        r is None ==> next_line(v@, p as int) is None,
{
    let n = v.len();
    let mut i = p;
    while i < n
        invariant
            n == v.len(),
            p <= i <= n,
            next_line(v@, i as int) == next_line(v@, p as int),
        decreases n - i,
    {
        if v[i] == '\n' {
            return Some(i + 1);
        }
        i = i + 1;
    }
    None
}

/// Reads the line of `text` that starts at `p` as a task line.
fn parse_line_at(text: &str, v: &Vec<char>, p: usize) -> (r: LineOutcome)
    requires
        v@ == text@,
        p < v.len(),
    ensures
        r@ == parse_line(v@, p as int),
{
    let ghost t = v@;
    let a = skip_blanks_at(v, p);
    match match_open_at(v, a) {
        Match::EndOfText => LineOutcome::NotTask,
        Match::Mismatch => LineOutcome::NotTask,
        Match::Found => {
            let b = a + 3;
            if b >= v.len() {
                LineOutcome::EndOfText
            } else if v[b] != ' ' && v[b] != 'x' {
                LineOutcome::NotTask
            } else {
                let status = if v[b] == ' ' { Status::Todo } else { Status::Done };
                match match_char_at(v, b + 1, ']') {
                    Match::EndOfText => LineOutcome::EndOfText,
                    Match::Mismatch => LineOutcome::NotTask,
                    Match::Found => {
                        let d = skip_blanks_at(v, b + 2);
                        let e = skip_digits_at(v, d);
                        if e == d {
                            LineOutcome::NotTask
                        } else if e >= v.len() {
                            LineOutcome::EndOfText
                        } else {
                            let e2 = skip_digits_at(v, e + 1);
                            let has_second = v[e] == '/' && e2 > e + 1;
                            let f = if has_second { e2 } else { e };
                            match match_char_at(v, f, ':') {
                                Match::EndOfText => LineOutcome::EndOfText,
                                Match::Mismatch => LineOutcome::NotTask,
                                Match::Found => {
                                    let first = number_at(v, d, e);
                                    let second = if has_second { number_at(v, e + 1, e2) } else { Some(0) };
                                    match (first, second) {
                                        (Some(first), Some(second)) => {
                                            let g = skip_blanks_at(v, f + 1);
                                            let (name_end, next) = line_end_at(v, g);
                                            let name = text.substring_char(g, name_end).to_owned();
                                            let task = Task {
                                                id: if has_second { second } else { first },
                                                parent_id: if has_second { Some(first) } else { None },
                                                name,
                                                status,
                                            };
                                            LineOutcome::Task(task, next)
                                        },
                                        _ => LineOutcome::IdTooLarge,
                                    }
                                },
                            }
                        }
                    },
                }
            }
        },
    }
}

impl List {
    /// Reads every task line of a markdown text, in order.
    pub fn parse_outcome(raw_md_text: &str) -> (r: ParseOutcome)
        ensures
            r@ == parse_md(raw_md_text@),
    {
        let v = to_chars(raw_md_text);
        let mut tasks: Vec<Task> = Vec::new();
        let mut pos: usize = 0;
        assert(tasks_view(tasks@) =~= Seq::<TaskView>::empty());
        assert(prepend(Seq::empty(), parse_md_from(v@, 0)) =~= parse_md_from(v@, 0)) by {
            match parse_md_from(v@, 0) {
                MdParse::Tasks(s) => {
                    assert(Seq::<TaskView>::empty() + s =~= s);
                },
                _ => {},
            }
        }
        while pos < v.len()
            invariant
                pos <= v.len(),
                v@ == raw_md_text@,
                prepend(tasks_view(tasks@), parse_md_from(v@, pos as int)) == parse_md_from(v@, 0),
            decreases v.len() - pos,
        {
            proof {
                lemma_line_progress(v@, pos as int);
            }
            let ghost before = tasks_view(tasks@);
            match parse_line_at(raw_md_text, &v, pos) {
                LineOutcome::Task(task, q) => {
                    let ghost tv = task@;
                    tasks.push(task);
                    assert(tasks_view(tasks@) =~= before.push(tv));
                    proof {
                        match parse_md_from(v@, q as int) {
                            MdParse::Tasks(s) => {
                                assert(before + (seq![tv] + s) =~= before.push(tv) + s);
                            },
                            _ => {},
                        }
                    }
                    pos = q;
                },
                LineOutcome::NotTask => {
                    match next_line_at(&v, pos) {
                        Some(q) => {
                            pos = q;
                        },
                        None => {
                            let a = skip_blanks_at(&v, pos);
                            if match_open_at(&v, a) == Match::Found {
                                return ParseOutcome::Malformed;
                            }
                            pos = v.len();
                        },
                    }
                },
                LineOutcome::EndOfText => {
                    return ParseOutcome::Malformed;
                },
                LineOutcome::IdTooLarge => {
                    return ParseOutcome::IdTooLarge;
                },
            }
        }
        proof {
            assert(tasks_view(tasks@) + Seq::<TaskView>::empty() =~= tasks_view(tasks@));
        }
        ParseOutcome::Tasks(tasks)
    }
}


/// The markdown text could not be read as a task list.
#[derive(Clone, Copy, Debug, PartialEq, Eq, Structural)]
pub struct ParseError;

impl List {
    /// Parses the list from markdown. The ids are taken as written; the next new
    /// task gets the id 1.
    pub fn parse_from_md(raw_md_text: &str) -> (r: Result<List, ParseError>)
        requires
            !(parse_md(raw_md_text@) is IdTooLarge),
        ensures
            r is Ok <==> parse_md(raw_md_text@) is Tasks,
            r matches Ok(l) ==> parse_md(raw_md_text@) == MdParse::Tasks(l@.tasks) && l@.next_id
                == 1,
    {
        match List::parse_outcome(raw_md_text) {
            ParseOutcome::Tasks(tasks) => Ok(List { tasks, next_id: 1 }),
            _ => Err(ParseError),
        }
    }
}

/// The mark between the brackets of a task line.
pub open spec fn status_mark(s: Status) -> char {
    match s {
        Status::Todo => ' ',
        Status::Done => 'x',
    }
}

/// The line that stands for a task, line ending included.
pub open spec fn task_line(t: TaskView) -> Seq<char> {
    seq!['-', ' ', '[', status_mark(t.status), ']', ' '] + match t.parent_id {
        Some(p) => decimal(p as nat).push('/'),
        None => Seq::empty(),
    } + decimal(t.id as nat) + seq![':', ' '] + t.name + seq!['\n']
}

/// The markdown text of a task list: its task lines, one after another.
pub open spec fn md_text(ts: Seq<TaskView>) -> Seq<char>
    decreases ts.len(),
{
    if ts.len() == 0 {
        Seq::empty()
    } else {
        task_line(ts[0]) + md_text(ts.drop_first())
    }
}

pub proof fn lemma_md_text_push(ts: Seq<TaskView>, x: TaskView)
    ensures
        md_text(ts.push(x)) == md_text(ts) + task_line(x),
    decreases ts.len(),
{
    if ts.len() == 0 {
        assert(ts.push(x).drop_first() =~= Seq::<TaskView>::empty());
        assert(md_text(ts.push(x).drop_first()) == Seq::<char>::empty());
        assert(md_text(ts) == Seq::<char>::empty());
        assert(md_text(ts.push(x)) =~= md_text(ts) + task_line(x));
    } else {
        lemma_md_text_push(ts.drop_first(), x);
        assert(ts.push(x).drop_first() =~= ts.drop_first().push(x));
        assert(ts.push(x)[0] == ts[0]);
        assert(md_text(ts.push(x)) == task_line(ts[0]) + (md_text(ts.drop_first()) + task_line(x)));
        assert(md_text(ts.push(x)) =~= md_text(ts) + task_line(x));
    }
}

fn push_task_line(s: &mut String, task: &Task)
    ensures
        final(s)@ == old(s)@ + task_line(task@),
{
    proof {
        reveal_strlit("- [");
        reveal_strlit(" ");
        reveal_strlit("x");
        reveal_strlit("] ");
        reveal_strlit("/");
        reveal_strlit(": ");
        reveal_strlit("\n");
    }
    let ghost s0 = s@;
    s.append("- [");
    match task.status {
        Status::Todo => s.append(" "),
        Status::Done => s.append("x"),
    }
    s.append("] ");
    let ghost s1 = s@;
    assert(s1 =~= s0 + seq!['-', ' ', '[', status_mark(task.status), ']', ' ']);
    match task.parent_id {
        Some(p) => {
            push_decimal(s, p);
            s.append("/");
        },
        None => {},
    }
    let ghost s2 = s@;
    assert(s2 =~= s1 + match task.parent_id {
        Some(p) => decimal(p as nat).push('/'),
        None => Seq::empty(),
    });
    push_decimal(s, task.id);
    s.append(": ");
    s.append(task.name.as_str());
    s.append("\n");
    assert(s@ =~= old(s)@ + task_line(task@));
}

impl List {
    /// Writes the list as markdown: one task line per task, in order; nothing else
    /// of a file it was read from is kept.
    pub fn save_to_md(&self) -> (s: String)
        ensures
            s@ == md_text(self@.tasks),
    {
        let mut s = String::new();
        let n = self.tasks.len();
        assert(self@.tasks.take(0) =~= Seq::<TaskView>::empty());
        for i in 0..n
            invariant
                n == self.tasks.len(),
                s@ == md_text(self@.tasks.take(i as int)),
        {
            push_task_line(&mut s, &self.tasks[i]);
            proof {
                lemma_md_text_push(self@.tasks.take(i as int), self@.tasks[i as int]);
                assert(self@.tasks.take(i + 1) =~= self@.tasks.take(i as int).push(
                    self@.tasks[i as int],
                ));
            }
        }
        assert(self@.tasks.take(n as int) =~= self@.tasks);
        s
    }
}


/// A name that a task line carries through writing and reading unchanged: no line
/// break in it, no space or tab in front (they would be taken for the gap after the
/// colon), and no carriage return at its end (it would be taken for a line ending).
pub open spec fn storable_name(n: Seq<char>) -> bool {
    &&& forall|i: int| 0 <= i < n.len() ==> n[i] != '\n'
    &&& n.len() > 0 ==> !is_blank(n[0]) && n.last() != '\r'
}

proof fn lemma_skip_digits_run(t: Seq<char>, a: int, k: int)
    requires
        0 <= a,
        0 <= k,
        a + k < t.len(),
        forall|j: int| a <= j < a + k ==> is_digit(#[trigger] t[j]),
        !is_digit(t[a + k]),
    ensures
        skip_digits(t, a) == a + k,
    decreases k,
{
    if k > 0 {
        lemma_skip_digits_run(t, a + 1, k - 1);
    }
}

proof fn lemma_line_end_run(t: Seq<char>, g: int, k: int)
    requires
        0 <= g,
        0 <= k,
        g + k < t.len(),
        forall|j: int| g <= j < g + k ==> #[trigger] t[j] != '\n',
        forall|j: int| g <= j < g + k ==> !(#[trigger] t[j] == '\r' && t[j + 1] == '\n'),
        t[g + k] == '\n',
    ensures
        line_end(t, g) == (g + k, g + k + 1),
    decreases k,
{
    if k > 0 {
        lemma_line_end_run(t, g + 1, k - 1);
    }
}

/// The line written for a task reads back as that task, whatever follows it.
pub proof fn lemma_task_line_parses(t: Seq<char>, p: int, x: TaskView)
    requires
        0 <= p,
        p + task_line(x).len() <= t.len(),
        t.subrange(p, p + task_line(x).len()) == task_line(x),
        storable_name(x.name),
    ensures
        parse_line(t, p) == LineParse::Task(x, p + task_line(x).len()),
{
    let head = seq!['-', ' ', '[', status_mark(x.status), ']', ' '];
    let par = match x.parent_id {
        Some(q) => decimal(q as nat).push('/'),
        None => Seq::<char>::empty(),
    };
    let dd = decimal(x.id as nat);
    let line = task_line(x);
    let hp = p + 6;
    let pe = hp + par.len();
    let de = pe + dd.len();
    let ce = de + 2;
    let ne = ce + x.name.len();
    lemma_decimal(x.id as nat);
    assert(ne + 1 == p + line.len());
    assert forall|k: int| 0 <= k < line.len() implies #[trigger] t[p + k] == line[k] by {
        assert(t.subrange(p, p + line.len())[k] == t[p + k]);
    }
    assert forall|j: int| p <= j < p + 6 implies #[trigger] t[j] == head[j - p] by {
        assert(t[p + (j - p)] == line[j - p]);
    }
    assert forall|j: int| pe <= j < de implies #[trigger] t[j] == dd[j - pe] by {
        assert(t[p + (j - p)] == line[j - p]);
    }
    assert forall|j: int| ce <= j < ne implies #[trigger] t[j] == x.name[j - ce] by {
        assert(t[p + (j - p)] == line[j - p]);
    }
    assert(t[de] == ':') by {
        assert(t[p + (de - p)] == line[de - p]);
    }
    assert(t[de + 1] == ' ') by {
        assert(t[p + (de + 1 - p)] == line[de + 1 - p]);
    }
    assert(t[ne] == '\n') by {
        assert(t[p + (ne - p)] == line[ne - p]);
    }
    // The opening `- [`, the status mark and `]`.
    assert(t[p] == '-');
    assert(t[p + 1] == ' ');
    assert(t[p + 2] == '[');
    assert(t[p + 3] == status_mark(x.status));
    assert(t[p + 4] == ']');
    assert(t[p + 5] == ' ');
    assert(skip_blanks(t, p) == p);
    assert(match_open(t, p) == Match::Found);
    // The ids.
    assert(is_digit(t[pe])) by {
        assert(t[pe] == dd[0]);
    }
    match x.parent_id {
        Some(q) => {
            let dq = decimal(q as nat);
            lemma_decimal(q as nat);
            assert forall|j: int| hp <= j < hp + dq.len() implies #[trigger] t[j] == dq[j - hp] by {
                assert(t[p + (j - p)] == line[j - p]);
            }
            assert(t[hp + dq.len()] == '/') by {
                assert(t[p + (hp + dq.len() - p)] == line[hp + dq.len() - p]);
            }
            assert(is_digit(t[hp])) by {
                assert(t[hp] == dq[0]);
            }
            assert(skip_blanks(t, p + 6) == hp);
            assert(skip_blanks(t, p + 5) == hp);
            assert forall|j: int| hp <= j < hp + dq.len() implies is_digit(#[trigger] t[j]) by {
                assert(t[j] == dq[j - hp]);
            }
            lemma_skip_digits_run(t, hp, dq.len() as int);
            assert(pe == hp + dq.len() + 1);
            assert forall|j: int| pe <= j < de implies is_digit(#[trigger] t[j]) by {
                assert(t[j] == dd[j - pe]);
            }
            lemma_skip_digits_run(t, pe, dd.len() as int);
            assert(t.subrange(hp, hp + dq.len()) =~= dq);
            assert(t.subrange(pe, de) =~= dd);
        },
        None => {
            assert(pe == hp);
            assert(skip_blanks(t, p + 6) == hp);
            assert(skip_blanks(t, p + 5) == hp);
            assert forall|j: int| pe <= j < de implies is_digit(#[trigger] t[j]) by {
                assert(t[j] == dd[j - pe]);
            }
            lemma_skip_digits_run(t, pe, dd.len() as int);
            assert(t.subrange(pe, de) =~= dd);
        },
    }
    // The name and the line ending.
    if x.name.len() > 0 {
        assert(t[ce] == x.name[0]);
    }
    assert(skip_blanks(t, ce) == ce);
    assert(skip_blanks(t, de + 1) == ce);
    assert forall|j: int| ce <= j < ne implies #[trigger] t[j] != '\n' by {
        assert(t[j] == x.name[j - ce]);
    }
    assert forall|j: int| ce <= j < ne implies !(#[trigger] t[j] == '\r' && t[j + 1] == '\n') by {
        assert(t[j] == x.name[j - ce]);
        if j + 1 < ne {
            assert(t[j + 1] == x.name[j + 1 - ce]);
        } else {
            assert(x.name.last() == x.name[j - ce]);
        }
    }
    lemma_line_end_run(t, ce, x.name.len() as int);
    assert(t.subrange(ce, ne) =~= x.name);
}

proof fn lemma_lines_parse(pre: Seq<char>, ts: Seq<TaskView>)
    requires
        forall|i: int| 0 <= i < ts.len() ==> storable_name(#[trigger] ts[i].name),
    ensures
        parse_md_from(pre + md_text(ts), pre.len() as int) == MdParse::Tasks(ts),
    decreases ts.len(),
{
    if ts.len() == 0 {
        assert(md_text(ts) == Seq::<char>::empty());
        assert(pre + md_text(ts) =~= pre);
        assert(ts =~= Seq::<TaskView>::empty());
    } else {
        let line = task_line(ts[0]);
        let rest = ts.drop_first();
        let t = pre + md_text(ts);
        assert(t =~= (pre + line) + md_text(rest));
        assert(t.subrange(pre.len() as int, (pre.len() + line.len()) as int) =~= line);
        assert(storable_name(ts[0].name));
        lemma_task_line_parses(t, pre.len() as int, ts[0]);
        assert forall|i: int| 0 <= i < rest.len() implies storable_name(#[trigger] rest[i].name) by {
            assert(rest[i] == ts[i + 1]);
        }
        lemma_lines_parse(pre + line, rest);
        assert((pre + line).len() == pre.len() + line.len());
        assert(seq![ts[0]] + rest =~= ts);
    }
}

/// Reading back what `save_to_md` writes gives the same tasks, in the same order,
/// as long as every name is storable.
pub proof fn lemma_save_then_parse(ts: Seq<TaskView>)
    requires
        forall|i: int| 0 <= i < ts.len() ==> storable_name(#[trigger] ts[i].name),
    ensures
        parse_md(md_text(ts)) == MdParse::Tasks(ts),
{
    lemma_lines_parse(Seq::empty(), ts);
    assert(Seq::<char>::empty() + md_text(ts) =~= md_text(ts));
}


/// A name read from a text never holds a line break and never starts with a space or
/// a tab.
proof fn lemma_read_names(t: Seq<char>, p: int)
    requires
        0 <= p,
    ensures
        parse_md_from(t, p) matches MdParse::Tasks(ts) ==> forall|i: int|
            0 <= i < ts.len() ==> {
                &&& forall|j: int| 0 <= j < ts[i].name.len() ==> #[trigger] ts[i].name[j] != '\n'
                &&& ts[i].name.len() > 0 ==> !is_blank(ts[i].name[0])
            },
    decreases t.len() - p,
{
    if p < t.len() {
        lemma_line_progress(t, p);
        match parse_line(t, p) {
            LineParse::Task(task, q) => {
                lemma_read_names(t, q);
                // Follow the positions of the line to where its name starts.
                let a = skip_blanks(t, p);
                lemma_skip_blanks(t, p);
                let d = skip_blanks(t, a + 5);
                lemma_skip_blanks(t, a + 5);
                let e = skip_digits(t, d);
                lemma_skip_digits(t, d);
                let e2 = skip_digits(t, e + 1);
                lemma_skip_digits(t, e + 1);
                let has_second = t[e] == '/' && e2 > e + 1;
                let f = if has_second { e2 } else { e };
                let g = skip_blanks(t, f + 1);
                lemma_skip_blanks(t, f + 1);
                lemma_line_end(t, g);
                assert(task.name == t.subrange(g, line_end(t, g).0));
                assert forall|j: int| 0 <= j < task.name.len() implies #[trigger] task.name[j]
                    != '\n' by {
                    assert(task.name[j] == t[g + j]);
                }
                match parse_md_from(t, q) {
                    MdParse::Tasks(rest) => {
                        let ts = seq![task] + rest;
                        assert forall|i: int| 0 <= i < ts.len() implies {
                            &&& forall|j: int| 0 <= j < ts[i].name.len() ==> #[trigger] ts[i].name[j] != '\n'
                            &&& ts[i].name.len() > 0 ==> !is_blank(ts[i].name[0])
                        } by {
                            if i > 0 {
                                assert(ts[i] == rest[i - 1]);
                            }
                        }
                    },
                    _ => {},
                }
            },
            LineParse::NotTask => {
                if let Some(q) = next_line(t, p) {
                    lemma_read_names(t, q);
                }
            },
            _ => {},
        }
    }
}

/// Writing out the tasks read from a text and reading that back gives the same
/// tasks, unless a name read ends in a carriage return: rewriting the file in its
/// own format drops every line that is not a task line and keeps the tasks.
pub proof fn lemma_rewrite_keeps_tasks(t: Seq<char>, ts: Seq<TaskView>)
    requires
        parse_md(t) == MdParse::Tasks(ts),
        forall|i: int| 0 <= i < ts.len() ==> (#[trigger] ts[i].name).len() > 0 ==> ts[i].name.last() != '\r',
    ensures
        parse_md(md_text(ts)) == MdParse::Tasks(ts),
{
    lemma_read_names(t, 0);
    assert forall|i: int| 0 <= i < ts.len() implies storable_name(#[trigger] ts[i].name) by {
        assert(ts[i].name.len() > 0 ==> ts[i].name.last() != '\r');
    }
    lemma_save_then_parse(ts);
}


/// Where the last line starts: just after the last line break, or at 0.
pub open spec fn last_line_start(t: Seq<char>) -> int
    decreases t.len(),
{
    if t.len() == 0 {
        0
    } else if t.last() == '\n' {
        t.len() as int
    } else {
        last_line_start(t.drop_last())
    }
}

/// The line at `p` is a whole task line: it has the shape of one, its blank runs
/// taken as far as they go.
pub open spec fn is_task_line(t: Seq<char>, p: int) -> bool {
    exists|x: TaskView, q: int, a: int, d: int, e: int, f: int, g: int|
        #[trigger] task_line_shape(t, p, x, q, a, d, e, f, g) && (g < t.len() ==> !is_blank(t[g]))
}

/// The last line has no line break, starts with `- [`, and is not a whole task line.
pub open spec fn last_line_is_broken(t: Seq<char>) -> bool {
    let s = last_line_start(t);
    &&& s < t.len()
    &&& opens_like_task(t, s)
    &&& !is_task_line(t, s)
}

proof fn lemma_last_line_start(t: Seq<char>)
    ensures
        0 <= last_line_start(t) <= t.len(),
        forall|j: int| last_line_start(t) <= j < t.len() ==> #[trigger] t[j] != '\n',
        last_line_start(t) > 0 ==> t[last_line_start(t) - 1] == '\n',
    decreases t.len(),
{
    if t.len() > 0 && t.last() != '\n' {
        let u = t.drop_last();
        lemma_last_line_start(u);
        assert forall|j: int| last_line_start(t) <= j < t.len() implies #[trigger] t[j] != '\n' by {
            if j < u.len() {
                assert(t[j] == u[j]);
            }
        }
        if last_line_start(t) > 0 {
            assert(t[last_line_start(t) - 1] == u[last_line_start(u) - 1]);
        }
    }
}

proof fn lemma_line_end_to_newline(t: Seq<char>, g: int, n: int)
    requires
        0 <= g <= n < t.len(),
        t[n] == '\n',
        forall|j: int| g <= j < n ==> #[trigger] t[j] != '\n',
    ensures
        line_end(t, g).1 == n + 1,
    decreases n - g,
{
    if g < n && !(t[g] == '\r' && g + 1 < t.len() && t[g + 1] == '\n') {
        lemma_line_end_to_newline(t, g + 1, n);
    }
}

proof fn lemma_line_end_no_newline(t: Seq<char>, g: int)
    requires
        0 <= g <= t.len(),
        forall|j: int| g <= j < t.len() ==> #[trigger] t[j] != '\n',
    ensures
        line_end(t, g).1 == t.len(),
    decreases t.len() - g,
{
    if g < t.len() {
        lemma_line_end_no_newline(t, g + 1);
    }
}

/// A line is read as a task exactly when it has the shape of a task line.
pub proof fn lemma_task_iff(t: Seq<char>, p: int)
    requires
        0 <= p < t.len(),
    ensures
        parse_line(t, p) is Task <==> is_task_line(t, p),
{
    if let LineParse::Task(x, q) = parse_line(t, p) {
        let a = skip_blanks(t, p);
        lemma_skip_blanks(t, p);
        let d = skip_blanks(t, a + 5);
        lemma_skip_blanks(t, a + 5);
        let e = skip_digits(t, d);
        lemma_skip_digits(t, d);
        let e2 = skip_digits(t, e + 1);
        lemma_skip_digits(t, e + 1);
        let has_second = t[e] == '/' && e2 > e + 1;
        let f = if has_second { e2 } else { e };
        let g = skip_blanks(t, f + 1);
        lemma_skip_blanks(t, f + 1);
        assert(t[a + 3] == status_mark(x.status));
        assert(task_line_shape(t, p, x, q, a, d, e, f, g));
        assert(g < t.len() ==> !is_blank(t[g]));
    }
    if is_task_line(t, p) {
        let (x, q, a, d, e, f, g) = choose|x: TaskView, q: int, a: int, d: int, e: int, f: int, g: int|
            #[trigger] task_line_shape(t, p, x, q, a, d, e, f, g) && (g < t.len() ==> !is_blank(t[g]));
        lemma_shape_is_task_line(t, p, x, q, a, d, e, f, g);
    }
}

/// A line that ends in a line break is never cut short, and a task read from it ends
/// at that line break.
proof fn lemma_line_with_break(t: Seq<char>, p: int, q: int)
    requires
        0 <= p < t.len(),
        next_line(t, p) == Some(q),
    ensures
        !(parse_line(t, p) is EndOfText),
        parse_line(t, p) matches LineParse::Task(_, r) ==> r == q,
{
    lemma_next_line(t, p);
    let n = q - 1;
    assert(t[n] == '\n');
    lemma_skip_blanks(t, p);
    let a = skip_blanks(t, p);
    assert(a <= n) by {
        if a > n {
            assert(is_blank(t[n]));
        }
    }
    if match_open(t, a) == Match::Found {
        assert(a + 2 < n);
        let b = a + 3;
        if t[b] == ' ' || t[b] == 'x' {
            assert(b < n);
            if match_char(t, b + 1, ']') == Match::Found {
                assert(b + 1 < n);
                lemma_skip_blanks(t, b + 2);
                let d = skip_blanks(t, b + 2);
                assert(d <= n) by {
                    if d > n {
                        assert(is_blank(t[n]));
                    }
                }
                lemma_skip_digits(t, d);
                let e = skip_digits(t, d);
                assert(e <= n) by {
                    if e > n {
                        assert(is_digit(t[n]));
                    }
                }
                if e > d {
                    lemma_skip_digits(t, e + 1);
                    let e2 = skip_digits(t, e + 1);
                    let has_second = t[e] == '/' && e2 > e + 1;
                    let f = if has_second { e2 } else { e };
                    if has_second {
                        assert(e < n);
                        assert(e2 <= n) by {
                            if e2 > n {
                                assert(is_digit(t[n]));
                            }
                        }
                    }
                    assert(f <= n);
                    if t[f] == ':' {
                        assert(f < n);
                        lemma_skip_blanks(t, f + 1);
                        let g = skip_blanks(t, f + 1);
                        assert(g <= n) by {
                            if g > n {
                                assert(is_blank(t[n]));
                            }
                        }
                        assert forall|j: int| g <= j < n implies #[trigger] t[j] != '\n' by {
                            assert(p <= j < q - 1);
                        }
                        lemma_line_end_to_newline(t, g, n);
                    }
                }
            }
        }
    }
}

/// On the last line, when it has no line break, a task ends at the end of the text,
/// and a line is only cut short when it starts with `- [`.
proof fn lemma_line_without_break(t: Seq<char>, p: int)
    requires
        0 <= p < t.len(),
        next_line(t, p) is None,
    ensures
        parse_line(t, p) matches LineParse::Task(_, r) ==> r == t.len(),
        parse_line(t, p) is EndOfText ==> opens_like_task(t, p),
{
    lemma_next_line(t, p);
    if let LineParse::Task(_, r) = parse_line(t, p) {
        let a = skip_blanks(t, p);
        lemma_skip_blanks(t, p);
        let d = skip_blanks(t, a + 5);
        lemma_skip_blanks(t, a + 5);
        let e = skip_digits(t, d);
        lemma_skip_digits(t, d);
        let e2 = skip_digits(t, e + 1);
        lemma_skip_digits(t, e + 1);
        let has_second = t[e] == '/' && e2 > e + 1;
        let f = if has_second { e2 } else { e };
        let g = skip_blanks(t, f + 1);
        lemma_skip_blanks(t, f + 1);
        lemma_line_end_no_newline(t, g);
    }
}

proof fn lemma_malformed_from(t: Seq<char>, p: int)
    requires
        0 <= p <= last_line_start(t),
    ensures
        parse_md_from(t, p) is Malformed <==> !(parse_md_from(t, p) is IdTooLarge)
            && last_line_is_broken(t),
    decreases last_line_start(t) - p,
{
    lemma_last_line_start(t);
    let s = last_line_start(t);
    if p == s {
        if p < t.len() {
            lemma_next_line(t, p);
            if let Some(q) = next_line(t, p) {
                assert(t[q - 1] == '\n');
            }
            lemma_line_without_break(t, p);
            lemma_task_iff(t, p);
            lemma_line_progress(t, p);
            assert(parse_md_from(t, t.len() as int) == MdParse::Tasks(Seq::<TaskView>::empty()));
            match parse_line(t, p) {
                LineParse::Task(x, r) => {
                    assert(parse_md_from(t, p) == MdParse::Tasks(seq![x] + Seq::<TaskView>::empty()));
                },
                LineParse::NotTask => {
                    assert(next_line(t, p) is None);
                },
                _ => {},
            }
        }
    } else {
        assert(t[s - 1] == '\n');
        lemma_next_line(t, p);
        let q = next_line(t, p)->0;
        if next_line(t, p) is None {
            assert(t[s - 1] != '\n');
        }
        assert(q <= s) by {
            if q > s {
                assert(t[s - 1] != '\n');
            }
        }
        lemma_line_with_break(t, p, q);
        lemma_malformed_from(t, q);
    }
}

/// When a text is malformed: exactly when no task line in it has an id too large for
/// 16 bits, and its last line has no line break, starts with `- [` and is not a whole
/// task line.
pub proof fn lemma_when_malformed(t: Seq<char>)
    ensures
        parse_md(t) is Malformed <==> !(parse_md(t) is IdTooLarge) && last_line_is_broken(t),
{
    lemma_last_line_start(t);
    lemma_malformed_from(t, 0);
}

} // verus!
