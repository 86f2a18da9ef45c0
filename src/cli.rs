//! Command-line requests: reading the arguments into a command, the lines
//! that `list` prints, and the answer that confirms `clear`.

use vstd::prelude::*;
use crate::codec::{Todo, TodoView};
use crate::decimal::{decimal, lemma_decimal, parse_id, parsed_u64, push_decimal};
use crate::store::{is_space, is_space_char, texts, views};
use crate::tasks::CmdError;
use crate::text::{chars_of, string_of};

verus! {

/// What the command line asks for.
pub enum Command {
    /// Add a task with this text.
    Add(String),
    /// List the tasks; `true` lists the finished ones too.
    List(bool),
    /// Mark the task with this id done.
    Done(u64),
    /// Remove the task with this id.
    Remove(u64),
    /// Give the task with this id a new text.
    Edit(u64, String),
    /// Delete every task, once the user confirms.
    Clear,
    /// Show how to use the program.
    Help,
}

/// What a command holds, with texts as character sequences.
pub enum Request {
    Add(Seq<char>),
    List(bool),
    Done(u64),
    Remove(u64),
    Edit(u64, Seq<char>),
    Clear,
    Help,
}

impl View for Command {
    type V = Request;

    open spec fn view(&self) -> Request {
        match self {
            Command::Add(t) => Request::Add(t@),
            Command::List(all) => Request::List(*all),
            Command::Done(id) => Request::Done(*id),
            Command::Remove(id) => Request::Remove(*id),
            Command::Edit(id, t) => Request::Edit(*id, t@),
            Command::Clear => Request::Clear,
            Command::Help => Request::Help,
        }
    }
}

/// The words joined with single spaces.
pub open spec fn joined(ws: Seq<Seq<char>>) -> Seq<char>
    decreases ws.len(),
{
    if ws.len() == 0 {
        seq![]
    } else if ws.len() == 1 {
        ws[0]
    } else {
        joined(ws.drop_last()) + seq![' '] + ws.last()
    }
}

/// Whether a word of `list` asks for the finished tasks too.
pub open spec fn is_all_flag(w: Seq<char>) -> bool {
    w == "--all"@ || w == "-a"@
}

/// What the arguments (without the program's name) ask for: the first names
/// the command, the rest are its arguments.
pub open spec fn requested(args: Seq<Seq<char>>) -> Result<Request, CmdError> {
    if args.len() == 0 {
        Ok(Request::Help)
    } else {
        let verb = args[0];
        let rest = args.drop_first();
        if verb == "add"@ {
            if rest.len() == 0 || joined(rest).len() == 0 {
                Err(CmdError::AddNeedsText)
            } else {
                Ok(Request::Add(joined(rest)))
            }
        } else if verb == "list"@ {
            Ok(Request::List(exists|i: int| 0 <= i < rest.len() && is_all_flag(rest[i])))
        } else if verb == "done"@ {
            if rest.len() != 1 {
                Err(CmdError::DoneNeedsId)
            } else {
                match parsed_u64(rest[0]) {
                    Some(id) => Ok(Request::Done(id)),
                    None => Err(CmdError::InvalidId),
                }
            }
        } else if verb == "rm"@ || verb == "remove"@ {
            if rest.len() != 1 {
                Err(CmdError::RemoveNeedsId)
            } else {
                match parsed_u64(rest[0]) {
                    Some(id) => Ok(Request::Remove(id)),
                    None => Err(CmdError::InvalidId),
                }
            }
        } else if verb == "edit"@ {
            if rest.len() < 2 {
                Err(CmdError::EditNeedsIdAndText)
            } else {
                match parsed_u64(rest[0]) {
                    Some(id) => Ok(Request::Edit(id, joined(rest.drop_first()))),
                    None => Err(CmdError::InvalidId),
                }
            }
        } else if verb == "clear"@ {
            Ok(Request::Clear)
        } else if verb == "help"@ || verb == "--help"@ || verb == "-h"@ {
            Ok(Request::Help)
        } else {
            Err(CmdError::UnknownCommand)
        }
    }
}

/// Whether two strings hold the same characters.
pub fn same(a: &str, b: &str) -> (r: bool)
    ensures
        r == (a@ == b@),
{
    let x = chars_of(a);
    let y = chars_of(b);
    if x.len() != y.len() {
        return false;
    }
    let mut i: usize = 0;
    while i < x.len()
        invariant
            i <= x@.len() == y@.len(),
            x@ == a@,
            y@ == b@,
            forall|j: int| 0 <= j < i ==> x@[j] == y@[j],
        decreases x@.len() - i,
    {
        if x[i] != y[i] {
            return false;
        }
        i = i + 1;
    }
    assert(x@ =~= y@);
    true
}

/// The arguments from index `from` on, joined with single spaces.
fn join_from(args: &Vec<String>, from: usize) -> (r: String)
    requires
        from <= args@.len(),
    ensures
        r@ == joined(texts(args@).skip(from as int)),
{
    let ghost ws = texts(args@).skip(from as int);
    let mut out = String::new();
    let mut i: usize = from;
    assert(ws.take(0) =~= Seq::<Seq<char>>::empty());
    while i < args.len()
        invariant
            from <= i <= args@.len(),
            ws == texts(args@).skip(from as int),
            out@ == joined(ws.take(i - from)),
        decreases args@.len() - i,
    {
        let ghost k = i - from;
        assert(ws.take(k + 1).drop_last() =~= ws.take(k));
        assert(ws.take(k + 1).last() == args@[i as int]@);
        if i > from {
            out.push(' ');
        } else {
            assert(ws.take(1) =~= seq![args@[i as int]@]);
            assert(out@ =~= Seq::<char>::empty());
        }
        out.append(args[i].as_str());
        assert(out@ =~= joined(ws.take(k + 1)));
        i = i + 1;
    }
    assert(ws.take(args@.len() - from) =~= ws);
    out
}

/// Reads the command that the arguments (without the program's name) ask for.
pub fn parse_command(args: &Vec<String>) -> (r: Result<Command, CmdError>)
    ensures
        match r {
            Ok(c) => requested(texts(args@)) == Ok::<Request, CmdError>(c@),
            Err(e) => requested(texts(args@)) == Err::<Request, CmdError>(e),
        },
{
    let ghost ws = texts(args@);
    if args.len() == 0 {
        return Ok(Command::Help);
    }
    let verb = args[0].as_str();
    let n = args.len();
    let ghost rest = ws.drop_first();
    assert(forall|i: int| 0 <= i < rest.len() ==> rest[i] == args@[i + 1]@);
    assert(rest =~= texts(args@).skip(1));
    if same(verb, "add") {
        if n == 1 {
            return Err(CmdError::AddNeedsText);
        }
        let text = join_from(args, 1);
        if text.as_str().is_empty() {
            return Err(CmdError::AddNeedsText);
        }
        Ok(Command::Add(text))
    } else if same(verb, "list") {
        let mut all = false;
        let mut i: usize = 1;
        while i < n
            invariant
                1 <= i <= n == args@.len(),
                rest == texts(args@).drop_first(),
                all == exists|j: int| 0 <= j < i - 1 && is_all_flag(rest[j]),
            decreases n - i,
        {
            if same(args[i].as_str(), "--all") || same(args[i].as_str(), "-a") {
                all = true;
            }
            assert(rest[i - 1] == args@[i as int]@);
            i = i + 1;
        }
        Ok(Command::List(all))
    } else if same(verb, "done") {
        if n != 2 {
            return Err(CmdError::DoneNeedsId);
        }
        match parse_id(args[1].as_str()) {
            Some(id) => Ok(Command::Done(id)),
            None => Err(CmdError::InvalidId),
        }
    } else if same(verb, "rm") || same(verb, "remove") {
        if n != 2 {
            return Err(CmdError::RemoveNeedsId);
        }
        match parse_id(args[1].as_str()) {
            Some(id) => Ok(Command::Remove(id)),
            None => Err(CmdError::InvalidId),
        }
    } else if same(verb, "edit") {
        if n < 3 {
            return Err(CmdError::EditNeedsIdAndText);
        }
        match parse_id(args[1].as_str()) {
            Some(id) => {
                let text = join_from(args, 2);
                assert(rest.drop_first() =~= texts(args@).skip(2));
                Ok(Command::Edit(id, text))
            },
            None => Err(CmdError::InvalidId),
        }
    } else if same(verb, "clear") {
        Ok(Command::Clear)
    } else if same(verb, "help") || same(verb, "--help") || same(verb, "-h") {
        Ok(Command::Help)
    } else {
        Err(CmdError::UnknownCommand)
    }
}

/// `s` followed by spaces up to `w` characters; `s` itself when it is as long.
pub open spec fn padded(s: Seq<char>, w: nat) -> Seq<char> {
    if s.len() >= w {
        s
    } else {
        s + Seq::new((w - s.len()) as nat, |i: int| ' ')
    }
}

/// The line that shows one task: its id padded to three characters, `yes`
/// or `no` padded to four, and its text, two spaces apart.
pub open spec fn row(t: TodoView) -> Seq<char> {
    padded(decimal(t.id as nat), 3) + "  "@ + (if t.done {
        "yes "@
    } else {
        "no  "@
    }) + "  "@ + t.text
}

/// The lines for the tasks that a listing shows: every task with `all`, the
/// unfinished ones without.
pub open spec fn shown_rows(ts: Seq<TodoView>, all: bool) -> Seq<Seq<char>>
    decreases ts.len(),
{
    if ts.len() == 0 {
        seq![]
    } else {
        let r = shown_rows(ts.drop_last(), all);
        if all || !ts.last().done {
            r.push(row(ts.last()))
        } else {
            r
        }
    }
}

/// The lines that `list` prints: a note when there are no tasks at all, or
/// else a header, a rule and the rows shown.
pub open spec fn listing(ts: Seq<TodoView>, all: bool) -> Seq<Seq<char>> {
    if ts.len() == 0 {
        seq!["No tasks."@]
    } else {
        seq!["ID  Done  Task"@, "-------------------------------"@] + shown_rows(ts, all)
    }
}

proof fn lemma_decimal_len(n: nat)
    ensures
        n < 10 ==> decimal(n).len() == 1,
        10 <= n < 100 ==> decimal(n).len() == 2,
        100 <= n ==> decimal(n).len() >= 3,
{
    lemma_decimal(n);
    if n >= 10 {
        lemma_decimal(n / 10);
        if n >= 100 {
            lemma_decimal(n / 100);
            assert(decimal(n / 10) == decimal(n / 10 / 10).push(
                crate::decimal::digit_char(n / 10 % 10),
            ));
        }
    }
}

/// The line that shows one task.
fn row_of(t: &Todo) -> (r: String)
    ensures
        r@ == row(t@),
{
    let mut out = String::new();
    push_decimal(&mut out, t.id);
    proof {
        lemma_decimal_len(t.id as nat);
    }
    let ghost d = out@;
    if t.id < 10 {
        out.push(' ');
        out.push(' ');
        assert(out@ =~= padded(d, 3));
    } else if t.id < 100 {
        out.push(' ');
        assert(out@ =~= padded(d, 3));
    }
    out.append("  ");
    out.append(if t.done { "yes " } else { "no  " });
    out.append("  ");
    out.append(t.text.as_str());
    out
}

/// The lines that `list` prints for `todos`; `show_all` shows the finished
/// tasks too.
pub fn list_lines(todos: &Vec<Todo>, show_all: bool) -> (r: Vec<String>)
    ensures
        texts(r@) == listing(views(todos@), show_all),
{
    let ghost vs = views(todos@);
    let mut lines: Vec<String> = Vec::new();
    if todos.len() == 0 {
        lines.push(String::from_str("No tasks."));
        assert(texts(lines@) =~= listing(vs, show_all));
        return lines;
    }
    lines.push(String::from_str("ID  Done  Task"));
    lines.push(String::from_str("-------------------------------"));
    let ghost head = texts(lines@);
    let mut i: usize = 0;
    assert(vs.take(0) =~= Seq::<TodoView>::empty());
    assert(texts(lines@) =~= head + shown_rows(vs.take(0), show_all));
    while i < todos.len()
        invariant
            i <= todos@.len(),
            vs == views(todos@),
            texts(lines@) == head + shown_rows(vs.take(i as int), show_all),
        decreases todos@.len() - i,
    {
        assert(vs.take(i + 1).drop_last() =~= vs.take(i as int));
        assert(vs.take(i + 1).last() == todos@[i as int]@);
        let ghost before = texts(lines@);
        let ghost prev = shown_rows(vs.take(i as int), show_all);
        if show_all || !todos[i].done {
            let l = row_of(&todos[i]);
            lines.push(l);
            assert(texts(lines@) =~= before.push(row(vs[i as int])));
            assert(shown_rows(vs.take(i + 1), show_all) == prev.push(row(vs[i as int])));
        } else {
            assert(texts(lines@) =~= before);
            assert(shown_rows(vs.take(i + 1), show_all) == prev);
        }
        assert(texts(lines@) =~= head + shown_rows(vs.take(i + 1), show_all));
        i = i + 1;
    }
    assert(vs.take(i as int) =~= vs);
    assert(texts(lines@) =~= listing(vs, show_all));
    lines
}

/// `s` without the white space that leads it.
pub open spec fn trim_start(s: Seq<char>) -> Seq<char>
    decreases s.len(),
{
    if s.len() > 0 && is_space(s[0]) {
        trim_start(s.drop_first())
    } else {
        s
    }
}

/// `s` without the white space that ends it.
pub open spec fn trim_end(s: Seq<char>) -> Seq<char>
    decreases s.len(),
{
    if s.len() > 0 && is_space(s.last()) {
        trim_end(s.drop_last())
    } else {
        s
    }
}

/// `s` without white space at either end.
pub open spec fn trimmed(s: Seq<char>) -> Seq<char> {
    trim_end(trim_start(s))
}

/// Whether the answer to the question before clearing the store is a yes:
/// `yes`, with nothing else but white space around it.
pub fn confirms_clear(input: &str) -> (r: bool)
    ensures
        r == (trimmed(input@) == "yes"@),
{
    let cs = chars_of(input);
    let n = cs.len();
    let mut a: usize = 0;
    assert(cs@.skip(0) =~= input@);
    while a < n && is_space_char(cs[a])
        invariant
            a <= n == cs@.len(),
            cs@ == input@,
            trim_start(input@) == trim_start(cs@.skip(a as int)),
        decreases n - a,
    {
        assert(cs@.skip(a as int).drop_first() =~= cs@.skip(a + 1));
        a = a + 1;
    }
    let ghost t = cs@.skip(a as int);
    assert(trim_start(t) == t);
    let mut b: usize = n;
    assert(t =~= cs@.subrange(a as int, n as int));
    while b > a && is_space_char(cs[b - 1])
        invariant
            a <= b <= n == cs@.len(),
            trim_end(t) == trim_end(cs@.subrange(a as int, b as int)),
        decreases b,
    {
        assert(cs@.subrange(a as int, b as int).drop_last() =~= cs@.subrange(a as int, b - 1));
        b = b - 1;
    }
    let ghost u = cs@.subrange(a as int, b as int);
    assert(trim_end(u) == u);
    let word = string_of(&cs, a, b);
    same(word.as_str(), "yes")
}

} // verus!
