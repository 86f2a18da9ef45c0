//! One task per line: the record format, its escaping, and its decoding.

use vstd::prelude::*;
use crate::decimal::{decimal, lemma_decimal, lemma_parse_decimal, parse_id, parsed_u64, push_decimal};
use crate::text::{chars_of, find_char, first_index, lemma_first_index};

verus! {

/// The character that separates the fields of a record.
pub const SEP: char = '|';

/// One task: its id, whether it is done, and its text.
#[derive(Clone, Debug)]
pub struct Todo {
    pub id: u64,
    pub done: bool,
    pub text: String,
}

/// What a task holds, with its text as a character sequence.
pub struct TodoView {
    pub id: u64,
    pub done: bool,
    pub text: Seq<char>,
}

impl View for Todo {
    type V = TodoView;

    open spec fn view(&self) -> TodoView {
        TodoView { id: self.id, done: self.done, text: self.text@ }
    }
}

/// How one character of a task's text is written in a record.
pub open spec fn escape_char(c: char) -> Seq<char> {
    if c == '\\' {
        seq!['\\', '\\']
    } else if c == '\n' {
        seq!['\\', 'n']
    } else if c == '|' {
        seq!['\\', 'p']
    } else if c == '\r' {
        seq!['\\', 'r']
    } else {
        seq![c]
    }
}

/// A task's text as it is written in a record.
pub open spec fn escaped(s: Seq<char>) -> Seq<char>
    decreases s.len(),
{
    if s.len() == 0 {
        seq![]
    } else {
        escape_char(s[0]) + escaped(s.drop_first())
    }
}

/// What the two characters `\` and `n` of a record stand for.
pub open spec fn unescape_pair(n: char) -> Seq<char> {
    if n == '\\' {
        seq!['\\']
    } else if n == 'n' {
        seq!['\n']
    } else if n == 'r' {
        seq!['\r']
    } else if n == 'p' {
        seq!['|']
    } else {
        seq!['\\', n]
    }
}

/// The text that a record's text field stands for. A backslash before an
/// unknown character, or at the very end, stands for itself.
pub open spec fn unescaped(s: Seq<char>) -> Seq<char>
    decreases s.len(),
{
    if s.len() == 0 {
        seq![]
    } else if s[0] == '\\' {
        if s.len() == 1 {
            seq!['\\']
        } else {
            unescape_pair(s[1]) + unescaped(s.subrange(2, s.len() as int))
        }
    } else {
        seq![s[0]] + unescaped(s.drop_first())
    }
}

/// The record of a task: id, separator, `1` or `0`, separator, escaped text.
pub open spec fn encoded(t: TodoView) -> Seq<char> {
    decimal(t.id as nat) + seq![SEP] + seq![if t.done { '1' } else { '0' }] + seq![SEP]
        + escaped(t.text)
}

/// The task a record stands for. The first two separators end the id and the
/// done fields; everything after the second is the text.
pub open spec fn decoded(line: Seq<char>) -> Option<TodoView> {
    let a = first_index(line, SEP);
    let rest = line.skip(a + 1);
    let b = first_index(rest, SEP);
    let flag = rest.take(b);
    if a >= line.len() || b >= rest.len() {
        None
    } else {
        match parsed_u64(line.take(a)) {
            None => None,
            Some(id) => if flag == seq!['1'] || flag == seq!['0'] {
                Some(TodoView { id, done: flag == seq!['1'], text: unescaped(rest.skip(b + 1)) })
            } else {
                None
            },
        }
    }
}

/// Escaping distributes over concatenation.
pub proof fn lemma_escaped_append(a: Seq<char>, b: Seq<char>)
    ensures
        escaped(a + b) == escaped(a) + escaped(b),
    decreases a.len(),
{
    if a.len() == 0 {
        assert(a + b =~= b);
        assert(escaped(a) + escaped(b) =~= escaped(b));
    } else {
        lemma_escaped_append(a.drop_first(), b);
        assert((a + b).drop_first() =~= a.drop_first() + b);
        assert(escaped(a + b) =~= escaped(a) + escaped(b));
    }
}

/// An escaped text holds no separator, no newline and no carriage return.
pub proof fn lemma_escaped_plain(s: Seq<char>)
    ensures
        forall|i: int|
            0 <= i < escaped(s).len() ==> {
                let c = #[trigger] escaped(s)[i];
                c != SEP && c != '\n' && c != '\r'
            },
    decreases s.len(),
{
    if s.len() > 0 {
        lemma_escaped_plain(s.drop_first());
        let e = escaped(s);
        let h = escape_char(s[0]);
        assert forall|i: int| 0 <= i < e.len() implies {
            let c = #[trigger] e[i];
            c != SEP && c != '\n' && c != '\r'
        } by {
            if i >= h.len() {
                assert(e[i] == escaped(s.drop_first())[i - h.len()]);
            }
        }
    }
}

/// Unescaping an escaped text gives the text back.
pub proof fn lemma_unescape_escaped(s: Seq<char>)
    ensures
        unescaped(escaped(s)) == s,
    decreases s.len(),
{
    if s.len() > 0 {
        lemma_unescape_escaped(s.drop_first());
        let e = escaped(s);
        let tail = escaped(s.drop_first());
        let h = escape_char(s[0]);
        if h.len() == 2 {
            assert(e.subrange(2, e.len() as int) =~= tail);
            assert(e[0] == '\\');
            assert(unescape_pair(e[1]) =~= seq![s[0]]);
        } else {
            assert(e.drop_first() =~= tail);
        }
        assert(unescaped(e) =~= s);
    }
}

/// Decoding the record of a task gives that task back.
pub proof fn lemma_round_trip(t: TodoView)
    ensures
        decoded(encoded(t)) == Some(t),
{
    let d = decimal(t.id as nat);
    let flag = seq![if t.done { '1' } else { '0' }];
    let e = escaped(t.text);
    let line = encoded(t);
    lemma_decimal(t.id as nat);
    lemma_parse_decimal(t.id);
    lemma_escaped_plain(t.text);
    lemma_unescape_escaped(t.text);
    assert forall|j: int| 0 <= j < d.len() implies line[j] != SEP by {
        assert(line[j] == d[j]);
        assert(crate::decimal::is_digit(d[j]));
    }
    lemma_first_index(line, SEP, d.len() as int);
    let rest = line.skip(d.len() as int + 1);
    assert(rest =~= flag + seq![SEP] + e);
    assert(rest[0] != SEP);
    lemma_first_index(rest, SEP, 1);
    assert(line.take(d.len() as int) =~= d);
    assert(rest.take(1) =~= flag);
    assert(rest.skip(2) =~= e);
}

/// Escapes a task's text for a record.
pub fn escape(s: &str) -> (r: String)
    ensures
        r@ == escaped(s@),
{
    let cs = chars_of(s);
    let mut out = String::new();
    let mut i: usize = 0;
    while i < cs.len()
        invariant
            i <= cs@.len(),
            cs@ == s@,
            out@ == escaped(cs@.take(i as int)),
        decreases cs@.len() - i,
    {
        let c = cs[i];
        proof {
            lemma_escaped_append(cs@.take(i as int), seq![c]);
            assert(cs@.take(i + 1) =~= cs@.take(i as int) + seq![c]);
            assert(seq![c].drop_first() =~= Seq::<char>::empty());
            assert(escaped(Seq::<char>::empty()) =~= Seq::<char>::empty());
            assert(seq![c][0] == c);
            assert(escaped(seq![c]) == escape_char(c) + escaped(seq![c].drop_first()));
            assert(escaped(seq![c]) =~= escape_char(c));
        }
        if c == '\\' {
            out.push('\\');
            out.push('\\');
        } else if c == '\n' {
            out.push('\\');
            out.push('n');
        } else if c == SEP {
            out.push('\\');
            out.push('p');
        } else if c == '\r' {
            out.push('\\');
            out.push('r');
        } else {
            out.push(c);
        }
        assert(out@ =~= escaped(cs@.take(i + 1)));
        i = i + 1;
    }
    assert(cs@.take(cs@.len() as int) =~= cs@);
    out
}

/// Turns a record's text field back into the text it stands for.
pub fn unescape(s: &str) -> (r: String)
    ensures
        r@ == unescaped(s@),
{
    let cs = chars_of(s);
    let n = cs.len();
    let mut out = String::new();
    let mut i: usize = 0;
    assert(cs@.subrange(0, n as int) =~= s@);
    assert(out@ + unescaped(s@) =~= unescaped(s@));
    while i < n
        invariant
            i <= n == cs@.len(),
            cs@ == s@,
            out@ + unescaped(cs@.subrange(i as int, n as int)) == unescaped(s@),
        decreases n - i,
    {
        let ghost before = out@;
        let ghost rest = cs@.subrange(i as int, n as int);
        let c = cs[i];
        if c == '\\' {
            if i + 1 < n {
                let m = cs[i + 1];
                if m == '\\' {
                    out.push('\\');
                } else if m == 'n' {
                    out.push('\n');
                } else if m == 'r' {
                    out.push('\r');
                } else if m == 'p' {
                    out.push(SEP);
                } else {
                    out.push('\\');
                    out.push(m);
                }
                proof {
                    assert(rest.subrange(2, rest.len() as int) =~= cs@.subrange(i + 2, n as int));
                    assert(out@ =~= before + unescape_pair(m));
                    assert(before + (unescape_pair(m) + unescaped(cs@.subrange(i + 2, n as int)))
                        =~= out@ + unescaped(cs@.subrange(i + 2, n as int)));
                }
                i = i + 2;
            } else {
                out.push('\\');
                proof {
                    assert(out@ =~= before + unescaped(rest));
                    assert(cs@.subrange(i + 1, n as int) =~= Seq::<char>::empty());
                    assert(out@ + unescaped(cs@.subrange(i + 1, n as int)) =~= out@);
                }
                i = i + 1;
            }
        } else {
            out.push(c);
            proof {
                assert(rest.drop_first() =~= cs@.subrange(i + 1, n as int));
                assert(before + (seq![c] + unescaped(cs@.subrange(i + 1, n as int)))
                    =~= out@ + unescaped(cs@.subrange(i + 1, n as int)));
            }
            i = i + 1;
        }
    }
    assert(cs@.subrange(n as int, n as int) =~= Seq::<char>::empty());
    assert(out@ + unescaped(Seq::<char>::empty()) =~= out@);
    out
}

impl Todo {
    /// The line of a store file that holds `self`.
    pub fn serialize(&self) -> (r: String)
        ensures
            r@ == encoded(self@),
    {
        let mut out = String::new();
        push_decimal(&mut out, self.id);
        out.push(SEP);
        out.push(if self.done { '1' } else { '0' });
        out.push(SEP);
        let e = escape(self.text.as_str());
        out.append(e.as_str());
        assert(out@ =~= encoded(self@));
        out
    }

    /// The task that `s` is the record of, if it is a well-formed record.
    pub fn deserialize(s: &str) -> (r: Option<Todo>)
        ensures
            match r {
                Some(t) => decoded(s@) == Some(t@),
                None => decoded(s@) is None,
            },
    {
        let cs = chars_of(s);
        let n = cs.len();
        let a = find_char(&cs, 0, SEP);
        assert(cs@.skip(0) =~= s@);
        if a >= n {
            return None;
        }
        let b = find_char(&cs, a + 1, SEP);
        let ghost rest = s@.skip(a + 1);
        assert(cs@.skip(a + 1) == rest);
        if b >= n {
            return None;
        }
        let id = match parse_id(s.substring_char(0, a)) {
            Some(id) => id,
            None => {
                assert(s@.subrange(0, a as int) =~= s@.take(a as int));
                return None;
            },
        };
        assert(s@.subrange(0, a as int) =~= s@.take(a as int));
        let ghost flag = rest.take(b - (a + 1));
        let done = if b == a + 2 && cs[a + 1] == '1' {
            assert(flag =~= seq!['1']);
            true
        } else if b == a + 2 && cs[a + 1] == '0' {
            assert(flag =~= seq!['0']);
            assert(flag != seq!['1']) by {
                assert(flag[0] != seq!['1'][0]);
            }
            false
        } else {
            assert(flag != seq!['1'] && flag != seq!['0']) by {
                if flag.len() == 1 {
                    assert(flag[0] == cs@[a + 1]);
                }
            }
            return None;
        };
        let text = unescape(s.substring_char(b + 1, n));
        assert(s@.subrange(b + 1, n as int) =~= rest.skip(b - a));
        assert(decoded(s@) == Some(TodoView { id, done, text: text@ }));
        Some(Todo { id, done, text })
    }
}

} // verus!
