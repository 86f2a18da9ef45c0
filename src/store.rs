//! The text of a store file: the lines it is read from and written as.

use vstd::prelude::*;
use crate::codec::{decoded, encoded, lemma_round_trip, Todo, TodoView, escaped, lemma_escaped_plain};
use crate::decimal::{decimal, is_digit, lemma_decimal};
use crate::text::{chars_of, find_char, first_index, lemma_first_index, string_of};

verus! {

/// Whether `c` is white space in Unicode's sense (the `White_Space` property).
pub open spec fn is_space(c: char) -> bool {
    c == ' ' || ('\t' <= c && c <= '\r') || c == '\u{85}' || c == '\u{a0}' || c == '\u{1680}'
        || ('\u{2000}' <= c && c <= '\u{200a}') || c == '\u{2028}' || c == '\u{2029}'
        || c == '\u{202f}' || c == '\u{205f}' || c == '\u{3000}'
}

/// Whether a line holds nothing but white space.
pub open spec fn is_blank(s: Seq<char>) -> bool {
    forall|i: int| 0 <= i < s.len() ==> is_space(#[trigger] s[i])
}

/// A line without the carriage return that may end it.
pub open spec fn strip_cr(l: Seq<char>) -> Seq<char> {
    if l.len() > 0 && l.last() == '\r' {
        l.drop_last()
    } else {
        l
    }
}

/// The lines of a text: each newline ends a line and is dropped with a
/// carriage return just before it; a last line without a newline counts
/// as it stands.
pub open spec fn lines_of(s: Seq<char>) -> Seq<Seq<char>>
    decreases s.len(),
{
    if s.len() == 0 {
        seq![]
    } else {
        let k = first_index(s, '\n');
        if 0 <= k < s.len() {
            seq![strip_cr(s.take(k))] + lines_of(s.skip(k + 1))
        } else {
            seq![s]
        }
    }
}

/// The tasks that the given lines hold: blank lines and lines that are no
/// record are passed over.
pub open spec fn loaded(lines: Seq<Seq<char>>) -> Seq<TodoView>
    decreases lines.len(),
{
    if lines.len() == 0 {
        seq![]
    } else {
        let rest = loaded(lines.drop_first());
        if is_blank(lines[0]) {
            rest
        } else {
            match decoded(lines[0]) {
                Some(t) => seq![t] + rest,
                None => rest,
            }
        }
    }
}

/// The lines that are neither blank nor a record.
pub open spec fn rejected(lines: Seq<Seq<char>>) -> Seq<Seq<char>>
    decreases lines.len(),
{
    if lines.len() == 0 {
        seq![]
    } else {
        let rest = rejected(lines.drop_first());
        if !is_blank(lines[0]) && decoded(lines[0]) is None {
            seq![lines[0]] + rest
        } else {
            rest
        }
    }
}

/// The text of a store: each task's record followed by a newline.
pub open spec fn rendered(ts: Seq<TodoView>) -> Seq<char>
    decreases ts.len(),
{
    if ts.len() == 0 {
        seq![]
    } else {
        encoded(ts[0]) + seq!['\n'] + rendered(ts.drop_first())
    }
}

/// What a list of tasks holds.
pub open spec fn views(ts: Seq<Todo>) -> Seq<TodoView> {
    ts.map_values(|t: Todo| t@)
}

/// What a list of strings holds.
pub open spec fn texts(ss: Seq<String>) -> Seq<Seq<char>> {
    ss.map_values(|s: String| s@)
}

/// A record holds no line break and starts with a digit.
proof fn lemma_encoded_one_line(t: TodoView)
    ensures
        encoded(t).len() > 0,
        is_digit(encoded(t)[0]),
        forall|i: int|
            0 <= i < encoded(t).len() ==> #[trigger] encoded(t)[i] != '\n' && encoded(t)[i]
                != '\r',
{
    let d = decimal(t.id as nat);
    let e = encoded(t);
    lemma_decimal(t.id as nat);
    lemma_escaped_plain(t.text);
    assert forall|i: int| 0 <= i < e.len() implies #[trigger] e[i] != '\n' && e[i] != '\r' by {
        if i < d.len() {
            assert(e[i] == d[i]);
            assert(is_digit(d[i]));
        } else if i >= d.len() + 3 {
            assert(e[i] == escaped(t.text)[i - d.len() - 3]);
        }
    }
    assert(e[0] == d[0]);
}

/// Loading the text that saving some tasks writes gives back exactly those
/// tasks, in the same order, and rejects no line.
pub proof fn lemma_save_then_load(ts: Seq<TodoView>)
    ensures
        loaded(lines_of(rendered(ts))) == ts,
        rejected(lines_of(rendered(ts))) == Seq::<Seq<char>>::empty(),
    decreases ts.len(),
{
    if ts.len() > 0 {
        let e = encoded(ts[0]);
        let tail = rendered(ts.drop_first());
        let s = rendered(ts);
        lemma_save_then_load(ts.drop_first());
        lemma_encoded_one_line(ts[0]);
        lemma_round_trip(ts[0]);
        assert(s =~= e + seq!['\n'] + tail);
        assert forall|j: int| 0 <= j < e.len() implies s[j] != '\n' by {
            assert(s[j] == e[j]);
        }
        lemma_first_index(s, '\n', e.len() as int);
        assert(s.take(e.len() as int) =~= e);
        assert(strip_cr(e) == e);
        assert(s.skip(e.len() as int + 1) =~= tail);
        let ls = lines_of(s);
        assert(ls =~= seq![e] + lines_of(tail));
        assert(ls[0] == e);
        assert(ls.drop_first() =~= lines_of(tail));
        assert(!is_blank(e)) by {
            assert(!is_space(e[0]));
        }
        assert(loaded(ls) =~= seq![ts[0]] + ts.drop_first());
        assert(seq![ts[0]] + ts.drop_first() =~= ts);
    } else {
        assert(rendered(ts) =~= Seq::<char>::empty());
    }
}

/// Whether `c` is white space in Unicode's sense.
pub fn is_space_char(c: char) -> (r: bool)
    ensures
        r == is_space(c),
{
    c == ' ' || ('\t' <= c && c <= '\r') || c == '\u{85}' || c == '\u{a0}' || c == '\u{1680}'
        || ('\u{2000}' <= c && c <= '\u{200a}') || c == '\u{2028}' || c == '\u{2029}'
        || c == '\u{202f}' || c == '\u{205f}' || c == '\u{3000}'
}

fn blank_range(cs: &Vec<char>, from: usize, to: usize) -> (r: bool)
    requires
        from <= to <= cs@.len(),
    ensures
        r == is_blank(cs@.subrange(from as int, to as int)),
{
    let mut i: usize = from;
    while i < to
        invariant
            from <= i <= to <= cs@.len(),
            forall|j: int| from <= j < i ==> is_space(cs@[j]),
        decreases to - i,
    {
        if !is_space_char(cs[i]) {
            assert(cs@.subrange(from as int, to as int)[i - from] == cs@[i as int]);
            return false;
        }
        i = i + 1;
    }
    assert forall|j: int| 0 <= j < to - from implies is_space(
        #[trigger] cs@.subrange(from as int, to as int)[j],
    ) by {
        assert(cs@.subrange(from as int, to as int)[j] == cs@[from + j]);
    }
    true
}

/// Reads the tasks out of a store's text, in the order of its lines. The
/// second list holds the lines that were neither blank nor a record.
pub fn parse_todos(content: &str) -> (r: (Vec<Todo>, Vec<String>))
    ensures
        views(r.0@) == loaded(lines_of(content@)),
        texts(r.1@) == rejected(lines_of(content@)),
{
    let cs = chars_of(content);
    let n = cs.len();
    let mut todos: Vec<Todo> = Vec::new();
    let mut bad: Vec<String> = Vec::new();
    let mut p: usize = 0;
    assert(cs@.skip(0) =~= content@);
    assert(views(todos@) + loaded(lines_of(content@)) =~= loaded(lines_of(content@)));
    assert(texts(bad@) + rejected(lines_of(content@)) =~= rejected(lines_of(content@)));
    while p < n
        invariant
            p <= n == cs@.len(),
            cs@ == content@,
            views(todos@) + loaded(lines_of(cs@.skip(p as int))) == loaded(lines_of(content@)),
            texts(bad@) + rejected(lines_of(cs@.skip(p as int))) == rejected(
                lines_of(content@),
            ),
        decreases n - p,
    {
        let ghost s = cs@.skip(p as int);
        let ghost vs = views(todos@);
        let ghost bs = texts(bad@);
        let k = find_char(&cs, p, '\n');
        let mut end = k;
        if k < n && k > p && cs[k - 1] == '\r' {
            end = k - 1;
        }
        let next = if k < n { k + 1 } else { n };
        let ghost line = cs@.subrange(p as int, end as int);
        proof {
            if k < n {
                assert(s.take(k - p) =~= cs@.subrange(p as int, k as int));
                if k > p && cs@[k - 1] == '\r' {
                    assert(strip_cr(s.take(k - p)) =~= line);
                } else {
                    assert(strip_cr(s.take(k - p)) =~= line);
                }
                assert(s.skip(k - p + 1) =~= cs@.skip(next as int));
            } else {
                assert(s =~= line);
                assert(cs@.skip(next as int) =~= Seq::<char>::empty());
                assert(lines_of(Seq::<char>::empty()) =~= Seq::<Seq<char>>::empty());
            }
            assert(lines_of(s) =~= seq![line] + lines_of(cs@.skip(next as int)));
            assert((seq![line] + lines_of(cs@.skip(next as int))).drop_first() =~= lines_of(
                cs@.skip(next as int),
            ));
        }
        if !blank_range(&cs, p, end) {
            let l = string_of(&cs, p, end);
            match Todo::deserialize(l.as_str()) {
                Some(t) => {
                    todos.push(t);
                    proof {
                        assert(views(todos@) =~= vs + seq![t@]);
                    }
                },
                None => {
                    bad.push(l);
                    proof {
                        assert(texts(bad@) =~= bs + seq![line]);
                    }
                },
            }
        }
        proof {
            let rest = cs@.skip(next as int);
            assert(views(todos@) + loaded(lines_of(rest)) =~= vs + loaded(lines_of(s)));
            assert(texts(bad@) + rejected(lines_of(rest)) =~= bs + rejected(lines_of(s)));
        }
        p = next;
    }
    assert(cs@.skip(n as int) =~= Seq::<char>::empty());
    assert(lines_of(Seq::<char>::empty()) =~= Seq::<Seq<char>>::empty());
    assert(views(todos@) =~= views(todos@) + loaded(Seq::<Seq<char>>::empty()));
    assert(texts(bad@) =~= texts(bad@) + rejected(Seq::<Seq<char>>::empty()));
    (todos, bad)
}

/// The store's text for the given tasks, one record per line.
pub fn render_todos(todos: &Vec<Todo>) -> (r: String)
    ensures
        r@ == rendered(views(todos@)),
{
    let mut out = String::new();
    let mut i: usize = 0;
    let ghost all = views(todos@);
    assert(all.skip(0) =~= all);
    while i < todos.len()
        invariant
            i <= todos@.len(),
            all == views(todos@),
            out@ + rendered(all.skip(i as int)) == rendered(all),
        decreases todos@.len() - i,
    {
        let ghost before = out@;
        let line = todos[i].serialize();
        out.append(line.as_str());
        out.push('\n');
        proof {
            assert(all.skip(i as int)[0] == todos@[i as int]@);
            assert(all.skip(i as int).drop_first() =~= all.skip(i + 1));
            assert(out@ + rendered(all.skip(i + 1)) =~= before + rendered(all.skip(i as int)));
        }
        i = i + 1;
    }
    assert(out@ + rendered(all.skip(i as int)) =~= out@);
    out
}

} // verus!
