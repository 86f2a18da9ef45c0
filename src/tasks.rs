//! The task list and the changes that commands make to it.

use vstd::prelude::*;
use crate::codec::{Todo, TodoView};
use crate::store::views;

verus! {

/// Why a command could not be carried out.
#[derive(Clone, Copy, Debug, PartialEq, Eq, Structural)]
pub enum CmdError {
    /// `add` was given no text.
    AddNeedsText,
    /// `done` was not given exactly one id.
    DoneNeedsId,
    /// `rm` was not given exactly one id.
    RemoveNeedsId,
    /// `edit` was not given an id and some text.
    EditNeedsIdAndText,
    /// An id argument is not a number that fits in 64 bits.
    InvalidId,
    /// No task has the given id.
    NotFound,
    /// The first argument names no command.
    UnknownCommand,
    /// The largest id is already taken, so a new task has no id left.
    IdsExhausted,
}

/// The largest id in `ts`, or zero when `ts` is empty.
pub open spec fn max_id(ts: Seq<TodoView>) -> nat
    decreases ts.len(),
{
    if ts.len() == 0 {
        0
    } else {
        let m = max_id(ts.drop_last());
        if ts.last().id > m {
            ts.last().id as nat
        } else {
            m
        }
    }
}

/// No two tasks of `ts` share an id.
pub open spec fn unique_ids(ts: Seq<TodoView>) -> bool {
    forall|i: int, j: int| 0 <= i < ts.len() && 0 <= j < ts.len() && i != j ==> ts[i].id != ts[j].id
}

/// The index of the first task with id `id`, or `ts.len()` when there is none.
pub open spec fn id_index(ts: Seq<TodoView>, id: u64) -> int
    decreases ts.len(),
{
    if ts.len() == 0 {
        0
    } else if ts[0].id == id {
        0
    } else {
        1 + id_index(ts.drop_first(), id)
    }
}

/// Whether some task of `ts` has id `id`.
pub open spec fn has_id(ts: Seq<TodoView>, id: u64) -> bool {
    exists|i: int| 0 <= i < ts.len() && ts[i].id == id
}

/// The tasks after adding one with text `text`: a fresh id one above the
/// largest, not done, at the end. Nothing changes when no id is left.
pub open spec fn added(ts: Seq<TodoView>, text: Seq<char>) -> Seq<TodoView> {
    if max_id(ts) < u64::MAX {
        ts.push(TodoView { id: (max_id(ts) + 1) as u64, done: false, text })
    } else {
        ts
    }
}

/// The tasks after marking the first one with id `id` done.
pub open spec fn marked_done(ts: Seq<TodoView>, id: u64) -> Seq<TodoView> {
    let p = id_index(ts, id);
    if p < ts.len() {
        ts.update(p, TodoView { done: true, ..ts[p] })
    } else {
        ts
    }
}

/// The tasks after giving the first one with id `id` the text `text`.
pub open spec fn edited(ts: Seq<TodoView>, id: u64, text: Seq<char>) -> Seq<TodoView> {
    let p = id_index(ts, id);
    if p < ts.len() {
        ts.update(p, TodoView { text, ..ts[p] })
    } else {
        ts
    }
}

/// The tasks whose id is not `id`, in their order.
pub open spec fn removed(ts: Seq<TodoView>, id: u64) -> Seq<TodoView>
    decreases ts.len(),
{
    if ts.len() == 0 {
        seq![]
    } else {
        let r = removed(ts.drop_last(), id);
        if ts.last().id == id {
            r
        } else {
            r.push(ts.last())
        }
    }
}

/// Every id in `ts` is at most `max_id(ts)`, and some task has it when
/// `ts` is not empty.
pub proof fn lemma_max_id(ts: Seq<TodoView>)
    ensures
        forall|i: int| 0 <= i < ts.len() ==> #[trigger] ts[i].id <= max_id(ts),
        ts.len() > 0 ==> has_id(ts, max_id(ts) as u64),
        max_id(ts) <= u64::MAX,
    decreases ts.len(),
{
    if ts.len() > 0 {
        let s = ts.drop_last();
        lemma_max_id(s);
        assert forall|i: int| 0 <= i < ts.len() implies #[trigger] ts[i].id <= max_id(ts) by {
            if i < ts.len() - 1 {
                assert(ts[i] == s[i]);
            }
        }
        if ts.last().id <= max_id(s) && s.len() > 0 {
            let w = choose|i: int| 0 <= i < s.len() && s[i].id == max_id(s) as u64;
            assert(ts[w] == s[w]);
        }
    }
}

proof fn lemma_id_index(ts: Seq<TodoView>, id: u64, k: int)
    requires
        0 <= k <= ts.len(),
        forall|j: int| 0 <= j < k ==> ts[j].id != id,
        k == ts.len() || ts[k].id == id,
    ensures
        id_index(ts, id) == k,
    decreases k,
{
    if k > 0 {
        lemma_id_index(ts.drop_first(), id, k - 1);
    }
}

/// The first index holds `id` and none before it does; it is the end exactly
/// when no task has `id`.
pub proof fn lemma_id_index_found(ts: Seq<TodoView>, id: u64)
    ensures
        0 <= id_index(ts, id) <= ts.len(),
        id_index(ts, id) < ts.len() ==> ts[id_index(ts, id)].id == id,
        forall|j: int| 0 <= j < id_index(ts, id) ==> #[trigger] ts[j].id != id,
        (id_index(ts, id) < ts.len()) == has_id(ts, id),
    decreases ts.len(),
{
    if ts.len() > 0 {
        let s = ts.drop_first();
        lemma_id_index_found(s, id);
        if ts[0].id != id {
            assert forall|j: int| 0 <= j < id_index(ts, id) implies #[trigger] ts[j].id != id by {
                if j > 0 {
                    assert(ts[j] == s[j - 1]);
                }
            }
            if has_id(ts, id) {
                let w = choose|i: int| 0 <= i < ts.len() && ts[i].id == id;
                assert(s[w - 1] == ts[w]);
            }
            if has_id(s, id) {
                let w = choose|i: int| 0 <= i < s.len() && s[i].id == id;
                assert(s[w] == ts[w + 1]);
            }
        }
    }
}

/// Every task left after removing `id` was there before and has another id.
pub proof fn lemma_removed_from(ts: Seq<TodoView>, id: u64)
    ensures
        removed(ts, id).len() <= ts.len(),
        forall|k: int|
            0 <= k < removed(ts, id).len() ==> (#[trigger] removed(ts, id)[k]).id != id && exists|
                j: int,
            |
                0 <= j < ts.len() && ts[j] == removed(ts, id)[k],
    decreases ts.len(),
{
    if ts.len() > 0 {
        let s = ts.drop_last();
        lemma_removed_from(s, id);
        let r = removed(ts, id);
        assert forall|k: int| 0 <= k < r.len() implies (#[trigger] r[k]).id != id && exists|j: int|
            0 <= j < ts.len() && ts[j] == r[k] by {
            if k < removed(s, id).len() {
                assert(r[k] == removed(s, id)[k]);
                let j = choose|j: int| 0 <= j < s.len() && s[j] == removed(s, id)[k];
                assert(ts[j] == s[j]);
            } else {
                assert(ts[ts.len() - 1] == r[k]);
            }
        }
    }
}

/// Removing tasks keeps the survivors' ids unique.
pub proof fn lemma_removed_unique(ts: Seq<TodoView>, id: u64)
    requires
        unique_ids(ts),
    ensures
        unique_ids(removed(ts, id)),
    decreases ts.len(),
{
    if ts.len() > 0 {
        let s = ts.drop_last();
        assert(unique_ids(s)) by {
            assert forall|i: int, j: int|
                0 <= i < s.len() && 0 <= j < s.len() && i != j implies s[i].id != s[j].id by {
                assert(s[i] == ts[i] && s[j] == ts[j]);
            }
        }
        lemma_removed_unique(s, id);
        lemma_removed_from(s, id);
        let r0 = removed(s, id);
        if ts.last().id != id {
            let r = r0.push(ts.last());
            assert forall|i: int, j: int|
                0 <= i < r.len() && 0 <= j < r.len() && i != j implies r[i].id != r[j].id by {
                if i < r0.len() && j < r0.len() {
                    assert(r[i] == r0[i] && r[j] == r0[j]);
                } else if i < r0.len() {
                    let w = choose|w: int| 0 <= w < s.len() && s[w] == r0[i];
                    assert(ts[w] == s[w]);
                } else if j < r0.len() {
                    let w = choose|w: int| 0 <= w < s.len() && s[w] == r0[j];
                    assert(ts[w] == s[w]);
                }
            }
        }
    }
}

/// A change that a command makes to the task list.
pub enum Change {
    Add(Seq<char>),
    Done(u64),
    Edit(u64, Seq<char>),
    Remove(u64),
}

/// The task list after one change.
pub open spec fn applied(ts: Seq<TodoView>, c: Change) -> Seq<TodoView> {
    match c {
        Change::Add(text) => added(ts, text),
        Change::Done(id) => marked_done(ts, id),
        Change::Edit(id, text) => edited(ts, id, text),
        Change::Remove(id) => removed(ts, id),
    }
}

/// The task list after a series of changes, first to last.
pub open spec fn replayed(ts: Seq<TodoView>, cs: Seq<Change>) -> Seq<TodoView>
    decreases cs.len(),
{
    if cs.len() == 0 {
        ts
    } else {
        applied(replayed(ts, cs.drop_last()), cs.last())
    }
}

/// One change keeps ids unique.
pub proof fn lemma_change_keeps_ids_unique(ts: Seq<TodoView>, c: Change)
    requires
        unique_ids(ts),
    ensures
        unique_ids(applied(ts, c)),
{
    match c {
        Change::Add(text) => {
            lemma_max_id(ts);
            let r = added(ts, text);
            assert forall|i: int, j: int|
                0 <= i < r.len() && 0 <= j < r.len() && i != j implies r[i].id != r[j].id by {
                if i < ts.len() && j < ts.len() {
                    assert(r[i] == ts[i] && r[j] == ts[j]);
                } else if i < ts.len() {
                    assert(r[i] == ts[i]);
                } else if j < ts.len() {
                    assert(r[j] == ts[j]);
                }
            }
        },
        Change::Done(id) => {
            lemma_id_index_found(ts, id);
            let r = marked_done(ts, id);
            assert forall|i: int, j: int|
                0 <= i < r.len() && 0 <= j < r.len() && i != j implies r[i].id != r[j].id by {
                assert(r[i].id == ts[i].id && r[j].id == ts[j].id);
            }
        },
        Change::Edit(id, text) => {
            lemma_id_index_found(ts, id);
            let r = edited(ts, id, text);
            assert forall|i: int, j: int|
                0 <= i < r.len() && 0 <= j < r.len() && i != j implies r[i].id != r[j].id by {
                assert(r[i].id == ts[i].id && r[j].id == ts[j].id);
            }
        },
        Change::Remove(id) => {
            lemma_removed_unique(ts, id);
        },
    }
}

/// Whatever adds, removals, completions and edits are made, one after
/// another, to a list whose ids are unique, no two tasks ever share an id.
pub proof fn lemma_ids_stay_unique(ts: Seq<TodoView>, cs: Seq<Change>)
    requires
        unique_ids(ts),
    ensures
        unique_ids(replayed(ts, cs)),
    decreases cs.len(),
{
    if cs.len() > 0 {
        lemma_ids_stay_unique(ts, cs.drop_last());
        lemma_change_keeps_ids_unique(replayed(ts, cs.drop_last()), cs.last());
    }
}

/// Marking a task done twice succeeds both times and leaves the list as the
/// first time did.
pub proof fn lemma_done_twice(ts: Seq<TodoView>, id: u64)
    requires
        has_id(ts, id),
    ensures
        has_id(marked_done(ts, id), id),
        marked_done(marked_done(ts, id), id) == marked_done(ts, id),
        marked_done(ts, id)[id_index(ts, id)].done,
{
    lemma_id_index_found(ts, id);
    let once = marked_done(ts, id);
    let p = id_index(ts, id);
    assert(once[p].id == id);
    lemma_id_index(once, id, p);
    assert(marked_done(once, id) =~= once);
}

/// Finds the first task with id `id`, or `todos.len()` when there is none.
fn find_id(todos: &Vec<Todo>, id: u64) -> (k: usize)
    ensures
        k == id_index(views(todos@), id),
        k <= todos@.len(),
{
    let ghost vs = views(todos@);
    let mut k: usize = 0;
    while k < todos.len() && todos[k].id != id
        invariant
            k <= todos@.len(),
            vs == views(todos@),
            forall|j: int| 0 <= j < k ==> vs[j].id != id,
        decreases todos@.len() - k,
    {
        k = k + 1;
    }
    proof {
        lemma_id_index(vs, id, k as int);
    }
    k
}

/// A copy of a task.
fn duplicate(t: &Todo) -> (r: Todo)
    ensures
        r@ == t@,
{
    Todo { id: t.id, done: t.done, text: t.text.clone() }
}

/// The largest id among `todos`, or zero when there is none.
fn largest_id(todos: &[Todo]) -> (r: u64)
    ensures
        r == max_id(views(todos@)),
{
    let ghost vs = views(todos@);
    let mut m: u64 = 0;
    let mut i: usize = 0;
    while i < todos.len()
        invariant
            i <= todos@.len(),
            vs == views(todos@),
            m == max_id(vs.take(i as int)),
        decreases todos@.len() - i,
    {
        assert(vs.take(i + 1).drop_last() =~= vs.take(i as int));
        if todos[i].id > m {
            m = todos[i].id;
        }
        i = i + 1;
    }
    assert(vs.take(i as int) =~= vs);
    m
}

/// The id a new task gets: one above the largest id, or 1 when there is none.
pub fn next_id(todos: &[Todo]) -> (r: u64)
    requires
        max_id(views(todos@)) < u64::MAX,
    ensures
        r == max_id(views(todos@)) + 1,
{
    largest_id(todos) + 1
}

/// Appends a new task with text `text` and a fresh id, and returns that id.
pub fn add_task(todos: &mut Vec<Todo>, text: String) -> (r: Result<u64, CmdError>)
    ensures
        views(final(todos)@) == added(views(old(todos)@), text@),
        r is Err ==> final(todos)@ == old(todos)@,
        match r {
            Ok(id) => id == max_id(views(old(todos)@)) + 1,
            Err(e) => e == CmdError::IdsExhausted && max_id(views(old(todos)@)) == u64::MAX,
        },
{
    let ghost vs = views(todos@);
    proof {
        lemma_max_id(vs);
    }
    let m = largest_id(todos.as_slice());
    if m == u64::MAX {
        return Err(CmdError::IdsExhausted);
    }
    let id = next_id(todos.as_slice());
    todos.push(Todo { id, done: false, text });
    assert(views(todos@) =~= added(vs, text@));
    Ok(id)
}

/// Marks the first task with id `id` done.
pub fn mark_done(todos: &mut Vec<Todo>, id: u64) -> (r: Result<(), CmdError>)
    ensures
        views(final(todos)@) == marked_done(views(old(todos)@), id),
        r is Err ==> final(todos)@ == old(todos)@,
        r is Ok <==> has_id(views(old(todos)@), id),
        r matches Err(e) ==> e == CmdError::NotFound,
{
    let ghost vs = views(todos@);
    proof {
        lemma_id_index_found(vs, id);
    }
    let k = find_id(todos, id);
    if k >= todos.len() {
        return Err(CmdError::NotFound);
    }
    let t = Todo { id: todos[k].id, done: true, text: todos[k].text.clone() };
    todos.set(k, t);
    assert(views(todos@) =~= marked_done(vs, id));
    Ok(())
}

/// Gives the first task with id `id` the text `text`.
pub fn edit_task(todos: &mut Vec<Todo>, id: u64, text: String) -> (r: Result<(), CmdError>)
    ensures
        views(final(todos)@) == edited(views(old(todos)@), id, text@),
        r is Err ==> final(todos)@ == old(todos)@,
        r is Ok <==> has_id(views(old(todos)@), id),
        r matches Err(e) ==> e == CmdError::NotFound,
{
    let ghost vs = views(todos@);
    proof {
        lemma_id_index_found(vs, id);
    }
    let k = find_id(todos, id);
    if k >= todos.len() {
        return Err(CmdError::NotFound);
    }
    let t = Todo { id: todos[k].id, done: todos[k].done, text };
    todos.set(k, t);
    assert(views(todos@) =~= edited(vs, id, text@));
    Ok(())
}

/// Removes every task with id `id`.
pub fn remove_task(todos: &mut Vec<Todo>, id: u64) -> (r: Result<(), CmdError>)
    ensures
        r is Ok ==> views(final(todos)@) == removed(views(old(todos)@), id),
        r is Err ==> final(todos)@ == old(todos)@,
        r is Ok <==> has_id(views(old(todos)@), id),
        r matches Err(e) ==> e == CmdError::NotFound,
{
    let ghost vs = views(todos@);
    proof {
        lemma_id_index_found(vs, id);
    }
    let k = find_id(todos, id);
    if k >= todos.len() {
        return Err(CmdError::NotFound);
    }
    let mut kept: Vec<Todo> = Vec::new();
    let mut i: usize = 0;
    while i < todos.len()
        invariant
            i <= todos@.len(),
            vs == views(todos@),
            views(kept@) == removed(vs.take(i as int), id),
        decreases todos@.len() - i,
    {
        assert(vs.take(i + 1).drop_last() =~= vs.take(i as int));
        if todos[i].id != id {
            let t = duplicate(&todos[i]);
            kept.push(t);
            assert(views(kept@) =~= removed(vs.take(i + 1), id));
        }
        i = i + 1;
    }
    assert(vs.take(i as int) =~= vs);
    *todos = kept;
    Ok(())
}

} // verus!
