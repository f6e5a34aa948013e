//! The in-memory task collection and its operations.
//!
//! The collection is an ordered sequence of tasks; order is insertion order.
//! New ids are one more than the last task's id (1 for an empty collection),
//! so ids along the sequence stay unique as long as they are only produced
//! here.

use vstd::prelude::*;
use vstd::string::StringExecFns;

use crate::digits::{dec_rep, u64_to_chars};
use crate::task::{Task, TaskView, views};
use crate::text::{chars_to_string, str_to_chars};

verus! {

/// The id the next added task receives: one more than the last task's id, or
/// 1 when the collection is empty.
pub open spec fn spec_next_id(ts: Seq<TaskView>) -> int {
    if ts.len() == 0 {
        1
    } else {
        ts.last().id + 1
    }
}

/// Whether some task in the collection carries this id.
pub open spec fn has_id(ts: Seq<TaskView>, id: u64) -> bool {
    exists|i: int| 0 <= i < ts.len() && ts[i].id == id
}

/// The collection after the first task with this id is marked done.
pub open spec fn is_marked_done(pre: Seq<TaskView>, post: Seq<TaskView>, id: u64) -> bool {
    exists|i: int|
        {
            &&& 0 <= i < pre.len()
            &&& pre[i].id == id
            &&& (forall|j: int| 0 <= j < i ==> pre[j].id != id)
            &&& post == pre.update(
                i,
                TaskView { id: pre[i].id, description: pre[i].description, done: true },
            )
        }
}

/// The collection after the first task with this id has its description
/// replaced; id and done flag are untouched.
pub open spec fn is_edited(
    pre: Seq<TaskView>,
    post: Seq<TaskView>,
    id: u64,
    description: Seq<char>,
) -> bool {
    exists|i: int|
        {
            &&& 0 <= i < pre.len()
            &&& pre[i].id == id
            &&& (forall|j: int| 0 <= j < i ==> pre[j].id != id)
            &&& post == pre.update(
                i,
                TaskView { id: pre[i].id, description: description, done: pre[i].done },
            )
        }
}

/// Append a task with the next id and an unset done flag; the assigned id is
/// returned.
pub fn add_task(tasks: &mut Vec<Task>, description: String) -> (r: u64)
    requires
        old(tasks)@.len() > 0 ==> old(tasks)@.last()@.id < u64::MAX,
    ensures
        r == spec_next_id(views(old(tasks)@)),
        views(final(tasks)@) == views(old(tasks)@).push(
            TaskView { id: r, description: description@, done: false },
        ),
{
    let next_id: u64 = if tasks.len() == 0 {
        1
    } else {
        tasks[tasks.len() - 1].id + 1
    };
    let task = Task { id: next_id, description, done: false };
    tasks.push(task);
    proof {
        assert(views(final(tasks)@) =~= views(old(tasks)@).push(
            TaskView { id: next_id, description: task.description@, done: false },
        ));
    }
    next_id
}

/// Mark the first task with this id as done; report whether one was found.
/// When none is found the collection is unchanged.
pub fn mark_done(tasks: &mut Vec<Task>, id: u64) -> (found: bool)
    ensures
        found == has_id(views(old(tasks)@), id),
        !found ==> final(tasks)@ == old(tasks)@,
        found ==> is_marked_done(views(old(tasks)@), views(final(tasks)@), id),
{
    let n = tasks.len();
    let mut i: usize = 0;
    while i < n
        invariant
            n == tasks.len(),
            0 <= i <= n,
            tasks@ == old(tasks)@,
            forall|j: int| 0 <= j < i ==> views(tasks@)[j].id != id,
        decreases n - i,
    {
        if tasks[i].id == id {
            let description = tasks[i].description.clone();
            let updated = Task { id, description, done: true };
            let ghost pre = views(tasks@);
            tasks[i] = updated;
            proof {
                assert(views(tasks@) =~= pre.update(
                    i as int,
                    TaskView { id: pre[i as int].id, description: pre[i as int].description, done: true },
                ));
                assert(is_marked_done(views(old(tasks)@), views(final(tasks)@), id));
            }
            return true;
        }
        i += 1;
    }
    proof {
        assert(!has_id(views(old(tasks)@), id));
    }
    false
}

/// Replace the description of the first task with this id; report whether one
/// was found. When none is found the collection is unchanged.
pub fn edit_task(tasks: &mut Vec<Task>, id: u64, description: String) -> (found: bool)
    ensures
        found == has_id(views(old(tasks)@), id),
        !found ==> final(tasks)@ == old(tasks)@,
        found ==> is_edited(views(old(tasks)@), views(final(tasks)@), id, description@),
{
    let n = tasks.len();
    let mut i: usize = 0;
    while i < n
        invariant
            n == tasks.len(),
            0 <= i <= n,
            tasks@ == old(tasks)@,
            forall|j: int| 0 <= j < i ==> views(tasks@)[j].id != id,
        decreases n - i,
    {
        if tasks[i].id == id {
            let updated = Task { id, description, done: tasks[i].done };
            let ghost pre = views(tasks@);
            tasks[i] = updated;
            proof {
                assert(views(tasks@) =~= pre.update(
                    i as int,
                    TaskView {
                        id: pre[i as int].id,
                        description: updated.description@,
                        done: pre[i as int].done,
                    },
                ));
                assert(is_edited(views(old(tasks)@), views(final(tasks)@), id, updated.description@));
            }
            return true;
        }
        i += 1;
    }
    proof {
        assert(!has_id(views(old(tasks)@), id));
    }
    false
}

/// Remove every task with this id (at most one, when ids are unique); report
/// whether any was removed. When none matches the collection is unchanged.
pub fn delete_task(tasks: &mut Vec<Task>, id: u64) -> (found: bool)
    ensures
        found == has_id(views(old(tasks)@), id),
        views(final(tasks)@) == views(old(tasks)@).filter(|t: TaskView| t.id != id),
        !found ==> final(tasks)@ == old(tasks)@,
{
    let n = tasks.len();
    let mut kept: Vec<Task> = Vec::new();
    let mut found = false;
    let mut i: usize = 0;
    while i < n
        invariant
            n == tasks.len(),
            0 <= i <= n,
            tasks@ == old(tasks)@,
            views(kept@) == views(tasks@.take(i as int)).filter(|t: TaskView| t.id != id),
            found == has_id(views(tasks@.take(i as int)), id),
            found ==> kept@.len() < i,
            !found ==> kept@ == tasks@.take(i as int),
        decreases n - i,
    {
        let ghost prefix = views(tasks@.take(i as int));
        let ghost pred = |t: TaskView| t.id != id;
        proof {
            assert(views(tasks@.take(i as int + 1)).drop_last() =~= prefix);
            assert(views(tasks@.take(i as int + 1)) =~= prefix.push(tasks@[i as int]@));
            reveal(Seq::filter);
        }
        if tasks[i].id == id {
            found = true;
            proof {
                assert(views(tasks@.take(i as int + 1))[i as int].id == id);
                assert(has_id(views(tasks@.take(i as int + 1)), id));
            }
        } else {
            let item = Task {
                id: tasks[i].id,
                description: tasks[i].description.clone(),
                done: tasks[i].done,
            };
            proof {
                if !found {
                    assert(kept@.push(item) =~= tasks@.take(i as int + 1));
                }
            }
            kept.push(item);
            proof {
                assert(views(kept@) =~= prefix.filter(pred).push(tasks@[i as int]@));
            }
        }
        proof {
            let s1 = views(tasks@.take(i as int + 1));
            if has_id(s1, id) && !has_id(prefix, id) {
                let w = choose|w: int| 0 <= w < s1.len() && (#[trigger] s1[w]).id == id;
                assert(w == i);
            }
        }
        i += 1;
    }
    proof {
        assert(tasks@.take(n as int) =~= tasks@);
        if !found {
            assert(kept@ =~= tasks@);
        }
    }
    *tasks = kept;
    found
}

/// Whether ids strictly increase along the collection, as append-only
/// creation leaves them. Strictly increasing ids are in particular unique.
pub open spec fn ids_increasing(ts: Seq<TaskView>) -> bool {
    forall|i: int, j: int| 0 <= i < j < ts.len() ==> ts[i].id < ts[j].id
}

/// Appending a task with the next id keeps ids strictly increasing, and that
/// id collides with no existing one: ids stay unique without being recomputed
/// from the whole collection.
pub proof fn lemma_next_id_fresh(ts: Seq<TaskView>, t: TaskView)
    requires
        ids_increasing(ts),
        t.id == spec_next_id(ts),
    ensures
        ids_increasing(ts.push(t)),
        !has_id(ts, t.id),
{
    assert(forall|i: int| 0 <= i < ts.len() ==> #[trigger] ts[i].id <= ts.last().id);
    assert forall|i: int, j: int| 0 <= i < j < ts.push(t).len() implies ts.push(t)[i].id
        < ts.push(t)[j].id by {
        if j < ts.len() {
            assert(ts[i].id < ts[j].id);
        } else {
            assert(ts.push(t)[i] == ts[i]);
        }
    }
}

/// Every task a filter keeps was in the collection.
proof fn lemma_filter_subset(ts: Seq<TaskView>, pred: spec_fn(TaskView) -> bool)
    ensures
        forall|i: int|
            0 <= i < ts.filter(pred).len() ==> ts.contains(#[trigger] ts.filter(pred)[i]),
    decreases ts.len(),
{
    reveal(Seq::filter);
    if ts.len() > 0 {
        let head = ts.drop_last();
        let l = ts.last();
        lemma_filter_subset(head, pred);
        assert forall|i: int|
            0 <= i < ts.filter(pred).len() implies ts.contains(#[trigger] ts.filter(pred)[i]) by {
            let f = ts.filter(pred);
            let fh = head.filter(pred);
            if pred(l) && i == f.len() - 1 {
                assert(f[i] == l);
                assert(ts[ts.len() - 1] == l);
            } else {
                assert(f[i] == fh[i]);
                assert(head.contains(fh[i]));
                let j = choose|j: int| 0 <= j < head.len() && head[j] == fh[i];
                assert(ts[j] == fh[i]);
            }
        }
    }
}

/// Removing the tasks with one id keeps the remaining ids strictly
/// increasing.
pub proof fn lemma_delete_keeps_ids_increasing(ts: Seq<TaskView>, id: u64)
    requires
        ids_increasing(ts),
    ensures
        ids_increasing(ts.filter(|t: TaskView| t.id != id)),
    decreases ts.len(),
{
    reveal(Seq::filter);
    let pred = |t: TaskView| t.id != id;
    if ts.len() > 0 {
        let head = ts.drop_last();
        let l = ts.last();
        assert(ids_increasing(head)) by {
            assert(forall|i: int, j: int|
                0 <= i < j < head.len() ==> head[i] == ts[i] && head[j] == ts[j]);
        }
        lemma_delete_keeps_ids_increasing(head, id);
        let fh = head.filter(pred);
        lemma_filter_subset(head, pred);
        assert forall|i: int| 0 <= i < fh.len() implies #[trigger] fh[i].id < l.id by {
            let w = choose|w: int| 0 <= w < head.len() && head[w] == fh[i];
            assert(ts[w].id < ts[ts.len() - 1].id);
        }
        if pred(l) {
            assert(ts.filter(pred) == fh.push(l));
            assert forall|i: int, j: int|
                0 <= i < j < fh.push(l).len() implies fh.push(l)[i].id < fh.push(l)[j].id by {
                if j < fh.len() {
                    assert(fh[i].id < fh[j].id);
                } else {
                    assert(fh.push(l)[i] == fh[i]);
                }
            }
        } else {
            assert(ts.filter(pred) == fh);
        }
    }
}

/// A change that keeps every task's id in place (marking done, editing a
/// description) keeps ids strictly increasing.
pub proof fn lemma_same_ids_keep_order(pre: Seq<TaskView>, post: Seq<TaskView>)
    requires
        ids_increasing(pre),
        post.len() == pre.len(),
        forall|k: int| 0 <= k < pre.len() ==> post[k].id == pre[k].id,
    ensures
        ids_increasing(post),
{
}

/// The line reported for an empty collection.
pub open spec fn no_tasks_line() -> Seq<char> {
    "No tasks found."@
}

/// The listing line of one task: its id, a done marker, and the description.
pub open spec fn line_spec(t: TaskView) -> Seq<char> {
    dec_rep(t.id as int) + seq![':', ' ', '['] + (if t.done {
        seq!['x']
    } else {
        seq![' ']
    }) + seq![']', ' '] + t.description
}

/// The listing line of one task.
pub fn render_task_line(t: &Task) -> (r: String)
    ensures
        r@ == line_spec(t@),
{
    let mut out = u64_to_chars(t.id);
    out.push(':');
    out.push(' ');
    out.push('[');
    if t.done {
        out.push('x');
    } else {
        out.push(' ');
    }
    out.push(']');
    out.push(' ');
    let mut desc = str_to_chars(t.description.as_str());
    out.append(&mut desc);
    proof {
        assert(out@ =~= line_spec(t@));
    }
    chars_to_string(&out)
}

/// The listing of a collection: one line for the empty collection, otherwise
/// one line per task in collection order.
pub fn render_list(tasks: &Vec<Task>) -> (r: Vec<String>)
    ensures
        tasks@.len() == 0 ==> r@.len() == 1 && r@[0]@ == no_tasks_line(),
        tasks@.len() > 0 ==> {
            &&& r@.len() == tasks@.len()
            &&& forall|i: int| 0 <= i < tasks@.len() ==> r@[i]@ == line_spec(tasks@[i]@)
        },
{
    let mut r: Vec<String> = Vec::new();
    let n = tasks.len();
    if n == 0 {
        r.push(String::from_str("No tasks found."));
        r
    } else {
        let mut i: usize = 0;
        while i < n
            invariant
                0 <= i <= n,
                n == tasks@.len(),
                r@.len() == i,
                forall|k: int| 0 <= k < i ==> r@[k]@ == line_spec(tasks@[k]@),
            decreases n - i,
        {
            r.push(render_task_line(&tasks[i]));
            i += 1;
        }
        r
    }
}

} // verus!
