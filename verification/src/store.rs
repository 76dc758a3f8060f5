//! The task store: an ordered, file-backed collection of tasks.
//!
//! Insertion order is the authoritative order. The number shown to a user is
//! always the current position plus one, derived fresh on every listing; on
//! reload, tasks are re-numbered by their position in the file, whatever
//! numeral their lines carry.

use crate::codec::{decode_lines, encode_lines, encode_lines_from, encode_task, parse_task};
use crate::errors::StoreError;
use crate::groups::default_group_name;
use vstd::prelude::*;

verus! {

/// One to-do item: display text and a completion flag.
pub struct Task {
    pub content: String,
    pub completed: bool,
}

/// The mathematical value of a [`Task`].
#[verifier::ext_equal]
pub ghost struct TaskView {
    pub content: Seq<char>,
    pub completed: bool,
}

impl View for Task {
    type V = TaskView;

    open spec fn view(&self) -> TaskView {
        TaskView { content: self.content@, completed: self.completed }
    }
}

/// The values of a sequence of tasks, in order.
pub open spec fn task_views(s: Seq<Task>) -> Seq<TaskView> {
    s.map_values(|t: Task| t@)
}

/// The store after completing the task at `i`: that task's flag set, its
/// content and every other task untouched. Out of range, the store unchanged.
pub open spec fn complete_spec(tasks: Seq<TaskView>, i: int) -> Seq<TaskView> {
    if 0 <= i < tasks.len() {
        tasks.update(i, TaskView { content: tasks[i].content, completed: true })
    } else {
        tasks
    }
}

/// How many of the tasks are completed.
pub open spec fn num_completed(tasks: Seq<TaskView>) -> nat
    decreases tasks.len(),
{
    if tasks.len() == 0 {
        0
    } else {
        num_completed(tasks.drop_last()) + if tasks.last().completed {
            1nat
        } else {
            0nat
        }
    }
}

/// The tasks not yet completed, in their original relative order.
pub open spec fn keep_incomplete(tasks: Seq<TaskView>) -> Seq<TaskView>
    decreases tasks.len(),
{
    if tasks.len() == 0 {
        tasks
    } else if tasks.last().completed {
        keep_incomplete(tasks.drop_last())
    } else {
        keep_incomplete(tasks.drop_last()).push(tasks.last())
    }
}

/// Completing the same index twice leaves exactly the state that completing
/// it once leaves, whether or not the index is in range.
pub proof fn lemma_complete_idempotent(tasks: Seq<TaskView>, i: int)
    ensures
        complete_spec(complete_spec(tasks, i), i) == complete_spec(tasks, i),
{
    if 0 <= i < tasks.len() {
        assert(complete_spec(complete_spec(tasks, i), i) =~= complete_spec(tasks, i));
    }
}

/// Removing the completed tasks drops exactly the completed count; when no
/// task is completed, it changes nothing at all, so the store — and the file
/// written from it — is identical.
pub proof fn lemma_remove_completed_counts(tasks: Seq<TaskView>)
    ensures
        keep_incomplete(tasks).len() + num_completed(tasks) == tasks.len(),
        num_completed(tasks) == 0 ==> keep_incomplete(tasks) == tasks,
    decreases tasks.len(),
{
    if tasks.len() == 0 {
    } else {
        lemma_remove_completed_counts(tasks.drop_last());
        if num_completed(tasks) == 0 {
            assert(!tasks.last().completed);
            assert(keep_incomplete(tasks.drop_last()).push(tasks.last()) =~= tasks);
        }
    }
}

/// The mathematical value of a [`TaskStack`]: its group name and the ordered
/// sequence of its tasks.
#[verifier::ext_equal]
pub ghost struct StackView {
    pub name: Seq<char>,
    pub tasks: Seq<TaskView>,
}

/// An ordered collection of tasks for one group.
pub struct TaskStack {
    name: String,
    list: Vec<Task>,
}

impl View for TaskStack {
    type V = StackView;

    closed spec fn view(&self) -> StackView {
        StackView { name: self.name@, tasks: task_views(self.list@) }
    }
}

impl TaskStack {
    /// An empty store under the default group name.
    pub fn new() -> (r: TaskStack)
        ensures
            r@.tasks =~= Seq::<TaskView>::empty(),
            r@.name == default_group_name(),
    {
        let r = TaskStack { name: "miscellaneous".to_owned(), list: Vec::new() };
        proof {
            assert(task_views(r.list@) =~= Seq::<TaskView>::empty());
        }
        r
    }

    /// The group's display name.
    pub fn name(&self) -> (r: String)
        ensures
            r@ == self@.name,
    {
        self.name.clone()
    }

    /// Appends a new, not yet completed task at the end of the sequence.
    /// Rejecting empty or whitespace-only content is the caller's concern.
    pub fn add(&mut self, content: String)
        ensures
            final(self)@.tasks =~= old(self)@.tasks.push(
                TaskView { content: content@, completed: false },
            ),
            final(self)@.name == old(self)@.name,
    {
        let ghost c = content@;
        self.list.push(Task { content, completed: false });
        proof {
            assert(task_views(self.list@) =~= task_views(old(self).list@).push(
                TaskView { content: c, completed: false },
            ));
        }
    }

    /// How many tasks the store holds.
    pub fn num_tasks(&self) -> (r: usize)
        ensures
            r == self@.tasks.len(),
    {
        self.list.len()
    }

    /// The tasks in store order, for read-only listing.
    pub fn tasks(&self) -> (r: &Vec<Task>)
        ensures
            task_views(r@) == self@.tasks,
    {
        &self.list
    }

    /// How many tasks are completed; recomputed on every call, never cached.
    pub fn num_tasks_completed(&self) -> (r: usize)
        ensures
            r == num_completed(self@.tasks),
    {
        let ghost views = task_views(self.list@);
        let n = self.list.len();
        let mut count: usize = 0;
        let mut i: usize = 0;
        while i < n
            invariant
                n == self.list@.len(),
                views == task_views(self.list@),
                0 <= i <= n,
                count <= i,
                count as nat == num_completed(views.take(i as int)),
            decreases n - i,
        {
            if self.list[i].completed {
                count += 1;
            }
            i += 1;
            proof {
                assert(views.take(i as int).drop_last() =~= views.take(i as int - 1));
                assert(views.take(i as int).last() == views[i as int - 1]);
            }
        }
        proof {
            assert(views.take(n as int) =~= views);
        }
        count
    }

    /// Marks the task at `task_index` (0-based) completed. Completing an
    /// already completed task is a no-op change; an out-of-range index
    /// reports which number was asked for and leaves the store unchanged.
    pub fn complete(&mut self, task_index: usize) -> (r: Result<(), StoreError>)
        ensures
            final(self)@.tasks == complete_spec(old(self)@.tasks, task_index as int),
            final(self)@.name == old(self)@.name,
            r is Ok <==> task_index < old(self)@.tasks.len(),
            r is Err ==> r == Err::<(), StoreError>(StoreError::Index(task_index))
                && final(self)@ == old(self)@,
    {
        if task_index < self.list.len() {
            let content = self.list[task_index].content.clone();
            self.list[task_index] = Task { content, completed: true };
            proof {
                assert(task_views(self.list@) =~= complete_spec(
                    task_views(old(self).list@),
                    task_index as int,
                ));
            }
            Ok(())
        } else {
            Err(StoreError::Index(task_index))
        }
    }

    /// Removes the task at `task_index` (0-based); every later task moves one
    /// position earlier, so later display numbers change — expected, not a
    /// bug. An out-of-range index reports the error and leaves the store
    /// unchanged.
    pub fn remove(&mut self, task_index: usize) -> (r: Result<(), StoreError>)
        ensures
            final(self)@.name == old(self)@.name,
            r is Ok <==> task_index < old(self)@.tasks.len(),
            task_index < old(self)@.tasks.len() ==> final(self)@.tasks
                == old(self)@.tasks.remove(task_index as int)
                && final(self)@.tasks.len() == old(self)@.tasks.len() - 1,
            r is Err ==> r == Err::<(), StoreError>(StoreError::Index(task_index))
                && final(self)@ == old(self)@,
    {
        if task_index >= self.list.len() {
            return Err(StoreError::Index(task_index));
        }
        self.list.remove(task_index);
        proof {
            assert(task_views(self.list@) =~= task_views(old(self).list@).remove(
                task_index as int,
            ));
        }
        Ok(())
    }

    /// Removes every completed task in one pass, preserving the relative
    /// order of the rest. Returns whether anything was removed; `false`
    /// means no task was completed and the store is exactly as before — a
    /// meaningful outcome, not an error.
    pub fn remove_completed(&mut self) -> (r: bool)
        ensures
            final(self)@.tasks == keep_incomplete(old(self)@.tasks),
            final(self)@.name == old(self)@.name,
            r <==> num_completed(old(self)@.tasks) > 0,
            !r ==> final(self)@ == old(self)@,
    {
        let ghost views = task_views(self.list@);
        let n = self.list.len();
        let mut kept: Vec<Task> = Vec::new();
        let mut i: usize = 0;
        proof {
            assert(task_views(kept@) =~= keep_incomplete(views.take(0int)));
        }
        while i < n
            invariant
                n == self.list@.len(),
                views == task_views(self.list@),
                0 <= i <= n,
                task_views(kept@) == keep_incomplete(views.take(i as int)),
            decreases n - i,
        {
            let ghost prev = task_views(kept@);
            if !self.list[i].completed {
                let content = self.list[i].content.clone();
                kept.push(Task { content, completed: false });
                proof {
                    assert(task_views(kept@) =~= prev.push(views[i as int]));
                }
            }
            i += 1;
            proof {
                assert(views.take(i as int).drop_last() =~= views.take(i as int - 1));
                assert(views.take(i as int).last() == views[i as int - 1]);
            }
        }
        proof {
            assert(views.take(n as int) =~= views);
            lemma_remove_completed_counts(views);
        }
        let removed = kept.len() < self.list.len();
        self.list = kept;
        proof {
            if !removed {
                assert(final(self)@ =~= old(self)@);
            }
        }
        removed
    }

    /// Loads a store from the full text of a group's backing file, under the
    /// group name the caller resolved. Every line is decoded in file order;
    /// any malformed line fails the whole load — a partial store is never
    /// returned. The numerals stored in the lines are validated and
    /// discarded: position in the file alone places each task.
    pub fn from_text(name: String, text: &str) -> (r: Result<TaskStack, StoreError>)
        ensures
            match r {
                Ok(stack) => {
                    &&& decode_lines(text@) is Some
                    &&& stack@.tasks == decode_lines(text@)->Some_0
                    &&& stack@.name == name@
                },
                Err(e) => decode_lines(text@) is None && e == StoreError::Parse,
            },
    {
        let n = text.unicode_len();
        let mut list: Vec<Task> = Vec::new();
        let mut p: usize = 0;
        proof {
            assert(text@.skip(0int) =~= text@);
            assert(task_views(list@) =~= Seq::<TaskView>::empty());
            if let Some(ts) = decode_lines(text@) {
                assert(task_views(list@) + ts =~= ts);
            }
        }
        while p < n
            invariant
                n == text@.len(),
                0 <= p <= n,
                ({
                    let whole = decode_lines(text@);
                    match decode_lines(text@.skip(p as int)) {
                        Some(ts) => whole == Some(task_views(list@) + ts),
                        None => whole is None,
                    }
                }),
            decreases n - p,
        {
            let ghost suffix = text@.skip(p as int);
            let suffix_str = text.substring_char(p, n);
            proof {
                assert(suffix_str@ =~= suffix);
            }
            let found = crate::codec::find_char_in(suffix_str, '\n');
            proof {
                crate::codec::lemma_find_char(suffix, '\n');
            }
            let (line_str, next_p): (&str, usize) = match found {
                Some(k) => (suffix_str.substring_char(0, k), p + k + 1),
                None => (suffix_str, n),
            };
            proof {
                assert(line_str@ =~= crate::codec::first_line(suffix));
                assert(text@.skip(next_p as int) =~= crate::codec::rest_lines(suffix));
            }
            let ghost prev = task_views(list@);
            match parse_task(line_str.to_owned()) {
                Ok((_, completed, content)) => {
                    let ghost c = content@;
                    list.push(Task { content, completed });
                    proof {
                        assert(task_views(list@) =~= prev.push(
                            TaskView { content: c, completed },
                        ));
                        let t = crate::codec::decode_line(line_str@)->Some_0;
                        assert(TaskView { content: c, completed } == TaskView {
                            content: t.2,
                            completed: t.1,
                        });
                        if let Some(ts) = decode_lines(text@.skip(next_p as int)) {
                            assert(task_views(list@) + ts =~= prev + (seq![
                                TaskView { content: t.2, completed: t.1 },
                            ] + ts));
                        }
                    }
                },
                Err(_) => {
                    return Err(StoreError::Parse);
                },
            }
            p = next_p;
        }
        proof {
            assert(text@.skip(n as int) =~= Seq::<char>::empty());
            assert(task_views(list@) + Seq::<TaskView>::empty() =~= task_views(list@));
        }
        Ok(TaskStack { name, list })
    }

    /// Renders the whole store as the full text of its backing file: every
    /// task, in current order, as one newline-terminated line numbered by its
    /// position at write time. The caller overwrites the old file with this
    /// text entirely.
    pub fn to_text(&self) -> (r: String)
        ensures
            r@ == encode_lines(self@.tasks),
    {
        let ghost views = task_views(self.list@);
        let n = self.list.len();
        let mut out = String::new();
        let mut i: usize = 0;
        proof {
            assert(views.skip(0int) =~= views);
            assert(out@ + encode_lines_from(views.skip(0int), 0nat) =~= encode_lines(views));
        }
        while i < n
            invariant
                n == self.list@.len(),
                views == task_views(self.list@),
                0 <= i <= n,
                out@ + encode_lines_from(views.skip(i as int), i as nat) == encode_lines(views),
            decreases n - i,
        {
            let ghost prev = out@;
            let line = encode_task(i, &self.list[i]);
            out.append(line.as_str());
            out.append("\n");
            proof {
                reveal_strlit("\n");
                assert("\n"@ =~= seq!['\n']);
                let tail = views.skip(i as int);
                assert(tail.drop_first() =~= views.skip(i as int + 1));
                assert(tail[0] == views[i as int]);
                assert(encode_lines_from(tail, i as nat) == crate::codec::encode_line(
                    i as nat,
                    views[i as int],
                ) + seq!['\n'] + encode_lines_from(views.skip(i as int + 1), i as nat + 1));
                assert(out@ + encode_lines_from(views.skip(i as int + 1), i as nat + 1) =~= prev
                    + encode_lines_from(tail, i as nat));
            }
            i += 1;
        }
        proof {
            assert(views.skip(n as int) =~= Seq::<TaskView>::empty());
            assert(out@ + encode_lines_from(Seq::<TaskView>::empty(), n as nat) =~= out@);
        }
        out
    }
}

} // verus!
