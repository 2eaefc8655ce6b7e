//! Tasks of the project, run in the terminal panel.

use vstd::prelude::*;
use vstd::string::*;

use crate::features::context::{
    choices, picker, picker_layer, push_entry, Choice, Ctx, PickerEntry, PickerOwner, PickerPayload,
};
use crate::features::language::index_choice;
use crate::text::same_text;

verus! {

broadcast use vstd::string::group_string_axioms;

/// A task that can be run.
#[derive(Debug)]
pub struct Task {
    pub id: String,
    pub label: String,
    pub command_label: String,
    /// The number under which the inventory holds it.
    pub key: usize,
}

/// The plain values of a [`Task`].
pub struct Job {
    pub id: Seq<char>,
    pub label: Seq<char>,
    pub command_label: Seq<char>,
    pub key: usize,
}

impl View for Task {
    type V = Job;

    open spec fn view(&self) -> Job {
        Job {
            id: self.id@,
            label: self.label@,
            command_label: self.command_label@,
            key: self.key,
        }
    }
}

/// The plain values of some tasks.
pub open spec fn jobs(list: Seq<Task>) -> Seq<Job> {
    Seq::new(list.len(), |i: int| list[i]@)
}

/// Whether a task is among some.
pub open spec fn lists_task(list: Seq<Job>, id: Seq<char>) -> bool {
    exists|i: int| 0 <= i < list.len() && (#[trigger] list[i]).id == id
}

/// The tasks that were run before, and behind them the others that there are.
pub open spec fn candidates(used: Seq<Job>, current: Seq<Job>) -> Seq<Job>
    decreases current.len(),
{
    if current.len() == 0 {
        used
    } else {
        let before = candidates(used, current.drop_last());
        if lists_task(before, current.last().id) {
            before
        } else {
            before.push(current.last())
        }
    }
}

/// The entries for some tasks.
pub open spec fn task_choices(list: Seq<Job>) -> Seq<Choice> {
    Seq::new(list.len(), |i: int| index_choice(list[i].label, list[i].command_label, i))
}

fn has_task(list: &Vec<Task>, id: &str) -> (result: bool)
    ensures
        result == lists_task(jobs(list@), id@),
{
    let mut i: usize = 0;
    while i < list.len()
        invariant
            i <= list@.len(),
            forall|k: int| 0 <= k < i ==> (#[trigger] jobs(list@)[k]).id != id@,
        decreases list@.len() - i,
    {
        assert(jobs(list@)[i as int] == list@[i as int]@);
        if same_text(list[i].id.as_str(), id) {
            return true;
        }
        i += 1;
    }
    false
}

/// A task ended.
#[derive(Debug)]
pub enum TasksEvent {
    Finished { label: String, success: bool },
}

/// The tasks that are listed.
#[derive(Debug)]
pub struct Tasks {
    candidates: Vec<Task>,
}

impl View for Tasks {
    type V = Seq<Job>;

    closed spec fn view(&self) -> Seq<Job> {
        jobs(self.candidates@)
    }
}

impl Default for Tasks {
    fn default() -> (tasks: Self)
        ensures
            tasks@ == Seq::<Job>::empty(),
    {
        let tasks = Tasks { candidates: Vec::new() };
        assert(jobs(tasks.candidates@) =~= Seq::<Job>::empty());
        tasks
    }
}

impl Tasks {
    /// Whether tasks can be listed; says why not.
    pub fn ready(&self, ctx: &mut Ctx, has_worktree: bool, has_inventory: bool) -> (ready: bool)
        ensures
            ready == (has_worktree && has_inventory),
            final(ctx)@ == if !has_worktree {
                old(ctx)@.said("tasks need a directory root"@)
            } else if !has_inventory {
                old(ctx)@.said("tasks are unavailable"@)
            } else {
                old(ctx)@
            },
    {
        if !has_worktree {
            ctx.say("tasks need a directory root");
            return false;
        }
        if !has_inventory {
            ctx.say("tasks are unavailable");
            return false;
        }
        true
    }

    /// Lists tasks: those that were run before, the latest first, and behind
    /// them the others.
    pub fn run(&mut self, ctx: &mut Ctx, used: Vec<Task>, current: Vec<Task>)
        ensures
            ({
                let all = candidates(jobs(used@), jobs(current@));
                if all.len() == 0 {
                    final(self)@ == old(self)@ && final(ctx)@ == old(ctx)@.said(
                        "no tasks; define them in .zed/tasks.json under the root"@,
                    )
                } else {
                    final(self)@ == all && final(ctx)@ == old(ctx)@.showing(
                        picker_layer(
                            "Tasks"@,
                            Seq::empty(),
                            task_choices(all),
                            PickerOwner::Tasks,
                        ),
                    )
                }
            }),
    {
        let ghost first = jobs(used@);
        let ghost rest = jobs(current@);
        let mut list = used;
        let mut i: usize = 0;
        assert(rest.take(0) =~= Seq::<Job>::empty());
        while i < current.len()
            invariant
                i <= current@.len(),
                rest == jobs(current@),
                jobs(list@) == candidates(first, rest.take(i as int)),
            decreases current@.len() - i,
        {
            let task = &current[i];
            let ghost before = list@;
            proof {
                assert(rest.take(i + 1).drop_last() =~= rest.take(i as int));
                assert(rest.take(i + 1).last() == task@);
            }
            if !has_task(&list, task.id.as_str()) {
                let copy = Task {
                    id: task.id.clone(),
                    label: task.label.clone(),
                    command_label: task.command_label.clone(),
                    key: task.key,
                };
                list.push(copy);
                assert(jobs(list@) =~= jobs(before).push(task@));
            }
            i += 1;
        }
        assert(rest.take(i as int) =~= rest);
        if list.len() == 0 {
            ctx.say("no tasks; define them in .zed/tasks.json under the root");
            return;
        }
        let mut entries: Vec<PickerEntry> = Vec::new();
        let mut k: usize = 0;
        while k < list.len()
            invariant
                k <= list@.len(),
                choices(entries@) =~= task_choices(jobs(list@)).take(k as int),
            decreases list@.len() - k,
        {
            push_entry(
                &mut entries,
                PickerEntry {
                    label: list[k].label.clone(),
                    detail: list[k].command_label.clone(),
                    enabled: true,
                    payload: PickerPayload::Index(k),
                },
            );
            k += 1;
        }
        self.candidates = list;
        proof {
            assert(task_choices(jobs(list@)).take(k as int) =~= task_choices(jobs(list@)));
            reveal_strlit("");
            assert(""@ =~= Seq::<char>::empty());
        }
        ctx.show(picker("Tasks", "", entries, PickerOwner::Tasks));
    }

    /// An entry of the picker was accepted: the task to run.
    pub fn pick(&mut self, ctx: &mut Ctx, index: usize) -> (task: Option<&Task>)
        ensures
            final(self)@ == old(self)@,
            match task {
                Some(task) => index < old(self)@.len() && task@ == old(self)@[index as int]
                    && final(ctx)@ == old(ctx)@.popped(),
                None => index >= old(self)@.len() && final(ctx)@ == old(ctx)@,
            },
    {
        if index >= self.candidates.len() {
            return None;
        }
        ctx.pop();
        Some(&self.candidates[index])
    }

    /// Whether the task that was run last can be run again; says why not.
    pub fn rerun(&self, ctx: &mut Ctx, has_inventory: bool, has_run: bool) -> (ready: bool)
        ensures
            ready == (has_inventory && has_run),
            final(ctx)@ == if !has_inventory {
                old(ctx)@.said("tasks are unavailable"@)
            } else if !has_run {
                old(ctx)@.said("no task has run yet"@)
            } else {
                old(ctx)@
            },
    {
        if !has_inventory {
            ctx.say("tasks are unavailable");
            return false;
        }
        if !has_run {
            ctx.say("no task has run yet");
            return false;
        }
        true
    }

    /// Says whether a task was started.
    pub fn started(&self, ctx: &mut Ctx, label: &str, result: &Result<(), String>)
        ensures
            final(ctx)@ == old(ctx)@.said(
                match result {
                    Ok(_) => "running task "@ + label@,
                    Err(error) => "task "@ + label@ + " failed to start: "@ + error@,
                },
            ),
    {
        match result {
            Ok(_) => {
                let mut text = "running task ".to_string();
                text.append(label);
                ctx.say(text.as_str());
            },
            Err(error) => {
                let mut text = "task ".to_string();
                text.append(label);
                text.append(" failed to start: ");
                text.append(error.as_str());
                ctx.say(text.as_str());
            },
        }
    }

    /// Says how a task ended.
    pub fn update(&mut self, ctx: &mut Ctx, event: TasksEvent)
        ensures
            final(self)@ == old(self)@,
            final(ctx)@ == old(ctx)@.said(
                "task "@ + event->label@ + " "@ + if event->success {
                    "finished"@
                } else {
                    "failed"@
                },
            ),
    {
        let TasksEvent::Finished { label, success } = event;
        let mut text = "task ".to_string();
        text.append(label.as_str());
        text.append(" ");
        if success {
            text.append("finished");
        } else {
            text.append("failed");
        }
        ctx.say(text.as_str());
    }
}

/// What a task of a worktree is run with: its root as the working directory,
/// and as the value of a variable.
#[derive(Debug, PartialEq, Eq)]
pub struct TaskContext {
    pub cwd: Option<String>,
    pub worktree_root: String,
}

/// What a task of the worktree at `root` is run with.
pub fn worktree_context(root: &str) -> (context: TaskContext)
    ensures
        context.cwd is Some,
        context.cwd->0@ == root@,
        context.worktree_root@ == root@,
{
    TaskContext { cwd: Some(root.to_string()), worktree_root: root.to_string() }
}

/// Every task is listed, those that were run before ahead of the others as
/// they were, and no other task twice.
pub proof fn every_task_is_listed_once(used: Seq<Job>, current: Seq<Job>)
    ensures
        ({
            let all = candidates(used, current);
            &&& used.len() <= all.len()
            &&& all.take(used.len() as int) == used
            &&& forall|i: int| 0 <= i < current.len() ==> lists_task(all, (#[trigger] current[i]).id)
            &&& forall|i: int, j: int|
                0 <= i < j < all.len() && used.len() <= j ==> (#[trigger] all[i]).id != (
                #[trigger] all[j]).id
        }),
    decreases current.len(),
{
    if current.len() == 0 {
        assert(used.take(used.len() as int) =~= used);
    } else {
        every_task_is_listed_once(used, current.drop_last());
        let before = candidates(used, current.drop_last());
        let all = candidates(used, current);
        assert(all.take(used.len() as int) =~= before.take(used.len() as int));
        assert forall|i: int| 0 <= i < current.len() implies lists_task(
            all,
            (#[trigger] current[i]).id,
        ) by {
            if i < current.len() - 1 {
                assert(current.drop_last()[i] == current[i]);
                let k = choose|k: int| 0 <= k < before.len() && before[k].id == current[i].id;
                assert(all[k] == before[k]);
            } else if !lists_task(before, current.last().id) {
                assert(all[before.len() as int] == current.last());
            }
        }
        assert forall|i: int, j: int| 0 <= i < j < all.len() && used.len() <= j implies (
        #[trigger] all[i]).id != (#[trigger] all[j]).id by {
            assert(all[i] == before[i]);
            if j < before.len() {
                assert(all[j] == before[j]);
            }
        }
    }
}

} // verus!
