//! Laws of the probes.

use vstd::prelude::*;

use crate::probe::report::{edit_in, place};
use crate::probe::script::{
    judged, language_tasks, pace_of, settings_tasks, AnswerEvent, ConfigurationFile, Evidence,
    Expected, KeymapText, Outcome, Request, Run, SettingsText, Step, Task, Wanted,
};
use crate::probe::{
    answer_time, awaited, behind_marker, changed, directory_reads, first_place, last_line_bytes,
    line_breaks, longest, outside_trouble, ready_time, reported, root_trouble, text_at,
    trial_trouble, first_trouble, ActionEvent, ConfigurationEvent, FsAccess, OutsideTrial,
    RequestEnd, RootTrial, SourceText,
};
use crate::text::{has_at, holds, texts, utf8_len};

verus! {

/// A run starts with its first task and the time that this has.
pub proof fn runs_start_with_the_first_task(tasks: Seq<Task>, now: u64)
    ensures
        Run::started(tasks, now).tasks == tasks,
        Run::started(tasks, now).over <==> tasks.len() == 0,
        tasks.len() > 0 ==> Run::started(tasks, now).current == 0,
        tasks.len() > 0 && now + pace_of(tasks[0]).patience <= u64::MAX ==> Run::started(
            tasks,
            now,
        ).deadline == now + pace_of(tasks[0]).patience,
{
}

/// A task that is met is followed by the next, after its delay, or ends the
/// run; one that came out wrong ends it at once. One that is open is looked at
/// again after its pause, until its time is up: then the run goes on without
/// it, or ends for being late.
pub proof fn runs_go_from_task_to_task(run: Run, outcome: Outcome, now: u64)
    requires
        !run.over,
        0 <= run.current < run.tasks.len(),
    ensures
        ({
            let next = run.after(outcome, now);
            let step = run.step(outcome, now);
            let task = run.tasks[run.current];
            let last = run.current + 1 == run.tasks.len();
            let on = outcome is Met || outcome is Open && now >= run.deadline && pace_of(task).lenient;
            &&& next.tasks == run.tasks
            &&& on && last ==> step is Finished && next.over
            &&& on && !last ==> {
                let following = run.tasks[run.current + 1];
                &&& step == (Step::Perform { task: following, after: pace_of(following).delay })
                &&& next.current == run.current + 1 && !next.over
                &&& pace_of(following).own_time && now + pace_of(following).patience <= u64::MAX
                    ==> next.deadline == now + pace_of(following).patience
                &&& !pace_of(following).own_time ==> next.deadline == run.deadline
            }
            &&& outcome is Wrong ==> step == (Step::Failed { task, late: false }) && next.over
            &&& outcome is Open && now < run.deadline ==> step == (Step::Perform {
                task,
                after: pace_of(task).pause,
            }) && next == run
            &&& outcome is Open && now >= run.deadline && !pace_of(task).lenient ==> step
                == (Step::Failed { task, late: true }) && next.over
        }),
{
}

/// A task that can stay open has time, of its own or of the task before it.
pub proof fn only_tasks_with_time_stay_open(task: Task, evidence: Evidence)
    requires
        judged(task, evidence) is Open,
        !(task is AwaitServer),
    ensures
        pace_of(task).patience > 0 || !pace_of(task).own_time,
        pace_of(task).pause > 0,
{
}

/// Settings are met where each value is the one that was written; one that is
/// waited for stays open until then, one that is to stay is decided at once.
pub proof fn settings_are_met_value_by_value(evidence: Evidence, expected: Expected)
    requires
        evidence is Settings,
    ensures
        ({
            let own = evidence->Settings_0;
            let wanted = expected.values();
            let same = own.tab_size == wanted.tab_size && own.format_on_save@ == wanted.format_on_save
                && own.completion_lsp == wanted.completion_lsp && own.show_completions_on_input
                == wanted.show_completions_on_input;
            &&& judged(Task::AwaitSettings(expected), evidence) is Met <==> same
            &&& judged(Task::AwaitSettings(expected), evidence) is Open <==> !same
            &&& judged(Task::KeepSettings(expected), evidence) is Met <==> same
            &&& judged(Task::KeepSettings(expected), evidence) is Wrong <==> !same
            &&& judged(Task::AwaitFormatterOff, evidence) is Met <==> own.format_on_save@ == "off"@
        }),
{
}

/// A save is met where the disk holds what was written and nothing is left to
/// save; one that fails leaves both as they were.
pub proof fn saves_are_met_on_disk(evidence: Evidence)
    requires
        evidence is Disk,
    ensures
        judged(Task::ReadEdited, evidence) is Met <==> !evidence->Disk_dirty && evidence->Disk_disk@
            == evidence->Disk_expected@,
        judged(Task::ReadAfterFailure, evidence) is Met <==> evidence->Disk_dirty && evidence->Disk_disk@
            == evidence->Disk_expected@,
        !(judged(Task::ReadEdited, evidence) is Open),
        !(judged(Task::ReadAfterFailure, evidence) is Open),
{
}

/// An edit is met where undoing gives the text from before it and redoing the
/// text after it.
pub proof fn edits_are_met_when_they_can_be_undone(evidence: Evidence)
    requires
        evidence is Edited,
    ensures
        judged(Task::EditAndBack, evidence) is Met <==> evidence->Edited_dirty
            && evidence->Edited_after_undo@ == evidence->original@ && evidence->Edited_after_redo@
            == evidence->edited@,
{
}

/// An answer is met where it is to the request, from its document and of its
/// generation, and was a success; others are waited over.
pub proof fn answers_are_met_by_their_request(evidence: Evidence, request: Request)
    requires
        evidence is Answer,
    ensures
        ({
            let outcome = judged(Task::AwaitAnswer(request), evidence);
            match evidence->event {
                AnswerEvent::Finished { request: own, buffer, generation, success } => {
                    &&& own != request ==> outcome is Open
                    &&& own == request && !(request is Completions) && buffer != evidence->buffer
                        ==> outcome is Open
                    &&& own == request && request is Completions && generation
                        == evidence->generation ==> (outcome is Met <==> success) && (outcome
                        is Wrong <==> !success)
                    &&& own == request && !(request is Completions) && buffer == evidence->buffer
                        && generation == request.number() ==> (outcome is Met <==> success)
                },
                AnswerEvent::Other => outcome is Open,
                AnswerEvent::Closed => outcome is Wrong,
            }
        }),
{
}

/// Requests have numbers of their own.
pub proof fn requests_are_told_apart_by_number(a: Request, b: Request)
    ensures
        a.number() == b.number() ==> a == b,
{
}

/// An action that is waited for is met by its own name, and any other is
/// wrong; where none may come, every one is.
pub proof fn actions_are_met_by_name(evidence: Evidence, wanted: Wanted)
    requires
        evidence is Action,
    ensures
        evidence->Action_0 matches ActionEvent::Action(name) ==> {
            &&& judged(Task::AwaitAction(wanted), evidence) is Met <==> name@ == wanted.word()
            &&& judged(Task::AwaitAction(wanted), evidence) is Wrong <==> name@ != wanted.word()
            &&& judged(Task::StayQuiet, evidence) is Wrong
        },
        evidence->Action_0 is Other ==> judged(Task::AwaitAction(wanted), evidence) is Open
            && judged(Task::StayQuiet, evidence) is Open,
        evidence->Action_0 is Closed ==> judged(Task::AwaitAction(wanted), evidence) is Wrong,
{
}

/// A file of the configuration that was read again is told with its message,
/// where it is the one that is waited for and came out as it is to.
pub proof fn reloads_are_told_by_kind_and_outcome(event: ConfigurationEvent, kind: Seq<char>, success: bool)
    ensures
        match event {
            ConfigurationEvent::Reloaded { kind: own, result } => match result {
                Ok(status) => awaited(event, kind, success) == (if own@ == kind && success {
                    Some(status@)
                } else {
                    None
                }),
                Err(error) => awaited(event, kind, success) == (if own@ == kind && !success {
                    Some(error@)
                } else {
                    None
                }),
            },
            _ => awaited(event, kind, success) is None,
        },
{
}

/// A task that starts a request is followed by one that waits for its answer.
pub open spec fn is_answered(tasks: Seq<Task>, i: int) -> bool {
    tasks[i] matches Task::Start(request) ==> i + 1 < tasks.len() && tasks[i + 1]
        == Task::AwaitAnswer(request)
}

/// In the probe of the language services every request is answered before
/// anything else is done.
pub proof fn every_request_is_answered(i: int)
    requires
        0 <= i < language_tasks().len(),
    ensures
        is_answered(language_tasks(), i),
{
}

/// A task that writes a file that cannot be read is followed by one that waits
/// for that to be told.
pub open spec fn is_told(tasks: Seq<Task>, i: int) -> bool {
    &&& tasks[i] == Task::WriteKeymap(KeymapText::Broken) ==> tasks[i + 1]
        == (Task::AwaitConfiguration { file: ConfigurationFile::Keymap, success: false })
    &&& tasks[i] == Task::WriteSettings(SettingsText::Broken) ==> tasks[i + 1]
        == (Task::AwaitConfiguration { file: ConfigurationFile::ProjectSettings, success: false })
    &&& tasks[i] is Type ==> tasks[i + 1] is Save
}

/// In the probe of the settings every faulty file is waited for to be told, and
/// all that is typed is saved.
pub proof fn every_faulty_file_is_told(i: int)
    requires
        0 <= i < settings_tasks().len(),
    ensures
        is_told(settings_tasks(), i),
{
}

proof fn lemma_first_place(s: Seq<char>, part: Seq<char>, from: int)
    requires
        0 <= from,
    ensures
        first_place(s, part, from) matches Some(i) ==> from <= i && has_at(s, part, i) && forall|
            j: int,
        |
            from <= j < i ==> !(#[trigger] has_at(s, part, j)),
        first_place(s, part, from) is None && part.len() > 0 ==> forall|j: int|
            from <= j ==> !(#[trigger] has_at(s, part, j)),
    decreases s.len() - from,
{
    if from < s.len() && !has_at(s, part, from) {
        lemma_first_place(s, part, from + 1);
    }
}

/// The place behind the marker is that of the first marker in the text, in
/// bytes; a text without one has none.
pub proof fn the_marker_is_the_first_one(text: Seq<char>)
    ensures
        behind_marker(text) is Some <==> holds(text, "stub_"@),
        behind_marker(text) matches Some(place) ==> exists|i: int|
            has_at(text, "stub_"@, i) && place == utf8_len(text.take(i)) + 5 && forall|j: int|
                0 <= j < i ==> !(#[trigger] has_at(text, "stub_"@, j)),
{
    reveal_strlit("stub_");
    lemma_first_place(text, "stub_"@, 0);
    if let Some(i) = first_place(text, "stub_"@, 0) {
        assert(has_at(text, "stub_"@, i));
    } else if holds(text, "stub_"@) {
        let j = choose|j: int| has_at(text, "stub_"@, j);
        assert(!has_at(text, "stub_"@, j));
    }
}

/// The end of a text is on the line behind its last line break, as many bytes
/// in as stand behind that.
pub proof fn texts_end_behind_their_last_line_break(front: Seq<char>, line: Seq<char>)
    requires
        !line.contains('\n'),
    ensures
        line_breaks(front.push('\n') + line) == line_breaks(front) + 1,
        last_line_bytes(front.push('\n') + line) == utf8_len(line),
        line_breaks(line) == 0,
        last_line_bytes(line) == utf8_len(line),
    decreases line.len(),
{
    let all = front.push('\n') + line;
    if line.len() == 0 {
        assert(all =~= front.push('\n'));
        assert(front.push('\n').drop_last() =~= front);
    } else {
        let rest = line.drop_last();
        assert(line.contains(line.last()) ==> line.last() != '\n') by {
            if line.last() == '\n' {
                assert(line[line.len() - 1] == '\n');
            }
        }
        assert(line[line.len() - 1] == line.last());
        assert(!rest.contains('\n')) by {
            if rest.contains('\n') {
                let i = choose|i: int| 0 <= i < rest.len() && rest[i] == '\n';
                assert(line[i] == '\n');
            }
        }
        texts_end_behind_their_last_line_break(front, rest);
        assert(all.drop_last() =~= front.push('\n') + rest);
        assert(all.last() == line.last());
    }
}

/// The longest documentation is as long as some, and no other is longer.
pub proof fn the_longest_documentation_is_reported(list: Seq<Option<String>>)
    ensures
        forall|i: int|
            0 <= i < list.len() && (#[trigger] list[i]) is Some ==> utf8_len(list[i]->0@) <= longest(
                list,
            ),
        longest(list) > 0 ==> exists|i: int|
            0 <= i < list.len() && (#[trigger] list[i]) is Some && utf8_len(list[i]->0@) == longest(
                list,
            ),
        longest(list) >= 0,
    decreases list.len(),
{
    if list.len() > 0 {
        let front = list.drop_last();
        the_longest_documentation_is_reported(front);
        assert forall|i: int|
            0 <= i < list.len() && (#[trigger] list[i]) is Some implies utf8_len(list[i]->0@)
            <= longest(list) by {
            if i < front.len() {
                assert(front[i] == list[i]);
            }
        }
        if longest(list) > 0 {
            if longest(list) == longest(front) {
                let i = choose|i: int|
                    0 <= i < front.len() && (#[trigger] front[i]) is Some && utf8_len(front[i]->0@)
                        == longest(front);
                assert(list[i] is Some);
            } else {
                assert(list[list.len() - 1] is Some);
            }
        }
    }
}

/// A request that ended is reported with its completions, its fault, or that it
/// took too long.
pub proof fn requests_are_reported_as_they_ended(end: RequestEnd)
    ensures
        match end {
            RequestEnd::Completed(list) => reported(end).outcome == "ok"@ && reported(
                end,
            ).completion_count == list@.len() && reported(end).max_documentation_bytes == longest(
                list@,
            ),
            RequestEnd::Failed(error) => reported(end).outcome == "error: "@ + error@ && reported(
                end,
            ).completion_count == 0,
            RequestEnd::TimedOut => reported(end).outcome == "cancelled"@ && reported(
                end,
            ).completion_count == 0,
        },
{
}

proof fn lemma_text_at(list: Seq<SourceText>, path: Seq<char>)
    ensures
        text_at(list, path) matches Some(text) ==> exists|i: int|
            0 <= i < list.len() && (#[trigger] list[i]).path@ == path && list[i].text@ == text,
        text_at(list, path) is None ==> forall|i: int|
            0 <= i < list.len() ==> (#[trigger] list[i]).path@ != path,
    decreases list.len(),
{
    if list.len() > 0 {
        let front = list.drop_last();
        lemma_text_at(front, path);
        if list.last().path@ == path {
            assert(list[list.len() - 1].path@ == path);
        } else if text_at(list, path) is Some {
            let i = choose|i: int|
                0 <= i < front.len() && (#[trigger] front[i]).path@ == path && front[i].text@
                    == text_at(list, path)->0;
            assert(list[i] == front[i]);
        } else {
            assert forall|i: int| 0 <= i < list.len() implies (#[trigger] list[i]).path@ != path by {
                if i < front.len() {
                    assert(front[i] == list[i]);
                }
            }
        }
    }
}

/// A source is reported as changed where its text is not the one from before,
/// or where it was not there; one with the same text is not.
pub proof fn changed_sources_are_reported(before: Seq<SourceText>, after: Seq<SourceText>, i: int)
    requires
        0 <= i < after.len(),
        forall|m: int, n: int|
            0 <= m < n < after.len() ==> (#[trigger] after[m]).path@ != (#[trigger] after[n]).path@,
    ensures
        changed(before, after).contains(after[i].path@) <==> text_at(before, after[i].path@)
            != Some(after[i].text@),
    decreases after.len(),
{
    let front = after.drop_last();
    let earlier = changed(before, front);
    let all = changed(before, after);
    assert forall|m: int, n: int| 0 <= m < n < front.len() implies (#[trigger] front[m]).path@ != (
    #[trigger] front[n]).path@ by {
        assert(after[m].path@ != after[n].path@);
    }
    lemma_changed_are_listed(before, front);
    if i < front.len() {
        changed_sources_are_reported(before, front, i);
        assert(front[i] == after[i]);
        assert(after[i].path@ != after[after.len() - 1].path@);
        if all.contains(after[i].path@) {
            let k = choose|k: int| 0 <= k < all.len() && all[k] == after[i].path@;
            assert(k < earlier.len());
            assert(earlier[k] == all[k]);
        }
        if earlier.contains(after[i].path@) {
            let k = choose|k: int| 0 <= k < earlier.len() && earlier[k] == after[i].path@;
            assert(all[k] == earlier[k]);
        }
    } else {
        if earlier.contains(after[i].path@) {
            let k = choose|k: int| 0 <= k < earlier.len() && earlier[k] == after[i].path@;
            let m = choose|m: int| 0 <= m < front.len() && (#[trigger] front[m]).path@ == earlier[k];
            assert(after[m].path@ != after[i].path@);
        }
        if text_at(before, after[i].path@) != Some(after[i].text@) {
            assert(all[earlier.len() as int] == after[i].path@);
        }
    }
}

proof fn lemma_changed_are_listed(before: Seq<SourceText>, after: Seq<SourceText>)
    ensures
        forall|k: int|
            0 <= k < changed(before, after).len() ==> exists|m: int|
                0 <= m < after.len() && (#[trigger] after[m]).path@ == #[trigger] changed(
                    before,
                    after,
                )[k],
    decreases after.len(),
{
    if after.len() > 0 {
        let front = after.drop_last();
        let earlier = changed(before, front);
        let all = changed(before, after);
        lemma_changed_are_listed(before, front);
        assert forall|k: int| 0 <= k < all.len() implies exists|m: int|
            0 <= m < after.len() && (#[trigger] after[m]).path@ == #[trigger] all[k] by {
            if k < earlier.len() {
                assert(all[k] == earlier[k]);
                let m = choose|m: int|
                    0 <= m < front.len() && (#[trigger] front[m]).path@ == earlier[k];
                assert(after[m] == front[m]);
            } else {
                assert(after[after.len() - 1].path@ == all[k]);
            }
        }
    }
}

/// A root is found where every trial found the same: one path, opened, in the
/// repository, as a directory, in one worktree.
pub proof fn roots_are_found_by_every_trial(list: Seq<RootTrial>, root: Seq<char>)
    ensures
        root_trouble(list, root) is None <==> {
            &&& list.len() > 0
            &&& forall|i: int|
                0 <= i < list.len() ==> {
                    &&& (#[trigger] list[i]).path_count == 1
                    &&& list[i].error_count == 0
                    &&& list[i].has_repository
                    &&& list[i].resolved_path@ == root
                    &&& list[i].repository_root@ == root
                    &&& !list[i].directory_opened_as_file
                    &&& list[i].worktree_id@ == list[0].worktree_id@
                }
        },
{
    lemma_no_trouble(list, root);
    if first_trouble(list, root) is Some {
        let i = choose|i: int| 0 <= i < list.len() && trial_trouble(#[trigger] list[i], root) is Some;
        assert(trial_trouble(list[i], root) is Some);
    } else {
        assert forall|i: int| 0 <= i < list.len() implies trial_trouble(
            #[trigger] list[i],
            root,
        ) is None by {}
    }
}

proof fn lemma_no_trouble(list: Seq<RootTrial>, root: Seq<char>)
    ensures
        first_trouble(list, root) is None <==> forall|i: int|
            0 <= i < list.len() ==> trial_trouble(#[trigger] list[i], root) is None,
    decreases list.len(),
{
    if list.len() > 0 {
        let front = list.drop_last();
        lemma_no_trouble(front, root);
        if first_trouble(list, root) is None {
            assert forall|i: int| 0 <= i < list.len() implies trial_trouble(
                #[trigger] list[i],
                root,
            ) is None by {
                if i < front.len() {
                    assert(front[i] == list[i]);
                }
            }
        } else if first_trouble(front, root) is Some {
            let i = choose|i: int|
                0 <= i < front.len() && trial_trouble(#[trigger] front[i], root) is Some;
            assert(list[i] == front[i]);
        } else {
            assert(trial_trouble(list[list.len() - 1], root) is Some);
        }
    }
}

/// The accesses that read a directory.
pub open spec fn directory_accesses(list: Seq<FsAccess>) -> Seq<FsAccess> {
    list.filter(|access: FsAccess| access.reads_directory)
}

/// Every reading of a directory is counted once, as one of the parent or of
/// another.
pub proof fn readings_of_directories_are_counted_once(list: Seq<FsAccess>, parent: Option<Seq<char>>)
    ensures
        directory_reads(list, parent).0 + directory_reads(list, parent).1 == directory_accesses(
            list,
        ).len(),
        directory_reads(list, parent).0 == list.filter(
            |access: FsAccess| access.reads_directory && parent == Some(access.path@),
        ).len(),
    decreases list.len(),
{
    reveal(Seq::filter);
    if list.len() > 0 {
        readings_of_directories_are_counted_once(list.drop_last(), parent);
    }
}

/// A file outside the project is opened alone: in a worktree of its own, as it
/// is, and without a directory being read.
pub proof fn outside_files_are_opened_alone(trial: OutsideTrial)
    ensures
        outside_trouble(trial) is None <==> {
            &&& trial.relative_path@.len() == 0
            &&& trial.worktree_root@ == trial.path@
            &&& trial.is_single_file
            &&& trial.opened_path@ == trial.path@
            &&& trial.same_bytes
            &&& trial.accesses@.len() > 0
            &&& directory_accesses(trial.accesses@).len() == 0
            &&& texts(trial.operations@).contains("open-self"@)
            &&& texts(trial.operations@).contains("stat-self"@)
        },
{
    readings_of_directories_are_counted_once(trial.accesses@, None);
}

/// A scenario that starts well has more time to start, one that hangs less to
/// answer.
pub proof fn scenarios_have_their_time(scenario: Seq<char>)
    ensures
        holds(scenario, "hang"@) <==> answer_time(scenario) == 250,
        !holds(scenario, "hang"@) <==> answer_time(scenario) == 3_000,
        ready_time(scenario) == 10_000 || ready_time(scenario) == 500,
        ready_time(scenario) == 10_000 <==> seq![
            "request-error"@,
            "hang-request"@,
            "crash-request"@,
            "malformed-response"@,
            "large-payloads"@,
            "formatter-error"@,
            "huge-stderr"@,
            "restart-once"@,
        ].contains(scenario),
{
    let started = seq![
        "request-error"@,
        "hang-request"@,
        "crash-request"@,
        "malformed-response"@,
        "large-payloads"@,
        "formatter-error"@,
        "huge-stderr"@,
        "restart-once"@,
    ];
    assert(started[0] == "request-error"@ && started[1] == "hang-request"@);
    assert(started[2] == "crash-request"@ && started[3] == "malformed-response"@);
    assert(started[4] == "large-payloads"@ && started[5] == "formatter-error"@);
    assert(started[6] == "huge-stderr"@ && started[7] == "restart-once"@);
}

/// What a task showed is found by how many like it came before.
pub proof fn evidence_is_found_by_its_task(tasks: Seq<Task>, seen: Seq<Evidence>, task: Task, from: int, n: int)
    requires
        0 <= from,
        0 <= n,
    ensures
        place(tasks, task, n, from) matches Some(i) ==> from <= i < tasks.len() && tasks[i] == task
            && (n == 0 ==> forall|j: int| from <= j < i ==> (#[trigger] tasks[j]) != task),
        place(tasks, task, n, from) is None && n == 0 ==> forall|j: int|
            from <= j < tasks.len() ==> (#[trigger] tasks[j]) != task,
    decreases tasks.len() - from,
{
    if from < tasks.len() {
        if tasks[from] == task {
            if n > 0 {
                evidence_is_found_by_its_task(tasks, seen, task, from + 1, n - 1);
            }
        } else {
            evidence_is_found_by_its_task(tasks, seen, task, from + 1, n);
        }
    }
}

/// An edit is reported with what it made of the text and what its undo did.
pub proof fn edits_are_reported_with_their_undo(evidence: Evidence)
    requires
        evidence is Undone,
    ensures
        edit_in(Some(evidence)) matches Some(edit) && {
            &&& edit.after == evidence->Undone_after@
            &&& edit.after_undo == evidence->Undone_after_undo@
            &&& edit.buffer_count == evidence->Undone_changed
            &&& edit.undo_buffer_count == evidence->Undone_undone
        },
{
}

} // verus!
