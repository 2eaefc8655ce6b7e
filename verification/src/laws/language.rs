//! Laws of what language servers are asked and what is shown of their answers.

use vstd::prelude::*;

use crate::features::context::{Choice, Scene, Target};
use crate::features::language::{
    all_lines, all_offers, diagnostic_choice, distinct_files, fence_line, first_line, hover_rows,
    located, location_label, offer_views, rename_words, with_diagnostics, without_fences,
    Diagnostic, HitView, Inquiry, LanguageEvent, Location, LocationKind, Offer, Severity, MAX_ROWS,
};
use crate::features::spots::SpotView;
use crate::geometry::least;
use crate::text::{decimal, ends, lines, starts, trimmed};
use crate::features::language::began;
use crate::geometry::Point;

verus! {

/// The place that a location names, with a label of the line it is on.
pub open spec fn of_location(hit: (HitView, Seq<char>), place: Location, root: Option<Seq<char>>) -> bool {
    &&& place.path matches Some(path)
    &&& hit.0.path == path@
    &&& hit.0.row == place.row
    &&& hit.0.column == place.column
    &&& hit.1 == location_label(path@, place.row as int, place.line@, root)
}

/// A label ends with the line's number, counted from one, and the line without
/// the white space around it.
pub proof fn labels_tell_the_line(path: Seq<char>, row: int, line: Seq<char>, root: Option<Seq<char>>)
    requires
        0 <= row,
    ensures
        ends(location_label(path, row, line, root), ":"@ + decimal((row + 1) as nat) + "  "@ + trimmed(line)),
{
    let label = location_label(path, row, line, root);
    let end = ":"@ + decimal((row + 1) as nat) + "  "@ + trimmed(line);
    assert(label.skip(label.len() - end.len()) =~= end);
}

/// Each place that is listed is one that was answered; each that was answered
/// and has a path is listed, or one with the same label; and no label is
/// listed twice in a row.
pub proof fn places_are_listed_once(list: Seq<Location>, root: Option<Seq<char>>)
    ensures
        forall|k: int|
            0 <= k < located(list, root).len() ==> exists|i: int|
                0 <= i < list.len() && of_location(#[trigger] located(list, root)[k], #[trigger] list[i], root),
        forall|i: int|
            0 <= i < list.len() && (#[trigger] list[i]).path is Some ==> exists|k: int|
                0 <= k < located(list, root).len() && (#[trigger] located(list, root)[k]).1
                    == location_label(list[i].path->0@, list[i].row as int, list[i].line@, root),
        forall|k: int|
            0 < k < located(list, root).len() ==> (#[trigger] located(list, root)[k]).1 != located(
                list,
                root,
            )[k - 1].1,
    decreases list.len(),
{
    if list.len() > 0 {
        let front = list.drop_last();
        let before = located(front, root);
        let all = located(list, root);
        places_are_listed_once(front, root);
        assert forall|k: int| 0 <= k < all.len() implies exists|i: int|
            0 <= i < list.len() && of_location(#[trigger] all[k], #[trigger] list[i], root) by {
            if k < before.len() {
                assert(all[k] == before[k]);
                let i = choose|i: int|
                    0 <= i < front.len() && of_location(before[k], #[trigger] front[i], root);
                assert(of_location(all[k], list[i], root));
            } else {
                assert(of_location(all[k], list[list.len() - 1], root));
            }
        }
        assert forall|i: int| 0 <= i < list.len() && (#[trigger] list[i]).path is Some implies exists|
            k: int,
        |
            0 <= k < all.len() && (#[trigger] all[k]).1 == location_label(
                list[i].path->0@,
                list[i].row as int,
                list[i].line@,
                root,
            ) by {
            if i < front.len() {
                assert(front[i] == list[i]);
                let k = choose|k: int|
                    0 <= k < before.len() && (#[trigger] before[k]).1 == location_label(
                        front[i].path->0@,
                        front[i].row as int,
                        front[i].line@,
                        root,
                    );
                assert(all[k] == before[k]);
            } else {
                assert(all[all.len() - 1].1 == location_label(
                    list[i].path->0@,
                    list[i].row as int,
                    list[i].line@,
                    root,
                ));
            }
        }
        assert forall|k: int| 0 < k < all.len() implies (#[trigger] all[k]).1 != all[k - 1].1 by {
            if k < before.len() {
                assert(all[k] == before[k] && all[k - 1] == before[k - 1]);
            }
        }
    }
}

/// The lines of all texts follow each other.
pub proof fn blocks_are_shown_one_behind_the_other(blocks: Seq<Seq<char>>, block: Seq<char>)
    ensures
        all_lines(Seq::empty()).len() == 0,
        all_lines(seq![block]) == lines(block),
        all_lines(blocks.push(block)) == all_lines(blocks) + lines(block),
{
    reveal_with_fuel(all_lines, 2);
    assert(blocks.push(block).drop_last() =~= blocks);
    assert(seq![block].drop_last() =~= Seq::<Seq<char>>::empty());
    assert(all_lines(seq![block]) =~= lines(block));
}

/// What is shown of texts are their lines in order, up to a bound, without
/// those that start with a fence.
pub proof fn fences_are_not_shown(blocks: Seq<Seq<char>>)
    ensures
        ({
            let all = all_lines(blocks).filter(|line: Seq<char>| !fence_line(line));
            &&& hover_rows(blocks).len() == least(all.len() as int, MAX_ROWS as int)
            &&& forall|i: int| 0 <= i < hover_rows(blocks).len() ==> #[trigger] hover_rows(blocks)[i] == all[i]
        }),
{
    lemma_without_fences(all_lines(blocks));
}

proof fn lemma_without_fences(list: Seq<Seq<char>>)
    ensures
        without_fences(list) == list.filter(|line: Seq<char>| !fence_line(line)),
    decreases list.len(),
{
    reveal(Seq::filter);
    if list.len() > 0 {
        lemma_without_fences(list.drop_last());
    }
}

/// A diagnostic leads to its place, and tells its line counted from one, how
/// severe it is, and the first line of what it says.
pub proof fn diagnostics_tell_their_place(path: Seq<char>, root: Option<Seq<char>>, diagnostic: Diagnostic)
    ensures
        ({
            let choice = diagnostic_choice(path, root, diagnostic);
            &&& choice.enabled
            &&& choice.payload == (Target::Location {
                path,
                row: diagnostic.row,
                column: diagnostic.column,
            })
            &&& ends(choice.label, ":"@ + decimal((diagnostic.row + 1) as nat))
            &&& starts(choice.detail, match diagnostic.severity {
                Severity::Error => "error "@,
                Severity::Warning => "warning "@,
                Severity::Information => "info "@,
                Severity::Hint => "hint "@,
            })
            &&& lines(diagnostic.message@).len() > 0 ==> ends(
                choice.detail,
                " "@ + lines(diagnostic.message@)[0],
            )
        }),
{
    let choice = diagnostic_choice(path, root, diagnostic);
    let end = ":"@ + decimal((diagnostic.row + 1) as nat);
    assert(choice.label.skip(choice.label.len() - end.len()) =~= end);
    let tail = " "@ + first_line(diagnostic.message@);
    assert(choice.detail.skip(choice.detail.len() - tail.len()) =~= tail);
    reveal_strlit("error");
    reveal_strlit("warning");
    reveal_strlit("info");
    reveal_strlit("hint");
    reveal_strlit("error ");
    reveal_strlit("warning ");
    reveal_strlit("info ");
    reveal_strlit("hint ");
    reveal_strlit(" ");
    match diagnostic.severity {
        Severity::Error => {
            assert(choice.detail.take(6) =~= "error "@);
        },
        Severity::Warning => {
            assert(choice.detail.take(8) =~= "warning "@);
        },
        Severity::Information => {
            assert(choice.detail.take(5) =~= "info "@);
        },
        Severity::Hint => {
            assert(choice.detail.take(5) =~= "hint "@);
        },
    }
}

/// The diagnostics that are primary.
pub open spec fn primary(list: Seq<Diagnostic>) -> Seq<Diagnostic> {
    list.filter(|diagnostic: Diagnostic| diagnostic.is_primary)
}

/// The diagnostics of a file follow those of the files before it, in order, up
/// to a bound; only primary ones are listed.
pub proof fn diagnostics_follow_each_other(
    entries: Seq<Choice>,
    path: Seq<char>,
    root: Option<Seq<char>>,
    list: Seq<Diagnostic>,
)
    requires
        entries.len() <= MAX_ROWS,
    ensures
        ({
            let all = with_diagnostics(entries, path, root, list);
            let own = primary(list);
            &&& all.len() == least((entries.len() + own.len()) as int, MAX_ROWS as int)
            &&& forall|k: int| 0 <= k < entries.len() ==> #[trigger] all[k] == entries[k]
            &&& forall|k: int|
                entries.len() <= k < all.len() ==> #[trigger] all[k] == diagnostic_choice(
                    path,
                    root,
                    own[k - entries.len()],
                )
        }),
    decreases list.len(),
{
    reveal(Seq::filter);
    if list.len() > 0 {
        let front = list.drop_last();
        diagnostics_follow_each_other(entries, path, root, front);
        let before = with_diagnostics(entries, path, root, front);
        let own = primary(front);
        let all = with_diagnostics(entries, path, root, list);
        assert(primary(list) == if list.last().is_primary {
            own.push(list.last())
        } else {
            own
        });
        assert forall|k: int| 0 <= k < all.len() implies #[trigger] all[k] == if k < entries.len() {
            entries[k]
        } else {
            diagnostic_choice(path, root, primary(list)[k - entries.len()])
        } by {
            if k < before.len() {
                assert(all[k] == before[k]);
            }
        }
    }
}

/// Two spots are of one file.
pub open spec fn same_file(a: SpotView, b: SpotView) -> bool {
    a.group == b.group && a.path == b.path
}

/// Of the files in a row each run is listed once, by its first.
pub proof fn files_in_a_row_are_listed_once(list: Seq<SpotView>, order: Seq<int>)
    ensures
        ({
            let files = distinct_files(list, order);
            &&& files.len() <= order.len()
            &&& order.len() > 0 ==> files.len() > 0 && files[0] == order[0] && same_file(
                list[files.last()],
                list[order.last()],
            )
            &&& forall|k: int|
                0 < k < files.len() ==> !same_file(list[#[trigger] files[k]], list[files[k - 1]])
            &&& forall|i: int|
                0 <= i < order.len() ==> exists|k: int|
                    0 <= k < files.len() && same_file(list[#[trigger] files[k]], list[#[trigger] order[i]])
            &&& forall|k: int| 0 <= k < files.len() ==> order.contains(#[trigger] files[k])
        }),
    decreases order.len(),
{
    if order.len() > 0 {
        let front = order.drop_last();
        let before = distinct_files(list, front);
        let files = distinct_files(list, order);
        files_in_a_row_are_listed_once(list, front);
        assert forall|k: int| 0 <= k < files.len() implies order.contains(#[trigger] files[k]) by {
            if k < before.len() {
                assert(files[k] == before[k]);
                let i = choose|i: int| 0 <= i < front.len() && front[i] == before[k];
                assert(order[i] == files[k]);
            } else {
                assert(order[order.len() - 1] == files[k]);
            }
        }
        assert forall|i: int| 0 <= i < order.len() implies exists|k: int|
            0 <= k < files.len() && same_file(list[#[trigger] files[k]], list[#[trigger] order[i]]) by {
            if i < front.len() {
                assert(front[i] == order[i]);
                let k = choose|k: int|
                    0 <= k < before.len() && same_file(list[#[trigger] before[k]], list[front[i]]);
                assert(files[k] == before[k]);
            } else {
                assert(same_file(list[files[files.len() - 1]], list[order[i]]));
            }
        }
        assert forall|k: int| 0 < k < files.len() implies !same_file(
            list[#[trigger] files[k]],
            list[files[k - 1]],
        ) by {
            if k < before.len() {
                assert(files[k] == before[k] && files[k - 1] == before[k - 1]);
            }
        }
    }
}

/// The completions of all servers are gathered, in the order of the servers.
pub proof fn completions_are_gathered_in_order(responses: Seq<Vec<Offer>>, response: Vec<Offer>)
    ensures
        all_offers(responses.push(response)).len() == all_offers(responses).len() + response@.len(),
        forall|i: int|
            0 <= i < all_offers(responses).len() ==> #[trigger] all_offers(responses.push(response))[i]
                == all_offers(responses)[i],
        forall|i: int|
            0 <= i < response@.len() ==> all_offers(responses.push(response))[all_offers(
                responses,
            ).len() + i].0 == (#[trigger] response@[i]).label@,
        all_offers(Seq::empty()).len() == 0,
{
    assert(responses.push(response).drop_last() =~= responses);
    assert(all_offers(responses.push(response)) == all_offers(responses) + offer_views(response@));
}

/// A request is for the document it was made in, and has a generation of its
/// own; its answer is taken in that document alone.
pub proof fn requests_are_answered_in_their_document(inquiry: Inquiry, item: u64, event: LanguageEvent, other: u64)
    requires
        inquiry.generation < u64::MAX,
    ensures
        ({
            let next = inquiry.next(item);
            &&& next.generation == inquiry.generation + 1
            &&& next.completions == inquiry.completions
            &&& next.actions == inquiry.actions
            &&& next.rename_point == inquiry.rename_point
            &&& next.awaits(event, other) <==> other == item && event.tag() == inquiry.generation + 1
        }),
{
}

/// What can be picked is what is listed: the completions and the code actions
/// of an answer are kept in the order in which they are shown.
pub proof fn what_is_listed_can_be_picked(inquiry: Inquiry, event: LanguageEvent, scene: Scene, k: int)
    requires
        inquiry.awaits(event, scene.item),
        0 <= k,
    ensures
        ({
            let next = inquiry.answered(event, scene.item);
            let after = inquiry.scene(event, scene);
            &&& event matches LanguageEvent::Completions { completions, query, .. } ==> (k
                < completions@.len() ==> {
                &&& next.completions.len() == completions@.len()
                &&& next.completions[k] == completions@[k].label@
                &&& after.layers.len() == 1
                &&& after.layers[0] is Picker
                &&& after.layers[0]->Picker_title == "Completions"@
                &&& after.layers[0]->query.text == query@
                &&& after.layers[0]->entries[k].label == next.completions[k]
                &&& after.layers[0]->entries[k].detail == (match completions@[k].detail {
                    Some(detail) => detail@,
                    None => Seq::empty(),
                })
                &&& after.layers[0]->entries[k].payload == Target::Index(k)
            })
        }),
        ({
            let next = inquiry.answered(event, scene.item);
            let after = inquiry.scene(event, scene);
            &&& event matches LanguageEvent::CodeActions { actions, .. } ==> (k < actions@.len() ==> {
                &&& next.actions.len() == actions@.len()
                &&& next.actions[k] == actions@[k]@
                &&& after.layers.len() == 1
                &&& after.layers[0] is Picker
                &&& after.layers[0]->Picker_title == "Code actions"@
                &&& after.layers[0]->entries[k].label == next.actions[k]
                &&& after.layers[0]->entries[k].payload == Target::Index(k)
            })
        }),
{
}

/// One place is opened, several are listed, each by its label, and none are
/// told.
pub proof fn one_place_is_opened_and_several_are_listed(inquiry: Inquiry, event: LanguageEvent, scene: Scene, k: int)
    requires
        inquiry.awaits(event, scene.item),
        event is Locations,
        0 <= k < event->hits@.len(),
    ensures
        ({
            let hits = event->hits@;
            let after = inquiry.scene(event, scene);
            &&& hits.len() == 1 ==> after == scene && inquiry.opened(event, scene.item) == Some(
                hits[0].0@,
            )
            &&& hits.len() > 1 ==> {
                &&& inquiry.opened(event, scene.item) is None
                &&& after.layers.len() == 1
                &&& after.layers[0] is Picker
                &&& after.layers[0]->entries.len() == hits.len()
                &&& after.layers[0]->entries[k].label == hits[k].1@
                &&& after.layers[0]->entries[k].payload == (Target::Location {
                    path: hits[k].0.path@,
                    row: hits[k].0.row,
                    column: hits[k].0.column,
                })
            }
        }),
{
}

/// What is asked for stands over the list, or in the message that there is
/// none.
pub proof fn lists_are_called_after_what_was_asked(kind: LocationKind)
    ensures
        kind.heading() == match kind {
            LocationKind::Definition => "Definitions"@,
            LocationKind::TypeDefinition => "Type definitions"@,
            LocationKind::References => "References"@,
        },
        starts(kind.absence(), "no "@),
{
    reveal_strlit("no ");
    reveal_strlit("no definition");
    reveal_strlit("no type definition");
    reveal_strlit("no references");
    assert(kind.absence().take(3) =~= "no "@);
}

/// A rename starts with the present name in the prompt, and is kept for the
/// place it was prepared for.
pub proof fn renames_start_with_the_present_name(inquiry: Inquiry, event: LanguageEvent, scene: Scene)
    requires
        inquiry.awaits(event, scene.item),
        event is RenamePrepared,
    ensures
        ({
            let after = inquiry.scene(event, scene);
            let next = inquiry.answered(event, scene.item);
            match event->current {
                Some(name) => {
                    &&& next.rename_point == Some(event->point)
                    &&& after.layers.len() == 1
                    &&& after.layers[0] is Prompt
                    &&& after.layers[0]->target is Rename
                    &&& after.layers[0]->line.text == name@
                },
                None => next == inquiry && after.layers == scene.layers && after.status is Some,
            }
        }),
{
}

/// A rename is told with the new name and the number of documents, or with
/// what went wrong.
pub proof fn renames_are_told(name: Seq<char>, outcome: Result<usize, String>)
    ensures
        match outcome {
            Ok(count) => starts(rename_words(name, outcome), "renamed to "@ + name + " in "@ + decimal(count as nat)),
            Err(error) => ends(rename_words(name, outcome), error@) && starts(
                rename_words(name, outcome),
                "rename failed"@,
            ),
        },
{
    let words = rename_words(name, outcome);
    match outcome {
        Ok(count) => {
            let front = "renamed to "@ + name + " in "@ + decimal(count as nat);
            assert(words.take(front.len() as int) =~= front);
        },
        Err(error) => {
            reveal_strlit("rename failed");
            reveal_strlit("rename failed: ");
            assert(words.skip(words.len() - error@.len()) =~= error@);
            assert(words.take("rename failed"@.len() as int) =~= "rename failed"@);
        },
    }
}

/// A request begins at the caret, with a generation of its own for the document
/// that is shown, and shows nothing yet; without a document nothing begins.
pub proof fn requests_begin_at_the_caret(
    before: Inquiry,
    after: Inquiry,
    scene: Scene,
    later: Scene,
    has_document: bool,
    caret: Result<Point, String>,
    point: Option<Point>,
)
    requires
        before.generation < u64::MAX,
        began(before, after, scene, later, has_document, caret, point),
    ensures
        point is Some <==> has_document && caret is Ok,
        point matches Some(place) ==> {
            &&& caret == Ok::<Point, String>(place)
            &&& after.generation == before.generation + 1
            &&& after.item == Some(scene.item)
            &&& later == scene
        },
        point is None ==> after == before,
        !has_document ==> later == scene,
        has_document && caret is Err ==> later.status == Some(caret->Err_0@) && later.layers
            == scene.layers,
{
}

} // verus!
