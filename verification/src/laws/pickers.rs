//! Laws of what pickers list.

use vstd::prelude::*;

use crate::features::context::{Choice, Scene, Target};
use crate::features::project_search::{
    hit_entries, hit_order, previewed, query_of, Found, Gathered, MatchLine, ProjectSearchEvent,
    Quest, SearchOption, SearchOptions, MAX_HITS, PREVIEW_CHARS,
};
use crate::features::quick_open::{file_choices, Candidate, MAX_RESULTS};
use crate::features::spots::{path_levels, spot_order, spot_precedes, SpotView};
use crate::features::tasks::{candidates, task_choices, Job};
use crate::features::theme_picker::{
    listed, theme_choices, theme_names, theme_order, theme_precedes, Theme,
};
use crate::order::{orders, the_order_exists};
use crate::project_panel::{lemma_levels_strict, lemma_levels_transitive, levels_precede};
use crate::paths::joined;
use crate::text::{
    decimal, ends, lemma_precedes_strict, lemma_precedes_transitive, precedes, trimmed,
};
use crate::features::context::Purpose;

verus! {

/// Quick open lists the files in the order in which they were found, up to a
/// bound, each by its path beneath its root, and opens it under that root.
pub proof fn files_are_listed_as_they_were_found(list: Seq<Candidate>, k: int)
    requires
        0 <= k < list.len(),
        k < MAX_RESULTS,
    ensures
        k < file_choices(list).len(),
        file_choices(list)[k].label == list[k].relative@,
        file_choices(list)[k].enabled,
        file_choices(list)[k].detail.len() == 0,
        file_choices(list)[k].payload == Target::Path(
            joined(list[k].root@, list[k].relative@),
        ),
{
}

proof fn lemma_themes_are_ordered(list: Seq<Theme>, active: Seq<char>)
    ensures
        orders(list.len() as int, theme_order(list, active)),
{
    let before = theme_order(list, active);
    assert forall|i: int, j: int|
        0 <= i < list.len() && 0 <= j < list.len() && #[trigger] before(i, j) implies !before(
        j,
        i,
    ) by {
        lemma_precedes_strict(list[i].name@, list[j].name@);
    }
    assert forall|i: int, j: int, k: int|
        0 <= i < list.len() && 0 <= j < list.len() && 0 <= k < list.len() && !(#[trigger] before(
            i,
            j,
        )) && !(#[trigger] before(j, k)) implies !before(i, k) by {
        let (a, b, c) = (list[i].name@, list[j].name@, list[k].name@);
        lemma_precedes_strict(a, b);
        lemma_precedes_strict(b, c);
        lemma_precedes_strict(a, c);
        if precedes(c, b) && precedes(b, a) {
            lemma_precedes_transitive(c, b, a);
        }
    }
}

/// Themes are listed by their names, but for the active one, which is first.
/// Each is listed, and told to be light or dark.
pub proof fn themes_are_listed_by_name(list: Seq<Theme>, active: Seq<char>, a: int, b: int)
    requires
        0 <= a < b < list.len(),
    ensures
        ({
            let names = theme_names(list, active);
            let entries = theme_choices(list, active);
            &&& names.len() == list.len() && entries.len() == list.len()
            &&& names[b] == active ==> names[a] == active
            &&& names[a] != active ==> !precedes(names[b], names[a])
            &&& forall|n: int|
                0 <= n < list.len() ==> names.contains(#[trigger] list[n].name@)
            &&& exists|n: int|
                0 <= n < list.len() && entries[a].label == (#[trigger] list[n]).name@
                    && entries[a].detail == (if list[n].light {
                    "(light)"@
                } else {
                    "(dark)"@
                }) && entries[a].enabled && entries[a].payload == Target::Index(a)
        }),
{
    let before = theme_order(list, active);
    lemma_themes_are_ordered(list, active);
    the_order_exists(list.len() as int, before);
    let order = listed(list, active);
    let names = theme_names(list, active);
    let (i, j) = (order[a], order[b]);
    assert(before(i, j) || !before(j, i) && i < j);
    assert(before(i, j) == theme_precedes(list[i].name@, list[j].name@, active));
    assert(before(j, i) == theme_precedes(list[j].name@, list[i].name@, active));
    lemma_precedes_strict(names[a], names[b]);
    assert forall|n: int| 0 <= n < list.len() implies names.contains(#[trigger] list[n].name@) by {
        assert(order.contains(n));
        let k = choose|k: int| 0 <= k < order.len() && order[k] == n;
        assert(names[k] == list[n].name@);
    }
    assert(theme_choices(list, active)[a].label == list[i].name@);
}

/// A search has the options that were switched on, each for itself, and is
/// for the text that was typed.
pub proof fn searches_have_the_options_that_are_on(
    options: SearchOptions,
    option: SearchOption,
    text: Seq<char>,
)
    ensures
        ({
            let next = options.toggled(option);
            &&& next.regex == (options.regex != (option is Regex))
            &&& next.case_sensitive == (options.case_sensitive != (option is CaseSensitive))
            &&& next.whole_word == (options.whole_word != (option is WholeWord))
        }),
        ({
            let plan = query_of(text, options);
            &&& plan.text == text
            &&& plan.regex == options.regex
            &&& plan.case_sensitive == options.case_sensitive
            &&& plan.whole_word == options.whole_word
            &&& plan.replacement is None
            &&& !plan.include_ignored && !plan.open_buffers_only
            &&& plan.include_globs.len() == 0 && plan.exclude_globs.len() == 0
        }),
{
}

/// The options are told in one order, whichever are on.
pub proof fn options_are_told_in_one_order(options: SearchOptions)
    ensures
        ({
            let names = options.names();
            &&& forall|i: int, j: int|
                0 <= i < names.len() && 0 <= j < names.len() && #[trigger] names[i] == "regex"@
                    && #[trigger] names[j] != "regex"@ ==> i < j
            &&& forall|i: int, j: int|
                0 <= i < names.len() && 0 <= j < names.len() && #[trigger] names[i]
                    == "whole word"@ && #[trigger] names[j] != "whole word"@ ==> j < i
            &&& names.len() == (if options.regex {
                1int
            } else {
                0
            }) + (if options.case_sensitive {
                1int
            } else {
                0
            }) + (if options.whole_word {
                1int
            } else {
                0
            })
        }),
{
    reveal_strlit("regex");
    reveal_strlit("match case");
    reveal_strlit("whole word");
    assert("match case"@[0] == 'm' && "whole word"@[0] == 'w');
    assert("regex"@.len() == 5 && "match case"@.len() == 10);
    assert("match case"@ != "whole word"@);
}

/// The matches of a file come behind those of the files before it, in their
/// order, as far as there is room; where some are left out that is told.
pub proof fn matches_are_gathered_in_their_order(
    gathered: Gathered,
    path: Seq<char>,
    lines: Seq<MatchLine>,
    k: int,
)
    requires
        gathered.hits.len() <= MAX_HITS,
    ensures
        ({
            let next = gathered.with_file(path, lines);
            let count = gathered.hits.len();
            &&& next.hits.len() <= MAX_HITS
            &&& 0 <= k < count ==> next.hits[k] == gathered.hits[k]
            &&& count <= k < next.hits.len() ==> {
                &&& next.hits[k].spot.path == path
                &&& next.hits[k].spot.row == lines[k - count].row
                &&& next.hits[k].spot.column == lines[k - count].column
                &&& next.hits[k].spot.group == 0
                &&& next.hits[k].line == lines[k - count].line@
            }
            &&& next.hits.len() < count + lines.len() ==> next.hits.len() == MAX_HITS
            &&& next.truncated <==> gathered.truncated || count + lines.len() > next.hits.len()
        }),
{
}

proof fn lemma_spots_are_ordered(list: Seq<SpotView>)
    ensures
        orders(list.len() as int, spot_order(list)),
{
    let before = spot_order(list);
    assert forall|i: int, j: int|
        0 <= i < list.len() && 0 <= j < list.len() && #[trigger] before(i, j) implies !before(
        j,
        i,
    ) by {
        lemma_levels_strict(path_levels(list[i].path), path_levels(list[j].path));
    }
    assert forall|i: int, j: int, k: int|
        0 <= i < list.len() && 0 <= j < list.len() && 0 <= k < list.len() && !(#[trigger] before(
            i,
            j,
        )) && !(#[trigger] before(j, k)) implies !before(i, k) by {
        let a = path_levels(list[i].path);
        let b = path_levels(list[j].path);
        let c = path_levels(list[k].path);
        lemma_levels_strict(a, b);
        lemma_levels_strict(b, c);
        lemma_levels_strict(a, c);
        if levels_precede(c, b) && levels_precede(b, a) {
            lemma_levels_transitive(c, b, a);
        }
    }
}

/// Where a choice leads.
pub open spec fn leads_to(choice: Choice, hit: Found) -> bool {
    choice.payload == (Target::Location {
        path: hit.spot.path,
        row: hit.spot.row,
        column: hit.spot.column,
    })
}

/// Every match is listed, and each entry leads to a match, tells its line
/// counted from one, and shows what stands there.
pub proof fn every_match_is_listed(hits: Seq<Found>, root: Option<Seq<char>>, k: int)
    requires
        0 <= k < hits.len(),
    ensures
        hit_entries(hits, root).len() == hits.len(),
        exists|n: int|
            0 <= n < hits.len() && leads_to(hit_entries(hits, root)[k], #[trigger] hits[n])
                && hit_entries(hits, root)[k].detail == previewed(hits[n].line) && ends(
                hit_entries(hits, root)[k].label,
                ":"@ + decimal((hits[n].spot.row + 1) as nat),
            ),
        exists|e: int|
            0 <= e < hits.len() && leads_to(#[trigger] hit_entries(hits, root)[e], hits[k]),
        hit_entries(hits, root)[k].enabled,
{
    let spots = Seq::new(hits.len(), |i: int| hits[i].spot);
    lemma_spots_are_ordered(spots);
    the_order_exists(hits.len() as int, spot_order(spots));
    let order = hit_order(hits);
    let n = order[k];
    let label = hit_entries(hits, root)[k].label;
    let end = ":"@ + decimal((hits[n].spot.row + 1) as nat);
    assert(label.skip(label.len() - end.len()) =~= end);
    assert(leads_to(hit_entries(hits, root)[k], hits[n]));
    assert(order.contains(k));
    let e = choose|e: int| 0 <= e < order.len() && order[e] == k;
    assert(leads_to(hit_entries(hits, root)[e], hits[k]));
}

/// The matches in one file are listed from the top to the bottom.
pub proof fn matches_in_a_file_are_listed_downwards(
    hits: Seq<Found>,
    root: Option<Seq<char>>,
    a: int,
    b: int,
)
    requires
        0 <= a < b < hits.len(),
        forall|i: int| 0 <= i < hits.len() ==> (#[trigger] hits[i]).spot.group == 0,
        hit_entries(hits, root)[a].payload->Location_path == hit_entries(hits, root)[b].payload->Location_path,
    ensures
        ({
            let up = hit_entries(hits, root)[a].payload;
            let down = hit_entries(hits, root)[b].payload;
            up->row < down->row || up->row == down->row && up->column <= down->column
        }),
{
    let spots = Seq::new(hits.len(), |i: int| hits[i].spot);
    let before = spot_order(spots);
    lemma_spots_are_ordered(spots);
    the_order_exists(hits.len() as int, before);
    let order = hit_order(hits);
    let (i, j) = (order[a], order[b]);
    assert(before(i, j) || !before(j, i) && i < j);
    assert(before(i, j) == spot_precedes(spots[i], spots[j]));
    assert(before(j, i) == spot_precedes(spots[j], spots[i]));
    lemma_levels_strict(path_levels(spots[i].path), path_levels(spots[j].path));
}

/// A line is shown without the white space around it, up to a bound; an
/// ellipsis stands for what is left out.
pub proof fn previews_are_trimmed_and_bounded(line: Seq<char>)
    ensures
        previewed(line).len() <= PREVIEW_CHARS + 1,
        trimmed(line).len() <= PREVIEW_CHARS ==> previewed(line) == trimmed(line),
        trimmed(line).len() > PREVIEW_CHARS ==> previewed(line).last() == '\u{2026}'
            && previewed(line).drop_last() == trimmed(line).subrange(0, PREVIEW_CHARS as int),
{
    let text = trimmed(line);
    if text.len() > PREVIEW_CHARS {
        assert(previewed(line).drop_last() =~= text.subrange(0, PREVIEW_CHARS as int));
    }
}

/// The answer to the search that is on is shown: its matches in the picker,
/// with a note behind them where there are more; without matches the picker
/// closes.
pub proof fn answers_to_a_search_are_shown(quest: Quest, event: ProjectSearchEvent, scene: Scene)
    requires
        event->generation == quest.generation,
        scene.layers.len() > 0,
        scene.layers[scene.layers.len() - 1] is Picker,
        scene.layers[scene.layers.len() - 1]->owner is ProjectSearch,
    ensures
        ({
            let next = quest.results(event, scene);
            let count = event->entries@.len();
            if count == 0 {
                &&& next.layers == scene.layers.take(scene.layers.len() - 1)
                &&& next.status matches Some(text) && ends(text, event->query@)
            } else {
                let entries = next.layers[scene.layers.len() - 1]->entries;
                &&& next.layers.len() == scene.layers.len()
                &&& entries.len() == count + if event->truncated {
                    1int
                } else {
                    0
                }
                &&& forall|i: int| 0 <= i < count ==> #[trigger] entries[i] == event->entries@[i]@
                &&& event->truncated ==> !entries[count as int].enabled
                &&& next.status == scene.status
            }
        }),
{
    let text = "no matches for "@ + event->query@;
    assert(text.skip(text.len() - event->query@.len()) =~= event->query@);
    assert(scene.layers.take(scene.layers.len() - 1) =~= scene.layers.drop_last());
}

/// A search starts with a new generation where there is a root, a text that is
/// not blank and a pattern that is well formed; else nothing is searched for.
pub proof fn searches_start_with_a_new_generation(
    quest: Quest,
    scene: Scene,
    text: Seq<char>,
    pattern: Result<(), String>,
)
    requires
        quest.generation < u64::MAX,
    ensures
        ({
            let next = quest.submitted(scene, text, pattern);
            let after = quest.submission(scene, text, pattern);
            if scene.root is Some && trimmed(text).len() > 0 && pattern is Ok {
                &&& next.generation == quest.generation + 1
                &&& next.last_query == Some(text)
                &&& next.options == quest.options
                &&& after.layers.len() == 1
                &&& after.layers[0] is Picker
                &&& after.layers[0]->owner is ProjectSearch
                &&& after.layers[0]->entries.len() == 0
            } else {
                &&& next == quest
                &&& after.layers.len() == scene.layers.len()
                &&& pattern is Ok ==> after == scene
                &&& scene.root is None || trimmed(text).len() == 0 ==> after == scene
            }
        }),
{
}

/// A pattern that is not well formed is told with what is wrong with it: in
/// the prompt that is on top, or else in the status row.
pub proof fn faulty_patterns_are_told(quest: Quest, scene: Scene, text: Seq<char>, error: String)
    requires
        scene.root is Some,
        trimmed(text).len() > 0,
    ensures
        ({
            let after = quest.submission(scene, text, Err(error));
            let count = scene.layers.len();
            if count > 0 && scene.layers[count - 1] is Prompt {
                &&& after.layers.len() == count
                &&& after.layers[count - 1] is Prompt
                &&& after.layers[count - 1]->feedback matches Some(words)
                &&& ends(words, error@)
                &&& after.status == scene.status
            } else {
                &&& after.layers == scene.layers
                &&& after.status matches Some(words)
                &&& ends(words, error@)
            }
        }),
{
    let words = "invalid pattern: "@ + error@;
    assert(words.skip(words.len() - error@.len()) =~= error@);
}

/// Tasks are listed by their labels, with their commands beside them; the ones
/// that were used come first, and of the others those that were not listed.
pub proof fn tasks_are_listed_by_label(used: Seq<Job>, current: Seq<Job>, k: int)
    requires
        0 <= k < candidates(used, current).len(),
    ensures
        ({
            let list = candidates(used, current);
            let entries = task_choices(list);
            &&& entries.len() == list.len()
            &&& entries[k].label == list[k].label
            &&& entries[k].detail == list[k].command_label
            &&& entries[k].payload == Target::Index(k)
            &&& entries[k].enabled
            &&& k < used.len() ==> list[k] == used[k]
            &&& k >= used.len() ==> current.contains(list[k])
        }),
    decreases current.len(),
{
    if current.len() > 0 {
        let front = current.drop_last();
        let before = candidates(used, front);
        if k < before.len() {
            tasks_are_listed_by_label(used, front, k);
            if k >= used.len() {
                let i = choose|i: int| 0 <= i < front.len() && front[i] == before[k];
                assert(current[i] == before[k]);
            }
        } else {
            assert(current[current.len() - 1] == candidates(used, current)[k]);
            lemma_used_come_first(used, front);
        }
    }
}

proof fn lemma_used_come_first(used: Seq<Job>, current: Seq<Job>)
    ensures
        used.len() <= candidates(used, current).len(),
    decreases current.len(),
{
    if current.len() > 0 {
        lemma_used_come_first(used, current.drop_last());
    }
}

/// The options are told in the prompt for a search where that is on top, and
/// else what is shown stays.
pub proof fn options_are_told_in_the_prompt(quest: Quest, scene: Scene)
    ensures
        ({
            let next = quest.optioned(scene);
            let count = scene.layers.len();
            if count > 0 && scene.layers[count - 1] is Prompt && scene.layers[count - 1]->target
                == Purpose::ProjectSearch {
                &&& next.layers.len() == count
                &&& next.layers[count - 1] is Prompt
                &&& next.layers[count - 1]->feedback == quest.options.described()
                &&& next.layers[count - 1]->line == scene.layers[count - 1]->line
            } else {
                next == scene
            }
        }),
        quest.options.described() matches Some(text) ==> ends(quest.option_words(), text),
        quest.options.described() is None ==> ends(quest.option_words(), "none"@),
{
    let all = quest.option_words();
    let end = match quest.options.described() {
        Some(text) => text,
        None => "none"@,
    };
    assert(all.skip(all.len() - end.len()) =~= end);
}

} // verus!
