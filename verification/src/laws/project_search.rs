//! Laws of searching a project and of replacing in it.

use vstd::prelude::*;

use crate::project_search::{
    breaks_a_line, bytes_of, compile_fault, compiled_query, context_of, edits_of, first_glob_fault,
    globs_fault, hit_index, hits_in, in_order, lemma_line_start, lemma_matches_fault, lemma_run_end,
    lemma_run_is_one_source, lemma_source_index, line_start, previewed, range_fault, recorded,
    run_end, slice, sorting_keeps_every_match_once, source_index, with_file, with_files, Answers,
    Edit, FileEdits, Finding, GlobKind, Match, Progress, SearchMode, SearchOptionsError,
    SearchOptionsView, Source, Syntax, MAX_GLOB_BYTES, MAX_GLOB_COUNT, MAX_QUERY_BYTES,
    MAX_REPLACEMENT_BYTES,
};
use crate::text::{
    first_index, index_at, lemma_first_index, lemma_index_at, lemma_utf8_len_add, utf8_len,
};
use crate::project_search::{options_fault, ReplaceScope};

verus! {

/// The query of some options asks for what they say: it includes what they
/// include and excludes what they exclude, in the same order, and each of its
/// flags is theirs. It replaces by their replacement, and tells every match of a
/// line.
pub proof fn queries_ask_for_what_the_options_say(options: SearchOptionsView)
    ensures
        ({
            let plan = compiled_query(options);
            &&& plan.text == options.query
            &&& plan.regex <==> options.mode == SearchMode::Regex
            &&& plan.include_globs.len() == options.include_globs.len()
            &&& forall|i: int|
                0 <= i < plan.include_globs.len() ==> #[trigger] plan.include_globs[i]
                    == options.include_globs[i]
            &&& plan.exclude_globs.len() == options.exclude_globs.len()
            &&& forall|i: int|
                0 <= i < plan.exclude_globs.len() ==> #[trigger] plan.exclude_globs[i]
                    == options.exclude_globs[i]
            &&& plan.whole_word <==> options.whole_word
            &&& plan.case_sensitive <==> options.case_sensitive
            &&& plan.include_ignored <==> options.include_ignored
            &&& plan.match_full_paths <==> options.match_full_paths
            &&& plan.open_buffers_only <==> options.open_buffers_only
            &&& !plan.one_match_per_line
            &&& plan.replacement == Some(options.replacement)
        }),
{
}


/// Options make a query just where they are sound, and the engines take their
/// globs and their text: the query is not empty, fits on one line, and is not too
/// long; the replacement is not too long, and holds no NUL; no glob is empty or
/// breaks a line. A fault of what was typed is told before one of syntax, and one
/// of the globs that include before one of those that exclude.
pub proof fn sound_options_make_a_query(options: SearchOptionsView, syntax: Syntax)
    ensures
        ({
            let sound = {
                &&& options.query.len() > 0
                &&& utf8_len(options.query) <= MAX_QUERY_BYTES
                &&& !options.query.contains('\r') && !options.query.contains('\n')
                    && !options.query.contains('\0')
                &&& utf8_len(options.replacement) <= MAX_REPLACEMENT_BYTES
                &&& !options.replacement.contains('\0')
                &&& globs_fault(GlobKind::Include, options.include_globs) is None
                &&& globs_fault(GlobKind::Exclude, options.exclude_globs) is None
            };
            &&& compile_fault(options, syntax) is None <==> sound && syntax.include_globs
                && syntax.exclude_globs && syntax.query
            &&& options.query.len() == 0 ==> compile_fault(options, syntax) == Some(
                crate::project_search::CompileError::Options(SearchOptionsError::EmptyQuery),
            )
            &&& sound && !syntax.include_globs ==> compile_fault(options, syntax)->0 is IncludeGlob
            &&& sound && syntax.include_globs && !syntax.exclude_globs ==> compile_fault(
                options,
                syntax,
            )->0 is ExcludeGlob
            &&& sound && syntax.include_globs && syntax.exclude_globs && !syntax.query
                ==> compile_fault(options, syntax)->0 is Query
        }),
{
}

/// A list of globs is taken just where there are not too many of them, none is
/// empty or breaks a line, and they are not too long together.
pub proof fn sound_globs_are_taken(kind: GlobKind, list: Seq<Seq<char>>)
    ensures
        globs_fault(kind, list) is None <==> {
            &&& list.len() <= MAX_GLOB_COUNT
            &&& forall|i: int|
                0 <= i < list.len() ==> (#[trigger] list[i]).len() > 0 && !breaks_a_line(list[i])
            &&& bytes_of(list) <= MAX_GLOB_BYTES
        },
{
    lemma_glob_faults(kind, list);
}

proof fn lemma_glob_faults(kind: GlobKind, list: Seq<Seq<char>>)
    ensures
        first_glob_fault(kind, list) is None ==> forall|i: int|
            0 <= i < list.len() ==> (#[trigger] list[i]).len() > 0 && !breaks_a_line(list[i]),
        bytes_of(list) <= usize::MAX && (forall|i: int|
            0 <= i < list.len() ==> (#[trigger] list[i]).len() > 0 && !breaks_a_line(list[i]))
            ==> first_glob_fault(kind, list) is None,
    decreases list.len(),
{
    if list.len() > 0 {
        let front = list.drop_last();
        lemma_glob_faults(kind, front);
        assert(forall|i: int| 0 <= i < front.len() ==> front[i] == list[i]);
        assert(list[list.len() - 1] == list.last());
    }
}

/// What was searched for is remembered first, and what was remembered before
/// keeps its order behind it, without a repetition.
pub proof fn recorded_searches_keep_their_order(
    list: Seq<SearchOptionsView>,
    options: SearchOptionsView,
    limit: int,
    i: int,
)
    requires
        list.no_duplicates(),
        0 < limit,
        0 < i < recorded(list, options, limit).len(),
    ensures
        recorded(list, options, limit)[0] == options,
        recorded(list, options, limit)[i] == if list.take(i).contains(options) {
            list[i]
        } else {
            list[i - 1]
        },
        recorded(list, options, limit).len() == {
            let all = 1 + list.len() - if list.contains(options) {
                1int
            } else {
                0
            };
            if all <= limit {
                all
            } else {
                limit
            }
        },
{
    if list.contains(options) {
        let at = list.index_of(options);
        assert(list[at] == options);
        if list.take(i).contains(options) {
            let k = choose|k: int| 0 <= k < i && list.take(i)[k] == options;
            assert(list[k] == options && k == at);
        } else {
            assert(at < i ==> list.take(i)[at] == options);
        }
    } else if list.take(i).contains(options) {
        let k = choose|k: int| 0 <= k < i && list.take(i)[k] == options;
        assert(list[k] == options);
    }
}

/// What a query puts in the place of a hit.
pub open spec fn put_for(answers: Answers, hit: Finding) -> Option<Seq<char>> {
    if answers.contextual {
        hit.replacement
    } else {
        answers.replacement
    }
}

/// Whether an edit is the one for a match: it has the range of the match, holds
/// the text there, and puts in what the query puts in the place of a hit with
/// that range.
pub open spec fn edits_match(
    answers: Answers,
    sources: Seq<Source>,
    m: Match,
    edit: Edit,
) -> bool {
    &&& edit.start == m.start && edit.end == m.end
    &&& source_index(sources, m.source) matches Some(index) && edit.original == slice(
        sources[index].text,
        m.start,
        m.end,
    ) && exists|h: int|
        0 <= h < hits_in(answers, index).len() && (#[trigger] hits_in(answers, index)[h]).start
            == m.start && hits_in(answers, index)[h].end == m.end && put_for(
            answers,
            hits_in(answers, index)[h],
        ) == Some(edit.replacement)
}

/// Whether some files have an edit for a match.
pub open spec fn has_edit_for(
    answers: Answers,
    sources: Seq<Source>,
    files: Seq<FileEdits>,
    m: Match,
) -> bool {
    exists|f: int, e: int|
        0 <= f < files.len() && 0 <= e < files[f].edits.len() && files[f].source == m.source
            && edits_match(answers, sources, m, #[trigger] files[f].edits[e])
}

proof fn lemma_hit_index(hits: Seq<Finding>, start: int, end: int)
    ensures
        hit_index(hits, start, end) matches Some(h) ==> 0 <= h < hits.len() && hits[h].start
            == start && hits[h].end == end,
    decreases hits.len(),
{
    if hits.len() > 0 {
        lemma_hit_index(hits.drop_last(), start, end);
    }
}

proof fn lemma_edits_match(
    answers: Answers,
    sources: Seq<Source>,
    index: int,
    matches: Seq<Match>,
    bytes: int,
)
    requires
        0 <= index < sources.len(),
        forall|k: int|
            0 <= k < matches.len() ==> source_index(sources, (#[trigger] matches[k]).source) == Some(
                index,
            ),
        edits_of(answers, sources[index], hits_in(answers, index), matches, bytes) is Ok,
    ensures
        ({
            let edits = edits_of(
                answers,
                sources[index],
                hits_in(answers, index),
                matches,
                bytes,
            )->Ok_0.0;
            &&& edits.len() == matches.len()
            &&& forall|k: int|
                0 <= k < edits.len() ==> edits_match(
                    answers,
                    sources,
                    matches[k],
                    #[trigger] edits[k],
                )
        }),
    decreases matches.len(),
{
    if matches.len() > 0 {
        let rest = matches.drop_last();
        let hits = hits_in(answers, index);
        assert(forall|k: int| 0 <= k < rest.len() ==> rest[k] == matches[k]);
        lemma_edits_match(answers, sources, index, rest, bytes);
        let m = matches.last();
        assert(matches[matches.len() - 1] == m);
        lemma_hit_index(hits, m.start, m.end);
        let edits = edits_of(answers, sources[index], hits, matches, bytes)->Ok_0.0;
        let before = edits_of(answers, sources[index], hits, rest, bytes)->Ok_0.0;
        let h = hit_index(hits, m.start, m.end)->0;
        assert(hits[h].start == m.start);
        assert(edits_match(answers, sources, m, edits.last()));
        assert forall|k: int| 0 <= k < edits.len() implies edits_match(
            answers,
            sources,
            matches[k],
            #[trigger] edits[k],
        ) by {
            if k < before.len() {
                assert(edits[k] == before[k]);
                assert(edits_match(answers, sources, rest[k], before[k]));
            }
        }
    }
}

proof fn lemma_every_match_has_an_edit(
    answers: Answers,
    sources: Seq<Source>,
    matches: Seq<Match>,
    i: int,
    progress: Progress,
)
    requires
        0 <= i <= matches.len(),
        matches_fault_free(sources, matches),
        with_files(answers, sources, matches, i, progress) is Ok,
        forall|k: int|
            0 <= k < i ==> has_edit_for(answers, sources, progress.files, #[trigger] matches[k]),
        forall|f: int, e: int|
            0 <= f < progress.files.len() && 0 <= e < progress.files[f].edits.len()
                ==> of_a_match(
                answers,
                sources,
                matches,
                progress.files[f].source,
                #[trigger] progress.files[f].edits[e],
            ),
    ensures
        ({
            let files = with_files(answers, sources, matches, i, progress)->Ok_0.files;
            &&& forall|k: int|
                0 <= k < matches.len() ==> has_edit_for(
                    answers,
                    sources,
                    files,
                    #[trigger] matches[k],
                )
            &&& forall|f: int, e: int|
                0 <= f < files.len() && 0 <= e < files[f].edits.len() ==> of_a_match(
                    answers,
                    sources,
                    matches,
                    files[f].source,
                    #[trigger] files[f].edits[e],
                )
        }),
    decreases matches.len() - i,
{
    if i < matches.len() {
        let end = run_end(matches, i, i + 1);
        lemma_run_end(matches, i, i + 1);
        let group = matches.subrange(i, end);
        let next = with_file(answers, sources, group, progress)->Ok_0;
        lemma_matches_fault(sources, matches, i);
        let index = source_index(sources, group[0].source)->0;
        lemma_source_index(sources, group[0].source);
        assert forall|k: int| 0 <= k < group.len() implies source_index(
            sources,
            (#[trigger] group[k]).source,
        ) == Some(index) && group[k] == matches[i + k] && group[k].source == group[0].source by {
            lemma_run_is_one_source(matches, i, i + 1, i + k);
        }
        lemma_edits_match(answers, sources, index, group, progress.replaced);
        let last = progress.files.len() as int;
        let file = next.files[last];
        assert(file.source == group[0].source);
        assert forall|k: int| 0 <= k < end implies has_edit_for(
            answers,
            sources,
            next.files,
            #[trigger] matches[k],
        ) by {
            if k < i {
                assert(has_edit_for(answers, sources, progress.files, matches[k]));
                let (f, e) = choose|f: int, e: int|
                    0 <= f < progress.files.len() && 0 <= e < progress.files[f].edits.len()
                        && progress.files[f].source == matches[k].source && edits_match(
                        answers,
                        sources,
                        matches[k],
                        #[trigger] progress.files[f].edits[e],
                    );
                assert(next.files[f] == progress.files[f]);
                assert(edits_match(answers, sources, matches[k], next.files[f].edits[e]));
            } else {
                assert(group[k - i] == matches[k]);
                assert(edits_match(answers, sources, group[k - i], file.edits[k - i]));
                assert(next.files[last].edits[k - i] == file.edits[k - i]);
                assert(file.source == matches[k].source);
            }
        }
        assert forall|f: int, e: int|
            0 <= f < next.files.len() && 0 <= e < next.files[f].edits.len() implies of_a_match(
            answers,
            sources,
            matches,
            next.files[f].source,
            #[trigger] next.files[f].edits[e],
        ) by {
            if f < last {
                assert(next.files[f] == progress.files[f]);
                assert(of_a_match(
                    answers,
                    sources,
                    matches,
                    progress.files[f].source,
                    progress.files[f].edits[e],
                ));
            } else {
                assert(group[e] == matches[i + e]);
                assert(edits_match(answers, sources, group[e], file.edits[e]));
                assert(matches[i + e].source == file.source);
            }
        }
        lemma_every_match_has_an_edit(answers, sources, matches, end, next);
    }
}

/// Whether every match is in one of the sources, and a part of it.
pub open spec fn matches_fault_free(sources: Seq<Source>, matches: Seq<Match>) -> bool {
    crate::project_search::matches_fault(sources, matches) is None
}

/// Whether an edit of a source is the one for some match.
pub open spec fn of_a_match(
    answers: Answers,
    sources: Seq<Source>,
    matches: Seq<Match>,
    source: crate::project_search::Identity,
    edit: Edit,
) -> bool {
    exists|k: int|
        0 <= k < matches.len() && (#[trigger] matches[k]).source == source && edits_match(
            answers,
            sources,
            matches[k],
            edit,
        )
}

/// A preview replaces all of the matches that it was given, and nothing else:
/// each match has an edit in the file of its source, at its range, with the text
/// that stands there and the one that the query puts in its place; and each edit
/// is the one for a match. It is for the search that it was made from.
pub proof fn previews_replace_what_was_matched(
    generation: u64,
    answers: Answers,
    sources: Seq<Source>,
    matches: Seq<Match>,
)
    requires
        previewed(generation, answers, sources, matches) is Ok,
    ensures
        ({
            let preview = previewed(generation, answers, sources, matches)->Ok_0;
            &&& preview.search_generation == generation
            &&& forall|m: Match| #[trigger]
                matches.contains(m) ==> has_edit_for(answers, sources, preview.files, m)
            &&& forall|f: int, e: int|
                0 <= f < preview.files.len() && 0 <= e < preview.files[f].edits.len()
                    ==> of_a_match(
                    answers,
                    sources,
                    matches,
                    preview.files[f].source,
                    #[trigger] preview.files[f].edits[e],
                )
        }),
{
    let ordered = in_order(matches);
    sorting_keeps_every_match_once(matches);
    let preview = previewed(generation, answers, sources, matches)->Ok_0;
    let start = Progress { files: Seq::empty(), replaced: 0, output: 0 };
    lemma_every_match_has_an_edit(answers, sources, ordered, 0, start);
    assert forall|m: Match| #[trigger] matches.contains(m) implies has_edit_for(
        answers,
        sources,
        preview.files,
        m,
    ) by {
        assert(ordered.contains(m));
        let k = choose|k: int| 0 <= k < ordered.len() && ordered[k] == m;
        assert(has_edit_for(answers, sources, preview.files, ordered[k]));
    }
    assert forall|f: int, e: int|
        0 <= f < preview.files.len() && 0 <= e < preview.files[f].edits.len() implies of_a_match(
        answers,
        sources,
        matches,
        preview.files[f].source,
        #[trigger] preview.files[f].edits[e],
    ) by {
        let source = preview.files[f].source;
        let edit = preview.files[f].edits[e];
        assert(of_a_match(answers, sources, ordered, source, edit));
        let k = choose|k: int|
            0 <= k < ordered.len() && (#[trigger] ordered[k]).source == source && edits_match(
                answers,
                sources,
                ordered[k],
                edit,
            );
        assert(ordered.contains(ordered[k]));
        assert(matches.contains(ordered[k]));
        let n = choose|n: int| 0 <= n < matches.len() && matches[n] == ordered[k];
        assert(matches[n].source == source);
    }
}

/// The replacement of a hit is worked out on the whole line of the hit, which
/// stands there at its place; a hit over several lines is worked out alone.
pub proof fn contexts_are_whole_lines(text: Seq<char>, start: int, end: int)
    requires
        range_fault(text, start, end) is None,
        0 <= start,
    ensures
        ({
            let i = index_at(text, start)->0;
            let j = index_at(text, end)->0;
            let hit = text.subrange(i, j);
            let (context, from, to) = context_of(text, start, end);
            &&& 0 <= i <= j <= text.len()
            &&& to - from == utf8_len(hit)
            &&& hit.contains('\n') ==> context == hit && from == 0
            &&& !hit.contains('\n') ==> exists|a: int, b: int|
                0 <= a <= i && j <= b <= text.len() && context == #[trigger] text.subrange(a, b)
                    && from == utf8_len(text.subrange(a, i)) && (a == 0 || text[a - 1] == '\n')
                    && (b == text.len() || text[b] == '\n') && (forall|k: int|
                    a <= k < b ==> #[trigger] text[k] != '\n')
        }),
{
    lemma_index_at(text, start);
    lemma_index_at(text, end);
    let i = index_at(text, start)->0;
    let j = index_at(text, end)->0;
    let hit = text.subrange(i, j);
    if j < i {
        assert(text.take(i) =~= text.take(j) + text.subrange(j, i));
        lemma_utf8_len_add(text.take(j), text.subrange(j, i));
        crate::text::lemma_utf8_len_bounds(text.subrange(j, i));
        assert(false);
    }
    if !hit.contains('\n') {
        let a = line_start(text, i);
        lemma_line_start(text, i);
        lemma_line_starts(text, i);
        let rest = text.skip(j);
        lemma_first_index(rest, '\n');
        let b = j + first_index(rest, '\n');
        if b < text.len() {
            assert(text[b] == rest[b - j]);
        }
        assert forall|k: int| a <= k < b implies #[trigger] text[k] != '\n' by {
            if i <= k < j {
                assert(hit[k - i] == text[k]);
                assert(hit.contains(hit[k - i]));
            } else if k >= j {
                assert(rest[k - j] == text[k]);
            }
        }
        let context = text.subrange(a, b);
        assert(context_of(text, start, end).0 == context);
    }
}

proof fn lemma_line_starts(text: Seq<char>, i: int)
    requires
        0 <= i <= text.len(),
    ensures
        line_start(text, i) == 0 || text[line_start(text, i) - 1] == '\n',
        forall|k: int| line_start(text, i) <= k < i ==> #[trigger] text[k] != '\n',
    decreases i,
{
    if i > 0 && text[i - 1] != '\n' {
        lemma_line_starts(text, i - 1);
    }
}

/// Of faulty options the first fault is told: one of the query before one of
/// the replacement, that before one of the globs that include, and that before
/// one of the globs that exclude. A fault of globs tells which of the two they are.
pub proof fn the_first_fault_of_the_options_is_told(options: SearchOptionsView)
    ensures
        ({
            let fault = options_fault(options);
            let query = options.query;
            let one_line = !query.contains('\r') && !query.contains('\n') && !query.contains('\0');
            let asked = 0 < query.len() && utf8_len(query) <= MAX_QUERY_BYTES && one_line;
            let long = utf8_len(options.replacement) > MAX_REPLACEMENT_BYTES;
            let nul = options.replacement.contains('\0');
            &&& fault == Some(SearchOptionsError::EmptyQuery) <==> query.len() == 0
            &&& fault == Some(SearchOptionsError::QueryTooLong) <==> query.len() > 0 && utf8_len(query)
                > MAX_QUERY_BYTES
            &&& fault == Some(SearchOptionsError::QueryNotOneLine) <==> query.len() > 0 && utf8_len(
                query,
            ) <= MAX_QUERY_BYTES && !one_line
            &&& fault == Some(SearchOptionsError::ReplacementTooLong) <==> asked && long
            &&& fault == Some(SearchOptionsError::ReplacementHoldsNul) <==> asked && !long && nul
            &&& asked && !long && !nul && options.include_globs.len() > MAX_GLOB_COUNT ==> fault
                == Some(SearchOptionsError::TooManyGlobs(GlobKind::Include))
            &&& asked && !long && !nul && globs_fault(GlobKind::Include, options.include_globs) is None
                && options.exclude_globs.len() > MAX_GLOB_COUNT ==> fault == Some(
                SearchOptionsError::TooManyGlobs(GlobKind::Exclude),
            )
        }),
{
    lemma_faults_of_globs(GlobKind::Include, options.include_globs);
    lemma_faults_of_globs(GlobKind::Exclude, options.exclude_globs);
}

proof fn lemma_faults_of_globs(kind: GlobKind, list: Seq<Seq<char>>)
    ensures
        first_glob_fault(kind, list) matches Some(error) ==> error == SearchOptionsError::EmptyGlob(
            kind,
        ) || error == SearchOptionsError::GlobHoldsControl(kind) || error
            == SearchOptionsError::GlobByteOverflow,
    decreases list.len(),
{
    if list.len() > 0 {
        lemma_faults_of_globs(kind, list.drop_last());
    }
}

/// A fault of one list of globs names that list: an empty glob, one that breaks
/// a line, or too many bytes together, whichever comes first.
pub proof fn faults_of_globs_name_their_list(kind: GlobKind, list: Seq<Seq<char>>, i: int)
    requires
        list.len() <= MAX_GLOB_COUNT,
        0 <= i < list.len(),
        bytes_of(list) <= usize::MAX,
        forall|j: int|
            0 <= j < i ==> (#[trigger] list[j]).len() > 0 && !breaks_a_line(list[j]),
    ensures
        list[i].len() == 0 ==> globs_fault(kind, list) == Some(SearchOptionsError::EmptyGlob(kind)),
        list[i].len() > 0 && (list[i].contains('\r') || list[i].contains('\n') || list[i].contains(
            '\0',
        )) ==> globs_fault(kind, list) == Some(SearchOptionsError::GlobHoldsControl(kind)),
        i == list.len() - 1 && list[i].len() > 0 && !breaks_a_line(list[i]) && bytes_of(list)
            > MAX_GLOB_BYTES ==> globs_fault(kind, list) == Some(
            SearchOptionsError::GlobsTooLong(kind),
        ),
{
    lemma_first_faulty_glob(kind, list, i);
    lemma_glob_faults(kind, list);
}

proof fn lemma_first_faulty_glob(kind: GlobKind, list: Seq<Seq<char>>, i: int)
    requires
        0 <= i < list.len(),
        bytes_of(list) <= usize::MAX,
        forall|j: int|
            0 <= j < i ==> (#[trigger] list[j]).len() > 0 && !breaks_a_line(list[j]),
    ensures
        list[i].len() == 0 ==> first_glob_fault(kind, list) == Some(
            SearchOptionsError::EmptyGlob(kind),
        ),
        list[i].len() > 0 && breaks_a_line(list[i]) ==> first_glob_fault(kind, list) == Some(
            SearchOptionsError::GlobHoldsControl(kind),
        ),
    decreases list.len(),
{
    let front = list.drop_last();
    assert(forall|j: int| 0 <= j < front.len() ==> front[j] == list[j]);
    if i < front.len() {
        lemma_first_faulty_glob(kind, front, i);
    } else {
        lemma_glob_faults(kind, front);
    }
}

/// What is replaced is one match and no other, what is in one document and in
/// no other, or everything.
pub proof fn scopes_take_what_they_name(scope: ReplaceScope, candidate: Match)
    ensures
        scope matches ReplaceScope::One(chosen) ==> (scope.takes(candidate) <==> candidate.source.path
            == chosen.source.path@ && candidate.source.buffer_id == chosen.source.buffer_id
            && candidate.start == chosen.range.start && candidate.end
            == chosen.range.end),
        scope matches ReplaceScope::File(source) ==> (scope.takes(candidate) <==> candidate.source.path
            == source.path@ && candidate.source.buffer_id == source.buffer_id),
        scope is All ==> scope.takes(candidate),
{
}

} // verus!
