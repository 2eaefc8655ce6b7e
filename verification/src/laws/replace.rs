//! Laws of replacing what was found.

use vstd::prelude::*;

use crate::project_search::{
    edited, edits_fault, file_fault, files_fault, has_buffer, kind_name, lemma_source_index,
    overlap_fault, range_fault, slice, source_index, sources_fault, splice, text_fingerprint, Edit,
    Fault, FileEdits, GlobKind, Source,
};
use crate::text::{index_at, lemma_index_at, lemma_index_at_prefix, lemma_utf8_len_prefix, utf8_len};

verus! {

/// A range can be replaced where it starts and ends between scalar values, in
/// this order.
pub proof fn ranges_lie_between_scalar_values(text: Seq<char>, start: int, end: int)
    requires
        0 <= start,
    ensures
        range_fault(text, start, end) is None <==> exists|i: int, j: int|
            0 <= i <= j <= text.len() && utf8_len(#[trigger] text.take(i)) == start && utf8_len(
                #[trigger] text.take(j),
            ) == end,
{
    lemma_index_at(text, start);
    lemma_index_at(text, end);
    if range_fault(text, start, end) is None {
        let (i, j) = (index_at(text, start)->0, index_at(text, end)->0);
        if j < i {
            lemma_utf8_len_prefix(text, j, i);
        }
        assert(utf8_len(text.take(i)) == start && utf8_len(text.take(j)) == end);
    }
    if exists|i: int, j: int|
        0 <= i <= j <= text.len() && utf8_len(#[trigger] text.take(i)) == start && utf8_len(
            #[trigger] text.take(j),
        ) == end {
        let (i, j) = choose|i: int, j: int|
            0 <= i <= j <= text.len() && utf8_len(#[trigger] text.take(i)) == start && utf8_len(
                #[trigger] text.take(j),
            ) == end;
        lemma_index_at_prefix(text, i);
        lemma_index_at_prefix(text, j);
        lemma_utf8_len_prefix(text, i, j);
    }
}

/// A replacement stands where the range was, and all around it stays.
pub proof fn replacements_stand_where_the_range_was(text: Seq<char>, i: int, j: int, replacement: Seq<char>)
    requires
        0 <= i <= j <= text.len(),
    ensures
        splice(text, utf8_len(text.take(i)) as int, utf8_len(text.take(j)) as int, replacement)
            == text.subrange(0, i) + replacement + text.subrange(j, text.len() as int),
        slice(text, utf8_len(text.take(i)) as int, utf8_len(text.take(j)) as int) == text.subrange(
            i,
            j,
        ),
{
    lemma_index_at_prefix(text, i);
    lemma_index_at_prefix(text, j);
    assert(text.take(i) =~= text.subrange(0, i));
    assert(text.skip(j) =~= text.subrange(j, text.len() as int));
}

/// One edit replaces its range, and no edits change nothing.
pub proof fn one_edit_replaces_its_range(text: Seq<char>, edit: Edit)
    requires
        range_fault(text, edit.start, edit.end) is None,
    ensures
        edited(text, Seq::empty()) == Ok::<Seq<char>, Fault>(text),
        edited(text, seq![edit]) == Ok::<Seq<char>, Fault>(
            splice(text, edit.start, edit.end, edit.replacement),
        ),
{
    reveal_with_fuel(edited, 2);
    assert(seq![edit].drop_last() =~= Seq::<Edit>::empty());
}

/// One range ends before the next starts.
pub open spec fn apart(ranges: Seq<(int, int)>, i: int) -> bool {
    i > 0 ==> ranges[i - 1].1 <= ranges[i].0
}

/// Ranges do not overlap where each ends before the next starts.
pub proof fn ranges_in_order_do_not_overlap(ranges: Seq<(int, int)>)
    ensures
        overlap_fault(ranges) is None <==> forall|i: int|
            0 <= i < ranges.len() ==> #[trigger] apart(ranges, i),
    decreases ranges.len(),
{
    if ranges.len() >= 2 {
        let front = ranges.drop_last();
        ranges_in_order_do_not_overlap(front);
        let last = ranges.len() - 1;
        if overlap_fault(ranges) is None {
            assert forall|i: int| 0 <= i < ranges.len() implies #[trigger] apart(ranges, i) by {
                if i < last {
                    assert(apart(front, i));
                }
            }
        }
        if forall|i: int| 0 <= i < ranges.len() ==> #[trigger] apart(ranges, i) {
            assert forall|i: int| 0 <= i < front.len() implies #[trigger] apart(front, i) by {
                assert(apart(ranges, i));
            }
            assert(apart(ranges, last));
        }
    }
}

/// Sources are taken where each has a document of its own.
pub proof fn sources_have_documents_of_their_own(sources: Seq<Source>)
    ensures
        sources_fault(sources) is None <==> forall|i: int, j: int|
            0 <= i < j < sources.len() ==> (#[trigger] sources[i]).identity.buffer_id != (
            #[trigger] sources[j]).identity.buffer_id,
    decreases sources.len(),
{
    if sources.len() > 0 {
        let rest = sources.drop_last();
        let own = sources.last().identity;
        let last = sources.len() - 1;
        sources_have_documents_of_their_own(rest);
        lemma_source_index(rest, own);
        if sources_fault(sources) is None {
            assert forall|i: int, j: int| 0 <= i < j < sources.len() implies (
            #[trigger] sources[i]).identity.buffer_id != (
            #[trigger] sources[j]).identity.buffer_id by {
                assert(rest[i] == sources[i]);
                if j < last {
                    assert(rest[j] == sources[j]);
                } else if rest[i].identity.buffer_id == own.buffer_id {
                    assert(has_buffer(rest, own.buffer_id));
                }
            }
        }
        if forall|i: int, j: int|
            0 <= i < j < sources.len() ==> (#[trigger] sources[i]).identity.buffer_id != (
            #[trigger] sources[j]).identity.buffer_id {
            assert forall|i: int, j: int| 0 <= i < j < rest.len() implies (
            #[trigger] rest[i]).identity.buffer_id != (#[trigger] rest[j]).identity.buffer_id by {
                assert(sources[i].identity.buffer_id != sources[j].identity.buffer_id);
            }
            if has_buffer(rest, own.buffer_id) {
                let i = choose|i: int|
                    0 <= i < rest.len() && (#[trigger] rest[i]).identity.buffer_id
                        == own.buffer_id;
                assert(sources[i].identity.buffer_id != sources[last].identity.buffer_id);
            }
            if source_index(rest, own) is Some {
                let i = source_index(rest, own)->0;
                assert(sources[i].identity.buffer_id != sources[last].identity.buffer_id);
            }
        }
    }
}

/// The edits of a file can be made where each range still holds what it held.
pub proof fn edits_need_their_originals(source: Source, edits: Seq<Edit>)
    ensures
        edits_fault(source, edits) is None <==> forall|i: int|
            0 <= i < edits.len() ==> range_fault(
                source.text,
                (#[trigger] edits[i]).start,
                edits[i].end,
            ) is None && slice(source.text, edits[i].start, edits[i].end) == edits[i].original,
    decreases edits.len(),
{
    if edits.len() > 0 {
        let front = edits.drop_last();
        edits_need_their_originals(source, front);
        assert forall|i: int| 0 <= i < front.len() implies #[trigger] edits[i] == front[i] by {}
        if edits_fault(source, edits) is None {
            assert forall|i: int| 0 <= i < edits.len() implies range_fault(
                source.text,
                (#[trigger] edits[i]).start,
                edits[i].end,
            ) is None && slice(source.text, edits[i].start, edits[i].end) == edits[i].original by {
                if i < front.len() {
                    assert(front[i] == edits[i]);
                }
            }
        } else if edits_fault(source, front) is Some {
            let i = choose|i: int|
                0 <= i < front.len() && !(range_fault(
                    source.text,
                    (#[trigger] front[i]).start,
                    front[i].end,
                ) is None && slice(source.text, front[i].start, front[i].end)
                    == front[i].original);
            assert(edits[i] == front[i]);
        } else {
            assert(edits[edits.len() - 1] == edits.last());
        }
    }
}

/// A file that can be changed is still there, in the document and on disk as it
/// was, and holds what the edits are for.
pub open spec fn can_be_changed(current: Seq<Source>, file: FileEdits) -> bool {
    exists|k: int|
        0 <= k < current.len() && (#[trigger] current[k]).identity == file.source && (forall|j: int|
            0 <= j < k ==> (#[trigger] current[j]).identity != file.source) && text_fingerprint(
            current[k].text,
        ) == file.before && current[k].disk == file.disk && edits_fault(current[k], file.edits)
            is None
}

/// A preview is applied only where each of its files can still be changed.
pub proof fn every_file_has_to_be_as_it_was(current: Seq<Source>, files: Seq<FileEdits>)
    ensures
        files_fault(current, files) is None <==> forall|i: int|
            0 <= i < files.len() ==> can_be_changed(current, #[trigger] files[i]),
    decreases files.len(),
{
    if files.len() > 0 {
        let front = files.drop_last();
        every_file_has_to_be_as_it_was(current, front);
        lemma_source_index(current, files.last().source);
        assert(file_fault(current, files.last()) is None <==> can_be_changed(
            current,
            files.last(),
        )) by {
            let file = files.last();
            if let Some(k) = source_index(current, file.source) {
                assert(current[k].identity == file.source);
                if can_be_changed(current, file) {
                    let other = choose|k: int|
                        0 <= k < current.len() && (#[trigger] current[k]).identity == file.source
                            && (forall|j: int|
                            0 <= j < k ==> (#[trigger] current[j]).identity != file.source)
                            && text_fingerprint(current[k].text) == file.before && current[k].disk
                            == file.disk && edits_fault(current[k], file.edits) is None;
                    assert(other == k);
                }
            }
        }
        assert forall|i: int| 0 <= i < front.len() implies #[trigger] files[i] == front[i] by {}
        if files_fault(current, files) is None {
            assert forall|i: int| 0 <= i < files.len() implies can_be_changed(
                current,
                #[trigger] files[i],
            ) by {
                if i < front.len() {
                    assert(can_be_changed(current, front[i]));
                }
            }
        } else if files_fault(current, front) is Some {
            let i = choose|i: int|
                0 <= i < front.len() && !can_be_changed(current, #[trigger] front[i]);
            assert(files[i] == front[i]);
        } else {
            assert(!can_be_changed(current, files[files.len() - 1]));
        }
    }
}

/// Globs are called by what they do.
pub proof fn globs_are_called_by_what_they_do(kind: GlobKind)
    ensures
        kind is Include ==> kind_name(kind) == "include"@,
        kind is Exclude ==> kind_name(kind) == "exclude"@,
{
}

} // verus!
