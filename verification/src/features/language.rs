//! What language servers offer: completions, documentation, diagnostics,
//! locations, renames, and code actions. Every request is tagged with a
//! generation and the document that it was made for; an answer that arrives
//! after another request, or for another document, is dropped.

use vstd::prelude::*;
use vstd::string::*;

use crate::features::context::{
    choices, picker, picker_layer, prompt, prompt_layer, push_entry, Choice, Ctx, Layer, Overlay,
    PickerEntry, PickerOwner, PickerPayload, PromptTarget, Purpose, Scene, Target,
};
use crate::features::spots::{sort_spots, spot_order, spot_views, Spot, SpotView};
use crate::geometry::{least, numbers, Point};
use crate::order::{sorts, stable_order};
use crate::paths::{show_path, shown_path};
use crate::text::{
    chars_of, copy_optional, decimal, lines, lines_of, optional_text, push_decimal, same_text, starts,
    starts_with, string_of, texts, trim, trim_start_index, trimmed, trimmed_start,
};

verus! {

broadcast use vstd::string::group_string_axioms;

pub const MAX_ROWS: usize = 500;

/// Which places a picker lists.
#[derive(Clone, Copy, Debug, PartialEq, Eq, Structural)]
pub enum LocationKind {
    Definition,
    TypeDefinition,
    References,
}

impl LocationKind {
    pub open spec fn heading(self) -> Seq<char> {
        match self {
            LocationKind::Definition => "Definitions"@,
            LocationKind::TypeDefinition => "Type definitions"@,
            LocationKind::References => "References"@,
        }
    }

    pub open spec fn absence(self) -> Seq<char> {
        match self {
            LocationKind::Definition => "no definition"@,
            LocationKind::TypeDefinition => "no type definition"@,
            LocationKind::References => "no references"@,
        }
    }

    /// The title of the picker that lists the places.
    pub fn title(self) -> (title: &'static str)
        ensures
            title@ == self.heading(),
    {
        match self {
            LocationKind::Definition => "Definitions",
            LocationKind::TypeDefinition => "Type definitions",
            LocationKind::References => "References",
        }
    }

    /// What is said where there is no such place.
    pub fn none(self) -> (text: &'static str)
        ensures
            text@ == self.absence(),
    {
        match self {
            LocationKind::Definition => "no definition",
            LocationKind::TypeDefinition => "no type definition",
            LocationKind::References => "no references",
        }
    }
}

/// A place in a file, ready to open.
#[derive(Debug, PartialEq, Eq)]
pub struct Hit {
    pub path: String,
    pub row: u32,
    pub column: u32,
}

/// The plain values of a [`Hit`].
pub struct HitView {
    pub path: Seq<char>,
    pub row: u32,
    pub column: u32,
}

impl View for Hit {
    type V = HitView;

    open spec fn view(&self) -> HitView {
        HitView { path: self.path@, row: self.row, column: self.column }
    }
}

/// The plain values of some places and their labels.
pub open spec fn hit_views(list: Seq<(Hit, String)>) -> Seq<(HitView, Seq<char>)> {
    Seq::new(list.len(), |i: int| (list[i].0@, list[i].1@))
}

/// A place as a server reports it, with the line that it stands in. The path
/// is missing where the place is in no file.
#[derive(Debug)]
pub struct Location {
    pub path: Option<String>,
    pub row: u32,
    pub column: u32,
    pub line: String,
}

/// How a place is listed.
pub open spec fn location_label(
    path: Seq<char>,
    row: int,
    line: Seq<char>,
    root: Option<Seq<char>>,
) -> Seq<char> {
    shown_path(path, root) + ":"@ + decimal((row + 1) as nat) + "  "@ + trimmed(line)
}

/// The places that are in files, but for those that are listed like the one
/// before them.
pub open spec fn located(list: Seq<Location>, root: Option<Seq<char>>) -> Seq<
    (HitView, Seq<char>),
>
    decreases list.len(),
{
    if list.len() == 0 {
        Seq::empty()
    } else {
        let before = located(list.drop_last(), root);
        let place = list.last();
        match place.path {
            None => before,
            Some(path) => {
                let label = location_label(path@, place.row as int, place.line@, root);
                if before.len() > 0 && before.last().1 == label {
                    before
                } else {
                    before.push(
                        (HitView { path: path@, row: place.row, column: place.column }, label),
                    )
                }
            },
        }
    }
}

/// The places to list, of those that a server reported.
pub fn location_hits(places: &Vec<Location>, root: &Option<String>) -> (hits: Vec<(Hit, String)>)
    ensures
        hit_views(hits@) == located(places@, optional_text(*root)),
{
    let mut hits: Vec<(Hit, String)> = Vec::new();
    let mut i: usize = 0;
    assert(places@.take(0) =~= Seq::<Location>::empty());
    assert(hit_views(hits@) =~= Seq::<(HitView, Seq<char>)>::empty());
    while i < places.len()
        invariant
            i <= places@.len(),
            hit_views(hits@) == located(places@.take(i as int), optional_text(*root)),
        decreases places@.len() - i,
    {
        let place = &places[i];
        let ghost before = hits@;
        proof {
            assert(places@.take(i + 1).drop_last() =~= places@.take(i as int));
            assert(places@.take(i + 1).last() == *place);
        }
        if let Some(path) = &place.path {
            let mut label = show_path(path.as_str(), root);
            label.append(":");
            push_decimal(&mut label, place.row as u64 + 1);
            label.append("  ");
            label.append(trim(place.line.as_str()).as_str());
            let repeated = hits.len() > 0 && same_text(
                hits[hits.len() - 1].1.as_str(),
                label.as_str(),
            );
            if !repeated {
                let hit = Hit { path: path.clone(), row: place.row, column: place.column };
                hits.push((hit, label));
                assert(hit_views(hits@) =~= hit_views(before).push((hit@, label@)));
            }
        }
        i += 1;
    }
    assert(places@.take(i as int) =~= places@);
    hits
}

/// Whether a line opens or closes a code block.
pub open spec fn fence_line(line: Seq<char>) -> bool {
    starts(trimmed_start(line), "```"@)
}

/// The lines of some texts.
pub open spec fn all_lines(blocks: Seq<Seq<char>>) -> Seq<Seq<char>>
    decreases blocks.len(),
{
    if blocks.len() == 0 {
        Seq::empty()
    } else {
        all_lines(blocks.drop_last()) + lines(blocks.last())
    }
}

/// The lines that open or close no code block.
pub open spec fn without_fences(list: Seq<Seq<char>>) -> Seq<Seq<char>>
    decreases list.len(),
{
    if list.len() == 0 {
        Seq::empty()
    } else if fence_line(list.last()) {
        without_fences(list.drop_last())
    } else {
        without_fences(list.drop_last()).push(list.last())
    }
}

/// No more than `limit` of some rows.
pub open spec fn first_rows<A>(list: Seq<A>, limit: int) -> Seq<A> {
    list.take(least(list.len() as int, limit))
}

/// The lines that show what servers say of a symbol.
pub open spec fn hover_rows(blocks: Seq<Seq<char>>) -> Seq<Seq<char>> {
    first_rows(without_fences(all_lines(blocks)), MAX_ROWS as int)
}

fn is_fence_line(line: &str) -> (result: bool)
    ensures
        result == fence_line(line@),
{
    let chars = chars_of(line);
    let from: usize = trim_start_index(chars.as_slice());
    let rest = string_of(&chars, from, chars.len());
    assert(rest@ =~= chars@.skip(from as int));
    starts_with(rest.as_str(), "```")
}

/// The lines that show what servers say of a symbol.
pub fn hover_lines(blocks: &Vec<String>) -> (rows: Vec<String>)
    ensures
        texts(rows@) == hover_rows(texts(blocks@)),
{
    let ghost all = texts(blocks@);
    let mut rows: Vec<String> = Vec::new();
    let mut i: usize = 0;
    assert(all.take(0) =~= Seq::<Seq<char>>::empty());
    assert(texts(rows@) =~= first_rows(without_fences(all_lines(all.take(0))), MAX_ROWS as int));
    while i < blocks.len()
        invariant
            i <= blocks@.len(),
            all == texts(blocks@),
            texts(rows@) == hover_rows(all.take(i as int)),
        decreases blocks@.len() - i,
    {
        let list = lines_of(blocks[i].as_str());
        let ghost more = texts(list@);
        let ghost before = all_lines(all.take(i as int));
        proof {
            assert(all.take(i + 1).drop_last() =~= all.take(i as int));
            assert(all.take(i + 1).last() == blocks@[i as int]@);
            assert(before + more.take(0) =~= before);
        }
        let mut k: usize = 0;
        while k < list.len()
            invariant
                k <= list@.len(),
                more == texts(list@),
                texts(rows@) == first_rows(
                    without_fences(before + more.take(k as int)),
                    MAX_ROWS as int,
                ),
            decreases list@.len() - k,
        {
            let line = list[k].as_str();
            let ghost kept = without_fences(before + more.take(k as int));
            let ghost shown = rows@;
            proof {
                assert((before + more.take(k + 1)).drop_last() =~= before + more.take(k as int));
                assert((before + more.take(k + 1)).last() == line@);
            }
            if !is_fence_line(line) {
                if rows.len() < MAX_ROWS {
                    rows.push(line.to_string());
                    assert(texts(rows@) =~= texts(shown).push(line@));
                    assert(first_rows(kept.push(line@), MAX_ROWS as int) =~= first_rows(
                        kept,
                        MAX_ROWS as int,
                    ).push(line@));
                } else {
                    assert(first_rows(kept.push(line@), MAX_ROWS as int) =~= first_rows(
                        kept,
                        MAX_ROWS as int,
                    ));
                }
            }
            k += 1;
        }
        assert(more.take(k as int) =~= more);
        i += 1;
    }
    assert(all.take(i as int) =~= all);
    rows
}

/// How bad what a diagnostic reports is.
#[derive(Clone, Copy, Debug, PartialEq, Eq, Structural)]
pub enum Severity {
    Error,
    Warning,
    Information,
    Hint,
}

impl Severity {
    pub open spec fn word(self) -> Seq<char> {
        match self {
            Severity::Error => "error"@,
            Severity::Warning => "warning"@,
            Severity::Information => "info"@,
            Severity::Hint => "hint"@,
        }
    }

    /// The word for it.
    pub fn name(self) -> (name: &'static str)
        ensures
            name@ == self.word(),
    {
        match self {
            Severity::Error => "error",
            Severity::Warning => "warning",
            Severity::Information => "info",
            Severity::Hint => "hint",
        }
    }
}

/// A diagnostic of a file.
#[derive(Debug)]
pub struct Diagnostic {
    pub row: u32,
    pub column: u32,
    pub severity: Severity,
    pub message: String,
    pub is_primary: bool,
}

/// The first line of a text.
pub open spec fn first_line(text: Seq<char>) -> Seq<char> {
    if lines(text).len() == 0 {
        Seq::empty()
    } else {
        lines(text)[0]
    }
}

/// The entry of a picker for a diagnostic.
pub open spec fn diagnostic_choice(
    path: Seq<char>,
    root: Option<Seq<char>>,
    diagnostic: Diagnostic,
) -> Choice {
    Choice {
        label: shown_path(path, root) + ":"@ + decimal((diagnostic.row + 1) as nat),
        detail: diagnostic.severity.word() + " "@ + first_line(diagnostic.message@),
        enabled: true,
        payload: Target::Location { path, row: diagnostic.row, column: diagnostic.column },
    }
}

/// The entries of a picker with those for the diagnostics of one more file.
pub open spec fn with_diagnostics(
    entries: Seq<Choice>,
    path: Seq<char>,
    root: Option<Seq<char>>,
    list: Seq<Diagnostic>,
) -> Seq<Choice>
    decreases list.len(),
{
    if list.len() == 0 {
        entries
    } else {
        let before = with_diagnostics(entries, path, root, list.drop_last());
        if list.last().is_primary && before.len() < MAX_ROWS {
            before.push(diagnostic_choice(path, root, list.last()))
        } else {
            before
        }
    }
}

fn first_line_of(text: &str) -> (line: String)
    ensures
        line@ == first_line(text@),
{
    let list = lines_of(text);
    if list.len() == 0 {
        assert(texts(list@).len() == 0);
        let line = String::new();
        assert(line@ =~= Seq::<char>::empty());
        return line;
    }
    assert(texts(list@)[0] == list@[0]@);
    list[0].clone()
}

/// Adds the entries for the diagnostics of one more file.
pub fn push_diagnostics(
    entries: &mut Vec<PickerEntry>,
    path: &str,
    root: &Option<String>,
    list: &Vec<Diagnostic>,
)
    ensures
        choices(final(entries)@) == with_diagnostics(
            choices(old(entries)@),
            path@,
            optional_text(*root),
            list@,
        ),
{
    let ghost start = choices(entries@);
    let shown = show_path(path, root);
    let mut i: usize = 0;
    assert(list@.take(0) =~= Seq::<Diagnostic>::empty());
    while i < list.len()
        invariant
            i <= list@.len(),
            shown@ == shown_path(path@, optional_text(*root)),
            choices(entries@) == with_diagnostics(
                start,
                path@,
                optional_text(*root),
                list@.take(i as int),
            ),
        decreases list@.len() - i,
    {
        let diagnostic = &list[i];
        proof {
            assert(list@.take(i + 1).drop_last() =~= list@.take(i as int));
            assert(list@.take(i + 1).last() == *diagnostic);
        }
        if diagnostic.is_primary && entries.len() < MAX_ROWS {
            let mut label = shown.clone();
            label.append(":");
            push_decimal(&mut label, diagnostic.row as u64 + 1);
            let mut detail = diagnostic.severity.name().to_string();
            detail.append(" ");
            detail.append(first_line_of(diagnostic.message.as_str()).as_str());
            push_entry(
                entries,
                PickerEntry {
                    label,
                    detail,
                    enabled: true,
                    payload: PickerPayload::Location {
                        path: path.to_string(),
                        row: diagnostic.row,
                        column: diagnostic.column,
                    },
                },
            );
        }
        i += 1;
    }
    assert(list@.take(i as int) =~= list@);
}

/// The indices of a list, in an order, without those of files that stand
/// right before.
pub open spec fn distinct_files(list: Seq<SpotView>, order: Seq<int>) -> Seq<int>
    decreases order.len(),
{
    if order.len() == 0 {
        Seq::empty()
    } else {
        let before = distinct_files(list, order.drop_last());
        let n = order.last();
        if before.len() > 0 && list[before.last()].group == list[n].group && list[before.last()].path
            == list[n].path {
            before
        } else {
            before.push(n)
        }
    }
}

/// The files with diagnostics, in their order, each once.
pub fn diagnostic_files(files: &Vec<Spot>) -> (result: Vec<usize>)
    ensures
        numbers(result@) == distinct_files(
            spot_views(files@),
            stable_order(files@.len() as int, spot_order(spot_views(files@))),
        ),
{
    let order = sort_spots(files);
    let ghost list = spot_views(files@);
    let ghost all = numbers(order@);
    let mut result: Vec<usize> = Vec::new();
    let mut i: usize = 0;
    assert(all.take(0) =~= Seq::<int>::empty());
    assert(numbers(result@) =~= Seq::<int>::empty());
    while i < order.len()
        invariant
            i <= order@.len(),
            list == spot_views(files@),
            all == numbers(order@),
            sorts(all, files@.len() as int, spot_order(list)),
            numbers(result@) == distinct_files(list, all.take(i as int)),
            forall|k: int| 0 <= k < result@.len() ==> result@[k] < files@.len(),
        decreases order@.len() - i,
    {
        let ghost before = result@;
        proof {
            assert(all.take(i + 1).drop_last() =~= all.take(i as int));
            assert(all[i as int] == order@[i as int]);
        }
        let n: usize = order[i];
        let mut repeated = false;
        if result.len() > 0 {
            let last: usize = result[result.len() - 1];
            assert(numbers(before).last() == last);
            repeated = files[last].group == files[n].group && same_text(
                files[last].path.as_str(),
                files[n].path.as_str(),
            );
        }
        if !repeated {
            result.push(n);
            assert(numbers(result@) =~= numbers(before).push(n as int));
        }
        i += 1;
    }
    assert(all.take(i as int) =~= all);
    result
}

/// A completion that a server offers.
#[derive(Debug)]
pub struct Offer {
    pub label: String,
    /// What the server says of it, if anything.
    pub detail: Option<String>,
}

/// What a server offers, as plain values.
pub open spec fn offer_view(offer: Offer) -> (Seq<char>, Option<Seq<char>>) {
    (offer.label@, optional_text(offer.detail))
}

/// The completions of one server.
pub open spec fn offer_views(list: Seq<Offer>) -> Seq<(Seq<char>, Option<Seq<char>>)> {
    Seq::new(list.len(), |i: int| offer_view(list[i]))
}

/// The completions of all servers, in their order.
pub open spec fn all_offers(responses: Seq<Vec<Offer>>) -> Seq<(Seq<char>, Option<Seq<char>>)>
    decreases responses.len(),
{
    if responses.len() == 0 {
        Seq::empty()
    } else {
        all_offers(responses.drop_last()) + offer_views(responses.last()@)
    }
}

/// The completions of all servers, in their order; none where the servers
/// could not be asked.
pub fn gather_offers(responses: &Result<Vec<Vec<Offer>>, String>) -> (result: Vec<Offer>)
    ensures
        offer_views(result@) == match *responses {
            Ok(list) => all_offers(list@),
            Err(_) => Seq::empty(),
        },
{
    let mut result: Vec<Offer> = Vec::new();
    assert(offer_views(result@) =~= Seq::empty());
    if let Ok(list) = responses {
        let mut i: usize = 0;
        assert(list@.take(0) =~= Seq::empty());
        while i < list.len()
            invariant
                i <= list@.len(),
                offer_views(result@) == all_offers(list@.take(i as int)),
            decreases list@.len() - i,
        {
            let own = &list[i];
            let ghost before = offer_views(result@);
            let mut k: usize = 0;
            assert(before + offer_views(own@).take(0) =~= before);
            while k < own.len()
                invariant
                    k <= own@.len(),
                    offer_views(result@) == before + offer_views(own@).take(k as int),
                decreases own@.len() - k,
            {
                let offer = Offer {
                    label: own[k].label.clone(),
                    detail: copy_optional(&own[k].detail),
                };
                let ghost earlier = result@;
                result.push(offer);
                proof {
                    let all = offer_views(own@);
                    assert(offer_views(result@) =~= offer_views(earlier).push(offer_view(offer)));
                    assert(all.take(k + 1) =~= all.take(k as int).push(all[k as int]));
                    assert(offer_views(result@) =~= before + all.take(k + 1));
                }
                k += 1;
            }
            proof {
                assert(offer_views(own@).take(k as int) =~= offer_views(own@));
                assert(list@.take(i + 1).drop_last() =~= list@.take(i as int));
                assert(list@.take(i + 1).last() == list@[i as int]);
            }
            i += 1;
        }
        assert(list@.take(i as int) =~= list@);
    }
    result
}

/// The text that is completed: from where the first completion would replace
/// it up to the caret, or nothing where the caret stands before that.
pub fn completed_span(start: Point, caret: Point) -> (span: (Point, Point))
    ensures
        span.0 == start,
        span.1 == if start.reaches(caret) {
            caret
        } else {
            start
        },
{
    if start.row < caret.row || start.row == caret.row && start.column <= caret.column {
        (start, caret)
    } else {
        (start, start)
    }
}

/// An answer to a request.
#[derive(Debug)]
pub enum LanguageEvent {
    Completions { generation: u64, query: String, completions: Vec<Offer> },
    Hover { generation: u64, lines: Vec<String> },
    Locations { generation: u64, kind: LocationKind, hits: Vec<(Hit, String)> },
    Diagnostics { generation: u64, entries: Vec<PickerEntry> },
    RenamePrepared { generation: u64, point: Point, current: Option<String> },
    CodeActions { generation: u64, actions: Vec<String> },
    /// A rename or a code action ended; the message is ready to show.
    Applied { generation: u64, result: Result<String, String> },
}

impl LanguageEvent {
    /// The generation of the request that it answers.
    pub open spec fn tag(self) -> u64 {
        match self {
            LanguageEvent::Completions { generation, .. } => generation,
            LanguageEvent::Hover { generation, .. } => generation,
            LanguageEvent::Locations { generation, .. } => generation,
            LanguageEvent::Diagnostics { generation, .. } => generation,
            LanguageEvent::RenamePrepared { generation, .. } => generation,
            LanguageEvent::CodeActions { generation, .. } => generation,
            LanguageEvent::Applied { generation, .. } => generation,
        }
    }

    /// The generation of the request that it answers.
    pub fn generation(&self) -> (generation: u64)
        ensures
            generation == self.tag(),
    {
        match self {
            LanguageEvent::Completions { generation, .. } => *generation,
            LanguageEvent::Hover { generation, .. } => *generation,
            LanguageEvent::Locations { generation, .. } => *generation,
            LanguageEvent::Diagnostics { generation, .. } => *generation,
            LanguageEvent::RenamePrepared { generation, .. } => *generation,
            LanguageEvent::CodeActions { generation, .. } => *generation,
            LanguageEvent::Applied { generation, .. } => *generation,
        }
    }
}

/// What the app does after an answer.
#[derive(Debug, PartialEq, Eq)]
pub enum LanguageOutcome {
    Consumed,
    /// Open the file at the place in the active pane.
    Open(Hit),
}

/// The entry for an index of a list.
pub open spec fn index_choice(label: Seq<char>, detail: Seq<char>, index: int) -> Choice {
    Choice { label, detail, enabled: true, payload: Target::Index(index) }
}

/// What a server says of a completion.
pub open spec fn offer_detail(offer: Offer) -> Seq<char> {
    match offer.detail {
        Some(detail) => detail@,
        None => Seq::empty(),
    }
}

/// The entries for some completions.
pub open spec fn offer_choices(list: Seq<Offer>) -> Seq<Choice> {
    Seq::new(list.len(), |i: int| index_choice(list[i].label@, offer_detail(list[i]), i))
}

/// The labels of some completions.
pub open spec fn offer_labels(list: Seq<Offer>) -> Seq<Seq<char>> {
    Seq::new(list.len(), |i: int| list[i].label@)
}

/// The entries for some places.
pub open spec fn hit_choices(list: Seq<(HitView, Seq<char>)>) -> Seq<Choice> {
    Seq::new(
        list.len(),
        |i: int|
            Choice {
                label: list[i].1,
                detail: Seq::empty(),
                enabled: true,
                payload: Target::Location {
                    path: list[i].0.path,
                    row: list[i].0.row,
                    column: list[i].0.column,
                },
            },
    )
}

/// The entries for some code actions.
pub open spec fn action_choices(list: Seq<Seq<char>>) -> Seq<Choice> {
    Seq::new(list.len(), |i: int| index_choice(list[i], Seq::empty(), i))
}

fn offer_entries(list: &Vec<Offer>) -> (entries: Vec<PickerEntry>)
    ensures
        choices(entries@) == offer_choices(list@),
{
    let mut entries: Vec<PickerEntry> = Vec::new();
    let mut i: usize = 0;
    while i < list.len()
        invariant
            i <= list@.len(),
            choices(entries@) =~= offer_choices(list@).take(i as int),
        decreases list@.len() - i,
    {
        let detail = match &list[i].detail {
            Some(detail) => detail.clone(),
            None => String::new(),
        };
        assert(detail@ =~= offer_detail(list@[i as int]));
        push_entry(
            &mut entries,
            PickerEntry {
                label: list[i].label.clone(),
                detail,
                enabled: true,
                payload: PickerPayload::Index(i),
            },
        );
        i += 1;
    }
    entries
}

fn labels_of(list: &Vec<Offer>) -> (labels: Vec<String>)
    ensures
        texts(labels@) == offer_labels(list@),
{
    let mut labels: Vec<String> = Vec::new();
    let mut i: usize = 0;
    while i < list.len()
        invariant
            i <= list@.len(),
            texts(labels@) =~= offer_labels(list@).take(i as int),
        decreases list@.len() - i,
    {
        let label = list[i].label.clone();
        let ghost before = labels@;
        labels.push(label);
        assert(texts(labels@) =~= texts(before).push(label@));
        i += 1;
    }
    labels
}

fn hit_entries(list: &Vec<(Hit, String)>) -> (entries: Vec<PickerEntry>)
    ensures
        choices(entries@) == hit_choices(hit_views(list@)),
{
    let mut entries: Vec<PickerEntry> = Vec::new();
    let mut i: usize = 0;
    while i < list.len()
        invariant
            i <= list@.len(),
            choices(entries@) =~= hit_choices(hit_views(list@)).take(i as int),
        decreases list@.len() - i,
    {
        let detail = String::new();
        assert(detail@ =~= Seq::<char>::empty());
        let hit = &list[i].0;
        push_entry(
            &mut entries,
            PickerEntry {
                label: list[i].1.clone(),
                detail,
                enabled: true,
                payload: PickerPayload::Location {
                    path: hit.path.clone(),
                    row: hit.row,
                    column: hit.column,
                },
            },
        );
        i += 1;
    }
    entries
}

fn action_entries(list: &Vec<String>) -> (entries: Vec<PickerEntry>)
    ensures
        choices(entries@) == action_choices(texts(list@)),
{
    let mut entries: Vec<PickerEntry> = Vec::new();
    let mut i: usize = 0;
    while i < list.len()
        invariant
            i <= list@.len(),
            choices(entries@) =~= action_choices(texts(list@)).take(i as int),
        decreases list@.len() - i,
    {
        let detail = String::new();
        assert(detail@ =~= Seq::<char>::empty());
        push_entry(
            &mut entries,
            PickerEntry {
                label: list[i].clone(),
                detail,
                enabled: true,
                payload: PickerPayload::Index(i),
            },
        );
        i += 1;
    }
    entries
}

/// What is kept between a request and its answer.
pub struct Inquiry {
    pub generation: u64,
    /// The document that the request was made for.
    pub item: Option<u64>,
    /// The labels of the completions that are listed.
    pub completions: Seq<Seq<char>>,
    /// The titles of the code actions that are listed.
    pub actions: Seq<Seq<char>>,
    /// Where the rename that is asked for applies.
    pub rename_point: Option<Point>,
}

impl Inquiry {
    /// Once another request is made.
    pub open spec fn next(self, item: u64) -> Inquiry {
        Inquiry { generation: (self.generation + 1) as u64, item: Some(item), ..self }
    }

    /// Whether an answer is to the last request, and for the active document.
    pub open spec fn awaits(self, event: LanguageEvent, item: u64) -> bool {
        event.tag() == self.generation && self.item == Some(item)
    }

    /// Once an answer was taken.
    pub open spec fn answered(self, event: LanguageEvent, item: u64) -> Inquiry {
        if !self.awaits(event, item) {
            self
        } else {
            match event {
                LanguageEvent::Completions { completions, .. } => if completions@.len() == 0 {
                    self
                } else {
                    Inquiry { completions: offer_labels(completions@), ..self }
                },
                LanguageEvent::RenamePrepared { point, current, .. } => if current is None {
                    self
                } else {
                    Inquiry { rename_point: Some(point), ..self }
                },
                LanguageEvent::CodeActions { actions, .. } => if actions@.len() == 0 {
                    self
                } else {
                    Inquiry { actions: texts(actions@), ..self }
                },
                _ => self,
            }
        }
    }

    /// What an answer shows.
    pub open spec fn scene(self, event: LanguageEvent, scene: Scene) -> Scene {
        if !self.awaits(event, scene.item) {
            scene
        } else {
            match event {
                LanguageEvent::Completions { query, completions, .. } => if completions@.len()
                    == 0 {
                    scene.said("no completions"@)
                } else {
                    scene.showing(
                        picker_layer(
                            "Completions"@,
                            query@,
                            offer_choices(completions@),
                            PickerOwner::Language,
                        ),
                    )
                },
                LanguageEvent::Hover { lines, .. } => if lines@.len() == 0 {
                    scene.said("no hover information"@)
                } else {
                    scene.showing(Layer::Text { title: "Hover"@, rows: texts(lines@), first: 0 })
                },
                LanguageEvent::Locations { kind, hits, .. } => if hits@.len() == 0 {
                    scene.said(kind.absence())
                } else if hits@.len() == 1 {
                    scene
                } else {
                    scene.showing(
                        picker_layer(
                            kind.heading(),
                            Seq::empty(),
                            hit_choices(hit_views(hits@)),
                            PickerOwner::Language,
                        ),
                    )
                },
                LanguageEvent::Diagnostics { entries, .. } => if entries@.len() == 0 {
                    scene.said("no diagnostics"@)
                } else {
                    scene.showing(
                        picker_layer(
                            "Diagnostics"@,
                            Seq::empty(),
                            choices(entries@),
                            PickerOwner::Language,
                        ),
                    )
                },
                LanguageEvent::RenamePrepared { current, .. } => match current {
                    None => scene.said("nothing to rename at the caret"@),
                    Some(current) => scene.showing(
                        prompt_layer("Rename"@, current@, Purpose::Rename),
                    ),
                },
                LanguageEvent::CodeActions { actions, .. } => if actions@.len() == 0 {
                    scene.said("no code actions"@)
                } else {
                    scene.showing(
                        picker_layer(
                            "Code actions"@,
                            Seq::empty(),
                            action_choices(texts(actions@)),
                            PickerOwner::Language,
                        ),
                    )
                },
                LanguageEvent::Applied { result, .. } => match result {
                    Ok(message) => scene.said(message@),
                    Err(error) => scene.said(error@),
                },
            }
        }
    }

    /// The place that an answer opens.
    pub open spec fn opened(self, event: LanguageEvent, item: u64) -> Option<HitView> {
        match event {
            LanguageEvent::Locations { hits, .. } => if self.awaits(event, item) && hits@.len()
                == 1 {
                Some(hits@[0].0@)
            } else {
                None
            },
            _ => None,
        }
    }
}

/// Whether a request was started: for the caret of the active document, where
/// there is one.
pub open spec fn began(
    before: Inquiry,
    after: Inquiry,
    scene: Scene,
    later: Scene,
    has_document: bool,
    caret: Result<Point, String>,
    point: Option<Point>,
) -> bool {
    match caret {
        Ok(place) if has_document => point == Some(place) && after == before.next(scene.item)
            && later == scene,
        Err(error) if has_document => point is None && after == before && later == scene.said(
            error@,
        ),
        _ => point is None && after == before && later == scene,
    }
}

/// A rename that is asked of a server.
#[derive(Debug, PartialEq, Eq)]
pub struct RenameRequest {
    pub point: Point,
    pub new_name: String,
}

/// What was picked of what a server offers.
#[derive(Debug, PartialEq, Eq)]
pub enum Picked {
    Nothing,
    Completion { index: usize, label: String },
    CodeAction { index: usize, title: String },
}

/// The requests to language servers.
#[derive(Debug)]
pub struct Language {
    generation: u64,
    item: Option<u64>,
    completions: Vec<String>,
    actions: Vec<String>,
    rename_point: Option<Point>,
}

impl View for Language {
    type V = Inquiry;

    closed spec fn view(&self) -> Inquiry {
        Inquiry {
            generation: self.generation,
            item: self.item,
            completions: texts(self.completions@),
            actions: texts(self.actions@),
            rename_point: self.rename_point,
        }
    }
}

impl Default for Language {
    fn default() -> (language: Self)
        ensures
            language@ == (Inquiry {
                generation: 0,
                item: None,
                completions: Seq::empty(),
                actions: Seq::empty(),
                rename_point: None,
            }),
    {
        let language = Language {
            generation: 0,
            item: None,
            completions: Vec::new(),
            actions: Vec::new(),
            rename_point: None,
        };
        assert(texts(language.completions@) =~= Seq::<Seq<char>>::empty());
        assert(texts(language.actions@) =~= Seq::<Seq<char>>::empty());
        language
    }
}

impl Language {
    /// The generation of the last request.
    pub fn generation(&self) -> (generation: u64)
        ensures
            generation == self@.generation,
    {
        self.generation
    }

    fn next_generation(&mut self, item: u64)
        requires
            old(self)@.generation < u64::MAX,
        ensures
            final(self)@ == old(self)@.next(item),
    {
        self.generation += 1;
        self.item = Some(item);
    }

    /// Starts a request for the caret of the active document, if there is one:
    /// the place to ask about.
    fn begin(&mut self, ctx: &mut Ctx, has_document: bool, caret: Result<Point, String>) -> (point:
        Option<Point>)
        requires
            old(self)@.generation < u64::MAX,
        ensures
            began(old(self)@, final(self)@, old(ctx)@, final(ctx)@, has_document, caret, point),
    {
        if !has_document {
            return None;
        }
        match caret {
            Ok(point) => {
                self.next_generation(ctx.active_item);
                Some(point)
            },
            Err(error) => {
                ctx.say(error.as_str());
                None
            },
        }
    }

    /// Starts a request for completions at the caret.
    pub fn show_completions(
        &mut self,
        ctx: &mut Ctx,
        has_document: bool,
        caret: Result<Point, String>,
    ) -> (point: Option<Point>)
        requires
            old(self)@.generation < u64::MAX,
        ensures
            began(old(self)@, final(self)@, old(ctx)@, final(ctx)@, has_document, caret, point),
    {
        self.begin(ctx, has_document, caret)
    }

    /// Starts a request for what is known of the symbol at the caret.
    pub fn hover(
        &mut self,
        ctx: &mut Ctx,
        has_document: bool,
        caret: Result<Point, String>,
    ) -> (point: Option<Point>)
        requires
            old(self)@.generation < u64::MAX,
        ensures
            began(old(self)@, final(self)@, old(ctx)@, final(ctx)@, has_document, caret, point),
    {
        self.begin(ctx, has_document, caret)
    }

    /// Starts a request for what can be renamed at the caret.
    pub fn rename(
        &mut self,
        ctx: &mut Ctx,
        has_document: bool,
        caret: Result<Point, String>,
    ) -> (point: Option<Point>)
        requires
            old(self)@.generation < u64::MAX,
        ensures
            began(old(self)@, final(self)@, old(ctx)@, final(ctx)@, has_document, caret, point),
    {
        self.begin(ctx, has_document, caret)
    }

    /// Starts a request for the code actions at the caret.
    pub fn code_actions(
        &mut self,
        ctx: &mut Ctx,
        has_document: bool,
        caret: Result<Point, String>,
    ) -> (point: Option<Point>)
        requires
            old(self)@.generation < u64::MAX,
        ensures
            began(old(self)@, final(self)@, old(ctx)@, final(ctx)@, has_document, caret, point),
    {
        self.begin(ctx, has_document, caret)
    }

    /// Starts a request for the places of the symbol at the caret: the place to
    /// ask about, and what is asked for.
    pub fn locations(
        &mut self,
        ctx: &mut Ctx,
        kind: LocationKind,
        has_document: bool,
        caret: Result<Point, String>,
    ) -> (request: Option<(Point, LocationKind)>)
        requires
            old(self)@.generation < u64::MAX,
        ensures
            began(
                old(self)@,
                final(self)@,
                old(ctx)@,
                final(ctx)@,
                has_document,
                caret,
                match request {
                    Some((point, _)) => Some(point),
                    None => None,
                },
            ),
            request matches Some((_, asked)) ==> asked == kind,
    {
        match self.begin(ctx, has_document, caret) {
            Some(point) => Some((point, kind)),
            None => None,
        }
    }

    /// Starts a request for all diagnostics. The answer tells whether it is to
    /// be made.
    pub fn diagnostics(&mut self, ctx: &mut Ctx) -> (started: bool)
        requires
            old(self)@.generation < u64::MAX,
        ensures
            started == (old(ctx)@.root is Some),
            if started {
                final(self)@ == old(self)@.next(old(ctx)@.item) && final(ctx)@ == old(ctx)@
            } else {
                final(self)@ == old(self)@ && final(ctx)@ == old(ctx)@.said(
                    "diagnostics need a directory root"@,
                )
            },
    {
        if ctx.root.is_none() {
            ctx.say("diagnostics need a directory root");
            return false;
        }
        self.next_generation(ctx.active_item);
        true
    }

    /// The prompt for the new name of a symbol was submitted.
    pub fn submit_rename(&mut self, ctx: &mut Ctx, new_name: &str, has_document: bool) -> (request:
        Option<RenameRequest>)
        requires
            old(self)@.generation < u64::MAX,
        ensures
            ({
                let name = trimmed(new_name@);
                let taken = Inquiry { rename_point: None, ..old(self)@ };
                if name.len() == 0 {
                    request is None && final(self)@ == old(self)@ && final(ctx)@
                        == old(ctx)@.remarked(Some("name is empty"@))
                } else if old(self)@.rename_point is None {
                    request is None && final(self)@ == old(self)@ && final(ctx)@
                        == old(ctx)@.cleared()
                } else if !has_document {
                    request is None && final(self)@ == taken && final(ctx)@ == old(ctx)@
                } else {
                    request is Some && request->0.point == old(self)@.rename_point->0
                        && request->0.new_name@ == name && final(self)@ == taken.next(
                        old(ctx)@.item,
                    ) && final(ctx)@ == old(ctx)@.cleared()
                }
            }),
    {
        let new_name = trim(new_name);
        if new_name.as_str().unicode_len() == 0 {
            ctx.set_feedback("name is empty");
            return None;
        }
        let point = match self.rename_point {
            Some(point) => point,
            None => {
                ctx.clear();
                return None;
            },
        };
        self.rename_point = None;
        if !has_document {
            return None;
        }
        ctx.clear();
        self.next_generation(ctx.active_item);
        Some(RenameRequest { point, new_name })
    }

    /// An entry of a picker of this feature was accepted.
    pub fn pick(&mut self, ctx: &mut Ctx, title: &str, index: usize, has_document: bool) -> (picked:
        Picked)
        requires
            old(self)@.generation < u64::MAX,
        ensures
            ({
                let before = old(self)@;
                if title@ == "Completions"@ && has_document && index < before.completions.len() {
                    picked matches Picked::Completion { index: chosen, label } && chosen == index
                        && label@ == before.completions[index as int] && final(self)@ == before
                        && final(ctx)@ == old(ctx)@.cleared()
                } else if title@ == "Code actions"@ && has_document && index
                    < before.actions.len() {
                    picked matches Picked::CodeAction { index: chosen, title: action } && chosen
                        == index && action@ == before.actions[index as int] && final(self)@
                        == before.next(old(ctx)@.item) && final(ctx)@ == old(ctx)@.cleared()
                } else {
                    picked is Nothing && final(self)@ == before && final(ctx)@ == old(ctx)@
                }
            }),
    {
        proof {
            reveal_strlit("Completions");
            reveal_strlit("Code actions");
            assert("Completions"@[2] != "Code actions"@[2]);
        }
        if same_text(title, "Completions") {
            if !has_document || index >= self.completions.len() {
                return Picked::Nothing;
            }
            ctx.clear();
            assert(texts(self.completions@)[index as int] == self.completions@[index as int]@);
            return Picked::Completion { index, label: self.completions[index].clone() };
        }
        if same_text(title, "Code actions") {
            if !has_document || index >= self.actions.len() {
                return Picked::Nothing;
            }
            ctx.clear();
            assert(texts(self.actions@)[index as int] == self.actions@[index as int]@);
            let action = self.actions[index].clone();
            self.next_generation(ctx.active_item);
            return Picked::CodeAction { index, title: action };
        }
        Picked::Nothing
    }

    /// Takes an answer.
    pub fn update(&mut self, ctx: &mut Ctx, event: LanguageEvent) -> (outcome: LanguageOutcome)
        ensures
            final(self)@ == old(self)@.answered(event, old(ctx)@.item),
            final(ctx)@ == old(self)@.scene(event, old(ctx)@),
            match outcome {
                LanguageOutcome::Consumed => old(self)@.opened(event, old(ctx)@.item) is None,
                LanguageOutcome::Open(hit) => old(self)@.opened(event, old(ctx)@.item) == Some(
                    hit@,
                ),
            },
    {
        let current = match self.item {
            Some(item) => item == ctx.active_item,
            None => false,
        };
        if event.generation() != self.generation || !current {
            return LanguageOutcome::Consumed;
        }
        proof {
            reveal_strlit("");
            assert(""@ =~= Seq::<char>::empty());
        }
        match event {
            LanguageEvent::Completions { query, completions, .. } => {
                if completions.len() == 0 {
                    ctx.say("no completions");
                    return LanguageOutcome::Consumed;
                }
                let entries = offer_entries(&completions);
                self.completions = labels_of(&completions);
                ctx.show(picker("Completions", query.as_str(), entries, PickerOwner::Language));
            },
            LanguageEvent::Hover { lines, .. } => {
                if lines.len() == 0 {
                    ctx.say("no hover information");
                    return LanguageOutcome::Consumed;
                }
                ctx.show(Overlay::Text { title: "Hover".to_string(), rows: lines, first: 0 });
            },
            LanguageEvent::Locations { kind, hits, .. } => {
                if hits.len() == 0 {
                    ctx.say(kind.none());
                    return LanguageOutcome::Consumed;
                }
                if hits.len() == 1 {
                    let hit = &hits[0].0;
                    return LanguageOutcome::Open(
                        Hit { path: hit.path.clone(), row: hit.row, column: hit.column },
                    );
                }
                ctx.show(picker(kind.title(), "", hit_entries(&hits), PickerOwner::Language));
            },
            LanguageEvent::Diagnostics { entries, .. } => {
                if entries.len() == 0 {
                    ctx.say("no diagnostics");
                    return LanguageOutcome::Consumed;
                }
                ctx.show(picker("Diagnostics", "", entries, PickerOwner::Language));
            },
            LanguageEvent::RenamePrepared { point, current, .. } => {
                let current = match current {
                    Some(current) => current,
                    None => {
                        ctx.say("nothing to rename at the caret");
                        return LanguageOutcome::Consumed;
                    },
                };
                self.rename_point = Some(point);
                ctx.show(prompt("Rename", current.as_str(), PromptTarget::Rename));
            },
            LanguageEvent::CodeActions { actions, .. } => {
                if actions.len() == 0 {
                    ctx.say("no code actions");
                    return LanguageOutcome::Consumed;
                }
                let entries = action_entries(&actions);
                self.actions = actions;
                ctx.show(picker("Code actions", "", entries, PickerOwner::Language));
            },
            LanguageEvent::Applied { result, .. } => match result {
                Ok(message) => ctx.say(message.as_str()),
                Err(error) => ctx.say(error.as_str()),
            },
        }
        LanguageOutcome::Consumed
    }
}

/// Says how a completion that was picked went in.
pub fn completion_applied(ctx: &mut Ctx, label: &str, result: Result<(), String>)
    ensures
        final(ctx)@ == old(ctx)@.said(
            match result {
                Ok(_) => "completed "@ + label@,
                Err(error) => "completion failed: "@ + error@,
            },
        ),
{
    match result {
        Ok(_) => {
            let mut text = "completed ".to_string();
            text.append(label);
            ctx.say(text.as_str());
        },
        Err(error) => {
            let mut text = "completion failed: ".to_string();
            text.append(error.as_str());
            ctx.say(text.as_str());
        },
    }
}

/// What is said of a rename that ended: the number of buffers that it changed,
/// or why it failed.
pub open spec fn rename_words(new_name: Seq<char>, outcome: Result<usize, String>) -> Seq<char> {
    match outcome {
        Ok(count) => "renamed to "@ + new_name + " in "@ + decimal(count as nat) + " buffer(s)"@,
        Err(error) => "rename failed: "@ + error@,
    }
}

/// The message for a rename that ended.
pub fn rename_message(new_name: &str, outcome: Result<usize, String>) -> (result: Result<
    String,
    String,
>)
    ensures
        match result {
            Ok(message) => outcome is Ok && message@ == rename_words(new_name@, outcome),
            Err(message) => outcome is Err && message@ == rename_words(new_name@, outcome),
        },
{
    match outcome {
        Ok(count) => {
            let mut text = "renamed to ".to_string();
            text.append(new_name);
            text.append(" in ");
            push_decimal(&mut text, count as u64);
            text.append(" buffer(s)");
            Ok(text)
        },
        Err(error) => {
            let mut text = "rename failed: ".to_string();
            text.append(error.as_str());
            Err(text)
        },
    }
}

/// The message for a code action that ended.
pub fn code_action_message(title: &str, outcome: Result<(), String>) -> (result: Result<
    String,
    String,
>)
    ensures
        match result {
            Ok(message) => outcome is Ok && message@ == "applied "@ + title@,
            Err(message) => outcome is Err && message@ == "code action failed: "@
                + outcome->Err_0@,
        },
{
    match outcome {
        Ok(_) => {
            let mut text = "applied ".to_string();
            text.append(title);
            Ok(text)
        },
        Err(error) => {
            let mut text = "code action failed: ".to_string();
            text.append(error.as_str());
            Err(text)
        },
    }
}

/// The answer to what a server says about a rename at the caret.
#[derive(Debug)]
pub enum PreparedRename {
    /// The text that would be renamed.
    Text(String),
    /// The server renames without telling what.
    Unprepared,
    InvalidPosition,
    Failed,
}

/// The text that the prompt for a new name starts with, if there is something
/// to rename.
pub fn current_name(prepared: PreparedRename) -> (current: Option<String>)
    ensures
        optional_text(current) == match prepared {
            PreparedRename::Text(text) => Some(text@),
            PreparedRename::Unprepared => Some(Seq::empty()),
            _ => None,
        },
{
    match prepared {
        PreparedRename::Text(text) => Some(text),
        PreparedRename::Unprepared => {
            let text = String::new();
            assert(text@ =~= Seq::<char>::empty());
            Some(text)
        },
        PreparedRename::InvalidPosition | PreparedRename::Failed => None,
    }
}

/// An answer to an earlier request, or to one for another document, changes
/// nothing and shows nothing.
pub proof fn late_answers_are_dropped(
    inquiry: Inquiry,
    event: LanguageEvent,
    scene: Scene,
    item: u64,
)
    requires
        inquiry.generation < u64::MAX,
        event.tag() <= inquiry.generation || scene.item != item,
    ensures
        ({
            let next = inquiry.next(item);
            &&& next.answered(event, scene.item) == next
            &&& next.scene(event, scene) == scene
            &&& next.opened(event, scene.item) is None
        }),
{
}

/// An answer that is taken for the last request shows something, says
/// something, or opens the one place that it names.
pub proof fn answers_are_seen(inquiry: Inquiry, event: LanguageEvent, scene: Scene)
    requires
        inquiry.awaits(event, scene.item),
    ensures
        ({
            let after = inquiry.scene(event, scene);
            ||| after.layers.len() == 1
            ||| after.status is Some
            ||| inquiry.opened(event, scene.item) is Some
        }),
{
}

/// No list of what servers report grows beyond its bound, and no more of it is
/// lost than must be.
pub proof fn diagnostics_are_bounded(
    entries: Seq<Choice>,
    path: Seq<char>,
    root: Option<Seq<char>>,
    list: Seq<Diagnostic>,
)
    requires
        entries.len() <= MAX_ROWS,
        forall|i: int| 0 <= i < list.len() ==> (#[trigger] list[i]).is_primary,
    ensures
        with_diagnostics(entries, path, root, list).len() == least(
            entries.len() as int + list.len(),
            MAX_ROWS as int,
        ),
    decreases list.len(),
{
    if list.len() > 0 {
        diagnostics_are_bounded(entries, path, root, list.drop_last());
        assert(list.last() == list[list.len() - 1]);
    }
}

} // verus!
