//! Search over the files of the project. The matches are listed in a picker,
//! by path and place, up to a bound. How a text is matched is toggled in the
//! prompt, shown behind its text, and kept.

use vstd::prelude::*;
use vstd::string::*;

use crate::features::context::{
    choices, picker, picker_layer, push_entry, Choice, Ctx, Layer, Overlay, PickerEntry,
    PickerOwner, PickerPayload, PromptTarget, Purpose, Scene, Target,
};
use crate::features::context::line_of;
use crate::features::spots::{sort_spots, spot_order, spot_views, Spot, SpotView};
use crate::geometry::{least, numbers};
use crate::order::{sorts, stable_order};
use crate::paths::{show_path, shown_path};
use crate::prompt::LinePrompt;
use crate::project_search::{plain_query, Plan, QueryPlan};
use crate::text::{
    chars_of, comma_separated, copy_optional, decimal, join_names, optional_text, push_decimal,
    string_of, texts, trim, trimmed,
};

verus! {

broadcast use vstd::string::group_string_axioms;

pub const MAX_HITS: usize = 1000;

pub const PREVIEW_CHARS: usize = 120;

/// The matches of a search.
#[derive(Debug)]
pub enum ProjectSearchEvent {
    /// The matches of the search of a generation, by path and place.
    Results { generation: u64, query: String, entries: Vec<PickerEntry>, truncated: bool },
}

/// How a text is matched.
#[derive(Clone, Copy, Debug, PartialEq, Eq, Structural)]
pub struct SearchOptions {
    pub regex: bool,
    pub case_sensitive: bool,
    pub whole_word: bool,
}

#[derive(Clone, Copy, Debug, PartialEq, Eq, Structural)]
pub enum SearchOption {
    Regex,
    CaseSensitive,
    WholeWord,
}

impl Default for SearchOptions {
    fn default() -> (options: Self)
        ensures
            options == (SearchOptions { regex: false, case_sensitive: false, whole_word: false }),
    {
        SearchOptions { regex: false, case_sensitive: false, whole_word: false }
    }
}

/// A name where it is wanted.
pub open spec fn named(on: bool, name: Seq<char>) -> Seq<Seq<char>> {
    if on {
        seq![name]
    } else {
        Seq::empty()
    }
}

impl SearchOptions {
    /// With one option the other way.
    pub open spec fn toggled(self, option: SearchOption) -> SearchOptions {
        match option {
            SearchOption::Regex => SearchOptions { regex: !self.regex, ..self },
            SearchOption::CaseSensitive => SearchOptions {
                case_sensitive: !self.case_sensitive,
                ..self
            },
            SearchOption::WholeWord => SearchOptions { whole_word: !self.whole_word, ..self },
        }
    }

    /// The names of the options that are on.
    pub open spec fn names(self) -> Seq<Seq<char>> {
        named(self.regex, "regex"@) + named(self.case_sensitive, "match case"@) + named(
            self.whole_word,
            "whole word"@,
        )
    }

    /// How the prompt shows the options.
    pub open spec fn described(self) -> Option<Seq<char>> {
        if self.names().len() == 0 {
            None
        } else {
            Some(comma_separated(self.names()))
        }
    }

    /// Turns one option the other way.
    pub fn toggle(&mut self, option: SearchOption)
        ensures
            *final(self) == old(self).toggled(option),
    {
        match option {
            SearchOption::Regex => {
                self.regex = !self.regex;
            },
            SearchOption::CaseSensitive => {
                self.case_sensitive = !self.case_sensitive;
            },
            SearchOption::WholeWord => {
                self.whole_word = !self.whole_word;
            },
        }
    }

    /// The options that are on, as the prompt shows them behind its text.
    pub fn describe(self) -> (text: Option<String>)
        ensures
            optional_text(text) == self.described(),
    {
        let mut names: Vec<String> = Vec::new();
        if self.regex {
            names.push("regex".to_string());
        }
        if self.case_sensitive {
            names.push("match case".to_string());
        }
        if self.whole_word {
            names.push("whole word".to_string());
        }
        assert(texts(names@) =~= self.names());
        if names.len() == 0 {
            None
        } else {
            Some(join_names(&names))
        }
    }
}

/// A line, trimmed and bounded.
pub open spec fn previewed(line: Seq<char>) -> Seq<char> {
    let text = trimmed(line);
    if text.len() <= PREVIEW_CHARS {
        text
    } else {
        text.take(PREVIEW_CHARS as int).push('\u{2026}')
    }
}

/// A line, trimmed and bounded so that a long one does not take the whole row.
pub fn preview(line: &str) -> (result: String)
    ensures
        result@ == previewed(line@),
{
    let text = trim(line);
    let chars = chars_of(text.as_str());
    if chars.len() <= PREVIEW_CHARS {
        return text;
    }
    let mut result = string_of(&chars, 0, PREVIEW_CHARS);
    assert(result@ =~= chars@.take(PREVIEW_CHARS as int));
    result.push('\u{2026}');
    result
}

/// A match: where it starts, and the line that it starts in.
#[derive(Debug)]
pub struct MatchLine {
    pub row: u32,
    pub column: u32,
    pub line: String,
}

/// A match in a file.
pub struct Found {
    pub spot: SpotView,
    pub line: Seq<char>,
}

/// The match in a file.
pub open spec fn found(path: Seq<char>, line: MatchLine) -> Found {
    Found {
        spot: SpotView { group: 0, path, row: line.row, column: line.column },
        line: line.line@,
    }
}

/// The matches in a file.
pub open spec fn found_lines(path: Seq<char>, lines: Seq<MatchLine>) -> Seq<Found> {
    Seq::new(lines.len(), |i: int| found(path, lines[i]))
}

/// The matches that a search has found.
pub struct Gathered {
    pub hits: Seq<Found>,
    pub truncated: bool,
}

impl Gathered {
    /// With the matches in one more file, up to the bound.
    pub open spec fn with_file(self, path: Seq<char>, lines: Seq<MatchLine>) -> Gathered {
        let room = MAX_HITS - self.hits.len();
        Gathered {
            hits: self.hits + found_lines(path, lines).take(least(lines.len() as int, room)),
            truncated: self.truncated || lines.len() > room,
        }
    }
}

/// What a search reports as it runs.
#[derive(Debug)]
pub enum SearchReply {
    /// The matches in a document; one without a path is passed over.
    File { path: Option<String>, lines: Vec<MatchLine> },
    /// The search itself stopped at a bound.
    LimitReached,
    /// It still waits for the files, or looks through them.
    Busy,
}

impl Gathered {
    /// With what a search reported.
    pub open spec fn with_reply(self, reply: SearchReply) -> Gathered {
        match reply {
            SearchReply::File { path, lines } => match path {
                Some(path) => self.with_file(path@, lines@),
                None => self,
            },
            SearchReply::LimitReached => Gathered { truncated: true, ..self },
            SearchReply::Busy => self,
        }
    }

    /// With what a search reported, up to where it was left.
    pub open spec fn with_replies(self, replies: Seq<SearchReply>) -> Gathered
        decreases replies.len(),
    {
        if replies.len() == 0 || self.truncated {
            self
        } else {
            self.with_reply(replies[0]).with_replies(replies.drop_first())
        }
    }
}

/// Gathers the matches of a search.
#[derive(Debug)]
pub struct Collector {
    spots: Vec<Spot>,
    lines: Vec<String>,
    truncated: bool,
}

impl View for Collector {
    type V = Gathered;

    closed spec fn view(&self) -> Gathered {
        Gathered {
            hits: Seq::new(
                self.spots@.len(),
                |i: int| Found { spot: self.spots@[i]@, line: self.lines@[i]@ },
            ),
            truncated: self.truncated,
        }
    }
}

/// The order of some matches.
pub open spec fn hit_order(hits: Seq<Found>) -> Seq<int> {
    stable_order(hits.len() as int, spot_order(Seq::new(hits.len(), |i: int| hits[i].spot)))
}

/// The entry for a match.
pub open spec fn hit_choice(hit: Found, root: Option<Seq<char>>) -> Choice {
    Choice {
        label: shown_path(hit.spot.path, root) + ":"@ + decimal((hit.spot.row + 1) as nat),
        detail: previewed(hit.line),
        enabled: true,
        payload: Target::Location {
            path: hit.spot.path,
            row: hit.spot.row,
            column: hit.spot.column,
        },
    }
}

/// The entries for some matches, in their order.
pub open spec fn hit_entries(hits: Seq<Found>, root: Option<Seq<char>>) -> Seq<Choice> {
    Seq::new(hits.len(), |k: int| hit_choice(hits[hit_order(hits)[k]], root))
}

impl Collector {
    #[verifier::type_invariant]
    spec fn valid(self) -> bool {
        self.spots@.len() == self.lines@.len() && self.spots@.len() <= MAX_HITS
    }

    /// No match yet.
    pub fn new() -> (collector: Self)
        ensures
            collector@ == (Gathered { hits: Seq::empty(), truncated: false }),
    {
        let collector = Collector { spots: Vec::new(), lines: Vec::new(), truncated: false };
        assert(collector@.hits =~= Seq::<Found>::empty());
        collector
    }

    /// Adds the matches in one more file. The answer tells whether to go on.
    pub fn add_file(&mut self, path: &str, lines: &Vec<MatchLine>) -> (go_on: bool)
        ensures
            final(self)@ == old(self)@.with_file(path@, lines@),
            go_on == !final(self)@.truncated,
    {
        proof {
            use_type_invariant(&*self);
        }
        let ghost before = self@;
        let mut own = Collector::new();
        std::mem::swap(&mut own, self);
        let Collector { mut spots, lines: mut texts, truncated: stopped } = own;
        let ghost old_spots = spots@;
        let ghost old_texts = texts@;
        let start: usize = spots.len();
        let mut i: usize = 0;
        while i < lines.len() && spots.len() < MAX_HITS
            invariant
                i <= lines@.len(),
                start == old_spots.len(),
                old_spots.len() == old_texts.len(),
                spots@.len() == start + i <= MAX_HITS,
                texts@.len() == start + i,
                forall|k: int| 0 <= k < start ==> spots@[k] == old_spots[k] && texts@[k]
                    == old_texts[k],
                forall|k: int|
                    0 <= k < i ==> (Found {
                        spot: (#[trigger] spots@[start + k])@,
                        line: texts@[start + k]@,
                    }) == found(path@, lines@[k]),
            decreases lines@.len() - i,
        {
            let line = &lines[i];
            spots.push(
                Spot { group: 0, path: path.to_string(), row: line.row, column: line.column },
            );
            texts.push(line.line.clone());
            i += 1;
        }
        let truncated = stopped || i < lines.len();
        *self = Collector { spots, lines: texts, truncated };
        proof {
            let room = MAX_HITS - before.hits.len();
            let more = found_lines(path@, lines@).take(least(lines@.len() as int, room));
            assert(more.len() == i);
            assert(self@.hits =~= before.hits + more) by {
                assert forall|k: int| 0 <= k < self@.hits.len() implies self@.hits[k] == (
                before.hits + more)[k] by {
                    if k < start {
                        assert(spots@[k] == old_spots[k]);
                    } else {
                        assert(spots@[start + (k - start)] == spots@[k]);
                    }
                }
            }
        }
        !truncated
    }

    /// Takes what a search reported. The answer tells whether to go on.
    pub fn take(&mut self, reply: SearchReply) -> (go_on: bool)
        ensures
            final(self)@ == old(self)@.with_reply(reply),
            go_on == !final(self)@.truncated,
    {
        proof {
            use_type_invariant(&*self);
        }
        match reply {
            SearchReply::File { path, lines } => match path {
                Some(path) => self.add_file(path.as_str(), &lines),
                None => !self.truncated,
            },
            SearchReply::LimitReached => {
                self.truncated = true;
                false
            },
            SearchReply::Busy => !self.truncated,
        }
    }

    /// Whether there are more matches than were gathered.
    pub fn truncated(&self) -> (truncated: bool)
        ensures
            truncated == self@.truncated,
    {
        self.truncated
    }

    /// The entries for the matches, by path and place.
    pub fn entries(&self, root: &Option<String>) -> (entries: Vec<PickerEntry>)
        ensures
            choices(entries@) == hit_entries(self@.hits, optional_text(*root)),
    {
        proof {
            use_type_invariant(self);
        }
        let ghost hits = self@.hits;
        let ghost all = hit_entries(hits, optional_text(*root));
        let order = sort_spots(&self.spots);
        assert(spot_views(self.spots@) =~= Seq::new(hits.len(), |i: int| hits[i].spot));
        let mut entries: Vec<PickerEntry> = Vec::new();
        let mut k: usize = 0;
        while k < order.len()
            invariant
                k <= order@.len() == hits.len(),
                hits == self@.hits,
                self.spots@.len() == self.lines@.len() == hits.len(),
                all == hit_entries(hits, optional_text(*root)),
                numbers(order@) == hit_order(hits),
                sorts(numbers(order@), hits.len() as int, spot_order(spot_views(self.spots@))),
                choices(entries@) =~= all.take(k as int),
            decreases order@.len() - k,
        {
            assert(numbers(order@)[k as int] == order@[k as int]);
            let n: usize = order[k];
            let spot = &self.spots[n];
            assert(hits[n as int] == (Found { spot: spot@, line: self.lines@[n as int]@ }));
            let mut label = show_path(spot.path.as_str(), root);
            label.append(":");
            push_decimal(&mut label, spot.row as u64 + 1);
            push_entry(
                &mut entries,
                PickerEntry {
                    label,
                    detail: preview(self.lines[n].as_str()),
                    enabled: true,
                    payload: PickerPayload::Location {
                        path: spot.path.clone(),
                        row: spot.row,
                        column: spot.column,
                    },
                },
            );
            k += 1;
        }
        assert(all.take(k as int) =~= all);
        entries
    }

    /// The outcome of the search of a generation for a text.
    pub fn results(&self, generation: u64, query: &str, root: &Option<String>) -> (event:
        ProjectSearchEvent)
        ensures
            ({
                let ProjectSearchEvent::Results {
                    generation: of,
                    query: text,
                    entries,
                    truncated,
                } = event;
                &&& of == generation
                &&& text@ == query@
                &&& choices(entries@) == hit_entries(self@.hits, optional_text(*root))
                &&& truncated == self@.truncated
            }),
    {
        ProjectSearchEvent::Results {
            generation,
            query: query.to_string(),
            entries: self.entries(root),
            truncated: self.truncated,
        }
    }
}

/// What is kept of the searches.
pub struct Quest {
    pub generation: u64,
    pub options: SearchOptions,
    /// The text that was searched for last.
    pub last_query: Option<Seq<char>>,
}

/// The entry that tells that there are more matches.
pub open spec fn more_choice() -> Choice {
    Choice {
        label: "more than "@ + decimal(MAX_HITS as nat) + " matches; refine the search"@,
        detail: Seq::empty(),
        enabled: false,
        payload: Target::Location { path: Seq::empty(), row: 0, column: 0 },
    }
}

impl Quest {
    /// The prompt for the text to search for.
    pub open spec fn asking(self) -> Layer {
        Layer::Prompt {
            label: "Project search"@,
            line: line_of(Seq::empty()),
            target: Purpose::ProjectSearch,
            feedback: self.options.described(),
        }
    }

    /// With the options behind the text of the prompt.
    pub open spec fn optioned(self, scene: Scene) -> Scene {
        if scene.prompts_for() == Some(Purpose::ProjectSearch) {
            scene.remarked(self.options.described())
        } else {
            scene
        }
    }

    /// What the options are said to be.
    pub open spec fn option_words(self) -> Seq<char> {
        "project search options: "@ + match self.options.described() {
            Some(text) => text,
            None => "none"@,
        }
    }

    /// Whether a text is searched for, once its pattern was read.
    pub open spec fn starts(self, scene: Scene, text: Seq<char>, pattern: Result<(), String>) -> bool {
        scene.root is Some && trimmed(text).len() > 0 && pattern is Ok
    }

    /// Once a text was submitted.
    pub open spec fn submitted(self, scene: Scene, text: Seq<char>, pattern: Result<(), String>) -> Quest {
        if self.starts(scene, text, pattern) {
            Quest {
                generation: (self.generation + 1) as u64,
                last_query: Some(text),
                ..self
            }
        } else {
            self
        }
    }

    /// What a submitted text shows.
    pub open spec fn submission(self, scene: Scene, text: Seq<char>, pattern: Result<(), String>) -> Scene {
        if scene.root is None || trimmed(text).len() == 0 {
            scene
        } else {
            match pattern {
                Ok(_) => scene.showing(
                    picker_layer(
                        "Matches"@,
                        Seq::empty(),
                        Seq::empty(),
                        PickerOwner::ProjectSearch,
                    ),
                ),
                Err(error) => {
                    let message = "invalid pattern: "@ + error@;
                    if scene.prompts_for() is Some {
                        scene.remarked(Some(message))
                    } else {
                        scene.said(message)
                    }
                },
            }
        }
    }

    /// What the matches of a search show.
    pub open spec fn results(self, event: ProjectSearchEvent, scene: Scene) -> Scene {
        match event {
            ProjectSearchEvent::Results { generation, query, entries, truncated } => if generation
                != self.generation || !scene.shows_picker(PickerOwner::ProjectSearch) {
                scene
            } else if entries@.len() == 0 {
                scene.popped().said("no matches for "@ + query@)
            } else if truncated {
                scene.listing(choices(entries@).push(more_choice()))
            } else {
                scene.listing(choices(entries@))
            },
        }
    }
}

/// The searches over the project.
#[derive(Debug)]
pub struct ProjectSearch {
    generation: u64,
    options: SearchOptions,
    last_query: Option<String>,
}

impl View for ProjectSearch {
    type V = Quest;

    closed spec fn view(&self) -> Quest {
        Quest {
            generation: self.generation,
            options: self.options,
            last_query: optional_text(self.last_query),
        }
    }
}

impl Default for ProjectSearch {
    fn default() -> (search: Self)
        ensures
            search@ == (Quest {
                generation: 0,
                options: SearchOptions { regex: false, case_sensitive: false, whole_word: false },
                last_query: None,
            }),
    {
        ProjectSearch { generation: 0, options: SearchOptions::default(), last_query: None }
    }
}

impl ProjectSearch {
    /// The generation of the last search.
    pub fn generation(&self) -> (generation: u64)
        ensures
            generation == self@.generation,
    {
        self.generation
    }

    /// How texts are matched.
    pub fn options(&self) -> (options: SearchOptions)
        ensures
            options == self@.options,
    {
        self.options
    }

    /// Asks for the text to search for.
    pub fn open(&mut self, ctx: &mut Ctx)
        ensures
            final(self)@ == old(self)@,
            final(ctx)@ == if old(ctx)@.root is None {
                old(ctx)@.said("project search needs a directory root"@)
            } else {
                old(ctx)@.showing(old(self)@.asking())
            },
    {
        if ctx.root.is_none() {
            ctx.say("project search needs a directory root");
            return;
        }
        ctx.show(
            Overlay::Prompt {
                label: "Project search".to_string(),
                line: LinePrompt::new(),
                target: PromptTarget::ProjectSearch,
                feedback: self.options.describe(),
            },
        );
    }

    /// The text of the prompt changed, which took away what was behind it; the
    /// options are shown again.
    pub fn query_changed(&mut self, ctx: &mut Ctx)
        ensures
            final(self)@ == old(self)@,
            final(ctx)@ == old(self)@.optioned(old(ctx)@),
    {
        self.show_options(ctx);
    }

    /// Turns an option the other way: in the prompt it is shown behind the
    /// text; over the matches the search runs again, for the text that is the
    /// answer; elsewhere the status row tells.
    pub fn toggle(&mut self, ctx: &mut Ctx, option: SearchOption) -> (again: Option<String>)
        ensures
            ({
                let next = Quest { options: old(self)@.options.toggled(option), ..old(self)@ };
                let scene = old(ctx)@;
                &&& final(self)@ == next
                &&& if scene.prompts_for() == Some(Purpose::ProjectSearch) {
                    again is None && final(ctx)@ == next.optioned(scene)
                } else if scene.shows_picker(PickerOwner::ProjectSearch) {
                    optional_text(again) == next.last_query && final(ctx)@ == scene
                } else {
                    again is None && final(ctx)@ == scene.said(next.option_words())
                }
            }),
    {
        self.options.toggle(option);
        let asking = match ctx.prompt_target() {
            Some(PromptTarget::ProjectSearch) => true,
            _ => false,
        };
        if asking {
            self.show_options(ctx);
            return None;
        }
        if ctx.has_picker(PickerOwner::ProjectSearch) {
            return copy_optional(&self.last_query);
        }
        let mut text = "project search options: ".to_string();
        match self.options.describe() {
            Some(names) => text.append(names.as_str()),
            None => text.append("none"),
        }
        ctx.say(text.as_str());
        None
    }

    /// Shows the options behind the text of the prompt.
    pub fn show_options(&self, ctx: &mut Ctx)
        ensures
            final(ctx)@ == self@.optioned(old(ctx)@),
    {
        let asking = match ctx.prompt_target() {
            Some(PromptTarget::ProjectSearch) => true,
            _ => false,
        };
        if asking {
            ctx.remark(self.options.describe());
        }
    }

    /// A text was submitted. `pattern` tells whether it is a pattern under the
    /// options. The answer is the generation of the search that is to run.
    pub fn submit(&mut self, ctx: &mut Ctx, text: &str, pattern: Result<(), String>) -> (generation:
        Option<u64>)
        requires
            old(self)@.generation < u64::MAX,
        ensures
            final(self)@ == old(self)@.submitted(old(ctx)@, text@, pattern),
            final(ctx)@ == old(self)@.submission(old(ctx)@, text@, pattern),
            generation == if old(self)@.starts(old(ctx)@, text@, pattern) {
                Some((old(self)@.generation + 1) as u64)
            } else {
                None
            },
    {
        if ctx.root.is_none() {
            return None;
        }
        if trim(text).as_str().unicode_len() == 0 {
            return None;
        }
        if let Err(error) = pattern {
            let mut message = "invalid pattern: ".to_string();
            message.append(error.as_str());
            if ctx.has_prompt() {
                ctx.set_feedback(message.as_str());
            } else {
                ctx.say(message.as_str());
            }
            return None;
        }
        self.last_query = Some(text.to_string());
        let entries: Vec<PickerEntry> = Vec::new();
        proof {
            reveal_strlit("");
            assert(""@ =~= Seq::<char>::empty());
            assert(choices(entries@) =~= Seq::<Choice>::empty());
        }
        ctx.show(picker("Matches", "", entries, PickerOwner::ProjectSearch));
        self.generation += 1;
        Some(self.generation)
    }

    /// Takes the matches of a search.
    pub fn update(&mut self, ctx: &mut Ctx, event: ProjectSearchEvent)
        ensures
            final(self)@ == old(self)@,
            final(ctx)@ == old(self)@.results(event, old(ctx)@),
    {
        let ProjectSearchEvent::Results { generation, query, entries, truncated } = event;
        if generation != self.generation {
            return;
        }
        if !ctx.has_picker(PickerOwner::ProjectSearch) {
            return;
        }
        if entries.len() == 0 {
            ctx.pop();
            let mut text = "no matches for ".to_string();
            text.append(query.as_str());
            ctx.say(text.as_str());
            return;
        }
        let mut entries = entries;
        if truncated {
            let mut label = "more than ".to_string();
            push_decimal(&mut label, MAX_HITS as u64);
            label.append(" matches; refine the search");
            let path = String::new();
            let detail = String::new();
            assert(path@ =~= Seq::<char>::empty());
            assert(detail@ =~= Seq::<char>::empty());
            push_entry(
                &mut entries,
                PickerEntry {
                    label,
                    detail,
                    enabled: false,
                    payload: PickerPayload::Location { path, row: 0, column: 0 },
                },
            );
        }
        ctx.list(entries);
    }
}

/// An option that is turned twice is as it was.
pub proof fn toggling_twice_changes_nothing(options: SearchOptions, option: SearchOption)
    ensures
        options.toggled(option).toggled(option) == options,
{
}

/// The options that are described are just those that are on: nothing is said
/// exactly where none is.
pub proof fn only_options_that_are_on_are_described(options: SearchOptions)
    ensures
        options.described() is None <==> !options.regex && !options.case_sensitive
            && !options.whole_word,
        options.described() matches Some(text) ==> text == comma_separated(options.names()),
        options.names().contains("regex"@) <==> options.regex,
        options.names().contains("match case"@) <==> options.case_sensitive,
        options.names().contains("whole word"@) <==> options.whole_word,
{
    reveal_strlit("regex");
    reveal_strlit("match case");
    reveal_strlit("whole word");
    let names = options.names();
    assert("regex"@.len() == 5);
    assert("match case"@[0] != "whole word"@[0]);
    assert("match case"@.len() == 10);
    if options.regex {
        assert(names[0] == "regex"@);
    }
    if options.case_sensitive {
        assert(names[named(options.regex, "regex"@).len() as int] == "match case"@);
    }
    if options.whole_word {
        assert(names.last() == "whole word"@);
    }
}

/// The matches of an earlier search change nothing.
pub proof fn earlier_results_are_dropped(
    quest: Quest,
    scene: Scene,
    text: Seq<char>,
    pattern: Result<(), String>,
    event: ProjectSearchEvent,
    later: Scene,
)
    requires
        quest.generation < u64::MAX,
        quest.starts(scene, text, pattern),
        event->generation <= quest.generation,
    ensures
        quest.submitted(scene, text, pattern).results(event, later) == later,
{
}

/// Whatever a search reports, no more matches are kept than the bound allows;
/// and where it was not left early, every match in a document with a path is
/// kept, in the order in which it came.
pub proof fn gathering_is_bounded(gathered: Gathered, replies: Seq<SearchReply>)
    requires
        gathered.hits.len() <= MAX_HITS,
    ensures
        gathered.with_replies(replies).hits.len() <= MAX_HITS,
        !gathered.with_replies(replies).truncated ==> gathered.with_replies(replies).hits
            == gathered.hits + reported(replies),
    decreases replies.len(),
{
    if replies.len() == 0 {
        assert(gathered.hits + reported(replies) =~= gathered.hits);
    } else if !gathered.truncated {
        let next = gathered.with_reply(replies[0]);
        gathering_is_bounded(next, replies.drop_first());
        let rest = reported(replies.drop_first());
        if !gathered.with_replies(replies).truncated {
            lemma_truncated_stays(next, replies.drop_first());
            match replies[0] {
                SearchReply::File { path: Some(path), lines } => {
                    let own = found_lines(path@, lines@);
                    assert(own.take(own.len() as int) =~= own);
                    assert(gathered.hits + (own + rest) =~= gathered.hits + own + rest);
                },
                _ => {
                    assert(Seq::<Found>::empty() + rest =~= rest);
                },
            }
        }
    }
}

proof fn lemma_truncated_stays(gathered: Gathered, replies: Seq<SearchReply>)
    ensures
        gathered.truncated ==> gathered.with_replies(replies).truncated,
{
}

/// The matches in the documents with a path, in the order in which they came.
pub open spec fn reported(replies: Seq<SearchReply>) -> Seq<Found>
    decreases replies.len(),
{
    if replies.len() == 0 {
        Seq::empty()
    } else {
        (match replies[0] {
            SearchReply::File { path: Some(path), lines } => found_lines(path@, lines@),
            _ => Seq::empty(),
        }) + reported(replies.drop_first())
    }
}

/// The query for a text under options.
pub open spec fn query_of(text: Seq<char>, options: SearchOptions) -> Plan {
    Plan {
        regex: options.regex,
        whole_word: options.whole_word,
        case_sensitive: options.case_sensitive,
        ..plain_query(text)
    }
}

/// The query for a text under options. `well_formed` tells whether the text is
/// a pattern, if it is to be one; a malformed pattern makes no query.
pub fn build_query(text: &str, options: SearchOptions, well_formed: Result<(), String>) -> (result:
    Result<QueryPlan, String>)
    ensures
        match result {
            Ok(plan) => well_formed is Ok && plan@ == query_of(text@, options),
            Err(error) => well_formed is Err && error == well_formed->Err_0,
        },
{
    if let Err(error) = well_formed {
        return Err(error);
    }
    let mut plan = QueryPlan::new(text);
    plan.regex = options.regex;
    plan.whole_word = options.whole_word;
    plan.case_sensitive = options.case_sensitive;
    Ok(plan)
}

} // verus!
