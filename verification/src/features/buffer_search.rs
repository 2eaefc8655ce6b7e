//! Find, replace, and go to line in the active document. The editor matches,
//! highlights, and replaces; here are the prompts and the number of the active
//! match.

use vstd::prelude::*;
use vstd::string::*;

use crate::features::context::{
    line_of, prompt, prompt_layer, Ctx, Layer, Overlay, PromptTarget, Purpose, Scene,
};
use crate::geometry::Point;
use crate::prompt::LinePrompt;
use crate::project_search::{plain_query, Plan, QueryPlan};
use crate::text::{
    chars_of, decimal, find_char, first_index, number_value, parse_number, push_decimal,
    string_of, trim, trimmed,
};

verus! {

broadcast use vstd::string::group_string_axioms;

/// What the editor is to do.
#[derive(Debug, PartialEq, Eq)]
pub struct Upkeep {
    /// The editor whose highlights go away.
    pub clear: Option<u64>,
    /// The generation of a search for the text.
    pub search: Option<u64>,
}

/// The matches of a search.
#[derive(Debug)]
pub enum BufferSearchEvent {
    /// How many matches the search of a generation has.
    Matches { generation: u64, matches: usize },
}

/// What is kept of the searches in documents.
pub struct Finder {
    pub generation: u64,
    /// The text that is searched for; the matches are its matches.
    pub text: Seq<char>,
    pub matches: int,
    pub active: Option<int>,
    /// The editor that highlights the matches.
    pub highlighted: Option<u64>,
    /// How many matches the last replacement touched.
    pub replaced: Option<int>,
}

/// The matches in words.
pub open spec fn count_words(active: Option<int>, matches: int) -> Seq<char> {
    if matches == 0 {
        "no matches"@
    } else {
        match active {
            Some(index) => decimal((index + 1) as nat) + " of "@ + decimal(matches as nat),
            None => decimal(matches as nat) + " matches"@,
        }
    }
}

impl Finder {
    /// The matches, and what was replaced, in words.
    pub open spec fn words(self) -> Seq<char> {
        match self.replaced {
            Some(count) => "replaced "@ + decimal(count as nat) + "; "@ + count_words(
                self.active,
                self.matches,
            ),
            None => count_words(self.active, self.matches),
        }
    }

    /// Once the words were said.
    pub open spec fn told(self) -> Finder {
        Finder { replaced: None, ..self }
    }

    /// Once another text is searched for.
    pub open spec fn seeking(self, text: Seq<char>) -> Finder {
        Finder {
            generation: (self.generation + 1) as u64,
            text,
            matches: 0,
            active: None,
            highlighted: if text.len() == 0 {
                None
            } else {
                self.highlighted
            },
            ..self
        }
    }

    /// Without highlights.
    pub open spec fn plain(self) -> Finder {
        Finder { highlighted: None, ..self }
    }

    /// Whether the matches are not those of a document.
    pub open spec fn stale(self, editor: u64) -> bool {
        self.highlighted != Some(editor) || self.matches == 0
    }

    /// The prompt for the replacement.
    pub open spec fn replacing(self) -> Layer {
        Layer::Prompt {
            label: "Replace with"@,
            line: line_of(Seq::empty()),
            target: Purpose::Replace,
            feedback: Some(self.words()),
        }
    }

    /// Whether matches are taken.
    pub open spec fn awaits(self, generation: u64, scene: Scene) -> bool {
        generation == self.generation && (scene.prompts_for() == Some(Purpose::Find)
            || scene.prompts_for() == Some(Purpose::Replace))
    }

    /// Once matches were taken.
    pub open spec fn matched(self, matches: int, active: Option<int>, editor: u64) -> Finder {
        Finder {
            matches,
            active: if matches == 0 {
                None
            } else {
                active
            },
            highlighted: Some(editor),
            ..self
        }
    }

    /// Once some matches were replaced.
    pub open spec fn changed(self, count: int) -> Finder {
        Finder {
            replaced: Some(count),
            generation: (self.generation + 1) as u64,
            ..self
        }
    }
}

/// The searches in documents.
#[derive(Debug)]
pub struct BufferSearch {
    generation: u64,
    text: String,
    matches: usize,
    active: Option<usize>,
    highlighted: Option<u64>,
    replaced: Option<usize>,
}

/// A number that may be there.
pub open spec fn maybe(n: Option<usize>) -> Option<int> {
    match n {
        Some(n) => Some(n as int),
        None => None,
    }
}

impl View for BufferSearch {
    type V = Finder;

    closed spec fn view(&self) -> Finder {
        Finder {
            generation: self.generation,
            text: self.text@,
            matches: self.matches as int,
            active: maybe(self.active),
            highlighted: self.highlighted,
            replaced: maybe(self.replaced),
        }
    }
}

impl Default for BufferSearch {
    fn default() -> (search: Self)
        ensures
            search@ == (Finder {
                generation: 0,
                text: Seq::empty(),
                matches: 0,
                active: None,
                highlighted: None,
                replaced: None,
            }),
    {
        let text = String::new();
        assert(text@ =~= Seq::<char>::empty());
        BufferSearch {
            generation: 0,
            text,
            matches: 0,
            active: None,
            highlighted: None,
            replaced: None,
        }
    }
}

impl BufferSearch {
    #[verifier::type_invariant]
    spec fn valid(self) -> bool {
        self.active is Some ==> self.active->0 < usize::MAX
    }

    fn clear_highlights(&mut self) -> (editor: Option<u64>)
        ensures
            editor == old(self)@.highlighted,
            final(self)@ == old(self)@.plain(),
    {
        proof {
            use_type_invariant(&*self);
        }
        let editor = self.highlighted;
        self.highlighted = None;
        editor
    }

    fn feedback(&mut self) -> (text: String)
        ensures
            text@ == old(self)@.words(),
            final(self)@ == old(self)@.told(),
    {
        proof {
            use_type_invariant(&*self);
        }
        let mut text = String::new();
        if let Some(count) = self.replaced {
            text.append("replaced ");
            push_decimal(&mut text, count as u64);
            text.append("; ");
            assert(text@ =~= "replaced "@ + decimal(count as nat) + "; "@);
        }
        let ghost front = text@;
        if self.matches == 0 {
            text.append("no matches");
        } else if let Some(index) = self.active {
            push_decimal(&mut text, (index + 1) as u64);
            text.append(" of ");
            push_decimal(&mut text, self.matches as u64);
        } else {
            push_decimal(&mut text, self.matches as u64);
            text.append(" matches");
        }
        assert(text@ =~= front + count_words(self@.active, self@.matches));
        if self.replaced.is_none() {
            assert(front =~= Seq::<char>::empty());
            assert(text@ =~= count_words(self@.active, self@.matches));
        }
        self.replaced = None;
        text
    }

    fn tell(&mut self, ctx: &mut Ctx)
        ensures
            final(self)@ == old(self)@.told(),
            final(ctx)@ == old(ctx)@.remarked(Some(old(self)@.words())),
    {
        let text = self.feedback();
        ctx.set_feedback(text.as_str());
    }

    /// Asks for the text to find, starting from `seed`.
    pub fn find(&mut self, ctx: &mut Ctx, seed: &str) -> (upkeep: Upkeep)
        requires
            old(self)@.generation < u64::MAX,
        ensures
            final(self)@ == old(self)@.plain().seeking(seed@),
            final(ctx)@ == old(ctx)@.showing(prompt_layer("Find"@, seed@, Purpose::Find)),
            upkeep.clear == old(self)@.highlighted,
            upkeep.search == if seed@.len() == 0 {
                None
            } else {
                Some((old(self)@.generation + 1) as u64)
            },
    {
        let clear = self.clear_highlights();
        ctx.show(prompt("Find", seed, PromptTarget::Find));
        let upkeep = self.query_changed(seed);
        Upkeep { clear, search: upkeep.search }
    }

    /// Asks for the replacement of what was searched for; without that, for
    /// the text to find.
    pub fn replace(&mut self, ctx: &mut Ctx, editor: u64, seed: &str) -> (upkeep: Upkeep)
        requires
            old(self)@.generation < u64::MAX,
        ensures
            ({
                let before = old(self)@;
                if before.text.len() == 0 {
                    &&& final(self)@ == before.plain().seeking(seed@)
                    &&& final(ctx)@ == old(ctx)@.showing(
                        prompt_layer("Find"@, seed@, Purpose::Find),
                    ).remarked(Some("search first, then replace"@))
                    &&& upkeep.clear == before.highlighted
                    &&& upkeep.search == if seed@.len() == 0 {
                        None
                    } else {
                        Some((before.generation + 1) as u64)
                    }
                } else {
                    &&& final(ctx)@ == old(ctx)@.showing(before.replacing())
                    &&& if before.stale(editor) {
                        final(self)@ == before.told().plain() && upkeep.clear
                            == before.highlighted && upkeep.search == Some(before.generation)
                    } else {
                        final(self)@ == before.told() && upkeep.clear is None && upkeep.search
                            is None
                    }
                }
            }),
    {
        if self.text.as_str().unicode_len() == 0 {
            let upkeep = self.find(ctx, seed);
            ctx.set_feedback("search first, then replace");
            return upkeep;
        }
        let stale = self.highlighted != Some(editor) || self.matches == 0;
        let text = self.feedback();
        ctx.show(
            Overlay::Prompt {
                label: "Replace with".to_string(),
                line: LinePrompt::new(),
                target: PromptTarget::Replace,
                feedback: Some(text),
            },
        );
        if stale {
            let clear = self.clear_highlights();
            Upkeep { clear, search: Some(self.generation) }
        } else {
            Upkeep { clear: None, search: None }
        }
    }

    /// Asks for a line.
    pub fn go_to_line(&mut self, ctx: &mut Ctx)
        ensures
            final(self)@ == old(self)@,
            final(ctx)@ == old(ctx)@.showing(
                prompt_layer("Go to line"@, Seq::empty(), Purpose::GoToLine),
            ),
    {
        proof {
            reveal_strlit("");
            assert(""@ =~= Seq::<char>::empty());
        }
        ctx.show(prompt("Go to line", "", PromptTarget::GoToLine));
    }

    /// The text to find changed.
    pub fn query_changed(&mut self, text: &str) -> (upkeep: Upkeep)
        requires
            old(self)@.generation < u64::MAX,
        ensures
            final(self)@ == old(self)@.seeking(text@),
            if text@.len() == 0 {
                upkeep.clear == old(self)@.highlighted && upkeep.search is None
            } else {
                upkeep.clear is None && upkeep.search == Some((old(self)@.generation + 1) as u64)
            },
    {
        proof {
            use_type_invariant(&*self);
        }
        self.text = text.to_string();
        self.matches = 0;
        self.active = None;
        self.generation += 1;
        if text.unicode_len() == 0 {
            let clear = self.clear_highlights();
            return Upkeep { clear, search: None };
        }
        Upkeep { clear: None, search: Some(self.generation) }
    }

    /// Whether the matches of a search are taken.
    pub fn accepts(&self, ctx: &Ctx, generation: u64) -> (result: bool)
        ensures
            result == self@.awaits(generation, ctx@),
    {
        if generation != self.generation {
            return false;
        }
        match ctx.prompt_target() {
            Some(PromptTarget::Find) => true,
            Some(PromptTarget::Replace) => true,
            _ => false,
        }
    }

    /// Takes the matches of a search: how many, and the one at or behind the
    /// caret. The answer tells whether they were taken.
    pub fn update(
        &mut self,
        ctx: &mut Ctx,
        event: BufferSearchEvent,
        active: Option<usize>,
        editor: u64,
    ) -> (taken: bool)
        requires
            active is Some ==> active->0 < usize::MAX,
        ensures
            taken == old(self)@.awaits(event->generation, old(ctx)@),
            if taken {
                let next = old(self)@.matched(event->matches as int, maybe(active), editor);
                final(self)@ == next.told() && final(ctx)@ == old(ctx)@.remarked(
                    Some(next.words()),
                )
            } else {
                final(self)@ == old(self)@ && final(ctx)@ == old(ctx)@
            },
    {
        proof {
            use_type_invariant(&*self);
        }
        let BufferSearchEvent::Matches { generation, matches } = event;
        if !self.accepts(ctx, generation) {
            return false;
        }
        self.matches = matches;
        self.active = if matches == 0 {
            None
        } else {
            active
        };
        self.highlighted = Some(editor);
        self.tell(ctx);
        true
    }

    /// The match to step from, if there is any.
    pub fn current(&self) -> (index: Option<usize>)
        ensures
            index is Some <==> self@.matches > 0,
            index is Some ==> index->0 == match self@.active {
                Some(index) => index,
                None => 0,
            },
    {
        if self.matches == 0 {
            None
        } else {
            match self.active {
                Some(index) => Some(index),
                None => Some(0),
            }
        }
    }

    /// Ends a step to the next match, which the editor has moved to.
    pub fn step(&mut self, ctx: &mut Ctx, next: Option<usize>)
        requires
            next is Some ==> next->0 < usize::MAX,
        ensures
            ({
                let after = if old(self)@.matches > 0 && next is Some {
                    Finder { active: maybe(next), ..old(self)@ }
                } else {
                    old(self)@
                };
                final(self)@ == after.told() && final(ctx)@ == old(ctx)@.remarked(
                    Some(after.words()),
                )
            }),
    {
        proof {
            use_type_invariant(&*self);
        }
        if self.matches > 0 && next.is_some() {
            self.active = next;
        }
        self.tell(ctx);
    }

    /// Replaces the active match. `query` tells whether the text can be
    /// searched for. The answer is the match to replace, and the generation of
    /// the search that is to run then.
    pub fn replace_current(&mut self, ctx: &mut Ctx, query: Result<(), String>) -> (job: Option<
        (usize, u64),
    >)
        requires
            old(self)@.generation < u64::MAX,
        ensures
            ({
                let before = old(self)@;
                if before.active is None || before.active->0 >= before.matches {
                    job is None && final(self)@ == before && final(ctx)@ == old(ctx)@.remarked(
                        Some("no match to replace"@),
                    )
                } else {
                    match query {
                        Ok(_) => job == Some(
                            (before.active->0 as usize, (before.generation + 1) as u64),
                        ) && final(self)@ == before.changed(1) && final(ctx)@ == old(ctx)@,
                        Err(error) => job is None && final(self)@ == before && final(ctx)@
                            == old(ctx)@.remarked(Some("invalid search: "@ + error@)),
                    }
                }
            }),
    {
        proof {
            use_type_invariant(&*self);
        }
        let index = match self.active {
            Some(index) => index,
            None => {
                ctx.set_feedback("no match to replace");
                return None;
            },
        };
        if index >= self.matches {
            ctx.set_feedback("no match to replace");
            return None;
        }
        if let Err(error) = query {
            search_failed(ctx, error.as_str());
            return None;
        }
        self.replaced = Some(1);
        self.generation += 1;
        Some((index, self.generation))
    }

    /// Replaces all matches. The answer is the generation of the search that is
    /// to run then.
    pub fn replace_all(&mut self, ctx: &mut Ctx, query: Result<(), String>) -> (job: Option<u64>)
        requires
            old(self)@.generation < u64::MAX,
        ensures
            ({
                let before = old(self)@;
                if before.matches == 0 {
                    job is None && final(self)@ == before && final(ctx)@ == old(ctx)@.remarked(
                        Some("no matches to replace"@),
                    )
                } else {
                    match query {
                        Ok(_) => job is Some && job->0 == before.generation + 1 && final(self)@
                            == before.changed(before.matches) && final(ctx)@ == old(ctx)@,
                        Err(error) => job is None && final(self)@ == before && final(ctx)@
                            == old(ctx)@.remarked(Some("invalid search: "@ + error@)),
                    }
                }
            }),
    {
        proof {
            use_type_invariant(&*self);
        }
        if self.matches == 0 {
            ctx.set_feedback("no matches to replace");
            return None;
        }
        if let Err(error) = query {
            search_failed(ctx, error.as_str());
            return None;
        }
        self.replaced = Some(self.matches);
        self.generation += 1;
        Some(self.generation)
    }

    /// The prompt was closed: the editor whose highlights go away.
    pub fn cancel(&mut self) -> (clear: Option<u64>)
        requires
            old(self)@.generation < u64::MAX,
        ensures
            clear == old(self)@.highlighted,
            final(self)@ == (Finder {
                generation: (old(self)@.generation + 1) as u64,
                matches: 0,
                active: None,
                highlighted: None,
                ..old(self)@
            }),
    {
        let clear = self.clear_highlights();
        proof {
            use_type_invariant(&*self);
        }
        self.matches = 0;
        self.active = None;
        self.generation += 1;
        clear
    }

    /// A line was asked for: the place to move to.
    pub fn go_to(&mut self, ctx: &mut Ctx, text: &str) -> (point: Option<Point>)
        ensures
            final(self)@ == old(self)@,
            match line_column(text@) {
                Some((row, column)) => point is Some && point->0.row == row && point->0.column
                    == column && final(ctx)@ == old(ctx)@,
                None => point is None && final(ctx)@ == old(ctx)@.remarked(
                    Some("enter a line, or line:column"@),
                ),
            },
    {
        match parse_line_column(text) {
            Some((row, column)) => Some(Point { row, column }),
            None => {
                ctx.set_feedback("enter a line, or line:column");
                None
            },
        }
    }

    /// Ends a move to a line.
    pub fn gone_to(&mut self, ctx: &mut Ctx, row: u32, result: Result<(), String>)
        ensures
            final(self)@ == old(self)@,
            final(ctx)@ == match result {
                Ok(_) => old(ctx)@.popped().said("line "@ + decimal((row + 1) as nat)),
                Err(error) => old(ctx)@.remarked(Some("go to line failed: "@ + error@)),
            },
    {
        match result {
            Ok(_) => {
                ctx.pop();
                let mut text = "line ".to_string();
                push_decimal(&mut text, row as u64 + 1);
                ctx.say(text.as_str());
            },
            Err(error) => {
                let mut text = "go to line failed: ".to_string();
                text.append(error.as_str());
                ctx.set_feedback(text.as_str());
            },
        }
    }
}

/// Says that a text cannot be searched for.
pub fn search_failed(ctx: &mut Ctx, error: &str)
    ensures
        final(ctx)@ == old(ctx)@.remarked(Some("invalid search: "@ + error@)),
{
    let mut text = "invalid search: ".to_string();
    text.append(error);
    ctx.set_feedback(text.as_str());
}

/// The place that `line` or `line:column` stands for. Both are counted from
/// one, and the place from zero.
pub open spec fn line_column(text: Seq<char>) -> Option<(int, int)> {
    let all = trimmed(text);
    let at = first_index(all, ':');
    let line = number_value(
        if at < all.len() {
            trimmed(all.take(at))
        } else {
            all
        },
        u32::MAX as nat,
    );
    let column = if at < all.len() {
        number_value(trimmed(all.skip(at + 1)), u32::MAX as nat)
    } else {
        Some(1nat)
    };
    match (line, column) {
        (Some(line), Some(column)) => if line == 0 || column == 0 {
            None
        } else {
            Some((line - 1, column - 1))
        },
        _ => None,
    }
}

/// The place that `line` or `line:column` stands for, counted from zero.
pub fn parse_line_column(text: &str) -> (place: Option<(u32, u32)>)
    ensures
        match place {
            Some((row, column)) => line_column(text@) == Some((row as int, column as int)),
            None => line_column(text@) is None,
        },
{
    let all = trim(text);
    let chars = chars_of(all.as_str());
    assert(chars@.skip(0) =~= all@);
    let at: usize = find_char(chars.as_slice(), 0, ':');
    let mut line_text = all.clone();
    let mut column: u32 = 1;
    if at < chars.len() {
        let front = string_of(&chars, 0, at);
        assert(front@ =~= all@.take(at as int));
        line_text = trim(front.as_str());
        let back = string_of(&chars, at + 1, chars.len());
        assert(back@ =~= all@.skip(at + 1));
        match parse_number(trim(back.as_str()).as_str(), u32::MAX) {
            Some(number) => {
                column = number;
            },
            None => {
                return None;
            },
        }
    }
    match parse_number(line_text.as_str(), u32::MAX) {
        Some(line) => if line == 0 || column == 0 {
            None
        } else {
            Some((line - 1, column - 1))
        },
        None => None,
    }
}

/// The matches of an earlier text are not taken.
pub proof fn earlier_matches_are_dropped(
    finder: Finder,
    text: Seq<char>,
    generation: u64,
    scene: Scene,
)
    requires
        finder.generation < u64::MAX,
        generation <= finder.generation,
    ensures
        !finder.seeking(text).awaits(generation, scene),
        forall|count: int| !(#[trigger] finder.changed(count)).awaits(generation, scene),
{
}

/// What was replaced is told once.
pub proof fn replacements_are_told_once(finder: Finder, count: int)
    ensures
        finder.changed(count).told().words() == count_words(finder.active, finder.matches),
        finder.changed(count).told().told() == finder.changed(count).told(),
{
}

/// The query for a text, with what replaces it.
pub open spec fn query_of(text: Seq<char>, replacement: Option<Seq<char>>) -> Plan {
    Plan { replacement, ..plain_query(text) }
}

impl BufferSearch {
    /// The generation of the last search.
    pub fn generation(&self) -> (generation: u64)
        ensures
            generation == self@.generation,
    {
        self.generation
    }

    /// The query for what is searched for, with what replaces it.
    pub fn query(&self, replacement: Option<&str>) -> (plan: QueryPlan)
        ensures
            plan@ == query_of(
                self@.text,
                match replacement {
                    Some(text) => Some(text@),
                    None => None,
                },
            ),
    {
        let mut plan = QueryPlan::new(self.text.as_str());
        plan.replacement = match replacement {
            Some(text) => Some(text.to_string()),
            None => None,
        };
        plan
    }
}

} // verus!
