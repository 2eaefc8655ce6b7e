//! Quick open: a picker over the files of the project. Every query is matched
//! anew; the matches of an earlier query are dropped.

use vstd::prelude::*;
use vstd::string::*;

use crate::features::context::{
    choices, picker, picker_layer, push_entry, Choice, Ctx, PickerEntry, PickerOwner,
    PickerPayload, Scene, Target,
};
use crate::features::language::first_rows;
use crate::paths::{join, joined};
use crate::text::trim;

verus! {

broadcast use vstd::string::group_string_axioms;

pub const MAX_RESULTS: usize = 100;

/// The matches of the query of a generation.
#[derive(Debug)]
pub enum QuickOpenEvent {
    Matches { generation: u64, entries: Vec<PickerEntry> },
}

/// The queries for files.
#[derive(Debug)]
pub struct QuickOpen {
    generation: u64,
}

impl View for QuickOpen {
    type V = u64;

    /// The generation of the last query.
    closed spec fn view(&self) -> u64 {
        self.generation
    }
}

impl Default for QuickOpen {
    fn default() -> (quick_open: Self)
        ensures
            quick_open@ == 0,
    {
        QuickOpen { generation: 0 }
    }
}

/// What the matches of a query show.
pub open spec fn matched(generation: u64, event: QuickOpenEvent, scene: Scene) -> Scene {
    match event {
        QuickOpenEvent::Matches { generation: tag, entries } => if tag == generation
            && scene.shows_picker(PickerOwner::QuickOpen) {
            scene.listing(choices(entries@))
        } else {
            scene
        },
    }
}

impl QuickOpen {
    /// The generation of the last query.
    pub fn generation(&self) -> (generation: u64)
        ensures
            generation == self@,
    {
        self.generation
    }

    /// Shows the picker. The answer is the generation of the empty query, which
    /// is to be matched first.
    pub fn open(&mut self, ctx: &mut Ctx) -> (generation: Option<u64>)
        requires
            old(self)@ < u64::MAX,
        ensures
            if old(ctx)@.root is None {
                generation is None && final(self)@ == old(self)@ && final(ctx)@ == old(ctx)@.said(
                    "quick open needs a directory root"@,
                )
            } else {
                generation == Some((old(self)@ + 1) as u64) && final(self)@ == old(self)@ + 1
                    && final(ctx)@ == old(ctx)@.showing(
                    picker_layer(
                        "Quick open"@,
                        Seq::empty(),
                        Seq::empty(),
                        PickerOwner::QuickOpen,
                    ),
                )
            },
    {
        if ctx.root.is_none() {
            ctx.say("quick open needs a directory root");
            return None;
        }
        let entries: Vec<PickerEntry> = Vec::new();
        proof {
            reveal_strlit("");
            assert(""@ =~= Seq::<char>::empty());
            assert(choices(entries@) =~= Seq::<Choice>::empty());
        }
        ctx.show(picker("Quick open", "", entries, PickerOwner::QuickOpen));
        Some(self.query_changed())
    }

    /// The query changed: the generation that its matches are tagged with.
    pub fn query_changed(&mut self) -> (generation: u64)
        requires
            old(self)@ < u64::MAX,
        ensures
            generation == old(self)@ + 1,
            final(self)@ == generation,
    {
        self.generation += 1;
        self.generation
    }

    /// Takes the matches of a query.
    pub fn update(&mut self, ctx: &mut Ctx, event: QuickOpenEvent)
        ensures
            final(self)@ == old(self)@,
            final(ctx)@ == matched(old(self)@, event, old(ctx)@),
    {
        let QuickOpenEvent::Matches { generation, entries } = event;
        if generation != self.generation {
            return;
        }
        if ctx.has_picker(PickerOwner::QuickOpen) {
            ctx.list(entries);
        }
    }
}

/// A file of the project: the root of its worktree, and its path from there.
#[derive(Debug)]
pub struct Candidate {
    pub root: String,
    pub relative: String,
}

/// The entry for a file.
pub open spec fn file_choice(candidate: Candidate) -> Choice {
    Choice {
        label: candidate.relative@,
        detail: Seq::empty(),
        enabled: true,
        payload: Target::Path(joined(candidate.root@, candidate.relative@)),
    }
}

/// The entries for the first of some files.
pub open spec fn file_choices(list: Seq<Candidate>) -> Seq<Choice> {
    first_rows(Seq::new(list.len(), |i: int| file_choice(list[i])), MAX_RESULTS as int)
}

/// The entries for the first of some files: all files where nothing is asked
/// for, or those that match a query, the best first.
pub fn file_entries(list: &Vec<Candidate>) -> (entries: Vec<PickerEntry>)
    ensures
        choices(entries@) == file_choices(list@),
{
    let mut entries: Vec<PickerEntry> = Vec::new();
    let mut i: usize = 0;
    while i < list.len() && i < MAX_RESULTS
        invariant
            i <= list@.len(),
            i <= MAX_RESULTS,
            choices(entries@) =~= file_choices(list@).take(i as int),
        decreases list@.len() - i,
    {
        let detail = String::new();
        assert(detail@ =~= Seq::<char>::empty());
        push_entry(
            &mut entries,
            PickerEntry {
                label: list[i].relative.clone(),
                detail,
                enabled: true,
                payload: PickerPayload::Path(
                    join(list[i].root.as_str(), list[i].relative.as_str()),
                ),
            },
        );
        i += 1;
    }
    assert(file_choices(list@).take(i as int) =~= file_choices(list@));
    entries
}

/// Whether a query asks for all files.
pub fn is_blank(query: &str) -> (result: bool)
    ensures
        result == (crate::text::trimmed(query@).len() == 0),
{
    trim(query).as_str().unicode_len() == 0
}

/// The matches of an earlier query change nothing.
pub proof fn earlier_matches_are_dropped(generation: u64, event: QuickOpenEvent, scene: Scene)
    requires
        generation < u64::MAX,
        event->generation <= generation,
    ensures
        matched((generation + 1) as u64, event, scene) == scene,
{
}

/// The picker never lists more files than its bound.
pub proof fn results_are_bounded(list: Seq<Candidate>)
    ensures
        file_choices(list).len() <= MAX_RESULTS,
        list.len() <= MAX_RESULTS ==> file_choices(list).len() == list.len(),
{
}

} // verus!
