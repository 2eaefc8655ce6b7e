//! What a feature sees and changes: the overlays over the document, the status
//! row, and which document is active.

use vstd::prelude::*;
use vstd::string::*;

use crate::geometry::Point;
use crate::prompt::{Line, LinePrompt};
use crate::text::{optional_text, texts};

verus! {

broadcast use vstd::string::group_string_axioms;

/// A command that the focused panel runs.
#[derive(Clone, Copy, Debug, PartialEq, Eq, Structural)]
pub enum Command {
    PanelSelectNext,
    PanelSelectPrevious,
    PanelExpand,
    PanelCollapse,
    PanelActivate,
    PanelNewFile,
    PanelNewDirectory,
    PanelRename,
    PanelDelete,
    PanelRevealActive,
    PanelToggleIgnored,
    GitToggleStaged,
    GitStageAll,
    GitUnstageAll,
    GitCommit,
}

/// What the app does after a panel ran a command.
#[derive(Debug)]
pub enum PanelOutcome {
    Consumed,
    /// Open the file in the active pane.
    Open(String),
    /// Move the caret, and show the label.
    Jump { point: Point, label: String },
}

/// The plain values of a [`PanelOutcome`].
pub enum Outcome {
    Consumed,
    Open(Seq<char>),
    Jump { point: Point, label: Seq<char> },
}

impl View for PanelOutcome {
    type V = Outcome;

    open spec fn view(&self) -> Outcome {
        match *self {
            PanelOutcome::Consumed => Outcome::Consumed,
            PanelOutcome::Open(path) => Outcome::Open(path@),
            PanelOutcome::Jump { point, label } => Outcome::Jump { point, label: label@ },
        }
    }
}

/// What an entry of a picker stands for.
#[derive(Debug, PartialEq, Eq)]
pub enum PickerPayload {
    Index(usize),
    Path(String),
    Location { path: String, row: u32, column: u32 },
}

/// The plain values of a [`PickerPayload`].
pub enum Target {
    Index(int),
    Path(Seq<char>),
    Location { path: Seq<char>, row: u32, column: u32 },
}

impl View for PickerPayload {
    type V = Target;

    open spec fn view(&self) -> Target {
        match *self {
            PickerPayload::Index(index) => Target::Index(index as int),
            PickerPayload::Path(path) => Target::Path(path@),
            PickerPayload::Location { path, row, column } => Target::Location {
                path: path@,
                row,
                column,
            },
        }
    }
}

/// An entry of a picker.
#[derive(Debug, PartialEq, Eq)]
pub struct PickerEntry {
    pub label: String,
    pub detail: String,
    pub enabled: bool,
    pub payload: PickerPayload,
}

/// The plain values of a [`PickerEntry`].
pub struct Choice {
    pub label: Seq<char>,
    pub detail: Seq<char>,
    pub enabled: bool,
    pub payload: Target,
}

impl View for PickerEntry {
    type V = Choice;

    open spec fn view(&self) -> Choice {
        Choice {
            label: self.label@,
            detail: self.detail@,
            enabled: self.enabled,
            payload: self.payload@,
        }
    }
}

/// The plain values of some entries.
pub open spec fn choices(list: Seq<PickerEntry>) -> Seq<Choice> {
    Seq::new(list.len(), |i: int| list[i]@)
}

/// Adds an entry at the end.
pub fn push_entry(entries: &mut Vec<PickerEntry>, entry: PickerEntry)
    ensures
        choices(final(entries)@) == choices(old(entries)@).push(entry@),
{
    entries.push(entry);
    assert(choices(entries@) =~= choices(old(entries)@).push(entry@));
}

/// The feature that a picker belongs to.
#[derive(Clone, Copy, Debug, PartialEq, Eq, Structural)]
pub enum PickerOwner {
    QuickOpen,
    ProjectSearch,
    Language,
    Theme,
    Tasks,
}

/// What the text of a prompt is for.
#[derive(Debug, PartialEq, Eq)]
pub enum PromptTarget {
    Find,
    Replace,
    GoToLine,
    ProjectSearch,
    Rename,
    PanelNewFile { directory: String },
    PanelNewDirectory { directory: String },
    PanelRename { entry: u64, directory: String },
    GitCommit,
}

/// The plain values of a [`PromptTarget`].
pub enum Purpose {
    Find,
    Replace,
    GoToLine,
    ProjectSearch,
    Rename,
    PanelNewFile { directory: Seq<char> },
    PanelNewDirectory { directory: Seq<char> },
    PanelRename { entry: u64, directory: Seq<char> },
    GitCommit,
}

impl View for PromptTarget {
    type V = Purpose;

    open spec fn view(&self) -> Purpose {
        match *self {
            PromptTarget::Find => Purpose::Find,
            PromptTarget::Replace => Purpose::Replace,
            PromptTarget::GoToLine => Purpose::GoToLine,
            PromptTarget::ProjectSearch => Purpose::ProjectSearch,
            PromptTarget::Rename => Purpose::Rename,
            PromptTarget::PanelNewFile { directory } => Purpose::PanelNewFile {
                directory: directory@,
            },
            PromptTarget::PanelNewDirectory { directory } => Purpose::PanelNewDirectory {
                directory: directory@,
            },
            PromptTarget::PanelRename { entry, directory } => Purpose::PanelRename {
                entry,
                directory: directory@,
            },
            PromptTarget::GitCommit => Purpose::GitCommit,
        }
    }
}

/// The entries of a picker, and the text that they are matched with.
#[derive(Debug, PartialEq, Eq)]
pub struct PickerList {
    pub entries: Vec<PickerEntry>,
    pub pattern: String,
}

impl PickerList {
    /// The entries, all of them shown.
    pub fn new(entries: Vec<PickerEntry>) -> (list: Self)
        ensures
            list.entries == entries,
            list.pattern@ == Seq::<char>::empty(),
    {
        let pattern = String::new();
        assert(pattern@ =~= Seq::<char>::empty());
        PickerList { entries, pattern }
    }
}

/// Something shown over the document.
#[derive(Debug, PartialEq, Eq)]
pub enum Overlay {
    Prompt { label: String, line: LinePrompt, target: PromptTarget, feedback: Option<String> },
    Picker { title: String, query: LinePrompt, list: PickerList, owner: PickerOwner },
    Text { title: String, rows: Vec<String>, first: usize },
    Confirm { message: String, command: Command },
}

/// The plain values of an [`Overlay`].
pub enum Layer {
    Prompt { label: Seq<char>, line: Line, target: Purpose, feedback: Option<Seq<char>> },
    Picker {
        title: Seq<char>,
        query: Line,
        entries: Seq<Choice>,
        pattern: Seq<char>,
        owner: PickerOwner,
    },
    Text { title: Seq<char>, rows: Seq<Seq<char>>, first: int },
    Confirm { message: Seq<char>, command: Command },
}

impl View for Overlay {
    type V = Layer;

    open spec fn view(&self) -> Layer {
        match *self {
            Overlay::Prompt { label, line, target, feedback } => Layer::Prompt {
                label: label@,
                line: line@,
                target: target@,
                feedback: optional_text(feedback),
            },
            Overlay::Picker { title, query, list, owner } => Layer::Picker {
                title: title@,
                query: query@,
                entries: choices(list.entries@),
                pattern: list.pattern@,
                owner,
            },
            Overlay::Text { title, rows, first } => Layer::Text {
                title: title@,
                rows: texts(rows@),
                first: first as int,
            },
            Overlay::Confirm { message, command } => Layer::Confirm { message: message@, command },
        }
    }
}

/// The plain values of some overlays.
pub open spec fn layer_list(list: Seq<Overlay>) -> Seq<Layer> {
    Seq::new(list.len(), |i: int| list[i]@)
}

/// A line with the cursor at its end.
pub open spec fn line_of(text: Seq<char>) -> Line {
    Line { text, position: text.len() as int }
}

/// A prompt for a text.
pub open spec fn prompt_layer(label: Seq<char>, text: Seq<char>, target: Purpose) -> Layer {
    Layer::Prompt { label, line: line_of(text), target, feedback: None }
}

/// A picker whose query is a text.
pub open spec fn picker_layer(
    title: Seq<char>,
    text: Seq<char>,
    entries: Seq<Choice>,
    owner: PickerOwner,
) -> Layer {
    Layer::Picker { title, query: line_of(text), entries, pattern: text, owner }
}

/// A prompt for a text.
pub fn prompt(label: &str, text: &str, target: PromptTarget) -> (overlay: Overlay)
    ensures
        overlay@ == prompt_layer(label@, text@, target@),
{
    Overlay::Prompt {
        label: label.to_string(),
        line: LinePrompt::with_text(text),
        target,
        feedback: None,
    }
}

/// A picker whose query is a text.
pub fn picker(title: &str, text: &str, entries: Vec<PickerEntry>, owner: PickerOwner) -> (overlay:
    Overlay)
    ensures
        overlay@ == picker_layer(title@, text@, choices(entries@), owner),
{
    let mut list = PickerList::new(entries);
    list.pattern = text.to_string();
    Overlay::Picker { title: title.to_string(), query: LinePrompt::with_text(text), list, owner }
}

/// What a feature sees and changes.
#[derive(Debug)]
pub struct Ctx {
    /// The directory that the project is rooted in.
    pub root: Option<String>,
    /// The document of the active tab.
    pub active_item: u64,
    /// What is shown over the document, the topmost last.
    pub overlays: Vec<Overlay>,
    /// What the status row says.
    pub status: Option<String>,
}

/// The plain values of a [`Ctx`].
pub struct Scene {
    pub root: Option<Seq<char>>,
    pub item: u64,
    pub layers: Seq<Layer>,
    pub status: Option<Seq<char>>,
}

impl View for Ctx {
    type V = Scene;

    open spec fn view(&self) -> Scene {
        Scene {
            root: optional_text(self.root),
            item: self.active_item,
            layers: layer_list(self.overlays@),
            status: optional_text(self.status),
        }
    }
}

impl Scene {
    /// With something said in the status row.
    pub open spec fn said(self, text: Seq<char>) -> Scene {
        Scene { status: Some(text), ..self }
    }

    /// With nothing over the document.
    pub open spec fn cleared(self) -> Scene {
        Scene { layers: Seq::empty(), ..self }
    }

    /// With something more over the document.
    pub open spec fn pushed(self, layer: Layer) -> Scene {
        Scene { layers: self.layers.push(layer), ..self }
    }

    /// With one layer in place of all that was over the document.
    pub open spec fn showing(self, layer: Layer) -> Scene {
        self.cleared().pushed(layer)
    }

    /// Without the topmost layer.
    pub open spec fn popped(self) -> Scene {
        if self.layers.len() == 0 {
            self
        } else {
            Scene { layers: self.layers.drop_last(), ..self }
        }
    }

    /// The topmost layer.
    pub open spec fn top(self) -> Option<Layer> {
        if self.layers.len() == 0 {
            None
        } else {
            Some(self.layers.last())
        }
    }

    /// With a remark behind the text of the topmost prompt.
    pub open spec fn remarked(self, remark: Option<Seq<char>>) -> Scene {
        match self.top() {
            Some(Layer::Prompt { label, line, target, feedback }) => self.popped().pushed(
                Layer::Prompt { label, line, target, feedback: remark },
            ),
            _ => self,
        }
    }

    /// Whether the topmost layer is a picker of a feature.
    pub open spec fn shows_picker(self, feature: PickerOwner) -> bool {
        match self.top() {
            Some(Layer::Picker { owner, .. }) => owner == feature,
            _ => false,
        }
    }

    /// With other entries in the topmost picker.
    pub open spec fn listing(self, list: Seq<Choice>) -> Scene {
        match self.top() {
            Some(Layer::Picker { title, query, entries, pattern, owner }) => self.popped().pushed(
                Layer::Picker { title, query, entries: list, pattern, owner },
            ),
            _ => self,
        }
    }

    /// What the prompt over all the rest is for.
    pub open spec fn prompts_for(self) -> Option<Purpose> {
        match self.top() {
            Some(Layer::Prompt { target, .. }) => Some(target),
            _ => None,
        }
    }
}

impl Ctx {
    /// Says something in the status row.
    pub fn say(&mut self, text: &str)
        ensures
            final(self)@ == old(self)@.said(text@),
    {
        self.status = Some(text.to_string());
    }

    /// Removes all that is over the document.
    pub fn clear(&mut self)
        ensures
            final(self)@ == old(self)@.cleared(),
    {
        self.overlays = Vec::new();
        assert(layer_list(self.overlays@) =~= Seq::<Layer>::empty());
    }

    /// Shows something more over the document.
    pub fn push(&mut self, overlay: Overlay)
        ensures
            final(self)@ == old(self)@.pushed(overlay@),
    {
        self.overlays.push(overlay);
        assert(layer_list(self.overlays@) =~= layer_list(old(self).overlays@).push(overlay@));
    }

    /// Shows one thing in place of all that was over the document.
    pub fn show(&mut self, overlay: Overlay)
        ensures
            final(self)@ == old(self)@.showing(overlay@),
    {
        self.clear();
        self.push(overlay);
    }

    /// Removes the topmost of what is over the document.
    pub fn pop(&mut self)
        ensures
            final(self)@ == old(self)@.popped(),
    {
        if self.overlays.len() > 0 {
            let _ = self.overlays.pop();
            assert(layer_list(self.overlays@) =~= layer_list(old(self).overlays@).drop_last());
        }
    }

    /// Shows a remark behind the text of the topmost prompt, or none.
    pub fn remark(&mut self, remark: Option<String>)
        ensures
            final(self)@ == old(self)@.remarked(optional_text(remark)),
    {
        if self.overlays.len() == 0 {
            return;
        }
        let ghost before = layer_list(self.overlays@);
        assert(before.last() == self.overlays@.last()@);
        match self.overlays.pop() {
            Some(overlay) => {
                assert(layer_list(self.overlays@) =~= before.drop_last());
                match overlay {
                    Overlay::Prompt { label, line, target, feedback } => {
                        self.push(Overlay::Prompt { label, line, target, feedback: remark });
                    },
                    overlay => {
                        self.push(overlay);
                        assert(self@.layers =~= before);
                    },
                }
            },
            None => {},
        }
    }

    /// Shows a remark behind the text of the topmost prompt.
    pub fn set_feedback(&mut self, remark: &str)
        ensures
            final(self)@ == old(self)@.remarked(Some(remark@)),
    {
        self.remark(Some(remark.to_string()));
    }

    /// Whether the topmost layer is a picker of a feature.
    pub fn has_picker(&self, feature: PickerOwner) -> (result: bool)
        ensures
            result == self@.shows_picker(feature),
    {
        if self.overlays.len() == 0 {
            return false;
        }
        assert(self@.layers.last() == self.overlays@.last()@);
        match &self.overlays[self.overlays.len() - 1] {
            Overlay::Picker { owner, .. } => *owner == feature,
            _ => false,
        }
    }

    /// Whether the topmost layer is a prompt.
    pub fn has_prompt(&self) -> (result: bool)
        ensures
            result == (self@.prompts_for() is Some),
    {
        self.prompt_target().is_some()
    }

    /// What the topmost prompt is for.
    pub fn prompt_target(&self) -> (target: Option<&PromptTarget>)
        ensures
            match target {
                Some(target) => self@.prompts_for() == Some(target@),
                None => self@.prompts_for() is None,
            },
    {
        if self.overlays.len() == 0 {
            return None;
        }
        assert(self@.layers.last() == self.overlays@.last()@);
        match &self.overlays[self.overlays.len() - 1] {
            Overlay::Prompt { target, .. } => Some(target),
            _ => None,
        }
    }

    /// Lists other entries in the topmost picker.
    pub fn list(&mut self, entries: Vec<PickerEntry>)
        ensures
            final(self)@ == old(self)@.listing(choices(entries@)),
    {
        if self.overlays.len() == 0 {
            return;
        }
        let ghost before = layer_list(self.overlays@);
        assert(before.last() == self.overlays@.last()@);
        match self.overlays.pop() {
            Some(overlay) => {
                assert(layer_list(self.overlays@) =~= before.drop_last());
                match overlay {
                    Overlay::Picker { title, query, list, owner } => {
                        self.push(
                            Overlay::Picker {
                                title,
                                query,
                                list: PickerList { entries, pattern: list.pattern },
                                owner,
                            },
                        );
                    },
                    overlay => {
                        self.push(overlay);
                        assert(self@.layers =~= before);
                    },
                }
            },
            None => {},
        }
    }
}

} // verus!
