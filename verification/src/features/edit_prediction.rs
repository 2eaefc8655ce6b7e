//! Edit prediction: which provider an editor gets, by the settings, and one
//! that always predicts the same text.

use vstd::prelude::*;
use vstd::string::*;

use crate::text::{
    chars_of, find_char, first_index, holds, holds_text, lemma_first_index, optional_text,
    same_text, string_of,
};

verus! {

broadcast use vstd::string::group_string_axioms;

#[derive(Clone, Copy, Debug, PartialEq, Eq, Structural)]
pub enum ZetaVersion {
    Zeta2,
    Zeta2Point1,
}

/// How a model is asked for a prediction.
#[derive(Clone, Copy, Debug, PartialEq, Eq, Structural)]
pub enum PromptFormat {
    /// By the name of the model.
    Infer,
    Zeta(ZetaVersion),
    Sweep,
    CodeLlama,
    StarCoder,
    DeepseekCoder,
    Qwen,
    CodeGemma,
    Codestral,
    Glm,
}

/// A text with its ASCII letters in lower case.
pub open spec fn ascii_lower(s: Seq<char>) -> Seq<char> {
    Seq::new(s.len(), |i: int| ascii_lower_char(s[i]))
}

pub open spec fn ascii_lower_char(c: char) -> char {
    if 'A' <= c <= 'Z' {
        (c as u8 + 32) as char
    } else {
        c
    }
}

fn to_ascii_lower(s: &str) -> (result: String)
    ensures
        result@ == ascii_lower(s@),
{
    let chars = chars_of(s);
    let mut result = String::new();
    let mut i: usize = 0;
    assert(result@ =~= ascii_lower(s@).take(0));
    while i < chars.len()
        invariant
            i <= chars@.len(),
            chars@ == s@,
            result@ == ascii_lower(s@).take(i as int),
        decreases chars@.len() - i,
    {
        let c = chars[i];
        let lower = if 'A' <= c && c <= 'Z' {
            (c as u8 + 32) as char
        } else {
            c
        };
        result.push(lower);
        assert(ascii_lower(s@).take(i + 1) =~= ascii_lower(s@).take(i as int).push(lower));
        i += 1;
    }
    assert(ascii_lower(s@).take(i as int) =~= ascii_lower(s@));
    result
}

/// The name of a model without its tag.
pub open spec fn base_name(model: Seq<char>) -> Seq<char> {
    model.take(first_index(model, ':'))
}

/// The format that the name of a model implies.
pub open spec fn implied_format(model: Seq<char>) -> Option<PromptFormat> {
    let base = base_name(model);
    if base == "zeta2"@ {
        Some(PromptFormat::Zeta(ZetaVersion::Zeta2))
    } else if base == "zeta2.1"@ {
        Some(PromptFormat::Zeta(ZetaVersion::Zeta2Point1))
    } else if holds(ascii_lower(base), "sweep-next-edit"@) {
        Some(PromptFormat::Sweep)
    } else if base == "codellama"@ || base == "code-llama"@ {
        Some(PromptFormat::CodeLlama)
    } else if base == "starcoder"@ || base == "starcoder2"@ || base == "starcoderbase"@ {
        Some(PromptFormat::StarCoder)
    } else if base == "deepseek-coder"@ || base == "deepseek-coder-v2"@ {
        Some(PromptFormat::DeepseekCoder)
    } else if base == "qwen2.5-coder"@ || base == "qwen-coder"@ || base == "qwen"@ {
        Some(PromptFormat::Qwen)
    } else if base == "codegemma"@ {
        Some(PromptFormat::CodeGemma)
    } else if base == "codestral"@ || base == "mistral"@ {
        Some(PromptFormat::Codestral)
    } else if base == "glm"@ || base == "glm-4"@ || base == "glm-4.5"@ {
        Some(PromptFormat::Glm)
    } else {
        None
    }
}

/// The format that the name of a model implies.
pub fn infer_prompt_format(model: &str) -> (format: Option<PromptFormat>)
    ensures
        format == implied_format(model@),
{
    let chars = chars_of(model);
    assert(chars@.skip(0) =~= model@);
    let end: usize = find_char(chars.as_slice(), 0, ':');
    let name = string_of(&chars, 0, end);
    assert(name@ =~= base_name(model@));
    let base = name.as_str();
    if same_text(base, "zeta2") {
        Some(PromptFormat::Zeta(ZetaVersion::Zeta2))
    } else if same_text(base, "zeta2.1") {
        Some(PromptFormat::Zeta(ZetaVersion::Zeta2Point1))
    } else if holds_text(to_ascii_lower(base).as_str(), "sweep-next-edit") {
        Some(PromptFormat::Sweep)
    } else if same_text(base, "codellama") || same_text(base, "code-llama") {
        Some(PromptFormat::CodeLlama)
    } else if same_text(base, "starcoder") || same_text(base, "starcoder2") || same_text(
        base,
        "starcoderbase",
    ) {
        Some(PromptFormat::StarCoder)
    } else if same_text(base, "deepseek-coder") || same_text(base, "deepseek-coder-v2") {
        Some(PromptFormat::DeepseekCoder)
    } else if same_text(base, "qwen2.5-coder") || same_text(base, "qwen-coder") || same_text(
        base,
        "qwen",
    ) {
        Some(PromptFormat::Qwen)
    } else if same_text(base, "codegemma") {
        Some(PromptFormat::CodeGemma)
    } else if same_text(base, "codestral") || same_text(base, "mistral") {
        Some(PromptFormat::Codestral)
    } else if same_text(base, "glm") || same_text(base, "glm-4") || same_text(base, "glm-4.5") {
        Some(PromptFormat::Glm)
    } else {
        None
    }
}

/// Which provider the settings ask for.
#[derive(Clone, Copy, Debug, PartialEq, Eq, Structural)]
pub enum ProviderSetting {
    Nothing,
    Copilot,
    Zed,
    Codestral,
    Ollama,
    OpenAiCompatibleApi,
    Mercury,
}

/// A model of one's own in the settings.
#[derive(Debug)]
pub struct CustomModel {
    pub model: String,
    pub prompt_format: PromptFormat,
}

/// What the settings say of edit prediction.
#[derive(Debug)]
pub struct PredictionSettings {
    pub provider: ProviderSetting,
    pub ollama: Option<CustomModel>,
    pub open_ai_compatible_api: Option<CustomModel>,
}

/// A model behind the editor's own provider.
#[derive(Clone, Copy, Debug, PartialEq, Eq, Structural)]
pub enum PredictionModel {
    Zeta,
    Mercury,
    SweepPrompt,
    FillInTheMiddle(PromptFormat),
}

/// A provider of predictions.
#[derive(Debug, PartialEq, Eq)]
pub enum Provider {
    Fixture(String),
    Copilot,
    Zed(PredictionModel),
}

/// The plain values of a [`Provider`].
pub enum Source {
    Fixture(Seq<char>),
    Copilot,
    Zed(PredictionModel),
}

impl View for Provider {
    type V = Source;

    open spec fn view(&self) -> Source {
        match *self {
            Provider::Fixture(text) => Source::Fixture(text@),
            Provider::Copilot => Source::Copilot,
            Provider::Zed(model) => Source::Zed(model),
        }
    }
}

/// The plain values of a provider that may be there.
pub open spec fn source(provider: Option<Provider>) -> Option<Source> {
    match provider {
        Some(provider) => Some(provider@),
        None => None,
    }
}

/// The model for a format.
pub open spec fn format_model(format: PromptFormat) -> PredictionModel {
    match format {
        PromptFormat::Zeta(_) => PredictionModel::Zeta,
        PromptFormat::Sweep => PredictionModel::SweepPrompt,
        format => PredictionModel::FillInTheMiddle(format),
    }
}

/// The provider for a model of one's own.
pub open spec fn custom_source(custom: Option<CustomModel>) -> Option<Source> {
    match custom {
        Some(custom) => {
            let format = if custom.prompt_format == PromptFormat::Infer {
                implied_format(custom.model@)
            } else {
                Some(custom.prompt_format)
            };
            match format {
                Some(format) => Some(Source::Zed(format_model(format))),
                None => None,
            }
        },
        None => None,
    }
}

/// The provider for the settings; a text for a fixture comes before them.
pub open spec fn chosen(fixture: Option<Seq<char>>, settings: PredictionSettings) -> Option<Source> {
    if fixture is Some && fixture->0.len() > 0 {
        Some(Source::Fixture(fixture->0))
    } else {
        match settings.provider {
            ProviderSetting::Nothing | ProviderSetting::Codestral => None,
            ProviderSetting::Copilot => Some(Source::Copilot),
            ProviderSetting::Zed => Some(Source::Zed(PredictionModel::Zeta)),
            ProviderSetting::Mercury => Some(Source::Zed(PredictionModel::Mercury)),
            ProviderSetting::Ollama => custom_source(settings.ollama),
            ProviderSetting::OpenAiCompatibleApi => custom_source(settings.open_ai_compatible_api),
        }
    }
}

fn custom_provider(custom: &Option<CustomModel>) -> (provider: Option<Provider>)
    ensures
        source(provider) == custom_source(*custom),
{
    let custom = match custom {
        Some(custom) => custom,
        None => {
            return None;
        },
    };
    let format = if custom.prompt_format == PromptFormat::Infer {
        match infer_prompt_format(custom.model.as_str()) {
            Some(format) => format,
            None => {
                return None;
            },
        }
    } else {
        custom.prompt_format
    };
    Some(
        Provider::Zed(
            match format {
                PromptFormat::Zeta(_) => PredictionModel::Zeta,
                PromptFormat::Sweep => PredictionModel::SweepPrompt,
                format => PredictionModel::FillInTheMiddle(format),
            },
        ),
    )
}

/// The provider for the settings; a text for a fixture comes before them.
pub fn provider_for_settings(fixture: Option<String>, settings: &PredictionSettings) -> (provider:
    Option<Provider>)
    ensures
        source(provider) == chosen(optional_text(fixture), *settings),
{
    if let Some(text) = fixture {
        if text.as_str().unicode_len() > 0 {
            return Some(Provider::Fixture(text));
        }
    }
    match settings.provider {
        ProviderSetting::Nothing | ProviderSetting::Codestral => None,
        ProviderSetting::Copilot => Some(Provider::Copilot),
        ProviderSetting::Zed => Some(Provider::Zed(PredictionModel::Zeta)),
        ProviderSetting::Mercury => Some(Provider::Zed(PredictionModel::Mercury)),
        ProviderSetting::Ollama => custom_provider(&settings.ollama),
        ProviderSetting::OpenAiCompatibleApi => custom_provider(&settings.open_ai_compatible_api),
    }
}

/// Whether two choices of a provider are the same.
pub fn same_provider(a: &Option<Provider>, b: &Option<Provider>) -> (same: bool)
    ensures
        same == (source(*a) == source(*b)),
{
    match (a, b) {
        (None, None) => true,
        (Some(Provider::Copilot), Some(Provider::Copilot)) => true,
        (Some(Provider::Fixture(a)), Some(Provider::Fixture(b))) => same_text(
            a.as_str(),
            b.as_str(),
        ),
        (Some(Provider::Zed(a)), Some(Provider::Zed(b))) => *a == *b,
        _ => false,
    }
}

/// What an editor gets.
#[derive(Debug, PartialEq, Eq)]
pub enum Assignment {
    /// No provider.
    Clear,
    /// The fixture, with predictions shown.
    Fixture(String),
    Copilot,
    Zed(PredictionModel),
}

/// The plain values of an [`Assignment`].
pub open spec fn assigned(
    provider: Option<Source>,
    has_project: bool,
    copilot_started: bool,
    disabled_by_organization: bool,
) -> Option<Source> {
    match provider {
        None => None,
        Some(Source::Fixture(text)) => Some(Source::Fixture(text)),
        Some(Source::Copilot) => if has_project && copilot_started {
            Some(Source::Copilot)
        } else {
            None
        },
        Some(Source::Zed(model)) => if has_project && !disabled_by_organization {
            Some(Source::Zed(model))
        } else {
            None
        },
    }
}

impl Assignment {
    pub open spec fn source(self) -> Option<Source> {
        match self {
            Assignment::Clear => None,
            Assignment::Fixture(text) => Some(Source::Fixture(text@)),
            Assignment::Copilot => Some(Source::Copilot),
            Assignment::Zed(model) => Some(Source::Zed(model)),
        }
    }
}

/// What an editor gets for a provider: none where the provider cannot work
/// for it.
pub fn assign(
    provider: Option<Provider>,
    has_project: bool,
    copilot_started: bool,
    disabled_by_organization: bool,
) -> (assignment: Assignment)
    ensures
        assignment.source() == assigned(
            source(provider),
            has_project,
            copilot_started,
            disabled_by_organization,
        ),
{
    match provider {
        None => Assignment::Clear,
        Some(Provider::Fixture(text)) => Assignment::Fixture(text),
        Some(Provider::Copilot) => if has_project && copilot_started {
            Assignment::Copilot
        } else {
            Assignment::Clear
        },
        Some(Provider::Zed(model)) => if has_project && !disabled_by_organization {
            Assignment::Zed(model)
        } else {
            Assignment::Clear
        },
    }
}

/// Which provider the settings asked for last, and the editors that follow
/// them.
pub struct Following {
    pub provider: Option<Source>,
    pub editors: Set<u64>,
}

/// The editors that get a provider. Only editors of whole documents, shown in
/// a window, are among them.
#[derive(Debug)]
pub struct Registry {
    previous: Option<Provider>,
    editors: Vec<u64>,
}

impl View for Registry {
    type V = Following;

    closed spec fn view(&self) -> Following {
        Following { provider: source(self.previous), editors: self.editors@.to_set() }
    }
}

impl Registry {
    #[verifier::type_invariant]
    spec fn distinct(self) -> bool {
        self.editors@.no_duplicates()
    }

    /// No editor yet.
    pub fn init(provider: Option<Provider>) -> (registry: Self)
        ensures
            registry@ == (Following { provider: source(provider), editors: Set::empty() }),
    {
        let registry = Registry { previous: provider, editors: Vec::new() };
        assert(registry.editors@.to_set() =~= Set::empty());
        registry
    }

    fn place(&self, editor: u64) -> (place: Option<usize>)
        ensures
            match place {
                Some(place) => place < self.editors@.len() && self.editors@[place as int] == editor,
                None => !self.editors@.contains(editor),
            },
    {
        let mut i: usize = 0;
        while i < self.editors.len()
            invariant
                i <= self.editors@.len(),
                forall|k: int| 0 <= k < i ==> (#[trigger] self.editors@[k]) != editor,
            decreases self.editors@.len() - i,
        {
            if self.editors[i] == editor {
                return Some(i);
            }
            i += 1;
        }
        None
    }

    /// An editor was made. The answer tells whether it gets a provider.
    pub fn created(&mut self, editor: u64, has_window: bool, whole: bool) -> (follows: bool)
        ensures
            follows == (has_window && whole),
            final(self)@ == (if follows {
                Following { editors: old(self)@.editors.insert(editor), ..old(self)@ }
            } else {
                old(self)@
            }),
    {
        proof {
            use_type_invariant(&*self);
        }
        if !has_window || !whole {
            return false;
        }
        let ghost before = self.editors@;
        if self.place(editor).is_none() {
            let mut editors: Vec<u64> = Vec::new();
            std::mem::swap(&mut editors, &mut self.editors);
            editors.push(editor);
            self.editors = editors;
            proof {
                assert(self.editors@.to_set() =~= before.to_set().insert(editor)) by {
                    assert forall|e: u64| before.to_set().insert(editor).contains(e) implies #[trigger] self.editors@.to_set().contains(
                        e,
                    ) by {
                        if e == editor {
                            assert(self.editors@[before.len() as int] == e);
                        } else {
                            let k = choose|k: int| 0 <= k < before.len() && before[k] == e;
                            assert(self.editors@[k] == e);
                        }
                    }
                }
            }
        } else {
            assert(before.to_set().insert(editor) =~= before.to_set());
        }
        true
    }

    /// An editor is gone.
    pub fn released(&mut self, editor: u64)
        ensures
            final(self)@ == (Following {
                editors: old(self)@.editors.remove(editor),
                ..old(self)@
            }),
    {
        proof {
            use_type_invariant(&*self);
        }
        let ghost before = self.editors@;
        match self.place(editor) {
            Some(place) => {
                let mut editors: Vec<u64> = Vec::new();
                std::mem::swap(&mut editors, &mut self.editors);
                editors.remove(place);
                self.editors = editors;
                proof {
                    let after = self.editors@;
                    assert(after == before.remove(place as int));
                    assert(after.to_set() =~= before.to_set().remove(editor)) by {
                        assert forall|e: u64| before.to_set().remove(editor).contains(e) implies #[trigger] after.to_set().contains(
                            e,
                        ) by {
                            let k = choose|k: int| 0 <= k < before.len() && before[k] == e;
                            if k < place {
                                assert(after[k] == e);
                            } else {
                                assert(after[k - 1] == e);
                            }
                        }
                        assert forall|e: u64| #[trigger] after.to_set().contains(e) implies before.to_set().remove(
                            editor,
                        ).contains(e) by {
                            let k = choose|k: int| 0 <= k < after.len() && after[k] == e;
                            if k < place {
                                assert(before[k] == e);
                            } else {
                                assert(before[k + 1] == e);
                            }
                        }
                    }
                }
            },
            None => {
                assert(before.to_set().remove(editor) =~= before.to_set());
            },
        }
    }

    /// The settings changed, and now ask for a provider. The answer is the
    /// editors that get another one: all that follow, each once, where it is
    /// another than before.
    pub fn settings_changed(&mut self, current: &Option<Provider>) -> (reassigned: Vec<u64>)
        ensures
            final(self)@ == (Following { provider: source(*current), ..old(self)@ }),
            reassigned@.no_duplicates(),
            reassigned@.to_set() == if source(*current) == old(self)@.provider {
                Set::empty()
            } else {
                old(self)@.editors
            },
    {
        proof {
            use_type_invariant(&*self);
        }
        let mut reassigned: Vec<u64> = Vec::new();
        if same_provider(current, &self.previous) {
            assert(reassigned@.to_set() =~= Set::empty());
            return reassigned;
        }
        self.previous = copy_provider(current);
        let mut i: usize = 0;
        while i < self.editors.len()
            invariant
                i <= self.editors@.len(),
                reassigned@ == self.editors@.take(i as int),
            decreases self.editors@.len() - i,
        {
            reassigned.push(self.editors[i]);
            assert(reassigned@ =~= self.editors@.take(i + 1));
            i += 1;
        }
        assert(reassigned@ =~= self.editors@);
        reassigned
    }
}

fn copy_provider(provider: &Option<Provider>) -> (copy: Option<Provider>)
    ensures
        source(copy) == source(*provider),
{
    match provider {
        None => None,
        Some(Provider::Fixture(text)) => Some(Provider::Fixture(text.clone())),
        Some(Provider::Copilot) => Some(Provider::Copilot),
        Some(Provider::Zed(model)) => Some(Provider::Zed(*model)),
    }
}

/// A provider that offers one text at the caret, again after every accept or
/// discard.
#[derive(Debug)]
pub struct FixtureDelegate {
    text: String,
    available: bool,
}

impl View for FixtureDelegate {
    type V = (Seq<char>, bool);

    /// The text, and whether it is on offer.
    closed spec fn view(&self) -> (Seq<char>, bool) {
        (self.text@, self.available)
    }
}

impl FixtureDelegate {
    pub fn new(text: String) -> (delegate: Self)
        ensures
            delegate@ == (text@, true),
    {
        FixtureDelegate { text, available: true }
    }

    /// The document changed. The answer tells whether there is something to
    /// offer that was not before.
    pub fn refresh(&mut self) -> (notify: bool)
        ensures
            notify == !old(self)@.1,
            final(self)@ == (old(self)@.0, true),
    {
        let notify = !self.available;
        self.available = true;
        notify
    }

    pub fn accept(&mut self)
        ensures
            final(self)@ == (old(self)@.0, false),
    {
        self.available = false;
    }

    pub fn discard(&mut self)
        ensures
            final(self)@ == (old(self)@.0, false),
    {
        self.available = false;
    }

    /// The text to insert at the caret.
    pub fn suggest(&self) -> (text: Option<&str>)
        ensures
            text is Some <==> self@.1,
            text is Some ==> text->0@ == self@.0,
    {
        if self.available {
            Some(self.text.as_str())
        } else {
            None
        }
    }
}

/// The tag of a model says nothing of its format.
pub proof fn tags_do_not_matter(base: Seq<char>, tag: Seq<char>)
    requires
        forall|i: int| 0 <= i < base.len() ==> base[i] != ':',
    ensures
        implied_format(base + seq![':'] + tag) == implied_format(base),
{
    let whole = base + seq![':'] + tag;
    lemma_first_index(whole, ':');
    lemma_first_index(base, ':');
    assert(whole[base.len() as int] == ':');
    assert(first_index(whole, ':') == base.len()) by {
        let at = first_index(whole, ':');
        if at < base.len() {
            assert(whole[at] == base[at]);
        }
    }
    assert(base_name(whole) =~= base);
    assert(base_name(base) =~= base);
}

} // verus!
