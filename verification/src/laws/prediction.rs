//! Laws of who predicts edits.

use vstd::prelude::*;

use crate::features::edit_prediction::{
    assigned, chosen, custom_source, format_model, implied_format, CustomModel, PredictionModel,
    PredictionSettings, PromptFormat, Source, ZetaVersion,
};

verus! {

/// A fixture comes before all settings; without one the settings decide, and
/// only those of the provider that is set.
pub proof fn the_settings_choose_the_provider(
    fixture: Option<Seq<char>>,
    settings: PredictionSettings,
    ollama: Option<CustomModel>,
    api: Option<CustomModel>,
)
    ensures
        fixture matches Some(text) ==> (text.len() > 0 ==> chosen(fixture, settings) == Some(
            Source::Fixture(text),
        )),
        fixture is None || fixture->0.len() == 0 ==> chosen(fixture, settings) == chosen(
            None,
            settings,
        ),
        settings.provider is Nothing ==> chosen(None, settings) is None,
        settings.provider is Copilot ==> chosen(None, settings) == Some(Source::Copilot),
        settings.provider is Zed ==> chosen(None, settings) == Some(
            Source::Zed(PredictionModel::Zeta),
        ),
        settings.provider is Mercury ==> chosen(None, settings) == Some(
            Source::Zed(PredictionModel::Mercury),
        ),
        settings.provider is Ollama ==> chosen(None, settings) == chosen(
            None,
            PredictionSettings { open_ai_compatible_api: api, ..settings },
        ),
        settings.provider is Ollama && settings.ollama is None ==> chosen(None, settings) is None,
        settings.provider is OpenAiCompatibleApi ==> chosen(None, settings) == chosen(
            None,
            PredictionSettings { ollama, ..settings },
        ),
        settings.provider is OpenAiCompatibleApi && settings.open_ai_compatible_api is None
            ==> chosen(None, settings) is None,
{
}

/// A model of one's own is prompted in the format that is set, whatever its
/// name; its name decides where none is set.
pub proof fn a_format_that_is_set_comes_before_the_name(custom: CustomModel, model: String)
    ensures
        !(custom.prompt_format is Infer) ==> custom_source(Some(custom)) == custom_source(
            Some(CustomModel { model, ..custom }),
        ) && custom_source(Some(custom)) is Some,
        custom.prompt_format is Infer ==> (custom_source(Some(custom)) is Some <==> implied_format(
            custom.model@,
        ) is Some),
        custom.prompt_format is Infer && implied_format(custom.model@) is Some ==> custom_source(
            Some(custom),
        ) == custom_source(
            Some(CustomModel { prompt_format: implied_format(custom.model@)->0, ..custom }),
        ),
{
}

/// The models of the Zeta family and those that edit are prompted in their own
/// ways; all others fill in the middle, in their own formats.
pub proof fn formats_lead_to_their_models(format: PromptFormat)
    ensures
        format_model(format) is Zeta <==> format is Zeta,
        format_model(format) is SweepPrompt <==> format is Sweep,
        !(format is Zeta) && !(format is Sweep) ==> format_model(format)
            == PredictionModel::FillInTheMiddle(format),
{
}

/// The name of a model, up to a colon, tells its format.
pub proof fn names_tell_the_format(model: Seq<char>)
    requires
        !model.contains(':'),
    ensures
        model == "zeta2"@ ==> implied_format(model) == Some(
            PromptFormat::Zeta(ZetaVersion::Zeta2),
        ),
        model == "zeta2.1"@ ==> implied_format(model) == Some(
            PromptFormat::Zeta(ZetaVersion::Zeta2Point1),
        ),
        implied_format(model) == Some(PromptFormat::CodeLlama) ==> model == "codellama"@ || model
            == "code-llama"@,
        implied_format(model) == Some(PromptFormat::StarCoder) ==> model == "starcoder"@ || model
            == "starcoder2"@ || model == "starcoderbase"@,
        implied_format(model) == Some(PromptFormat::DeepseekCoder) ==> model == "deepseek-coder"@
            || model == "deepseek-coder-v2"@,
        implied_format(model) == Some(PromptFormat::Qwen) ==> model == "qwen2.5-coder"@ || model
            == "qwen-coder"@ || model == "qwen"@,
        implied_format(model) == Some(PromptFormat::CodeGemma) ==> model == "codegemma"@,
        implied_format(model) == Some(PromptFormat::Codestral) ==> model == "codestral"@ || model
            == "mistral"@,
        implied_format(model) == Some(PromptFormat::Glm) ==> model == "glm"@ || model == "glm-4"@
            || model == "glm-4.5"@,
        !(implied_format(model) matches Some(PromptFormat::Infer)),
{
    crate::text::lemma_first_index(model, ':');
    let at = crate::text::first_index(model, ':');
    if at < model.len() {
        assert(model.contains(model[at]));
    }
    assert(model.take(at) =~= model);
    reveal_strlit("zeta2");
    reveal_strlit("zeta2.1");
}

/// A provider gets what was chosen where it can work: Copilot where it runs,
/// Zed's models unless the organization forbids them, both only in a project.
pub proof fn providers_are_assigned_where_they_can_work(
    provider: Option<Source>,
    has_project: bool,
    copilot_started: bool,
    disabled: bool,
)
    ensures
        ({
            let result = assigned(provider, has_project, copilot_started, disabled);
            &&& result is Some ==> result == provider
            &&& provider is None ==> result is None
            &&& provider matches Some(Source::Fixture(_)) ==> result is Some
            &&& provider matches Some(Source::Copilot) ==> (result is Some <==> has_project
                && copilot_started)
            &&& provider matches Some(Source::Zed(_)) ==> (result is Some <==> has_project
                && !disabled)
        }),
{
}

} // verus!
