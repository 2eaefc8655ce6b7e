use zec::features::edit_prediction::{
    assign, infer_prompt_format, provider_for_settings, same_provider, Assignment, CustomModel, FixtureDelegate,
    PredictionModel, PredictionSettings, PromptFormat, Provider, ProviderSetting, Registry, ZetaVersion,
};
use zec::features::spots::{sort_spots, Spot};
use zec::geometry::{centered_start, window_start, Rect};
use zec::logging::{enabled, Level};
use zec::paths::{directory, file_name, components, join, parent_path, path_starts_with, show_path, strip_prefix};
use zec::text::{bound, byte_len, comes_before, holds_text, lines_of, parse_number, split, trim};

#[test]
fn infers_prompt_formats_from_model_names() {
    assert!(matches!(
        infer_prompt_format("zeta2.1:latest"),
        Some(PromptFormat::Zeta(ZetaVersion::Zeta2Point1))
    ));
    assert_eq!(infer_prompt_format("qwen2.5-coder:7b"), Some(PromptFormat::Qwen));
    assert_eq!(infer_prompt_format("unknown-model"), None);
}

#[test]
fn model_names_imply_formats() {
    for (model, format) in [
        ("zeta2", PromptFormat::Zeta(ZetaVersion::Zeta2)),
        ("My-Sweep-Next-Edit-1", PromptFormat::Sweep),
        ("code-llama", PromptFormat::CodeLlama),
        ("starcoderbase:x", PromptFormat::StarCoder),
        ("deepseek-coder-v2", PromptFormat::DeepseekCoder),
        ("codegemma", PromptFormat::CodeGemma),
        ("mistral", PromptFormat::Codestral),
        ("glm-4.5", PromptFormat::Glm),
    ] {
        assert_eq!(infer_prompt_format(model), Some(format), "{model}");
    }
    assert_eq!(infer_prompt_format("Qwen"), None);
}

fn configured(provider: ProviderSetting, model: Option<CustomModel>) -> PredictionSettings {
    PredictionSettings { provider, ollama: model, open_ai_compatible_api: None }
}

#[test]
fn predictions_come_from_the_provider_of_the_settings() {
    let of = |settings: PredictionSettings| provider_for_settings(None, &settings);
    let custom = |model: &str, prompt_format: PromptFormat| {
        Some(CustomModel { model: model.to_owned(), prompt_format })
    };
    let fixture = provider_for_settings(Some("abc".to_owned()), &configured(ProviderSetting::Copilot, None));
    assert!(same_provider(&fixture, &Some(Provider::Fixture("abc".to_owned()))));
    let empty = provider_for_settings(Some(String::new()), &configured(ProviderSetting::Copilot, None));
    assert!(same_provider(&empty, &Some(Provider::Copilot)));
    assert!(same_provider(&of(configured(ProviderSetting::Nothing, None)), &None));
    assert!(same_provider(&of(configured(ProviderSetting::Codestral, None)), &None));
    assert!(same_provider(
        &of(configured(ProviderSetting::Zed, None)),
        &Some(Provider::Zed(PredictionModel::Zeta))
    ));
    assert!(same_provider(
        &of(configured(ProviderSetting::Mercury, None)),
        &Some(Provider::Zed(PredictionModel::Mercury))
    ));
    assert!(same_provider(
        &of(configured(ProviderSetting::Ollama, custom("qwen:7b", PromptFormat::Infer))),
        &Some(Provider::Zed(PredictionModel::FillInTheMiddle(PromptFormat::Qwen)))
    ));
    assert!(same_provider(
        &of(configured(ProviderSetting::Ollama, custom("x", PromptFormat::Sweep))),
        &Some(Provider::Zed(PredictionModel::SweepPrompt))
    ));
    assert!(same_provider(&of(configured(ProviderSetting::Ollama, custom("x", PromptFormat::Infer))), &None));
    assert!(same_provider(
        &of(configured(ProviderSetting::OpenAiCompatibleApi, custom("qwen", PromptFormat::Infer))),
        &None
    ));
    assert!(!same_provider(&None, &Some(Provider::Copilot)));
}

#[test]
fn editors_get_the_providers_that_work_for_them() {
    assert_eq!(assign(None, true, true, false), Assignment::Clear);
    assert_eq!(assign(Some(Provider::Copilot), true, true, false), Assignment::Copilot);
    assert_eq!(assign(Some(Provider::Copilot), true, false, false), Assignment::Clear);
    let zeta = || Some(Provider::Zed(PredictionModel::Zeta));
    assert_eq!(assign(zeta(), true, false, false), Assignment::Zed(PredictionModel::Zeta));
    assert_eq!(assign(zeta(), true, false, true), Assignment::Clear);
    assert_eq!(assign(zeta(), false, false, false), Assignment::Clear);
    let mut delegate = FixtureDelegate::new("text".to_owned());
    assert_eq!(delegate.suggest(), Some("text"));
    assert!(!delegate.refresh());
    delegate.accept();
    assert_eq!(delegate.suggest(), None);
    assert!(delegate.refresh());
    delegate.discard();
    assert_eq!(delegate.suggest(), None);
}

#[test]
fn only_some_records_are_logged() {
    assert!(enabled(Level::Info, "other"));
    assert!(!enabled(Level::Debug, "other"));
    assert!(enabled(Level::Trace, "lsp::store"));
    assert_eq!(zec::logging::line(Level::Warn, "project", "slow").as_deref(), Some("WARN project slow"));
    assert_eq!(zec::logging::line(Level::Debug, "gpui", "frame"), None);
}

#[test]
fn paths_are_taken_apart() {
    assert_eq!(strip_prefix("/repo//src/a.rs", "/repo/").as_deref(), Some("src/a.rs"));
    assert_eq!(strip_prefix("/repository", "/repo"), None);
    assert_eq!(show_path("/repo/a", &Some("/repo".to_owned())), "a");
    assert_eq!(show_path("/x/a", &Some("/repo".to_owned())), "/x/a");
    assert_eq!(directory("/repo/a").as_deref(), Some("/repo"));
    assert_eq!(directory("/"), None);
    assert_eq!(parent_path("a/b"), "a");
    assert_eq!(join("/a", "b"), "/a/b");
    assert_eq!(join("/a", "/b"), "/b");
    assert!(path_starts_with("/a/b/c", "/a/b"));
    assert!(!path_starts_with("/a/bc", "/a/b"));
    assert_eq!(file_name(&components("a/b.rs")).as_deref(), Some("b.rs"));
    assert_eq!(file_name(&components("/")), None);
}

#[test]
fn texts_are_taken_apart() {
    assert_eq!(trim("\u{2003}a b\n"), "a b");
    assert_eq!(lines_of("a\r\nb\n\nc"), vec!["a", "b", "", "c"]);
    assert_eq!(split("a,b,", ','), vec!["a", "b", ""]);
    assert_eq!(byte_len("aé界"), 6);
    assert_eq!(bound("abcdef", 4), "abcd…");
    assert!(holds_text("abc", "bc"));
    assert!(holds_text("abc", ""));
    assert!(comes_before("Z", "a"));
    assert_eq!(parse_number("+12", 100), Some(12));
    assert_eq!(parse_number("101", 100), None);
}

#[test]
fn places_are_sorted_by_their_paths() {
    let spot = |group: u64, path: &str, row: u32| Spot { group, path: path.to_owned(), row, column: 0 };
    let spots = vec![spot(0, "a-b", 0), spot(0, "a/b", 2), spot(0, "a/b", 1), spot(0, "a", 9)];
    assert_eq!(sort_spots(&spots), vec![3, 2, 1, 0]);
}

#[test]
fn windows_hold_the_selection() {
    assert_eq!(window_start(10, Some(8), 5), 4);
    assert_eq!(window_start(10, Some(3), 5), 0);
    assert_eq!(window_start(10, None, 5), 0);
    for selected in 0..10 {
        let first = centered_start(10, selected, 4);
        assert!(first <= selected && selected < first + 4 && first <= 6);
    }
    let area = Rect::new(2, 3, 10, 5);
    assert_eq!(area.inside_border(), Rect::new(3, 4, 8, 3));
    assert_eq!(area.intersection(Rect::new(0, 0, 4, 4)), Rect::new(2, 3, 2, 1));
    assert!(area.intersection(Rect::new(50, 50, 1, 1)).is_empty());
}

#[test]
fn editors_follow_the_settings() {
    let mut registry = Registry::init(None);
    assert!(registry.created(1, true, true));
    assert!(!registry.created(2, false, true));
    assert!(!registry.created(3, true, false));
    assert!(registry.created(4, true, true));
    assert!(registry.created(1, true, true));
    assert!(registry.settings_changed(&None).is_empty());
    assert_eq!(registry.settings_changed(&Some(Provider::Copilot)), vec![1, 4]);
    assert!(registry.settings_changed(&Some(Provider::Copilot)).is_empty());
    registry.released(1);
    registry.released(9);
    assert_eq!(registry.settings_changed(&None), vec![4]);
}
