use interpreter::cli::Cli;
use interpreter::config::{
    default_history_limit, default_model, resolve_config_path, Config, ConfigError,
    DEFAULT_HISTORY_LIMIT,
};

fn cli(model: Option<&str>, config: Option<&str>) -> Cli {
    Cli {
        command: vec![],
        model: model.map(|m| m.to_string()),
        config: config.map(|c| c.to_string()),
        dry_run: false,
        model_list: false,
        init: false,
        install: false,
    }
}

#[test]
fn defaults_match_documentation() {
    let cfg = Config::default();
    assert_eq!(cfg.model, "openai/gpt-4o-mini");
    assert_eq!(cfg.history_limit, 50);
    assert_eq!(default_model(), "openai/gpt-4o-mini");
    assert_eq!(default_history_limit(), DEFAULT_HISTORY_LIMIT);
    assert!(cfg.temperature.is_none());
    assert!(cfg.system_prompt.is_none());
    assert!(cfg.providers.openai.is_none() && cfg.providers.anthropic.is_none() && cfg.providers.ollama.is_none());
    assert!(cfg.context_files.is_empty() && cfg.plugins.is_empty());
    assert!(!cfg.thinking);
}

#[test]
fn splits_provider_and_model() {
    let cfg = Config::default();
    assert_eq!(cfg.provider_and_model(), Ok(("openai".to_string(), "gpt-4o-mini".to_string())));
    let mut c = Config::default();
    c.model = "ollama/library/llama3:8b".to_string();
    assert_eq!(c.provider_and_model(), Ok(("ollama".to_string(), "library/llama3:8b".to_string())));
    c.model = "/x".to_string();
    assert_eq!(c.provider_and_model(), Ok((String::new(), "x".to_string())));
}

#[test]
fn rejects_model_without_provider() {
    let mut c = Config::default();
    c.model = "gpt-4o".to_string();
    assert_eq!(c.provider_and_model(), Err(ConfigError::ModelNotQualified));
}

#[test]
fn cli_model_overrides_config() {
    let mut base = Config::default();
    base.history_limit = 7;
    let c = base.with_overrides(&cli(Some("anthropic/opus-4-7"), None));
    assert_eq!(c.model, "anthropic/opus-4-7");
    assert_eq!(c.history_limit, 7);
    let d = Config::default().with_overrides(&cli(None, None));
    assert_eq!(d.model, "openai/gpt-4o-mini");
}

#[test]
fn config_path_resolution() {
    assert_eq!(
        resolve_config_path(&cli(None, Some("/x/c.json")), Some("/d/config.json".to_string())),
        Ok("/x/c.json".to_string())
    );
    assert_eq!(
        resolve_config_path(&cli(None, None), Some("/d/config.json".to_string())),
        Ok("/d/config.json".to_string())
    );
    assert_eq!(resolve_config_path(&cli(None, None), None), Err(ConfigError::NoConfigPath));
}
