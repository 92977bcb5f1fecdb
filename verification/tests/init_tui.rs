use interpreter::config::Config;
use interpreter::init_tui::{
    add_context_file, add_plugin, all_fields, blank_to_none, edit_provider_field, label_width,
    menu_entry, parse_history_limit, provider_field_value, remove_context_file, remove_plugin,
    set_additional_context, set_history_limit, set_model, set_system_prompt, toggle_thinking,
    Field, ProviderField, ProviderSlot,
};

#[test]
fn menu_lists_every_field_padded() {
    let fields = all_fields();
    assert_eq!(fields.len(), 11);
    assert_eq!(fields[0], Field::Model);
    assert_eq!(fields[10], Field::Thinking);
    assert_eq!(label_width(), "providers.anthropic".len());
    let line = menu_entry(Field::Model, false, 8);
    assert_eq!(line, format!("model     {}", Field::Model.description()));
    let t = menu_entry(Field::Thinking, true, 10);
    assert_eq!(t, format!("thinking    [x]  {}", Field::Thinking.description()));
    let off = menu_entry(Field::Thinking, false, 3);
    assert!(off.starts_with("thinking  [ ]  "));
}

#[test]
fn labels_are_config_keys() {
    assert_eq!(Field::HistoryLimit.label(), "history_limit");
    assert_eq!(Field::Anthropic.label(), "providers.anthropic");
    assert!(Field::Temperature.description().contains("0.0\u{2013}2.0"));
}

#[test]
fn history_limit_parsing() {
    assert_eq!(parse_history_limit(" 25 "), Some(25));
    assert_eq!(parse_history_limit("+7"), Some(7));
    assert_eq!(parse_history_limit("0"), Some(0));
    assert_eq!(parse_history_limit(""), None);
    assert_eq!(parse_history_limit("+"), None);
    assert_eq!(parse_history_limit("-1"), None);
    assert_eq!(parse_history_limit("12a"), None);
    assert_eq!(parse_history_limit("1 2"), None);
    assert_eq!(parse_history_limit(&usize::MAX.to_string()), Some(usize::MAX));
    assert_eq!(parse_history_limit("99999999999999999999999"), None);
}

#[test]
fn blank_values_unset() {
    assert_eq!(blank_to_none("  \t".to_string()), None);
    assert_eq!(blank_to_none(" keep spaces ".to_string()), Some(" keep spaces ".to_string()));
}

#[test]
fn provider_edits_keep_other_settings() {
    let mut cfg = Config::default();
    edit_provider_field(&mut cfg, ProviderSlot::OpenAi, ProviderField::ApiKey, "sk-1".to_string());
    edit_provider_field(&mut cfg, ProviderSlot::OpenAi, ProviderField::BaseUrl, "http://x".to_string());
    let e = cfg.providers.openai.as_ref().unwrap();
    assert_eq!(e.api_key.as_deref(), Some("sk-1"));
    assert_eq!(e.base_url.as_deref(), Some("http://x"));
    assert!(cfg.providers.anthropic.is_none());
    edit_provider_field(&mut cfg, ProviderSlot::OpenAi, ProviderField::ApiKey, "   ".to_string());
    let e = cfg.providers.openai.as_ref().unwrap();
    assert_eq!(e.api_key, None);
    assert_eq!(e.base_url.as_deref(), Some("http://x"));
    assert_eq!(provider_field_value(&cfg, ProviderSlot::OpenAi, ProviderField::BaseUrl), "http://x");
    assert_eq!(provider_field_value(&cfg, ProviderSlot::Ollama, ProviderField::ApiKey), "");
    edit_provider_field(&mut cfg, ProviderSlot::Ollama, ProviderField::BaseUrl, "".to_string());
    assert!(cfg.providers.ollama.is_some());
    assert_eq!(ProviderSlot::Anthropic.name(), "anthropic");
    assert_eq!(ProviderField::BaseUrl.key(), "base_url");
}

#[test]
fn plugins_are_trimmed_and_unique() {
    let mut cfg = Config::default();
    assert_eq!(add_plugin(&mut cfg, "  git branch "), Some("git branch".to_string()));
    assert_eq!(add_plugin(&mut cfg, "git branch"), Some("git branch".to_string()));
    assert_eq!(add_plugin(&mut cfg, "   "), None);
    assert_eq!(add_plugin(&mut cfg, "date"), Some("date".to_string()));
    assert_eq!(cfg.plugins, vec!["git branch".to_string(), "date".to_string()]);
    remove_plugin(&mut cfg, "git branch");
    assert_eq!(cfg.plugins, vec!["date".to_string()]);
    remove_plugin(&mut cfg, "absent");
    assert_eq!(cfg.plugins, vec!["date".to_string()]);
}

#[test]
fn context_files_compare_as_paths() {
    let mut cfg = Config::default();
    assert_eq!(add_context_file(&mut cfg, " /etc/notes.md "), Some("/etc/notes.md".to_string()));
    // The same path spelled differently is not added again.
    add_context_file(&mut cfg, "/etc//notes.md");
    add_context_file(&mut cfg, "/etc/./notes.md/");
    assert_eq!(cfg.context_files, vec!["/etc/notes.md".to_string()]);
    add_context_file(&mut cfg, "./notes.md");
    add_context_file(&mut cfg, "notes.md");
    add_context_file(&mut cfg, "etc/notes.md");
    assert_eq!(
        cfg.context_files,
        vec!["/etc/notes.md".to_string(), "./notes.md".to_string(), "notes.md".to_string(), "etc/notes.md".to_string()]
    );
    remove_context_file(&mut cfg, "notes.md");
    assert_eq!(
        cfg.context_files,
        vec!["/etc/notes.md".to_string(), "./notes.md".to_string(), "etc/notes.md".to_string()]
    );
}

#[test]
fn removing_a_plugin_undoes_adding_it() {
    let mut cfg = Config::default();
    add_plugin(&mut cfg, "date");
    add_plugin(&mut cfg, "uptime");
    let before = cfg.plugins.clone();
    add_plugin(&mut cfg, "  whoami ");
    add_plugin(&mut cfg, "whoami");
    assert_eq!(cfg.plugins.len(), before.len() + 1);
    remove_plugin(&mut cfg, "whoami");
    assert_eq!(cfg.plugins, before);
}

#[test]
fn removing_a_context_file_undoes_adding_it() {
    let mut cfg = Config::default();
    add_context_file(&mut cfg, "/a/b");
    let before = cfg.context_files.clone();
    add_context_file(&mut cfg, " /c/d ");
    add_context_file(&mut cfg, "/c//d");
    assert_eq!(cfg.context_files.len(), before.len() + 1);
    remove_context_file(&mut cfg, "/c/d");
    assert_eq!(cfg.context_files, before);
}

#[test]
fn single_settings_are_edited_in_place() {
    let mut cfg = Config::default();
    toggle_thinking(&mut cfg);
    assert!(cfg.thinking);
    toggle_thinking(&mut cfg);
    assert!(!cfg.thinking);
    set_model(&mut cfg, "anthropic/x".to_string());
    assert_eq!(cfg.model, "anthropic/x");
    assert!(set_history_limit(&mut cfg, " 12 "));
    assert_eq!(cfg.history_limit, 12);
    assert!(!set_history_limit(&mut cfg, "twelve"));
    assert_eq!(cfg.history_limit, 12);
    set_system_prompt(&mut cfg, " be brief ".to_string());
    assert_eq!(cfg.system_prompt.as_deref(), Some(" be brief "));
    set_system_prompt(&mut cfg, "  ".to_string());
    assert_eq!(cfg.system_prompt, None);
    set_additional_context(&mut cfg, "ctx".to_string());
    assert_eq!(cfg.additional_context.as_deref(), Some("ctx"));
    set_additional_context(&mut cfg, "\n".to_string());
    assert_eq!(cfg.additional_context, None);
}
