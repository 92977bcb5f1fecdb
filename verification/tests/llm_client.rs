use interpreter::cli::Cli;
use interpreter::config::{Config, ProviderEnv};
use interpreter::llm_client::{
    build_system_prompt, build_user_prompt, plan_request, prepare_request, sanitize, Backend,
    ContextFile, GenerateError, PluginRun, RequestError,
};
use interpreter::shell::{ShellContext, ShellKind};

#[test]
fn sanitize_strips_fences() {
    assert_eq!(sanitize("```bash\nls -la\n```".into()), "ls -la");
    assert_eq!(sanitize("  ls\n".into()), "ls");
    assert_eq!(sanitize("```\necho hi\n```".into()), "echo hi");
}

#[test]
fn sanitize_keeps_plain_commands() {
    assert_eq!(sanitize("ps aux --sort=-%mem | head".into()), "ps aux --sort=-%mem | head");
    assert_eq!(sanitize("".into()), "");
    assert_eq!(sanitize(" \t\n ".into()), "");
}

#[test]
fn sanitize_leaves_unclosed_fence() {
    // Without a closing fence only the surrounding whitespace goes.
    assert_eq!(sanitize("  ```bash\nls\n".into()), "```bash\nls");
}

#[test]
fn sanitize_skips_unicode_language_tag() {
    // The tag is skipped with `char::is_alphanumeric`, so non-ASCII letters go too.
    assert_eq!(sanitize("```shé\ngit status\n```".into()), "git status");
    // On one line the first word is part of the command, not a tag.
    assert_eq!(sanitize("```zsh2 ls ```".into()), "zsh2 ls");
}

#[test]
fn sanitize_is_idempotent_on_results() {
    let once = sanitize("\n```sh\n  echo  hi  \n```\n".into());
    assert_eq!(once, "echo  hi");
    assert_eq!(sanitize(once.clone()), once);
}

fn shell(kind: ShellKind, cwd: Option<&str>) -> ShellContext {
    ShellContext { kind, cwd: cwd.map(|c| c.to_string()), os: "linux".to_string() }
}

#[test]
fn user_prompt_with_history_and_cwd() {
    let ctx = shell(ShellKind::Zsh, Some("/home/u/proj"));
    let history = vec!["git status".to_string(), "cargo build".to_string()];
    let p = build_user_prompt(&ctx, "list files", &history);
    assert_eq!(
        p,
        "shell: zsh\nos: linux\ncwd: /home/u/proj\nrecent history:\n  git status\n  cargo build\n\ncommand line so far:\nlist files"
    );
}

#[test]
fn user_prompt_without_history_or_cwd() {
    let ctx = shell(ShellKind::Unknown, None);
    let p = build_user_prompt(&ctx, "", &[]);
    assert_eq!(p, "shell: sh\nos: linux\n\ncommand line so far:\n");
}

#[test]
fn system_prompt_base_only() {
    let cfg = Config::default();
    assert_eq!(build_system_prompt("BASE", &cfg, &[], &[]), "BASE");
}

#[test]
fn system_prompt_with_files_plugins_and_context() {
    let mut cfg = Config::default();
    cfg.context_files = vec!["/etc/notes.md".to_string(), "/missing".to_string()];
    cfg.plugins = vec!["git branch".to_string(), "true".to_string(), "false".to_string(), "nope".to_string()];
    cfg.additional_context = Some("  prefer rg  \n".to_string());
    let files = vec![
        ContextFile::Contents("use make".to_string()),
        ContextFile::Unreadable("No such file or directory (os error 2)".to_string()),
    ];
    let plugins = vec![
        PluginRun::Succeeded("  * main\n".to_string()),
        PluginRun::Succeeded("   \n".to_string()),
        PluginRun::Failed { status: "exit status: 1".to_string(), stderr: " oops \n".to_string() },
        PluginRun::NotRun("not found".to_string()),
    ];
    let p = build_system_prompt("BASE", &cfg, &files, &plugins);
    let expected = [
        "BASE",
        "\n\nThe user has provided the following files as high-priority context. Treat their contents as authoritative when deciding what command to generate:\n",
        "\n--- file: /etc/notes.md ---\nuse make\n---\n",
        "\n[Could not read /missing: No such file or directory (os error 2)]\n",
        "\n\nThe following output was produced by user-configured plugins run immediately before this request:\n",
        "\n--- plugin: git branch ---\n* main\n---\n",
        "\n[plugin `false` exited exit status: 1: oops]\n",
        "\n[plugin `nope` failed to run: not found]\n",
        "\n\nprefer rg",
    ]
    .join("");
    assert_eq!(p, expected);
}

#[test]
fn system_prompt_blank_additional_context_is_omitted() {
    let mut cfg = Config::default();
    cfg.additional_context = Some(" \n ".to_string());
    assert_eq!(build_system_prompt("B", &cfg, &[], &[]), "B");
}

#[test]
fn plan_routes_case_insensitively_with_key() {
    let mut cfg = Config::default();
    cfg.providers.anthropic = Some(ProviderEnv { api_key: Some("sk-ant".to_string()), base_url: None });
    cfg.temperature = Some(0.5f32.to_bits());
    cfg.thinking = true;
    let plan = plan_request("Anthropic", "opus-x", "sys".to_string(), "usr".to_string(), &cfg).unwrap();
    assert_eq!(plan.backend, Backend::Anthropic);
    assert_eq!(plan.provider, "anthropic");
    assert_eq!(plan.model, "opus-x");
    assert_eq!(plan.system_prompt, "sys");
    assert_eq!(plan.user_prompt, "usr");
    assert_eq!(plan.api_key.as_deref(), Some("sk-ant"));
    assert_eq!(plan.temperature.map(f32::from_bits), Some(0.5));
    assert!(plan.reasoning);
}

#[test]
fn plan_without_provider_settings_has_no_key() {
    let cfg = Config::default();
    let plan = plan_request("ollama", "llama3.2", String::new(), String::new(), &cfg).unwrap();
    assert_eq!(plan.backend, Backend::Ollama);
    assert_eq!(plan.api_key, None);
    assert_eq!(plan.temperature, None);
    assert!(!plan.reasoning);
}

#[test]
fn plan_rejects_unknown_provider() {
    let cfg = Config::default();
    match plan_request("Mistral", "m", String::new(), String::new(), &cfg) {
        Err(RequestError::UnsupportedProvider(p)) => assert_eq!(p, "mistral"),
        other => panic!("unexpected {:?}", other),
    }
}

#[test]
fn cli_input_joins_words() {
    let cli = Cli {
        command: vec!["list".to_string(), "files".to_string(), "with  spaces".to_string()],
        model: None,
        config: None,
        dry_run: false,
        model_list: false,
        init: false,
        install: false,
    };
    assert_eq!(cli.input(), "list files with  spaces");
    let empty = Cli { command: vec![], ..cli };
    assert_eq!(empty.input(), "");
}

#[test]
fn one_line_fenced_answers_keep_their_first_word() {
    assert_eq!(sanitize("```ls -la```".into()), "ls -la");
    assert_eq!(sanitize("```pwd```".into()), "pwd");
    assert_eq!(sanitize("``` ls ```".into()), "ls");
    assert_eq!(sanitize("```sh  \r\necho hi\n```".into()), "echo hi");
}

#[test]
fn prepare_request_builds_both_prompts_and_routes() {
    let mut cfg = Config::default();
    cfg.model = "OpenAI/gpt-x/mini".to_string();
    cfg.plugins = vec!["date".to_string()];
    cfg.providers.openai = Some(ProviderEnv { api_key: Some("sk".to_string()), base_url: None });
    let sh = shell(ShellKind::Bash, None);
    let plugins = vec![PluginRun::Succeeded(" Mon \n".to_string())];
    let history = vec!["ls".to_string()];
    let plan = prepare_request(&cfg, &sh, "find big files", "BASE", &[], &plugins, &history).unwrap();
    assert_eq!(plan.backend, Backend::OpenAI);
    assert_eq!(plan.provider, "openai");
    assert_eq!(plan.model, "gpt-x/mini");
    assert_eq!(plan.api_key.as_deref(), Some("sk"));
    assert_eq!(
        plan.system_prompt,
        "BASE\n\nThe following output was produced by user-configured plugins run immediately before this request:\n\n--- plugin: date ---\nMon\n---\n"
    );
    assert_eq!(
        plan.user_prompt,
        "shell: bash\nos: linux\nrecent history:\n  ls\n\ncommand line so far:\nfind big files"
    );
    // A configured system prompt replaces the built-in one.
    cfg.system_prompt = Some("OWN".to_string());
    cfg.plugins.clear();
    let plan = prepare_request(&cfg, &sh, "x", "BASE", &[], &[], &[]).unwrap();
    assert_eq!(plan.system_prompt, "OWN");
}

#[test]
fn prepare_request_errors() {
    let mut cfg = Config::default();
    let sh = shell(ShellKind::Zsh, None);
    cfg.model = "no-slash".to_string();
    assert!(matches!(
        prepare_request(&cfg, &sh, "x", "B", &[], &[], &[]),
        Err(GenerateError::ModelNotQualified)
    ));
    cfg.model = "Mistral/m".to_string();
    match prepare_request(&cfg, &sh, "x", "B", &[], &[], &[]) {
        Err(GenerateError::UnsupportedProvider(p)) => assert_eq!(p, "mistral"),
        other => panic!("unexpected {:?}", other),
    }
}
