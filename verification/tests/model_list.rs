use interpreter::model_list::{
    collect_provider, collect_rows, filter_models, model_matches, ollama_row, pricing_entries,
    sort_rows, PricingEntry, Row,
};

fn entry(provider: &str, input: f64, output: f64, mode: &str) -> PricingEntry {
    PricingEntry {
        litellm_provider: Some(provider.to_string()),
        input_cost_per_token: Some(input.to_bits()),
        output_cost_per_token: Some(output.to_bits()),
        mode: Some(mode.to_string()),
    }
}

/// The catalogue in id order, as the binary hands it over.
fn fixture() -> Vec<(String, PricingEntry)> {
    vec![
        // Already-prefixed key — make sure we don't double-prefix.
        ("anthropic/sonnet-3-5".to_string(), entry("anthropic", 3e-6, 15e-6, "chat")),
        ("gpt-4o-mini".to_string(), entry("openai", 1.5e-7, 6e-7, "chat")),
        ("opus-4-7".to_string(), entry("anthropic", 5e-6, 25e-6, "chat")),
        // Embedding model — should be filtered out by mode check.
        ("text-embedding-3-small".to_string(), entry("openai", 2e-8, 0.0, "embedding")),
    ]
}

fn per_million(bits: Option<u64>) -> f64 {
    f64::from_bits(bits.unwrap()) * 1_000_000.0
}

#[test]
fn collects_and_normalises_openai() {
    let rows = collect_provider(&fixture(), "openai");
    let ids: Vec<&str> = rows.iter().map(|r| r.qualified.as_str()).collect();
    assert_eq!(ids, vec!["openai/gpt-4o-mini"]);
    assert!((per_million(rows[0].input_cost_per_token) - 0.15).abs() < 1e-9);
    assert!((per_million(rows[0].output_cost_per_token) - 0.60).abs() < 1e-9);
}

#[test]
fn collects_anthropic_and_strips_double_prefix() {
    let rows = collect_provider(&fixture(), "anthropic");
    let mut ids: Vec<&str> = rows.iter().map(|r| r.qualified.as_str()).collect();
    ids.sort();
    assert_eq!(ids, vec!["anthropic/opus-4-7", "anthropic/sonnet-3-5"]);
}

#[test]
fn entries_without_mode_are_kept() {
    let mut e = entry("openai", 1e-6, 2e-6, "chat");
    e.mode = None;
    let mut r = entry("openai", 1e-6, 2e-6, "responses");
    r.litellm_provider = Some("openai".to_string());
    let pricing = vec![("a".to_string(), e), ("b".to_string(), r)];
    let rows = collect_provider(&pricing, "openai");
    let ids: Vec<&str> = rows.iter().map(|r| r.qualified.as_str()).collect();
    assert_eq!(ids, vec!["openai/a", "openai/b"]);
    assert!(rows.iter().all(|r| r.note.is_none()));
}

#[test]
fn pricing_skips_sample_spec_and_malformed() {
    let raw = vec![
        ("gpt-x".to_string(), Some(entry("openai", 1e-6, 1e-6, "chat"))),
        ("sample_spec".to_string(), Some(entry("openai", 0.0, 0.0, "chat"))),
        ("weird".to_string(), None),
    ];
    let kept = pricing_entries(raw);
    let keys: Vec<&str> = kept.iter().map(|(k, _)| k.as_str()).collect();
    assert_eq!(keys, vec!["gpt-x"]);
}

#[test]
fn pricing_is_sorted_by_id_and_later_entries_win() {
    let raw = vec![
        ("zeta".to_string(), Some(entry("openai", 1e-6, 1e-6, "chat"))),
        ("alpha".to_string(), Some(entry("openai", 2e-6, 2e-6, "chat"))),
        ("zeta".to_string(), Some(entry("anthropic", 3e-6, 3e-6, "chat"))),
        ("mid".to_string(), None),
        ("beta".to_string(), Some(entry("openai", 4e-6, 4e-6, "chat"))),
    ];
    let kept = pricing_entries(raw);
    let keys: Vec<&str> = kept.iter().map(|(k, _)| k.as_str()).collect();
    assert_eq!(keys, vec!["alpha", "beta", "zeta"]);
    assert_eq!(kept[2].1.litellm_provider.as_deref(), Some("anthropic"));
}

#[test]
fn rows_are_sorted_by_name() {
    let ollama = vec![ollama_row("llama3.2:latest"), ollama_row("aya")];
    let rows = collect_rows(&fixture(), ollama);
    let ids: Vec<&str> = rows.iter().map(|r| r.qualified.as_str()).collect();
    assert_eq!(
        ids,
        vec![
            "anthropic/opus-4-7",
            "anthropic/sonnet-3-5",
            "ollama/aya",
            "ollama/llama3.2:latest",
            "openai/gpt-4o-mini",
        ]
    );
    assert_eq!(rows[2].note, Some("(local)"));
    assert_eq!(rows[2].input_cost_per_token, None);
}

#[test]
fn sort_orders_by_code_point() {
    let mk = |q: &str| Row { qualified: q.to_string(), input_cost_per_token: None, output_cost_per_token: None, note: None };
    let rows = sort_rows(vec![mk("b"), mk("B"), mk("ab"), mk("a"), mk("é"), mk("")]);
    let ids: Vec<&str> = rows.iter().map(|r| r.qualified.as_str()).collect();
    assert_eq!(ids, vec!["", "B", "a", "ab", "b", "é"]);
}

#[test]
fn filter_is_case_insensitive_substring() {
    assert!(model_matches("openai/GPT-4o", "gpt"));
    assert!(model_matches("openai/gpt-4o", "GPT-4"));
    assert!(model_matches("anything", ""));
    assert!(!model_matches("openai/gpt-4o", "sonnet"));
    let rows = vec![ollama_row("Llama"), ollama_row("mistral"), ollama_row("LLAMA2")];
    assert_eq!(filter_models(&rows, "/LLAMA"), vec![0, 2]);
    assert_eq!(filter_models(&rows, ""), vec![0, 1, 2]);
}

#[test]
fn sort_keeps_rows_of_equal_name_in_order() {
    let mk = |q: &str, cost: u64| Row {
        qualified: q.to_string(),
        input_cost_per_token: Some(cost),
        output_cost_per_token: None,
        note: None,
    };
    let rows = sort_rows(vec![mk("m", 3), mk("a", 1), mk("m", 1), mk("m", 2)]);
    let got: Vec<(&str, Option<u64>)> =
        rows.iter().map(|r| (r.qualified.as_str(), r.input_cost_per_token)).collect();
    assert_eq!(got, vec![("a", Some(1)), ("m", Some(3)), ("m", Some(1)), ("m", Some(2))]);
}

#[test]
fn prefixed_and_bare_ids_give_the_same_name() {
    let pricing = vec![
        ("gpt-x".to_string(), entry("openai", 1e-6, 2e-6, "chat")),
        ("openai/gpt-x".to_string(), entry("openai", 3e-6, 4e-6, "responses")),
    ];
    let rows = collect_rows(&pricing, Vec::new());
    let ids: Vec<&str> = rows.iter().map(|r| r.qualified.as_str()).collect();
    assert_eq!(ids, vec!["openai/gpt-x", "openai/gpt-x"]);
    assert_eq!(rows[0].input_cost_per_token, Some(1e-6f64.to_bits()));
    assert_eq!(rows[1].input_cost_per_token, Some(3e-6f64.to_bits()));
}
