//! The configuration: its fields and defaults, command-line overrides, the
//! `provider/model-name` split, and where the configuration file lives.

use vstd::prelude::*;
use crate::cli::Cli;
use crate::text::{chars_of, find_char, find_char_from, slice_of, string_of};

verus! {

/// Settings of one provider.
#[derive(Debug)]
pub struct ProviderEnv {
    pub api_key: Option<String>,
    pub base_url: Option<String>,
}

/// Settings per provider.
#[derive(Debug)]
pub struct ProviderSettings {
    pub openai: Option<ProviderEnv>,
    pub anthropic: Option<ProviderEnv>,
    pub ollama: Option<ProviderEnv>,
}

/// The configuration, as loaded from the JSON file and adjusted by the
/// command line.
#[derive(Debug)]
pub struct Config {
    /// Default model in `provider/model-name` form.
    pub model: String,
    /// How many lines off the tail of the shell history go into the prompt.
    pub history_limit: usize,
    /// Sampling temperature, as the bit pattern of an `f32`.
    pub temperature: Option<u32>,
    /// Replacement for the built-in system prompt.
    pub system_prompt: Option<String>,
    /// Per-provider settings.
    pub providers: ProviderSettings,
    /// Text appended to the system prompt on every request.
    pub additional_context: Option<String>,
    /// Files whose contents go into the system prompt.
    pub context_files: Vec<String>,
    /// Shell commands run before each request; their output goes into the
    /// system prompt.
    pub plugins: Vec<String>,
    /// Whether the model is asked for its reasoning.
    pub thinking: bool,
}

/// What went wrong with the configuration.
#[derive(Debug, Clone, Copy, PartialEq, Eq, Structural)]
pub enum ConfigError {
    /// `model` has no `'/'` between provider and model name.
    ModelNotQualified,
    /// Neither `--config` nor a platform configuration directory gave a path.
    NoConfigPath,
}

pub const DEFAULT_HISTORY_LIMIT: usize = 50;

pub open spec fn default_model_name() -> Seq<char> {
    "openai/gpt-4o-mini"@
}

pub fn default_model() -> (m: String)
    ensures
        m@ == default_model_name(),
{
    "openai/gpt-4o-mini".to_string()
}

pub fn default_history_limit() -> (n: usize)
    ensures
        n == DEFAULT_HISTORY_LIMIT,
{
    DEFAULT_HISTORY_LIMIT
}

impl ProviderEnv {
    pub open spec fn is_empty(&self) -> bool {
        self.api_key is None && self.base_url is None
    }
}

impl Default for ProviderEnv {
    fn default() -> (e: ProviderEnv)
        ensures
            e.is_empty(),
    {
        ProviderEnv { api_key: None, base_url: None }
    }
}

impl ProviderSettings {
    pub open spec fn is_empty(&self) -> bool {
        self.openai is None && self.anthropic is None && self.ollama is None
    }
}

impl Default for ProviderSettings {
    fn default() -> (s: ProviderSettings)
        ensures
            s.is_empty(),
    {
        ProviderSettings { openai: None, anthropic: None, ollama: None }
    }
}

impl Config {
    /// Whether `self` holds the documented defaults.
    pub open spec fn is_default(&self) -> bool {
        &&& self.model@ == default_model_name()
        &&& self.history_limit == DEFAULT_HISTORY_LIMIT
        &&& self.temperature is None
        &&& self.system_prompt is None
        &&& self.providers.is_empty()
        &&& self.additional_context is None
        &&& self.context_files@.len() == 0
        &&& self.plugins@.len() == 0
        &&& !self.thinking
    }

    /// Everything but the model is the same in `a` and `b`.
    pub open spec fn same_but_model(a: &Config, b: &Config) -> bool {
        &&& a.history_limit == b.history_limit
        &&& a.temperature == b.temperature
        &&& a.system_prompt == b.system_prompt
        &&& a.providers == b.providers
        &&& a.additional_context == b.additional_context
        &&& a.context_files == b.context_files
        &&& a.plugins == b.plugins
        &&& a.thinking == b.thinking
    }
}

impl Default for Config {
    fn default() -> (c: Config)
        ensures
            c.is_default(),
    {
        Config {
            model: default_model(),
            history_limit: default_history_limit(),
            temperature: None,
            system_prompt: None,
            providers: ProviderSettings::default(),
            additional_context: None,
            context_files: Vec::new(),
            plugins: Vec::new(),
            thinking: false,
        }
    }
}

/// The provider half of `provider/model-name`: what precedes the first `'/'`.
pub open spec fn provider_part(model: Seq<char>) -> Seq<char> {
    model.subrange(0, find_char(model, '/'))
}

/// The model half of `provider/model-name`: what follows the first `'/'`.
pub open spec fn model_part(model: Seq<char>) -> Seq<char> {
    model.subrange(find_char(model, '/') + 1, model.len() as int)
}

impl Config {
    /// `self` with the command line's model, when it names one.
    pub fn with_overrides(self, cli: &Cli) -> (c: Config)
        ensures
            Config::same_but_model(&c, &self),
            c.model@ == match cli.model {
                Some(m) => m@,
                None => self.model@,
            },
    {
        let mut c = self;
        match &cli.model {
            Some(m) => {
                c.model = m.clone();
            },
            None => {},
        }
        c
    }

    /// Splits `provider/model-name` at its first `'/'`.
    pub fn provider_and_model(&self) -> (r: Result<(String, String), ConfigError>)
        ensures
            r is Err <==> !self.model@.contains('/'),
            r matches Err(e) ==> e == ConfigError::ModelNotQualified,
            r matches Ok((p, m)) ==> {
                &&& p@ == provider_part(self.model@)
                &&& m@ == model_part(self.model@)
                &&& !p@.contains('/')
                &&& p@ + seq!['/'] + m@ == self.model@
            },
    {
        let v = chars_of(self.model.as_str());
        let i = find_char_from(v.as_slice(), '/', 0);
        proof {
            crate::text::lemma_find_char_bounds(v@, '/');
            assert(v@.subrange(0, v@.len() as int) =~= v@);
        }
        if i == v.len() {
            assert(!v@.contains('/'));
            return Err(ConfigError::ModelNotQualified);
        }
        let p = slice_of(v.as_slice(), 0, i);
        let m = slice_of(v.as_slice(), i + 1, v.len());
        assert(v@.contains('/')) by {
            assert(v@[i as int] == '/');
        }
        assert(p@ + seq!['/'] + m@ =~= v@);
        Ok((string_of(p.as_slice()), string_of(m.as_slice())))
    }
}

/// The configuration file to edit: `--config` when given, else the platform
/// default.
pub fn resolve_config_path(cli: &Cli, default_path: Option<String>) -> (r: Result<
    String,
    ConfigError,
>)
    ensures
        match (cli.config, default_path) {
            (Some(p), _) => r matches Ok(q) && q@ == p@,
            (None, Some(d)) => r matches Ok(q) && q@ == d@,
            (None, None) => r == Err::<String, ConfigError>(ConfigError::NoConfigPath),
        },
{
    match &cli.config {
        Some(p) => Ok(p.clone()),
        None => match default_path {
            Some(d) => Ok(d),
            None => Err(ConfigError::NoConfigPath),
        },
    }
}

} // verus!
