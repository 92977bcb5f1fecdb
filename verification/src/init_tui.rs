//! The rules behind the `--init` configuration editor: the menu entries and
//! their descriptions, how typed values are read, and how each edit changes
//! the configuration. Drawing the screens is left to the binary.

use vstd::prelude::*;
use crate::config::{Config, ProviderEnv};
use crate::text::{
    chars_eq, chars_of, clone_opt, is_blank, opt_view, push_str_chars, string_of, trim, trimmed,
    views,
};

verus! {

/// One entry of the main menu.
#[derive(Debug, Clone, Copy, PartialEq, Eq, Structural)]
pub enum Field {
    Model,
    HistoryLimit,
    Temperature,
    SystemPrompt,
    AdditionalContext,
    ContextFiles,
    Plugins,
    OpenAi,
    Anthropic,
    Ollama,
    Thinking,
}

/// The configuration key an entry edits.
pub open spec fn field_label(f: Field) -> Seq<char> {
    match f {
        Field::Model => "model"@,
        Field::HistoryLimit => "history_limit"@,
        Field::Temperature => "temperature"@,
        Field::SystemPrompt => "system_prompt"@,
        Field::AdditionalContext => "additional_context"@,
        Field::ContextFiles => "context_files"@,
        Field::Plugins => "plugins"@,
        Field::Thinking => "thinking"@,
        Field::OpenAi => "providers.openai"@,
        Field::Anthropic => "providers.anthropic"@,
        Field::Ollama => "providers.ollama"@,
    }
}

/// The one-line help shown next to an entry.
pub open spec fn field_description(f: Field) -> Seq<char> {
    match f {
        Field::Model => "Default model in `provider/model-name` form. Pick from a live catalogue."@,
        Field::HistoryLimit => "How many recent shell-history lines to read off the history file and send to the LLM."@,
        Field::Temperature => "Sampling temperature (0.0\u{2013}2.0). Leave blank to use the provider default."@,
        Field::SystemPrompt => "Override the system prompt sent to the model. Leave blank for the default."@,
        Field::AdditionalContext => "Extra text appended to the system prompt on every request. Leave blank to omit."@,
        Field::ContextFiles => "File paths whose contents are injected as high-priority context into the system prompt."@,
        Field::Plugins => "Shell commands run before each request; their stdout is injected into the prompt."@,
        Field::OpenAi => "OpenAI provider settings: api_key, base_url."@,
        Field::Anthropic => "Anthropic provider settings: api_key, base_url."@,
        Field::Ollama => "Ollama provider settings: api_key (usually unset), base_url."@,
        Field::Thinking => "Enable model thinking output (e.g., CoT traces). Toggle on/off."@,
    }
}

impl Field {
    pub fn label(&self) -> (l: &'static str)
        ensures
            l@ == field_label(*self),
    {
        match self {
            Field::Model => "model",
            Field::HistoryLimit => "history_limit",
            Field::Temperature => "temperature",
            Field::SystemPrompt => "system_prompt",
            Field::AdditionalContext => "additional_context",
            Field::ContextFiles => "context_files",
            Field::Plugins => "plugins",
            Field::Thinking => "thinking",
            Field::OpenAi => "providers.openai",
            Field::Anthropic => "providers.anthropic",
            Field::Ollama => "providers.ollama",
        }
    }

    pub fn description(&self) -> (d: &'static str)
        ensures
            d@ == field_description(*self),
    {
        match self {
            Field::Model => "Default model in `provider/model-name` form. Pick from a live catalogue.",
            Field::HistoryLimit => "How many recent shell-history lines to read off the history file and send to the LLM.",
            Field::Temperature => "Sampling temperature (0.0\u{2013}2.0). Leave blank to use the provider default.",
            Field::SystemPrompt => "Override the system prompt sent to the model. Leave blank for the default.",
            Field::AdditionalContext => "Extra text appended to the system prompt on every request. Leave blank to omit.",
            Field::ContextFiles => "File paths whose contents are injected as high-priority context into the system prompt.",
            Field::Plugins => "Shell commands run before each request; their stdout is injected into the prompt.",
            Field::OpenAi => "OpenAI provider settings: api_key, base_url.",
            Field::Anthropic => "Anthropic provider settings: api_key, base_url.",
            Field::Ollama => "Ollama provider settings: api_key (usually unset), base_url.",
            Field::Thinking => "Enable model thinking output (e.g., CoT traces). Toggle on/off.",
        }
    }
}

/// The main menu, top to bottom.
pub open spec fn menu_fields() -> Seq<Field> {
    seq![
        Field::Model,
        Field::HistoryLimit,
        Field::Temperature,
        Field::SystemPrompt,
        Field::AdditionalContext,
        Field::ContextFiles,
        Field::Plugins,
        Field::OpenAi,
        Field::Anthropic,
        Field::Ollama,
        Field::Thinking,
    ]
}

pub fn all_fields() -> (fs: Vec<Field>)
    ensures
        fs@ == menu_fields(),
{
    let mut fs: Vec<Field> = Vec::new();
    fs.push(Field::Model);
    fs.push(Field::HistoryLimit);
    fs.push(Field::Temperature);
    fs.push(Field::SystemPrompt);
    fs.push(Field::AdditionalContext);
    fs.push(Field::ContextFiles);
    fs.push(Field::Plugins);
    fs.push(Field::OpenAi);
    fs.push(Field::Anthropic);
    fs.push(Field::Ollama);
    fs.push(Field::Thinking);
    assert(fs@ =~= menu_fields());
    fs
}

/// The longest label among `fs`.
pub open spec fn max_label_len(fs: Seq<Field>) -> nat
    decreases fs.len(),
{
    if fs.len() == 0 {
        0
    } else {
        let m = max_label_len(fs.drop_last());
        let l = field_label(fs.last()).len();
        if l > m {
            l
        } else {
            m
        }
    }
}

/// The width the labels of the main menu are padded to.
pub fn label_width() -> (w: usize)
    ensures
        w == max_label_len(menu_fields()),
{
    let fs = all_fields();
    let mut w: usize = 0;
    let mut i: usize = 0;
    while i < fs.len()
        invariant
            i <= fs@.len(),
            fs@ == menu_fields(),
            w == max_label_len(fs@.subrange(0, i as int)),
        decreases fs@.len() - i,
    {
        assert(fs@.subrange(0, i + 1).drop_last() =~= fs@.subrange(0, i as int));
        let l = chars_of(fs[i].label()).len();
        if l > w {
            w = l;
        }
        i = i + 1;
    }
    assert(fs@.subrange(0, fs@.len() as int) =~= fs@);
    w
}

/// `s` padded with spaces on the right to `width` characters.
pub open spec fn pad_to(s: Seq<char>, width: nat) -> Seq<char> {
    if s.len() < width {
        s + Seq::new((width - s.len()) as nat, |i: int| ' ')
    } else {
        s
    }
}

/// The text of one main-menu entry: the label padded to `width`, two
/// spaces, the description; the thinking entry shows whether it is on.
pub open spec fn menu_line(f: Field, thinking: bool, width: nat) -> Seq<char> {
    pad_to(field_label(f), width) + "  "@ + if f == Field::Thinking {
        (if thinking {
            "[x]"@
        } else {
            "[ ]"@
        }) + "  "@ + field_description(f)
    } else {
        field_description(f)
    }
}

pub fn menu_entry(f: Field, thinking: bool, width: usize) -> (line: String)
    ensures
        line@ == menu_line(f, thinking, width as nat),
{
    let mut out = chars_of(f.label());
    let ghost label = out@;
    while out.len() < width
        invariant
            label == field_label(f),
            label.len() <= out@.len() <= width || out@ == label,
            out@.len() >= label.len(),
            out@ == label + Seq::new((out@.len() - label.len()) as nat, |i: int| ' '),
        decreases width - out@.len(),
    {
        out.push(' ');
        assert(out@ =~= label + Seq::new((out@.len() - label.len()) as nat, |i: int| ' '));
    }
    assert(out@ =~= pad_to(label, width as nat));
    push_str_chars(&mut out, "  ");
    match f {
        Field::Thinking => {
            if thinking {
                push_str_chars(&mut out, "[x]");
            } else {
                push_str_chars(&mut out, "[ ]");
            }
            push_str_chars(&mut out, "  ");
            push_str_chars(&mut out, f.description());
        },
        _ => {
            push_str_chars(&mut out, f.description());
        },
    }
    assert(out@ =~= menu_line(f, thinking, width as nat));
    string_of(out.as_slice())
}

// ---------------------------------------------------------------------------
// Reading typed values
// ---------------------------------------------------------------------------

/// A typed value, or `None` when it is blank.
pub fn blank_to_none(raw: String) -> (v: Option<String>)
    ensures
        v is None <==> trim(raw@).len() == 0,
        v matches Some(s) ==> s@ == raw@,
{
    if is_blank(raw.as_str()) {
        None
    } else {
        Some(raw)
    }
}

pub open spec fn is_digit(c: char) -> bool {
    '0' <= c && c <= '9'
}

pub open spec fn digit_value(c: char) -> int {
    (c as u32) - ('0' as u32)
}

/// The number a string of decimal digits spells.
pub open spec fn decimal_value(d: Seq<char>) -> int
    decreases d.len(),
{
    if d.len() == 0 {
        0
    } else {
        decimal_value(d.drop_last()) * 10 + digit_value(d.last())
    }
}

pub open spec fn all_digits(d: Seq<char>) -> bool {
    forall|i: int| 0 <= i < d.len() ==> is_digit(#[trigger] d[i])
}

/// What `usize::from_str` accepts: an optional `'+'`, then one or more
/// decimal digits spelling a number that fits in a `usize`.
pub open spec fn parsed_usize(s: Seq<char>) -> Option<usize> {
    let d = if s.len() > 0 && s[0] == '+' {
        s.drop_first()
    } else {
        s
    };
    if d.len() > 0 && all_digits(d) && decimal_value(d) <= usize::MAX {
        Some(decimal_value(d) as usize)
    } else {
        None
    }
}

proof fn lemma_decimal_value_nonneg(d: Seq<char>)
    requires
        all_digits(d),
    ensures
        decimal_value(d) >= 0,
    decreases d.len(),
{
    if d.len() > 0 {
        assert(all_digits(d.drop_last())) by {
            assert forall|i: int| 0 <= i < d.drop_last().len() implies is_digit(
                #[trigger] d.drop_last()[i],
            ) by {
                assert(d.drop_last()[i] == d[i]);
            }
        }
        lemma_decimal_value_nonneg(d.drop_last());
        assert(is_digit(d.last()));
    }
}

/// A longer digit string spells a number at least as large.
proof fn lemma_decimal_value_grows(d: Seq<char>, k: int)
    requires
        0 <= k <= d.len(),
        all_digits(d),
    ensures
        decimal_value(d.subrange(0, k)) <= decimal_value(d),
    decreases d.len() - k,
{
    if k < d.len() {
        lemma_decimal_value_grows(d, k + 1);
        let p = d.subrange(0, k + 1);
        assert(p.drop_last() =~= d.subrange(0, k));
        assert(all_digits(d.subrange(0, k))) by {
            assert forall|i: int| 0 <= i < k implies is_digit(#[trigger] d.subrange(0, k)[i]) by {
                assert(d.subrange(0, k)[i] == d[i]);
            }
        }
        lemma_decimal_value_nonneg(d.subrange(0, k));
        assert(is_digit(p.last()));
    } else {
        assert(d.subrange(0, k) =~= d);
    }
}

/// Reads a history limit typed into the editor: surrounding whitespace is
/// ignored, the rest must be what `usize::from_str` accepts.
pub fn parse_history_limit(raw: &str) -> (n: Option<usize>)
    ensures
        n == parsed_usize(trim(raw@)),
{
    let v = chars_of(raw);
    let (lo, hi) = crate::text::trim_bounds(v.as_slice());
    let ghost t = v@.subrange(lo as int, hi as int);
    let start = if lo < hi && v[lo] == '+' {
        lo + 1
    } else {
        lo
    };
    let ghost d = v@.subrange(start as int, hi as int);
    assert(d =~= if t.len() > 0 && t[0] == '+' {
        t.drop_first()
    } else {
        t
    });
    if start == hi {
        return None;
    }
    let mut value: usize = 0;
    let mut i = start;
    while i < hi
        invariant
            start <= i <= hi <= v@.len(),
            d == v@.subrange(start as int, hi as int),
            d.len() > 0,
            trim(raw@) == t,
            d == (if t.len() > 0 && t[0] == '+' {
                t.drop_first()
            } else {
                t
            }),
            all_digits(v@.subrange(start as int, i as int)),
            value == decimal_value(v@.subrange(start as int, i as int)),
        decreases hi - i,
    {
        let c = v[i];
        let ghost p = v@.subrange(start as int, i + 1);
        assert(p.drop_last() =~= v@.subrange(start as int, i as int));
        if !('0' <= c && c <= '9') {
            assert(!is_digit(d[i - start]));
            return None;
        }
        assert(all_digits(p)) by {
            assert forall|j: int| 0 <= j < p.len() implies is_digit(#[trigger] p[j]) by {
                if j < p.len() - 1 {
                    assert(p[j] == v@.subrange(start as int, i as int)[j]);
                }
            }
        }
        let dv = (c as u32 - '0' as u32) as usize;
        let next = match value.checked_mul(10) {
            Some(m) => m.checked_add(dv),
            None => None,
        };
        match next {
            Some(x) => {
                value = x;
            },
            None => {
                proof {
                    // Every longer digit string only grows.
                    if all_digits(d) {
                        lemma_decimal_value_grows(d, i + 1 - start);
                        assert(d.subrange(0, i + 1 - start) =~= p);
                    }
                }
                return None;
            },
        }
        i = i + 1;
    }
    assert(v@.subrange(start as int, hi as int) =~= d);
    Some(value)
}

// ---------------------------------------------------------------------------
// Editing single settings
// ---------------------------------------------------------------------------

/// Flips the `thinking` switch; nothing else changes.
pub fn toggle_thinking(cfg: &mut Config)
    ensures
        *final(cfg) == (Config { thinking: !old(cfg).thinking, ..*old(cfg) }),
{
    cfg.thinking = !cfg.thinking;
}

/// Sets the model picked in the catalogue; nothing else changes.
pub fn set_model(cfg: &mut Config, model: String)
    ensures
        *final(cfg) == (Config { model: model, ..*old(cfg) }),
{
    cfg.model = model;
}

/// Saves a typed history limit. When it does not read as a number, the
/// configuration is left as it was and `false` comes back.
pub fn set_history_limit(cfg: &mut Config, raw: &str) -> (ok: bool)
    ensures
        ok <==> parsed_usize(trim(raw@)) is Some,
        match parsed_usize(trim(raw@)) {
            Some(n) => *final(cfg) == (Config { history_limit: n, ..*old(cfg) }),
            None => *final(cfg) == *old(cfg),
        },
{
    match parse_history_limit(raw) {
        Some(n) => {
            cfg.history_limit = n;
            true
        },
        None => false,
    }
}

/// Saves a typed system prompt; a blank one unsets it.
pub fn set_system_prompt(cfg: &mut Config, raw: String)
    ensures
        opt_view(final(cfg).system_prompt) == (if trim(raw@).len() == 0 {
            None
        } else {
            Some(raw@)
        }),
        *final(cfg) == (Config { system_prompt: final(cfg).system_prompt, ..*old(cfg) }),
{
    cfg.system_prompt = blank_to_none(raw);
}

/// Saves typed additional context; a blank one unsets it.
pub fn set_additional_context(cfg: &mut Config, raw: String)
    ensures
        opt_view(final(cfg).additional_context) == (if trim(raw@).len() == 0 {
            None
        } else {
            Some(raw@)
        }),
        *final(cfg) == (Config { additional_context: final(cfg).additional_context, ..*old(cfg) }),
{
    cfg.additional_context = blank_to_none(raw);
}

// ---------------------------------------------------------------------------
// Provider settings
// ---------------------------------------------------------------------------

/// One provider's settings slot.
#[derive(Debug, Clone, Copy, PartialEq, Eq, Structural)]
pub enum ProviderSlot {
    OpenAi,
    Anthropic,
    Ollama,
}

/// One setting of a provider.
#[derive(Debug, Clone, Copy, PartialEq, Eq, Structural)]
pub enum ProviderField {
    ApiKey,
    BaseUrl,
}

pub open spec fn slot_name(slot: ProviderSlot) -> Seq<char> {
    match slot {
        ProviderSlot::OpenAi => "openai"@,
        ProviderSlot::Anthropic => "anthropic"@,
        ProviderSlot::Ollama => "ollama"@,
    }
}

/// The settings held in a slot.
pub open spec fn slot_env(cfg: Config, slot: ProviderSlot) -> Option<ProviderEnv> {
    match slot {
        ProviderSlot::OpenAi => cfg.providers.openai,
        ProviderSlot::Anthropic => cfg.providers.anthropic,
        ProviderSlot::Ollama => cfg.providers.ollama,
    }
}

/// The two settings of a provider, as text.
pub open spec fn env_view(e: ProviderEnv) -> (Option<Seq<char>>, Option<Seq<char>>) {
    (opt_view(e.api_key), opt_view(e.base_url))
}

/// The settings of a slot, an unset slot reading as empty settings.
pub open spec fn slot_view(cfg: Config, slot: ProviderSlot) -> (
    Option<Seq<char>>,
    Option<Seq<char>>,
) {
    match slot_env(cfg, slot) {
        Some(e) => env_view(e),
        None => (None, None),
    }
}

/// `a` and `b` agree on everything but the provider settings.
pub open spec fn same_but_providers(a: Config, b: Config) -> bool {
    &&& a.model == b.model
    &&& a.history_limit == b.history_limit
    &&& a.temperature == b.temperature
    &&& a.system_prompt == b.system_prompt
    &&& a.additional_context == b.additional_context
    &&& a.context_files == b.context_files
    &&& a.plugins == b.plugins
    &&& a.thinking == b.thinking
}

impl ProviderSlot {
    pub fn name(&self) -> (n: &'static str)
        ensures
            n@ == slot_name(*self),
    {
        match self {
            ProviderSlot::OpenAi => "openai",
            ProviderSlot::Anthropic => "anthropic",
            ProviderSlot::Ollama => "ollama",
        }
    }

    pub fn get<'a>(&self, cfg: &'a Config) -> (e: Option<&'a ProviderEnv>)
        ensures
            e is Some <==> slot_env(*cfg, *self) is Some,
            e matches Some(x) ==> slot_env(*cfg, *self) == Some(*x),
    {
        match self {
            ProviderSlot::OpenAi => cfg.providers.openai.as_ref(),
            ProviderSlot::Anthropic => cfg.providers.anthropic.as_ref(),
            ProviderSlot::Ollama => cfg.providers.ollama.as_ref(),
        }
    }

    /// Stores `env` in the slot.
    pub fn set(&self, cfg: &mut Config, env: ProviderEnv)
        ensures
            slot_env(*final(cfg), *self) == Some(env),
            forall|other: ProviderSlot| other != *self ==> slot_env(*final(cfg), other)
                == slot_env(*old(cfg), other),
            same_but_providers(*final(cfg), *old(cfg)),
    {
        match self {
            ProviderSlot::OpenAi => {
                cfg.providers.openai = Some(env);
            },
            ProviderSlot::Anthropic => {
                cfg.providers.anthropic = Some(env);
            },
            ProviderSlot::Ollama => {
                cfg.providers.ollama = Some(env);
            },
        }
    }
}

impl ProviderField {
    pub fn key(&self) -> (k: &'static str)
        ensures
            k@ == match *self {
                ProviderField::ApiKey => "api_key"@,
                ProviderField::BaseUrl => "base_url"@,
            },
    {
        match self {
            ProviderField::ApiKey => "api_key",
            ProviderField::BaseUrl => "base_url",
        }
    }
}

/// A provider setting as the editor shows it: empty when unset.
pub open spec fn field_value(cfg: Config, slot: ProviderSlot, field: ProviderField) -> Seq<char> {
    match (slot_view(cfg, slot), field) {
        ((Some(k), _), ProviderField::ApiKey) => k,
        ((_, Some(u)), ProviderField::BaseUrl) => u,
        _ => Seq::<char>::empty(),
    }
}

/// A slot's settings after `field` was saved as the typed `raw`: a blank
/// value unsets it, the other setting is kept.
pub open spec fn edited_view(
    cfg: Config,
    slot: ProviderSlot,
    field: ProviderField,
    raw: Seq<char>,
) -> (Option<Seq<char>>, Option<Seq<char>>) {
    let value = if trim(raw).len() == 0 {
        None
    } else {
        Some(raw)
    };
    let (k, u) = slot_view(cfg, slot);
    match field {
        ProviderField::ApiKey => (value, u),
        ProviderField::BaseUrl => (k, value),
    }
}

/// The current value of a provider setting, empty when unset.
pub fn provider_field_value(cfg: &Config, slot: ProviderSlot, field: ProviderField) -> (v:
    String)
    ensures
        v@ == field_value(*cfg, slot, field),
{
    match slot.get(cfg) {
        Some(env) => {
            let v = match field {
                ProviderField::ApiKey => &env.api_key,
                ProviderField::BaseUrl => &env.base_url,
            };
            match v {
                Some(s) => s.clone(),
                None => String::new(),
            }
        },
        None => String::new(),
    }
}

/// Saves a typed provider setting: a blank value unsets it. The slot is
/// created when it was unset; the provider's other setting and the other
/// providers are kept.
pub fn edit_provider_field(cfg: &mut Config, slot: ProviderSlot, field: ProviderField, raw: String)
    ensures
        same_but_providers(*final(cfg), *old(cfg)),
        forall|other: ProviderSlot| other != slot ==> slot_env(*final(cfg), other) == slot_env(
            *old(cfg),
            other,
        ),
        slot_env(*final(cfg), slot) is Some,
        slot_view(*final(cfg), slot) == edited_view(*old(cfg), slot, field, raw@),
{
    let value = blank_to_none(raw);
    let mut env = match slot.get(cfg) {
        Some(e) => ProviderEnv { api_key: clone_opt(&e.api_key), base_url: clone_opt(&e.base_url) },
        None => ProviderEnv { api_key: None, base_url: None },
    };
    match field {
        ProviderField::ApiKey => {
            env.api_key = value;
        },
        ProviderField::BaseUrl => {
            env.base_url = value;
        },
    }
    slot.set(cfg, env);
}

/// A saved provider setting reads back as it was typed, a blank one reads
/// back empty, and the provider's other setting reads as before.
pub proof fn lemma_provider_edit_reads_back(
    before: Config,
    after: Config,
    slot: ProviderSlot,
    field: ProviderField,
    raw: Seq<char>,
)
    requires
        slot_view(after, slot) == edited_view(before, slot, field, raw),
    ensures
        field_value(after, slot, field) == if trim(raw).len() == 0 {
            Seq::<char>::empty()
        } else {
            raw
        },
        forall|other: ProviderField|
            other != field ==> field_value(after, slot, other) == field_value(before, slot, other),
{
}

// ---------------------------------------------------------------------------
// Plugins
// ---------------------------------------------------------------------------

/// `a` and `b` agree on everything but the plugin list.
pub open spec fn same_but_plugins(a: Config, b: Config) -> bool {
    &&& a.model == b.model
    &&& a.history_limit == b.history_limit
    &&& a.temperature == b.temperature
    &&& a.system_prompt == b.system_prompt
    &&& a.providers == b.providers
    &&& a.additional_context == b.additional_context
    &&& a.context_files == b.context_files
    &&& a.thinking == b.thinking
}

/// `s` without any element equal to `x`.
pub open spec fn without(s: Seq<Seq<char>>, x: Seq<char>) -> Seq<Seq<char>>
    decreases s.len(),
{
    if s.len() == 0 {
        s
    } else if s.last() == x {
        without(s.drop_last(), x)
    } else {
        without(s.drop_last(), x).push(s.last())
    }
}

/// `list` after adding the typed entry `raw`: trimmed, ignored when blank
/// or already listed.
pub open spec fn with_entry(list: Seq<Seq<char>>, raw: Seq<char>) -> Seq<Seq<char>> {
    if trim(raw).len() > 0 && !list.contains(trim(raw)) {
        list.push(trim(raw))
    } else {
        list
    }
}

/// Adding a non-blank entry leaves it listed, and a list without
/// duplicates stays without.
pub proof fn lemma_with_entry(list: Seq<Seq<char>>, raw: Seq<char>)
    requires
        trim(raw).len() > 0,
    ensures
        with_entry(list, raw).contains(trim(raw)),
        list.no_duplicates() ==> with_entry(list, raw).no_duplicates(),
        forall|x: Seq<char>| list.contains(x) ==> with_entry(list, raw).contains(x),
{
    let t = trim(raw);
    if !list.contains(t) {
        let r = list.push(t);
        assert(r[list.len() as int] == t);
        assert forall|x: Seq<char>| list.contains(x) implies r.contains(x) by {
            let i = choose|i: int| 0 <= i < list.len() && list[i] == x;
            assert(r[i] == x);
        }
        if list.no_duplicates() {
            assert forall|i: int, j: int|
                0 <= i < r.len() && 0 <= j < r.len() && i != j implies r[i] != r[j] by {
                if i == list.len() as int {
                    assert(list[j] == r[j]);
                } else if j == list.len() as int {
                    assert(list[i] == r[i]);
                }
            }
        }
    }
}

/// Removing an entry leaves none equal to it and keeps all others, in order.
pub proof fn lemma_without(s: Seq<Seq<char>>, x: Seq<char>)
    ensures
        !without(s, x).contains(x),
        forall|y: Seq<char>| y != x ==> (without(s, x).contains(y) <==> s.contains(y)),
    decreases s.len(),
{
    if s.len() > 0 {
        lemma_without(s.drop_last(), x);
        let r = without(s.drop_last(), x);
        assert forall|y: Seq<char>| y != x implies (without(s, x).contains(y) <==> s.contains(y))
            by {
            if s.contains(y) {
                let i = choose|i: int| 0 <= i < s.len() && s[i] == y;
                if i < s.len() - 1 {
                    assert(s.drop_last()[i] == y);
                    assert(s.drop_last().contains(y));
                    assert(r.contains(y));
                    let k = choose|k: int| 0 <= k < r.len() && r[k] == y;
                    assert(without(s, x)[k] == y);
                } else {
                    assert(without(s, x)[r.len() as int] == y);
                }
            }
            if without(s, x).contains(y) {
                let i = choose|i: int| 0 <= i < without(s, x).len() && without(s, x)[i] == y;
                if i < r.len() {
                    assert(r[i] == y);
                    assert(r.contains(y));
                    assert(s.drop_last().contains(y));
                    let k = choose|k: int| 0 <= k < s.drop_last().len() && s.drop_last()[k] == y;
                    assert(s[k] == y);
                } else {
                    assert(s[s.len() - 1] == y);
                }
            }
        }
        if without(s, x).contains(x) {
            let i = choose|i: int| 0 <= i < without(s, x).len() && without(s, x)[i] == x;
            if i < r.len() {
                assert(r[i] == x);
            }
        }
    }
}

/// Removing what the list does not hold leaves it as it is.
proof fn lemma_without_absent(s: Seq<Seq<char>>, x: Seq<char>)
    requires
        !s.contains(x),
    ensures
        without(s, x) == s,
    decreases s.len(),
{
    if s.len() > 0 {
        assert(s[s.len() - 1] == s.last());
        assert(!s.drop_last().contains(x)) by {
            if s.drop_last().contains(x) {
                let k = choose|k: int| 0 <= k < s.drop_last().len() && s.drop_last()[k] == x;
                assert(s[k] == x);
            }
        }
        lemma_without_absent(s.drop_last(), x);
        assert(s.drop_last().push(s.last()) =~= s);
    }
}

/// Removing an entry that was not listed before undoes adding it.
pub proof fn lemma_remove_undoes_add_entry(list: Seq<Seq<char>>, raw: Seq<char>)
    requires
        trim(raw).len() > 0,
        !list.contains(trim(raw)),
    ensures
        without(with_entry(list, raw), trim(raw)) == list,
{
    let t = trim(raw);
    assert(list.push(t).drop_last() =~= list);
    lemma_without_absent(list, t);
}

/// Adding the same entry twice is adding it once.
pub proof fn lemma_with_entry_twice(list: Seq<Seq<char>>, raw: Seq<char>)
    ensures
        with_entry(with_entry(list, raw), raw) == with_entry(list, raw),
{
    if trim(raw).len() > 0 {
        lemma_with_entry(list, raw);
    }
}

/// Whether `x` occurs among `list`.
fn contains_string(list: &Vec<String>, x: &[char]) -> (b: bool)
    ensures
        b == views(list@).contains(x@),
{
    let mut i: usize = 0;
    while i < list.len()
        invariant
            i <= list@.len(),
            forall|j: int| 0 <= j < i ==> #[trigger] views(list@)[j] != x@,
        decreases list@.len() - i,
    {
        let v = chars_of(list[i].as_str());
        assert(views(list@)[i as int] == list@[i as int]@);
        if chars_eq(v.as_slice(), x) {
            return true;
        }
        i = i + 1;
    }
    false
}

/// Adds a typed plugin command: trimmed, ignored when blank, not added twice.
/// Gives back the trimmed command unless it was blank.
pub fn add_plugin(cfg: &mut Config, raw: &str) -> (added: Option<String>)
    ensures
        same_but_plugins(*final(cfg), *old(cfg)),
        added is None <==> trim(raw@).len() == 0,
        added matches Some(c) ==> c@ == trim(raw@),
        views(final(cfg).plugins@) == with_entry(views(old(cfg).plugins@), raw@),
{
    let v = chars_of(raw);
    let t = trimmed(v.as_slice());
    if t.len() == 0 {
        return None;
    }
    if !contains_string(&cfg.plugins, t.as_slice()) {
        let s = string_of(t.as_slice());
        let ghost old_list = cfg.plugins@;
        cfg.plugins.push(s);
        assert(views(cfg.plugins@) =~= views(old_list).push(t@));
    }
    Some(string_of(t.as_slice()))
}

/// `list` without the entries equal to `x`.
fn remove_all(list: &Vec<String>, x: &str) -> (kept: Vec<String>)
    ensures
        views(kept@) == without(views(list@), x@),
{
    let target = chars_of(x);
    let ghost orig = views(list@);
    let mut kept: Vec<String> = Vec::new();
    let mut i: usize = 0;
    while i < list.len()
        invariant
            i <= list@.len(),
            orig == views(list@),
            target@ == x@,
            views(kept@) == without(orig.subrange(0, i as int), x@),
        decreases list@.len() - i,
    {
        let v = chars_of(list[i].as_str());
        assert(orig[i as int] == list@[i as int]@);
        assert(orig.subrange(0, i + 1).drop_last() =~= orig.subrange(0, i as int));
        if !chars_eq(v.as_slice(), target.as_slice()) {
            let ghost old_kept = kept@;
            kept.push(list[i].clone());
            assert(views(kept@) =~= views(old_kept).push(orig[i as int]));
        }
        i = i + 1;
    }
    assert(orig.subrange(0, orig.len() as int) =~= orig);
    kept
}

/// Removes every plugin equal to `cmd`.
pub fn remove_plugin(cfg: &mut Config, cmd: &str)
    ensures
        same_but_plugins(*final(cfg), *old(cfg)),
        views(final(cfg).plugins@) == without(views(old(cfg).plugins@), cmd@),
{
    let kept = remove_all(&cfg.plugins, cmd);
    cfg.plugins = kept;
}

// ---------------------------------------------------------------------------
// Context files
// ---------------------------------------------------------------------------

/// `a` and `b` agree on everything but the context file list.
pub open spec fn same_but_context_files(a: Config, b: Config) -> bool {
    &&& a.model == b.model
    &&& a.history_limit == b.history_limit
    &&& a.temperature == b.temperature
    &&& a.system_prompt == b.system_prompt
    &&& a.providers == b.providers
    &&& a.additional_context == b.additional_context
    &&& a.plugins == b.plugins
    &&& a.thinking == b.thinking
}

/// The pieces of `s` between `'/'` characters.
pub open spec fn split_slash(s: Seq<char>) -> Seq<Seq<char>>
    decreases s.len(),
{
    if s.len() == 0 {
        seq![Seq::<char>::empty()]
    } else {
        let r = split_slash(s.drop_last());
        if s.last() == '/' {
            r.push(Seq::<char>::empty())
        } else {
            r.update(r.len() - 1, r.last().push(s.last()))
        }
    }
}

/// The named pieces of a path: empty pieces and `.` dropped.
pub open spec fn normal_parts(parts: Seq<Seq<char>>) -> Seq<Seq<char>>
    decreases parts.len(),
{
    if parts.len() == 0 {
        parts
    } else {
        let r = normal_parts(parts.drop_last());
        let p = parts.last();
        if p.len() > 0 && p != seq!['.'] {
            r.push(p)
        } else {
            r
        }
    }
}

/// The components of a Unix path, as `Path::components` yields them: the
/// root, a leading `.` (only when the path is `.` or starts with `./`),
/// then the named pieces; repeated and trailing `'/'` and inner `.` vanish.
/// Two paths are equal (`Path::eq`) exactly when their components are.
pub open spec fn path_components(s: Seq<char>) -> Seq<Seq<char>> {
    let rooted = s.len() > 0 && s[0] == '/';
    let cur = !rooted && s.len() > 0 && s[0] == '.' && (s.len() == 1 || s[1] == '/');
    (if rooted {
        seq![seq!['/']]
    } else {
        Seq::empty()
    }) + (if cur {
        seq![seq!['.']]
    } else {
        Seq::empty()
    }) + normal_parts(split_slash(s))
}

fn is_named_part(p: &Vec<char>) -> (b: bool)
    ensures
        b == (p@.len() > 0 && p@ != seq!['.']),
{
    if p.len() == 0 {
        false
    } else if p.len() == 1 && p[0] == '.' {
        assert(p@ =~= seq!['.']);
        false
    } else {
        if p.len() == 1 {
            assert(p@[0] != seq!['.'][0]);
        }
        true
    }
}

/// The components of the path `s` (see `path_components`).
pub fn components_of(s: &[char]) -> (cs: Vec<Vec<char>>)
    ensures
        crate::text::char_views(cs@) == path_components(s@),
{
    let n = s.len();
    let mut out: Vec<Vec<char>> = Vec::new();
    let rooted = n > 0 && s[0] == '/';
    if rooted {
        let mut root: Vec<char> = Vec::new();
        root.push('/');
        out.push(root);
    }
    if !rooted && n > 0 && s[0] == '.' && (n == 1 || s[1] == '/') {
        let mut cur: Vec<char> = Vec::new();
        cur.push('.');
        out.push(cur);
    }
    let ghost head = crate::text::char_views(out@);
    let mut piece: Vec<char> = Vec::new();
    let mut i: usize = 0;
    proof {
        assert(s@.subrange(0, 0) =~= Seq::<char>::empty());
        assert(head =~= (if rooted {
            seq![seq!['/']]
        } else {
            Seq::empty()
        }) + (if !rooted && s@.len() > 0 && s@[0] == '.' && (s@.len() == 1 || s@[1] == '/') {
            seq![seq!['.']]
        } else {
            Seq::empty()
        }));
    }
    while i < n
        invariant
            i <= n == s@.len(),
            split_slash(s@.subrange(0, i as int)).len() >= 1,
            crate::text::char_views(out@) == head + normal_parts(
                split_slash(s@.subrange(0, i as int)).drop_last(),
            ),
            piece@ == split_slash(s@.subrange(0, i as int)).last(),
        decreases n - i,
    {
        let c = s[i];
        let ghost pre = s@.subrange(0, i as int);
        let ghost r = split_slash(pre);
        assert(s@.subrange(0, i + 1).drop_last() =~= pre);
        if c == '/' {
            let mut done = Vec::new();
            std::mem::swap(&mut done, &mut piece);
            let ghost old_out = out@;
            let ghost dv = done@;
            if is_named_part(&done) {
                out.push(done);
                assert(crate::text::char_views(out@) =~= crate::text::char_views(old_out).push(dv));
            }
            proof {
                assert(split_slash(s@.subrange(0, i + 1)) == r.push(Seq::<char>::empty()));
                assert(r.push(Seq::<char>::empty()).drop_last() =~= r);
                assert(dv == r.last());
                assert(normal_parts(r) == if dv.len() > 0 && dv != seq!['.'] {
                    normal_parts(r.drop_last()).push(dv)
                } else {
                    normal_parts(r.drop_last())
                });
                assert(crate::text::char_views(out@) =~= head + normal_parts(r));
            }
        } else {
            piece.push(c);
            proof {
                let nr = r.update(r.len() - 1, r.last().push(c));
                assert(split_slash(s@.subrange(0, i + 1)) == nr);
                assert(nr.drop_last() =~= r.drop_last());
            }
        }
        i = i + 1;
    }
    proof {
        assert(s@.subrange(0, n as int) =~= s@);
        let r = split_slash(s@);
        assert(r =~= r.drop_last().push(r.last()));
    }
    let ghost old_out = out@;
    let ghost pv = piece@;
    let ghost r = split_slash(s@);
    if is_named_part(&piece) {
        out.push(piece);
        assert(crate::text::char_views(out@) =~= crate::text::char_views(old_out).push(pv));
    }
    assert(normal_parts(r) == if pv.len() > 0 && pv != seq!['.'] {
        normal_parts(r.drop_last()).push(pv)
    } else {
        normal_parts(r.drop_last())
    });
    assert(crate::text::char_views(out@) =~= path_components(s@));
    out
}

fn same_components(a: &Vec<Vec<char>>, b: &Vec<Vec<char>>) -> (r: bool)
    ensures
        r == (crate::text::char_views(a@) == crate::text::char_views(b@)),
{
    if a.len() != b.len() {
        assert(crate::text::char_views(a@).len() != crate::text::char_views(b@).len());
        return false;
    }
    let mut i: usize = 0;
    while i < a.len()
        invariant
            a@.len() == b@.len(),
            i <= a@.len(),
            forall|j: int| 0 <= j < i ==> a@[j]@ == b@[j]@,
        decreases a@.len() - i,
    {
        if !chars_eq(a[i].as_slice(), b[i].as_slice()) {
            assert(crate::text::char_views(a@)[i as int] != crate::text::char_views(b@)[i as int]);
            return false;
        }
        i = i + 1;
    }
    assert(crate::text::char_views(a@) =~= crate::text::char_views(b@));
    true
}

/// Whether some listed path equals `p` as a path.
pub open spec fn lists_path(list: Seq<Seq<char>>, p: Seq<char>) -> bool {
    exists|i: int| 0 <= i < list.len() && path_components(#[trigger] list[i]) == path_components(p)
}

/// `list` after adding the typed path `raw`: trimmed, ignored when blank or
/// when an equal path is listed already.
pub open spec fn with_path(list: Seq<Seq<char>>, raw: Seq<char>) -> Seq<Seq<char>> {
    if trim(raw).len() > 0 && !lists_path(list, trim(raw)) {
        list.push(trim(raw))
    } else {
        list
    }
}

/// No two listed paths are equal as paths.
pub open spec fn paths_distinct(list: Seq<Seq<char>>) -> bool {
    forall|i: int, j: int|
        0 <= i < list.len() && 0 <= j < list.len() && i != j ==> path_components(
            #[trigger] list[i],
        ) != path_components(#[trigger] list[j])
}

/// After adding a non-blank path, a path equal to it is listed; a list of
/// distinct paths stays one.
pub proof fn lemma_with_path(list: Seq<Seq<char>>, raw: Seq<char>)
    requires
        trim(raw).len() > 0,
    ensures
        lists_path(with_path(list, raw), trim(raw)),
        paths_distinct(list) ==> paths_distinct(with_path(list, raw)),
{
    let t = trim(raw);
    if !lists_path(list, t) {
        let r = list.push(t);
        assert(r[list.len() as int] == t);
        if paths_distinct(list) {
            assert forall|i: int, j: int|
                0 <= i < r.len() && 0 <= j < r.len() && i != j implies path_components(
                #[trigger] r[i],
            ) != path_components(#[trigger] r[j]) by {
                if i == list.len() as int {
                    assert(r[j] == list[j]);
                } else if j == list.len() as int {
                    assert(r[i] == list[i]);
                } else {
                    assert(r[i] == list[i] && r[j] == list[j]);
                }
            }
        }
    }
}

/// Removing a path that no listed path equaled before undoes adding it.
pub proof fn lemma_remove_undoes_add_path(list: Seq<Seq<char>>, raw: Seq<char>)
    requires
        trim(raw).len() > 0,
        !lists_path(list, trim(raw)),
    ensures
        without(with_path(list, raw), trim(raw)) == list,
{
    let t = trim(raw);
    assert(!list.contains(t)) by {
        if list.contains(t) {
            let k = choose|k: int| 0 <= k < list.len() && list[k] == t;
            assert(path_components(list[k]) == path_components(t));
        }
    }
    assert(list.push(t).drop_last() =~= list);
    lemma_without_absent(list, t);
}

/// Adding the same path twice is adding it once.
pub proof fn lemma_with_path_twice(list: Seq<Seq<char>>, raw: Seq<char>)
    ensures
        with_path(with_path(list, raw), raw) == with_path(list, raw),
{
    if trim(raw).len() > 0 {
        lemma_with_path(list, raw);
    }
}

/// Adds a typed context file path: trimmed, ignored when blank, not added
/// when an equal path is listed already. Gives back the trimmed path unless
/// it was blank.
pub fn add_context_file(cfg: &mut Config, raw: &str) -> (added: Option<String>)
    ensures
        same_but_context_files(*final(cfg), *old(cfg)),
        added is None <==> trim(raw@).len() == 0,
        added matches Some(p) ==> p@ == trim(raw@),
        views(final(cfg).context_files@) == with_path(views(old(cfg).context_files@), raw@),
{
    let v = chars_of(raw);
    let t = trimmed(v.as_slice());
    if t.len() == 0 {
        return None;
    }
    let target = components_of(t.as_slice());
    let ghost list = views(cfg.context_files@);
    let mut found = false;
    let mut i: usize = 0;
    while i < cfg.context_files.len()
        invariant
            i <= cfg.context_files@.len(),
            list == views(cfg.context_files@),
            crate::text::char_views(target@) == path_components(t@),
            found <==> exists|j: int| 0 <= j < i && path_components(#[trigger] list[j])
                == path_components(t@),
        decreases cfg.context_files@.len() - i,
    {
        let pv = chars_of(cfg.context_files[i].as_str());
        let pc = components_of(pv.as_slice());
        assert(list[i as int] == cfg.context_files@[i as int]@);
        if same_components(&pc, &target) {
            found = true;
        }
        i = i + 1;
    }
    if !found {
        let s = string_of(t.as_slice());
        let ghost old_list = cfg.context_files@;
        cfg.context_files.push(s);
        assert(views(cfg.context_files@) =~= views(old_list).push(t@));
    }
    Some(string_of(t.as_slice()))
}

/// Removes every context file whose path reads as `path`.
pub fn remove_context_file(cfg: &mut Config, path: &str)
    ensures
        same_but_context_files(*final(cfg), *old(cfg)),
        views(final(cfg).context_files@) == without(views(old(cfg).context_files@), path@),
{
    let kept = remove_all(&cfg.context_files, path);
    cfg.context_files = kept;
}

} // verus!
