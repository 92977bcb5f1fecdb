//! The request sent to the model (system and user prompts, provider
//! routing) and the clean-up of the command that comes back.

use vstd::prelude::*;
use crate::config::{Config, ProviderEnv, model_part, provider_part};
use crate::shell::{ShellContext, ShellKind, shell_name};
use crate::text::{
    ascii_lower_seq, ascii_lowercase, chars_eq, chars_of, has_prefix, has_suffix, is_ws, push_all,
    push_str_chars, slice_of, string_of, trim, trim_bounds, trim_end, trim_start, skip_ws,
    starts_with_at, ends_with_at, views, opt_view, clone_opt, is_whitespace,
};

verus! {

// ---------------------------------------------------------------------------
// Sanitising the answer
// ---------------------------------------------------------------------------

/// What `char::is_alphanumeric` says of `c`.
pub uninterp spec fn is_alnum(c: char) -> bool;

/// `char::is_alphanumeric`: whether `c` is alphabetic or numeric in the
/// Unicode sense. Among ASCII characters these are exactly the letters and
/// digits; which other characters are is left to the name `is_alnum`.
#[verifier::external_body]
fn char_is_alphanumeric(c: char) -> (b: bool)
    ensures
        b == is_alnum(c),
        (c as u32) < 128 ==> (b <==> ('a' <= c <= 'z' || 'A' <= c <= 'Z' || '0' <= c <= '9')),
{
    c.is_alphanumeric()
}

/// Whether `c` is alphanumeric (`char::is_alphanumeric`): among ASCII
/// characters exactly the letters and digits; for the others, what the name
/// `is_alnum` says.
pub open spec fn alnum(c: char) -> bool {
    if (c as u32) < 128 {
        'a' <= c <= 'z' || 'A' <= c <= 'Z' || '0' <= c <= '9'
    } else {
        is_alnum(c)
    }
}

/// `s` without its leading alphanumeric characters.
pub open spec fn skip_alnum(s: Seq<char>) -> Seq<char>
    decreases s.len(),
{
    if s.len() > 0 && alnum(s[0]) {
        skip_alnum(s.drop_first())
    } else {
        s
    }
}

pub open spec fn fence() -> Seq<char> {
    seq!['`', '`', '`']
}

/// Whether the whitespace at the start of `s` holds a line feed.
pub open spec fn opens_line(s: Seq<char>) -> bool
    decreases s.len(),
{
    s.len() > 0 && is_ws(s[0]) && (s[0] == '\n' || opens_line(s.drop_first()))
}

/// What follows an opening fence once its language tag is dropped: a word
/// right after the fence is a tag only when a line break follows it, so a
/// fenced one-line answer keeps its first word.
pub open spec fn after_tag(after_fence: Seq<char>) -> Seq<char> {
    let tagged = skip_alnum(after_fence);
    if opens_line(tagged) {
        tagged
    } else {
        after_fence
    }
}

/// The text inside a code fence: after the opening fence and its language
/// tag, before the closing fence. `None` when `t` is not fenced.
pub open spec fn unfenced(t: Seq<char>) -> Option<Seq<char>> {
    if has_prefix(t, fence()) {
        let rest = trim_start(after_tag(t.subrange(3, t.len() as int)));
        if has_suffix(rest, fence()) {
            Some(rest.subrange(0, rest.len() - 3))
        } else {
            None
        }
    } else {
        None
    }
}

/// The model's answer with surrounding whitespace and a wrapping code
/// fence removed.
pub open spec fn sanitized(raw: Seq<char>) -> Seq<char> {
    let t = trim(raw);
    match unfenced(t) {
        Some(inner) => trim(inner),
        None => t,
    }
}

/// Strips code fences and surrounding whitespace: models often wrap a
/// one-line answer in ``` even when told not to. A word right after the
/// opening fence is dropped as a language tag only when a line break
/// follows it.
pub fn sanitize(raw: String) -> (s: String)
    ensures
        s@ == sanitized(raw@),
        s@.len() > 0 ==> !is_ws(s@[0]) && !is_ws(s@.last()),
{
    let v = chars_of(raw.as_str());
    let (lo, hi) = trim_bounds(v.as_slice());
    let ghost t = v@.subrange(lo as int, hi as int);
    let mut fence_chars: Vec<char> = Vec::new();
    fence_chars.push('`');
    fence_chars.push('`');
    fence_chars.push('`');
    assert(fence_chars@ =~= fence());
    let mut inner_lo = lo;
    let mut inner_hi = hi;
    if starts_with_at(v.as_slice(), lo, hi, fence_chars.as_slice()) {
        // Skip the language tag, then whitespace.
        let mut k = lo + 3;
        assert(t.subrange(3, t.len() as int) =~= v@.subrange(k as int, hi as int));
        while k < hi && char_is_alphanumeric(v[k])
            invariant
                lo + 3 <= k <= hi <= v@.len(),
                skip_alnum(t.subrange(3, t.len() as int)) == skip_alnum(
                    v@.subrange(k as int, hi as int),
                ),
            decreases hi - k,
        {
            assert(v@.subrange(k as int, hi as int).drop_first() =~= v@.subrange(
                k + 1,
                hi as int,
            ));
            k = k + 1;
        }
        proof {
            if k < hi {
                assert(!alnum(v@.subrange(k as int, hi as int)[0]));
            }
            assert(skip_alnum(t.subrange(3, t.len() as int)) == v@.subrange(k as int, hi as int));
        }
        // The tag counts only when a line break follows it.
        let mut m = k;
        while m < hi && is_whitespace(v[m]) && v[m] != '\n'
            invariant
                k <= m <= hi <= v@.len(),
                opens_line(v@.subrange(k as int, hi as int)) == opens_line(
                    v@.subrange(m as int, hi as int),
                ),
            decreases hi - m,
        {
            assert(v@.subrange(m as int, hi as int).drop_first() =~= v@.subrange(
                m + 1,
                hi as int,
            ));
            m = m + 1;
        }
        let opens = m < hi && v[m] == '\n';
        proof {
            if m < hi {
                assert(v@.subrange(m as int, hi as int)[0] == v@[m as int]);
            }
        }
        let start = if opens {
            k
        } else {
            lo + 3
        };
        let rest = slice_of(v.as_slice(), start, hi);
        proof {
            assert(after_tag(t.subrange(3, t.len() as int)) == rest@);
            assert(rest@.subrange(0, rest@.len() as int) =~= rest@);
        }
        let j = skip_ws(rest.as_slice(), 0);
        let ghost r = rest@.subrange(j as int, rest@.len() as int);
        assert(r == trim_start(rest@));
        if ends_with_at(rest.as_slice(), j, rest.len(), fence_chars.as_slice()) {
            let inner = slice_of(rest.as_slice(), j, rest.len() - 3);
            assert(inner@ =~= r.subrange(0, r.len() - 3));
            assert(unfenced(t) == Some(inner@));
            let (a, b) = trim_bounds(inner.as_slice());
            let out = slice_of(inner.as_slice(), a, b);
            proof {
                lemma_trim_shape(inner@);
            }
            return string_of(out.as_slice());
        }
    }
    let out = slice_of(v.as_slice(), lo, hi);
    proof {
        lemma_trim_shape(v@);
    }
    string_of(out.as_slice())
}

proof fn lemma_trim_start_shape(s: Seq<char>)
    ensures
        trim_start(s).len() <= s.len(),
        trim_start(s) == s.subrange(s.len() - trim_start(s).len(), s.len() as int),
        trim_start(s).len() > 0 ==> !is_ws(trim_start(s)[0]),
    decreases s.len(),
{
    if s.len() > 0 && is_ws(s[0]) {
        lemma_trim_start_shape(s.drop_first());
        let r = trim_start(s.drop_first());
        assert(s.drop_first().subrange(s.len() - 1 - r.len(), s.len() - 1) =~= s.subrange(
            s.len() - r.len(),
            s.len() as int,
        ));
    } else {
        assert(s.subrange(0, s.len() as int) =~= s);
    }
}

proof fn lemma_trim_end_shape(s: Seq<char>)
    ensures
        trim_end(s).len() <= s.len(),
        trim_end(s) == s.subrange(0, trim_end(s).len() as int),
        trim_end(s).len() > 0 ==> !is_ws(trim_end(s).last()),
    decreases s.len(),
{
    if s.len() > 0 && is_ws(s.last()) {
        lemma_trim_end_shape(s.drop_last());
        let r = trim_end(s.drop_last());
        assert(s.drop_last().subrange(0, r.len() as int) =~= s.subrange(0, r.len() as int));
    } else {
        assert(s.subrange(0, s.len() as int) =~= s);
    }
}

/// A trimmed text neither begins nor ends with whitespace.
pub proof fn lemma_trim_shape(s: Seq<char>)
    ensures
        trim(s).len() > 0 ==> !is_ws(trim(s)[0]) && !is_ws(trim(s).last()),
{
    lemma_trim_start_shape(s);
    lemma_trim_end_shape(trim_start(s));
    let a = trim_start(s);
    if trim(s).len() > 0 {
        assert(trim(s)[0] == a.subrange(0, trim(s).len() as int)[0]);
    }
}

/// A text that neither begins nor ends with whitespace is its own trim.
pub proof fn lemma_trim_of_trimmed(s: Seq<char>)
    requires
        s.len() > 0 ==> !is_ws(s[0]) && !is_ws(s.last()),
    ensures
        trim(s) == s,
{
}

/// An answer that is already a bare command comes back unchanged.
pub proof fn lemma_sanitize_keeps_plain(raw: Seq<char>)
    requires
        raw.len() > 0 ==> !is_ws(raw[0]) && !is_ws(raw.last()),
        !has_prefix(raw, fence()),
    ensures
        sanitized(raw) == raw,
{
    lemma_trim_of_trimmed(raw);
}

/// Sanitising twice is sanitising once, for answers without nested fences.
pub proof fn lemma_sanitize_idempotent(raw: Seq<char>)
    requires
        !has_prefix(sanitized(raw), fence()),
    ensures
        sanitized(sanitized(raw)) == sanitized(raw),
{
    let t = trim(raw);
    lemma_trim_shape(raw);
    match unfenced(t) {
        Some(inner) => lemma_trim_shape(inner),
        None => {},
    }
    lemma_sanitize_keeps_plain(sanitized(raw));
}

proof fn lemma_skip_alnum_tag(tag: Seq<char>, rest: Seq<char>)
    requires
        forall|k: int| 0 <= k < tag.len() ==> alnum(#[trigger] tag[k]),
    ensures
        skip_alnum(tag + rest) == skip_alnum(rest),
    decreases tag.len(),
{
    if tag.len() > 0 {
        assert((tag + rest)[0] == tag[0]);
        assert((tag + rest).drop_first() =~= tag.drop_first() + rest);
        assert forall|k: int| 0 <= k < tag.drop_first().len() implies alnum(
            #[trigger] tag.drop_first()[k],
        ) by {
            assert(tag.drop_first()[k] == tag[k + 1]);
        }
        lemma_skip_alnum_tag(tag.drop_first(), rest);
    } else {
        assert(tag + rest =~= rest);
    }
}

/// A fenced block, its opening fence followed by an optional language tag
/// and a line break, gives back its whole body, every line of it, when the
/// body has no surrounding whitespace of its own.
pub proof fn lemma_sanitize_fenced_block(tag: Seq<char>, body: Seq<char>)
    requires
        forall|k: int| 0 <= k < tag.len() ==> alnum(#[trigger] tag[k]),
        body.len() > 0 ==> !is_ws(body[0]) && !is_ws(body.last()),
    ensures
        sanitized(fence() + tag + seq!['\n'] + body + seq!['\n'] + fence()) == body,
{
    let nl = seq!['\n'];
    let raw = fence() + tag + nl + body + nl + fence();
    assert(raw[0] == '`');
    assert(raw.last() == '`');
    lemma_trim_of_trimmed(raw);
    assert(raw.subrange(0, 3) =~= fence());
    let after = raw.subrange(3, raw.len() as int);
    let tail = nl + body + nl + fence();
    assert(after =~= tag + tail);
    lemma_skip_alnum_tag(tag, tail);
    assert(tail[0] == '\n');
    assert(!alnum('\n'));
    assert(skip_alnum(tail) == tail);
    assert(opens_line(tail));
    assert(after_tag(after) == tail);
    assert(tail.drop_first() =~= body + nl + fence());
    let rest = trim_start(tail);
    assert(rest == trim_start(body + nl + fence()));
    if body.len() > 0 {
        assert((body + nl + fence())[0] == body[0]);
        assert(rest == body + nl + fence());
        assert(rest.subrange(rest.len() - 3, rest.len() as int) =~= fence());
        let inner = rest.subrange(0, rest.len() - 3);
        assert(inner =~= body + nl);
        assert(unfenced(raw) == Some(inner));
        assert((body + nl)[0] == body[0]);
        assert(trim_start(inner) == inner);
        assert(inner.last() == '\n');
        assert(inner.drop_last() =~= body);
        assert(trim_end(inner) == trim_end(body));
        assert(body.last() == body[body.len() - 1]);
        assert(trim_end(body) == body);
    } else {
        assert(body + nl + fence() =~= nl + fence());
        assert((nl + fence()).drop_first() =~= fence());
        assert(trim_start(nl + fence()) == trim_start(fence()));
        assert(fence()[0] == '`');
        assert(rest == fence());
        assert(rest.subrange(rest.len() - 3, rest.len() as int) =~= fence());
        assert(rest.subrange(0, rest.len() - 3) =~= body);
        assert(unfenced(raw) == Some(body));
    }
}

proof fn lemma_skip_alnum_suffix(x: Seq<char>)
    ensures
        skip_alnum(x).len() <= x.len(),
        forall|k: int|
            0 <= k < skip_alnum(x).len() ==> #[trigger] skip_alnum(x)[k] == x[k + x.len()
                - skip_alnum(x).len()],
    decreases x.len(),
{
    if x.len() > 0 && alnum(x[0]) {
        lemma_skip_alnum_suffix(x.drop_first());
    }
}

proof fn lemma_no_nl_no_line(s: Seq<char>)
    requires
        forall|k: int| 0 <= k < s.len() ==> #[trigger] s[k] != '\n',
    ensures
        !opens_line(s),
    decreases s.len(),
{
    if s.len() > 0 {
        assert(s[0] != '\n');
        assert forall|k: int| 0 <= k < s.drop_first().len() implies #[trigger] s.drop_first()[k]
            != '\n' by {
            assert(s.drop_first()[k] == s[k + 1]);
        }
        lemma_no_nl_no_line(s.drop_first());
    }
}

/// A one-line answer wrapped in fences on that same line comes back whole,
/// its first word included.
pub proof fn lemma_sanitize_one_line_fence(body: Seq<char>)
    requires
        body.len() > 0,
        !is_ws(body[0]),
        !is_ws(body.last()),
        forall|k: int| 0 <= k < body.len() ==> #[trigger] body[k] != '\n',
    ensures
        sanitized(fence() + body + fence()) == body,
{
    let raw = fence() + body + fence();
    assert(raw[0] == '`');
    assert(raw.last() == '`');
    lemma_trim_of_trimmed(raw);
    assert(raw.subrange(0, 3) =~= fence());
    let after = raw.subrange(3, raw.len() as int);
    assert(after =~= body + fence());
    lemma_skip_alnum_suffix(after);
    let sk = skip_alnum(after);
    assert forall|k: int| 0 <= k < sk.len() implies #[trigger] sk[k] != '\n' by {
        let j = k + after.len() - sk.len();
        assert(sk[k] == after[j]);
        if j < body.len() {
            assert(after[j] == body[j]);
        } else {
            assert(after[j] == fence()[j - body.len()]);
        }
    }
    lemma_no_nl_no_line(sk);
    assert(after_tag(after) == after);
    assert(after[0] == body[0]);
    assert(trim_start(after) == after);
    assert(after.subrange(after.len() - 3, after.len() as int) =~= fence());
    assert(after.subrange(0, after.len() - 3) =~= body);
    assert(unfenced(raw) == Some(body));
    lemma_trim_of_trimmed(body);
}

// ---------------------------------------------------------------------------
// The user prompt
// ---------------------------------------------------------------------------

/// The recent-history block: each line indented by two spaces.
pub open spec fn history_block(h: Seq<Seq<char>>) -> Seq<char>
    decreases h.len(),
{
    if h.len() == 0 {
        Seq::<char>::empty()
    } else {
        history_block(h.drop_last()) + "  "@ + h.last() + "\n"@
    }
}

/// The user prompt: shell, OS, working directory when known, recent
/// history when there is any, then the command line typed so far.
pub open spec fn user_prompt(
    kind: ShellKind,
    os: Seq<char>,
    cwd: Option<Seq<char>>,
    history: Seq<Seq<char>>,
    input: Seq<char>,
) -> Seq<char> {
    "shell: "@ + shell_name(kind) + "\n"@ + "os: "@ + os + "\n"@ + match cwd {
        Some(c) => "cwd: "@ + c + "\n"@,
        None => Seq::<char>::empty(),
    } + if history.len() > 0 {
        "recent history:\n"@ + history_block(history)
    } else {
        Seq::<char>::empty()
    } + "\ncommand line so far:\n"@ + input
}

pub fn build_user_prompt(shell: &ShellContext, input: &str, history: &[String]) -> (p: String)
    ensures
        p@ == user_prompt(shell.kind, shell.os@, opt_view(shell.cwd), views(history@), input@),
{
    let mut out: Vec<char> = Vec::new();
    push_str_chars(&mut out, "shell: ");
    push_str_chars(&mut out, shell.kind.as_str());
    push_str_chars(&mut out, "\n");
    push_str_chars(&mut out, "os: ");
    push_str_chars(&mut out, shell.os.as_str());
    push_str_chars(&mut out, "\n");
    let ghost head = out@;
    match &shell.cwd {
        Some(c) => {
            push_str_chars(&mut out, "cwd: ");
            push_str_chars(&mut out, c.as_str());
            push_str_chars(&mut out, "\n");
        },
        None => {},
    }
    let ghost with_cwd = out@;
    let ghost hs = views(history@);
    if history.len() > 0 {
        push_str_chars(&mut out, "recent history:\n");
        let ghost base = out@;
        let mut i: usize = 0;
        while i < history.len()
            invariant
                i <= history@.len(),
                hs == views(history@),
                out@ == base + history_block(hs.subrange(0, i as int)),
            decreases history@.len() - i,
        {
            push_str_chars(&mut out, "  ");
            push_str_chars(&mut out, history[i].as_str());
            push_str_chars(&mut out, "\n");
            proof {
                assert(hs.subrange(0, i + 1).drop_last() =~= hs.subrange(0, i as int));
                assert(hs[i as int] == history@[i as int]@);
            }
            i = i + 1;
            assert(out@ =~= base + history_block(hs.subrange(0, i as int)));
        }
        assert(hs.subrange(0, history@.len() as int) =~= hs);
    }
    push_str_chars(&mut out, "\ncommand line so far:\n");
    push_str_chars(&mut out, input);
    assert(out@ =~= user_prompt(shell.kind, shell.os@, opt_view(shell.cwd), hs, input@));
    string_of(out.as_slice())
}

// ---------------------------------------------------------------------------
// The system prompt
// ---------------------------------------------------------------------------

/// What reading one configured context file gave.
#[derive(Debug)]
pub enum ContextFile {
    /// The file's contents.
    Contents(String),
    /// The file could not be read; the error, as text.
    Unreadable(String),
}

/// What running one configured plugin gave.
#[derive(Debug)]
pub enum PluginRun {
    /// The command succeeded; its standard output.
    Succeeded(String),
    /// The command failed; its exit status and standard error, as text.
    Failed { status: String, stderr: String },
    /// The command could not be started; the error, as text.
    NotRun(String),
}

pub open spec fn file_block(path: Seq<char>, f: ContextFile) -> Seq<char> {
    match f {
        ContextFile::Contents(c) => "\n--- file: "@ + path + " ---\n"@ + c@ + "\n---\n"@,
        ContextFile::Unreadable(e) => "\n[Could not read "@ + path + ": "@ + e@ + "]\n"@,
    }
}

pub open spec fn plugin_block(cmd: Seq<char>, run: PluginRun) -> Seq<char> {
    match run {
        PluginRun::Succeeded(out) => if trim(out@).len() > 0 {
            "\n--- plugin: "@ + cmd + " ---\n"@ + trim(out@) + "\n---\n"@
        } else {
            Seq::<char>::empty()
        },
        PluginRun::Failed { status, stderr } => "\n[plugin `"@ + cmd + "` exited "@ + status@
            + ": "@ + trim(stderr@) + "]\n"@,
        PluginRun::NotRun(e) => "\n[plugin `"@ + cmd + "` failed to run: "@ + e@ + "]\n"@,
    }
}

pub open spec fn files_section(paths: Seq<Seq<char>>, files: Seq<ContextFile>, n: nat) -> Seq<
    char,
>
    decreases n,
{
    if n == 0 {
        Seq::<char>::empty()
    } else {
        files_section(paths, files, (n - 1) as nat) + file_block(paths[n - 1], files[n - 1])
    }
}

pub open spec fn plugins_section(cmds: Seq<Seq<char>>, runs: Seq<PluginRun>, n: nat) -> Seq<
    char,
>
    decreases n,
{
    if n == 0 {
        Seq::<char>::empty()
    } else {
        plugins_section(cmds, runs, (n - 1) as nat) + plugin_block(cmds[n - 1], runs[n - 1])
    }
}

pub open spec fn files_header() -> Seq<char> {
    "\n\nThe user has provided the following files as high-priority context. Treat their contents as authoritative when deciding what command to generate:\n"@
}

pub open spec fn plugins_header() -> Seq<char> {
    "\n\nThe following output was produced by user-configured plugins run immediately before this request:\n"@
}

/// The system prompt: `base`, then the context files, then the plugin
/// outputs, then the additional context when it is not blank.
pub open spec fn system_prompt(
    base: Seq<char>,
    paths: Seq<Seq<char>>,
    files: Seq<ContextFile>,
    cmds: Seq<Seq<char>>,
    runs: Seq<PluginRun>,
    additional: Option<Seq<char>>,
) -> Seq<char> {
    base + if paths.len() > 0 {
        files_header() + files_section(paths, files, paths.len())
    } else {
        Seq::<char>::empty()
    } + if cmds.len() > 0 {
        plugins_header() + plugins_section(cmds, runs, cmds.len())
    } else {
        Seq::<char>::empty()
    } + match additional {
        Some(a) => if trim(a).len() > 0 {
            "\n\n"@ + trim(a)
        } else {
            Seq::<char>::empty()
        },
        None => Seq::<char>::empty(),
    }
}

/// The additional context, when it is not blank, always ends the system
/// prompt, set off by a blank line and trimmed, whatever files and plugins
/// there are; when it is blank or unset it adds nothing. With no files and
/// no plugins the prompt is the base alone, or the base and the additional
/// context.
pub proof fn lemma_additional_context_appended(
    base: Seq<char>,
    paths: Seq<Seq<char>>,
    files: Seq<ContextFile>,
    cmds: Seq<Seq<char>>,
    runs: Seq<PluginRun>,
    a: Seq<char>,
)
    ensures
        trim(a).len() > 0 ==> system_prompt(base, paths, files, cmds, runs, Some(a))
            == system_prompt(base, paths, files, cmds, runs, None) + "\n\n"@ + trim(a),
        trim(a).len() == 0 ==> system_prompt(base, paths, files, cmds, runs, Some(a))
            == system_prompt(base, paths, files, cmds, runs, None),
        system_prompt(base, Seq::empty(), Seq::empty(), Seq::empty(), Seq::empty(), None) == base,
        trim(a).len() > 0 ==> system_prompt(
            base,
            Seq::empty(),
            Seq::empty(),
            Seq::empty(),
            Seq::empty(),
            Some(a),
        ) == base + "\n\n"@ + trim(a),
{
    assert(system_prompt(base, Seq::empty(), Seq::empty(), Seq::empty(), Seq::empty(), None)
        =~= base);
    assert(system_prompt(base, Seq::empty(), Seq::empty(), Seq::empty(), Seq::empty(), Some(a))
        =~= base + if trim(a).len() > 0 {
        "\n\n"@ + trim(a)
    } else {
        Seq::<char>::empty()
    });
    assert(system_prompt(base, paths, files, cmds, runs, Some(a)) =~= system_prompt(
        base,
        paths,
        files,
        cmds,
        runs,
        None,
    ) + if trim(a).len() > 0 {
        "\n\n"@ + trim(a)
    } else {
        Seq::<char>::empty()
    });
}

fn push_trimmed(out: &mut Vec<char>, s: &str)
    ensures
        final(out)@ == old(out)@ + trim(s@),
{
    let v = chars_of(s);
    let (lo, hi) = trim_bounds(v.as_slice());
    let t = slice_of(v.as_slice(), lo, hi);
    push_all(out, t.as_slice());
}

/// Builds the system prompt from `base` and the configuration, given what
/// reading each context file and running each plugin gave, in the order the
/// configuration lists them.
pub fn build_system_prompt(
    base: &str,
    config: &Config,
    files: &[ContextFile],
    plugins: &[PluginRun],
) -> (p: String)
    requires
        files@.len() == config.context_files@.len(),
        plugins@.len() == config.plugins@.len(),
    ensures
        p@ == system_prompt(
            base@,
            views(config.context_files@),
            files@,
            views(config.plugins@),
            plugins@,
            opt_view(config.additional_context),
        ),
{
    let ghost paths = views(config.context_files@);
    let ghost cmds = views(config.plugins@);
    let mut out = chars_of(base);
    let ghost after_base = out@;
    if config.context_files.len() > 0 {
        push_str_chars(&mut out, "\n\nThe user has provided the following files as high-priority context. Treat their contents as authoritative when deciding what command to generate:\n");
        let ghost start = out@;
        let mut i: usize = 0;
        while i < files.len()
            invariant
                i <= files@.len() == paths.len(),
                paths == views(config.context_files@),
                out@ == start + files_section(paths, files@, i as nat),
            decreases files@.len() - i,
        {
            let path = config.context_files[i].as_str();
            assert(path@ == paths[i as int]);
            match &files[i] {
                ContextFile::Contents(c) => {
                    push_str_chars(&mut out, "\n--- file: ");
                    push_str_chars(&mut out, path);
                    push_str_chars(&mut out, " ---\n");
                    push_str_chars(&mut out, c.as_str());
                    push_str_chars(&mut out, "\n---\n");
                },
                ContextFile::Unreadable(e) => {
                    push_str_chars(&mut out, "\n[Could not read ");
                    push_str_chars(&mut out, path);
                    push_str_chars(&mut out, ": ");
                    push_str_chars(&mut out, e.as_str());
                    push_str_chars(&mut out, "]\n");
                },
            }
            i = i + 1;
            assert(out@ =~= start + files_section(paths, files@, i as nat));
        }
    }
    let ghost after_files = out@;
    if config.plugins.len() > 0 {
        push_str_chars(&mut out, "\n\nThe following output was produced by user-configured plugins run immediately before this request:\n");
        let ghost start = out@;
        let mut i: usize = 0;
        while i < plugins.len()
            invariant
                i <= plugins@.len() == cmds.len(),
                cmds == views(config.plugins@),
                out@ == start + plugins_section(cmds, plugins@, i as nat),
            decreases plugins@.len() - i,
        {
            let cmd = config.plugins[i].as_str();
            assert(cmd@ == cmds[i as int]);
            match &plugins[i] {
                PluginRun::Succeeded(o) => {
                    let v = chars_of(o.as_str());
                    let (lo, hi) = trim_bounds(v.as_slice());
                    if lo < hi {
                        push_str_chars(&mut out, "\n--- plugin: ");
                        push_str_chars(&mut out, cmd);
                        push_str_chars(&mut out, " ---\n");
                        let t = slice_of(v.as_slice(), lo, hi);
                        push_all(&mut out, t.as_slice());
                        push_str_chars(&mut out, "\n---\n");
                    }
                },
                PluginRun::Failed { status, stderr } => {
                    push_str_chars(&mut out, "\n[plugin `");
                    push_str_chars(&mut out, cmd);
                    push_str_chars(&mut out, "` exited ");
                    push_str_chars(&mut out, status.as_str());
                    push_str_chars(&mut out, ": ");
                    push_trimmed(&mut out, stderr.as_str());
                    push_str_chars(&mut out, "]\n");
                },
                PluginRun::NotRun(e) => {
                    push_str_chars(&mut out, "\n[plugin `");
                    push_str_chars(&mut out, cmd);
                    push_str_chars(&mut out, "` failed to run: ");
                    push_str_chars(&mut out, e.as_str());
                    push_str_chars(&mut out, "]\n");
                },
            }
            i = i + 1;
            assert(out@ =~= start + plugins_section(cmds, plugins@, i as nat));
        }
    }
    let ghost after_plugins = out@;
    match &config.additional_context {
        Some(a) => {
            let v = chars_of(a.as_str());
            let (lo, hi) = trim_bounds(v.as_slice());
            if lo < hi {
                push_str_chars(&mut out, "\n\n");
                let t = slice_of(v.as_slice(), lo, hi);
                push_all(&mut out, t.as_slice());
            }
        },
        None => {},
    }
    assert(out@ =~= system_prompt(
        base@,
        paths,
        files@,
        cmds,
        plugins@,
        opt_view(config.additional_context),
    ));
    string_of(out.as_slice())
}

// ---------------------------------------------------------------------------
// Routing
// ---------------------------------------------------------------------------

/// The providers a request can be routed to.
#[derive(Debug, Clone, Copy, PartialEq, Eq, Structural)]
pub enum Backend {
    OpenAI,
    Anthropic,
    Ollama,
}

/// The backend a lowercased provider name selects.
pub open spec fn backend_of(key: Seq<char>) -> Option<Backend> {
    if key == "openai"@ {
        Some(Backend::OpenAI)
    } else if key == "anthropic"@ {
        Some(Backend::Anthropic)
    } else if key == "ollama"@ {
        Some(Backend::Ollama)
    } else {
        None
    }
}

/// The configured settings of a backend's provider.
pub open spec fn provider_env_of(config: &Config, b: Backend) -> Option<ProviderEnv> {
    match b {
        Backend::OpenAI => config.providers.openai,
        Backend::Anthropic => config.providers.anthropic,
        Backend::Ollama => config.providers.ollama,
    }
}

/// The API key configured for a backend, if any.
pub open spec fn api_key_of(config: &Config, b: Backend) -> Option<Seq<char>> {
    match provider_env_of(config, b) {
        Some(e) => opt_view(e.api_key),
        None => None,
    }
}

/// Everything the model client is built from.
#[derive(Debug)]
pub struct RequestPlan {
    pub backend: Backend,
    /// The provider name, lowercased.
    pub provider: String,
    pub model: String,
    pub system_prompt: String,
    pub user_prompt: String,
    pub api_key: Option<String>,
    /// Sampling temperature, as the bit pattern of an `f32`.
    pub temperature: Option<u32>,
    pub reasoning: bool,
}

/// Why no request could be planned.
#[derive(Debug)]
pub enum RequestError {
    /// The provider (lowercased) is none of openai, anthropic, ollama.
    UnsupportedProvider(String),
}

/// `plan` routes to `b` the request for `model` of `provider` with these
/// prompts, with the settings the configuration gives.
pub open spec fn plan_for(
    plan: RequestPlan,
    b: Backend,
    provider: Seq<char>,
    model: Seq<char>,
    system: Seq<char>,
    user: Seq<char>,
    config: &Config,
) -> bool {
    &&& plan.backend == b
    &&& plan.provider@ == ascii_lower_seq(provider)
    &&& plan.model@ == model
    &&& plan.system_prompt@ == system
    &&& plan.user_prompt@ == user
    &&& opt_view(plan.api_key) == api_key_of(config, b)
    &&& plan.temperature == config.temperature
    &&& plan.reasoning == config.thinking
}

/// Chooses the backend for `provider` (case-insensitively) and gathers the
/// settings the client is built with.
pub fn plan_request(
    provider: &str,
    model: &str,
    system_prompt: String,
    user_prompt: String,
    config: &Config,
) -> (r: Result<RequestPlan, RequestError>)
    ensures
        match backend_of(ascii_lower_seq(provider@)) {
            None => r matches Err(RequestError::UnsupportedProvider(k)) && k@ == ascii_lower_seq(
                provider@,
            ),
            Some(b) => r matches Ok(plan) && plan_for(
                plan,
                b,
                provider@,
                model@,
                system_prompt@,
                user_prompt@,
                config,
            ),
        },
{
    let pv = chars_of(provider);
    let key = ascii_lowercase(pv.as_slice());
    let openai = chars_of("openai");
    let anthropic = chars_of("anthropic");
    let ollama = chars_of("ollama");
    let backend = if chars_eq(key.as_slice(), openai.as_slice()) {
        Backend::OpenAI
    } else if chars_eq(key.as_slice(), anthropic.as_slice()) {
        Backend::Anthropic
    } else if chars_eq(key.as_slice(), ollama.as_slice()) {
        Backend::Ollama
    } else {
        return Err(RequestError::UnsupportedProvider(string_of(key.as_slice())));
    };
    let env: &Option<ProviderEnv> = match backend {
        Backend::OpenAI => &config.providers.openai,
        Backend::Anthropic => &config.providers.anthropic,
        Backend::Ollama => &config.providers.ollama,
    };
    let api_key = match env {
        Some(e) => clone_opt(&e.api_key),
        None => None,
    };
    Ok(
        RequestPlan {
            backend,
            provider: string_of(key.as_slice()),
            model: model.to_string(),
            system_prompt,
            user_prompt,
            api_key,
            temperature: config.temperature,
            reasoning: config.thinking,
        },
    )
}

/// A provider named in any ASCII case routes as its lowercase spelling.
pub proof fn lemma_backend_case_insensitive(p: Seq<char>)
    ensures
        backend_of(ascii_lower_seq(ascii_lower_seq(p))) == backend_of(ascii_lower_seq(p)),
{
    crate::text::lemma_ascii_lower_idempotent(p);
}

// ---------------------------------------------------------------------------
// One request
// ---------------------------------------------------------------------------

/// Why no request could be made.
#[derive(Debug)]
pub enum GenerateError {
    /// `model` is not in `provider/model-name` form.
    ModelNotQualified,
    /// The provider (lowercased) is none of openai, anthropic, ollama.
    UnsupportedProvider(String),
}

/// The system prompt's base: the configured override, else the built-in
/// prompt.
pub open spec fn base_prompt(config: &Config, default_prompt: Seq<char>) -> Seq<char> {
    match config.system_prompt {
        Some(p) => p@,
        None => default_prompt,
    }
}

/// Everything one request needs, from the configuration, the shell, the
/// typed command line, the built-in system prompt, what reading the context
/// files and running the plugins gave, and the recent history: the model is
/// split into provider and name, both prompts are built, and the request is
/// routed.
pub fn prepare_request(
    config: &Config,
    shell: &ShellContext,
    input: &str,
    default_prompt: &str,
    files: &[ContextFile],
    plugins: &[PluginRun],
    history: &[String],
) -> (r: Result<RequestPlan, GenerateError>)
    requires
        files@.len() == config.context_files@.len(),
        plugins@.len() == config.plugins@.len(),
    ensures
        !config.model@.contains('/') ==> r matches Err(GenerateError::ModelNotQualified),
        config.model@.contains('/') ==> {
            let provider = provider_part(config.model@);
            match backend_of(ascii_lower_seq(provider)) {
                None => r matches Err(GenerateError::UnsupportedProvider(k)) && k@
                    == ascii_lower_seq(provider),
                Some(b) => r matches Ok(plan) && plan_for(
                    plan,
                    b,
                    provider,
                    model_part(config.model@),
                    system_prompt(
                        base_prompt(config, default_prompt@),
                        views(config.context_files@),
                        files@,
                        views(config.plugins@),
                        plugins@,
                        opt_view(config.additional_context),
                    ),
                    user_prompt(
                        shell.kind,
                        shell.os@,
                        opt_view(shell.cwd),
                        views(history@),
                        input@,
                    ),
                    config,
                ),
            }
        },
{
    let (provider, model) = match config.provider_and_model() {
        Ok(pm) => pm,
        Err(_) => {
            return Err(GenerateError::ModelNotQualified);
        },
    };
    let base: &str = match &config.system_prompt {
        Some(p) => p.as_str(),
        None => default_prompt,
    };
    let system = build_system_prompt(base, config, files, plugins);
    let user = build_user_prompt(shell, input, history);
    match plan_request(provider.as_str(), model.as_str(), system, user, config) {
        Ok(plan) => Ok(plan),
        Err(RequestError::UnsupportedProvider(k)) => Err(GenerateError::UnsupportedProvider(k)),
    }
}

} // verus!
