//! Shell kinds, the shell context sent with every request, and the history
//! reader: path of the history file, the backward chunked tail scan over it,
//! and the per-shell clean-up of the lines it yields.

use vstd::prelude::*;
use vstd::utf8::{decode_utf8, valid_utf8};
use crate::lines::{
    count_of, lines, split_lines, tail_text, last_n, lemma_count_concat, lemma_count_le_len,
    lemma_tail_lines_bounded,
};
use crate::text::{
    chars_eq, chars_of, char_views, push_all, push_joined,
    slice_of, string_of, views, ascii_lowercase, ascii_lower_seq,
};

verus! {

/// The shells the tool knows how to talk to.
#[derive(Debug, Clone, Copy, PartialEq, Eq, Structural)]
pub enum ShellKind {
    Bash,
    Zsh,
    Fish,
    Unknown,
}

/// The name under which a shell kind is presented to the model.
pub open spec fn shell_name(kind: ShellKind) -> Seq<char> {
    match kind {
        ShellKind::Bash => "bash"@,
        ShellKind::Zsh => "zsh"@,
        ShellKind::Fish => "fish"@,
        ShellKind::Unknown => "sh"@,
    }
}

/// Index of the last `c` in `s`, or `-1` when `c` does not occur.
pub open spec fn rfind_char(s: Seq<char>, c: char) -> int
    decreases s.len(),
{
    if s.len() == 0 {
        -1
    } else if s.last() == c {
        s.len() - 1
    } else {
        rfind_char(s.drop_last(), c)
    }
}

/// What follows the last `'/'` of `s` (all of `s` when it has none).
pub open spec fn base_name(s: Seq<char>) -> Seq<char> {
    s.subrange(rfind_char(s, '/') + 1, s.len() as int)
}

/// The shell a `$SHELL` value names: its last path component, compared
/// ASCII-case-insensitively with `bash`, `zsh` and `fish`.
pub open spec fn shell_of_path(shell: Seq<char>) -> ShellKind {
    let name = ascii_lower_seq(base_name(shell));
    if name == shell_name(ShellKind::Bash) {
        ShellKind::Bash
    } else if name == shell_name(ShellKind::Zsh) {
        ShellKind::Zsh
    } else if name == shell_name(ShellKind::Fish) {
        ShellKind::Fish
    } else {
        ShellKind::Unknown
    }
}

proof fn lemma_rfind_char_bounds(s: Seq<char>, c: char)
    ensures
        -1 <= rfind_char(s, c) < s.len(),
        forall|j: int| rfind_char(s, c) < j < s.len() ==> s[j] != c,
    decreases s.len(),
{
    if s.len() > 0 && s.last() != c {
        lemma_rfind_char_bounds(s.drop_last(), c);
        assert forall|j: int| rfind_char(s, c) < j < s.len() implies s[j] != c by {
            if j < s.len() - 1 {
                assert(s[j] == s.drop_last()[j]);
            }
        }
    }
}

proof fn lemma_rfind_char_absent(s: Seq<char>, c: char)
    requires
        forall|j: int| 0 <= j < s.len() ==> s[j] != c,
    ensures
        rfind_char(s, c) == -1,
    decreases s.len(),
{
    if s.len() > 0 {
        lemma_rfind_char_absent(s.drop_last(), c);
    }
}

impl ShellKind {
    pub fn as_str(&self) -> (name: &'static str)
        ensures
            name@ == shell_name(*self),
    {
        match self {
            ShellKind::Bash => "bash",
            ShellKind::Zsh => "zsh",
            ShellKind::Fish => "fish",
            ShellKind::Unknown => "sh",
        }
    }

    /// The shell named by the value of `$SHELL`; `Unknown` when the variable
    /// is unset or names another shell.
    pub fn detect(shell_var: Option<&str>) -> (kind: ShellKind)
        ensures
            kind == match shell_var {
                Some(s) => shell_of_path(s@),
                None => ShellKind::Unknown,
            },
    {
        let shell = match shell_var {
            Some(s) => s,
            None => {
                return ShellKind::Unknown;
            },
        };
        let v = chars_of(shell);
        let n = v.len();
        let mut i = n;
        assert(v@.subrange(0, n as int) =~= v@);
        while i > 0 && v[i - 1] != '/'
            invariant
                i <= n == v@.len(),
                forall|j: int| i <= j < n ==> v@[j] != '/',
                rfind_char(v@, '/') == rfind_char(v@.subrange(0, i as int), '/'),
            decreases i,
        {
            assert(v@.subrange(0, i as int).drop_last() =~= v@.subrange(0, i - 1));
            i = i - 1;
        }
        proof {
            if i > 0 {
                assert(v@.subrange(0, i as int).last() == '/');
            } else {
                assert(v@.subrange(0, 0) =~= Seq::<char>::empty());
            }
        }
        let base = slice_of(v.as_slice(), i, n);
        let name = ascii_lowercase(base.as_slice());
        let bash = chars_of(ShellKind::Bash.as_str());
        let zsh = chars_of(ShellKind::Zsh.as_str());
        let fish = chars_of(ShellKind::Fish.as_str());
        if chars_eq(name.as_slice(), bash.as_slice()) {
            ShellKind::Bash
        } else if chars_eq(name.as_slice(), zsh.as_slice()) {
            ShellKind::Zsh
        } else if chars_eq(name.as_slice(), fish.as_slice()) {
            ShellKind::Fish
        } else {
            ShellKind::Unknown
        }
    }
}

/// Naming a shell by what `as_str` gives back is recognised as that shell.
pub proof fn lemma_detect_own_name(kind: ShellKind)
    ensures
        shell_of_path(shell_name(kind)) == kind,
{
    reveal_strlit("bash");
    reveal_strlit("zsh");
    reveal_strlit("fish");
    reveal_strlit("sh");
    let s = shell_name(kind);
    assert(forall|j: int| 0 <= j < s.len() ==> s[j] != '/');
    lemma_rfind_char_absent(s, '/');
    assert(base_name(s) =~= s);
    assert(ascii_lower_seq(s) =~= s);
    assert(shell_name(ShellKind::Bash).len() != shell_name(ShellKind::Zsh).len());
    assert(shell_name(ShellKind::Bash)[0] != shell_name(ShellKind::Fish)[0]);
    assert(shell_name(ShellKind::Zsh).len() != shell_name(ShellKind::Fish).len());
    assert(shell_name(ShellKind::Bash) != shell_name(ShellKind::Zsh));
    assert(shell_name(ShellKind::Bash) != shell_name(ShellKind::Fish));
    assert(shell_name(ShellKind::Bash) != shell_name(ShellKind::Unknown));
    assert(shell_name(ShellKind::Zsh) != shell_name(ShellKind::Fish));
    assert(shell_name(ShellKind::Zsh) != shell_name(ShellKind::Unknown));
    assert(shell_name(ShellKind::Fish) != shell_name(ShellKind::Unknown));
}

/// Snapshot of the shell environment sent to the model.
#[derive(Debug, Clone)]
pub struct ShellContext {
    pub kind: ShellKind,
    pub cwd: Option<String>,
    pub os: String,
}

// ---------------------------------------------------------------------------
// History file location
// ---------------------------------------------------------------------------

/// `base` joined with the relative path `rel`, as `Path::join` does on Unix.
pub open spec fn path_join(base: Seq<char>, rel: Seq<char>) -> Seq<char> {
    if base.len() == 0 || base.last() == '/' {
        base + rel
    } else {
        base + seq!['/'] + rel
    }
}

/// The history file of each shell, relative to the home directory.
pub open spec fn history_file_name(kind: ShellKind) -> Seq<char> {
    match kind {
        ShellKind::Bash => ".bash_history"@,
        ShellKind::Zsh => ".zsh_history"@,
        ShellKind::Fish => ".local/share/fish/fish_history"@,
        ShellKind::Unknown => ".sh_history"@,
    }
}

pub fn path_join_str(base: &str, rel: &str) -> (p: String)
    ensures
        p@ == path_join(base@, rel@),
{
    let mut v = chars_of(base);
    if v.len() > 0 && v[v.len() - 1] != '/' {
        v.push('/');
    }
    let r = chars_of(rel);
    push_all(&mut v, r.as_slice());
    string_of(v.as_slice())
}

/// Where the history of `kind` lives, given `$HOME` and `$HISTFILE`; `None`
/// when `$HOME` is unset. Zsh honours `$HISTFILE` when it is set.
pub fn history_path(kind: ShellKind, home: Option<&str>, histfile: Option<&str>) -> (p: Option<
    String,
>)
    ensures
        home is None ==> p is None,
        home matches Some(h) ==> p matches Some(q) && q@ == match (kind, histfile) {
            (ShellKind::Zsh, Some(f)) => f@,
            _ => path_join(h@, history_file_name(kind)),
        },
{
    let h = match home {
        Some(h) => h,
        None => {
            return None;
        },
    };
    let rel = match kind {
        ShellKind::Bash => ".bash_history",
        ShellKind::Zsh => match histfile {
            Some(f) => {
                return Some(f.to_string());
            },
            None => ".zsh_history",
        },
        ShellKind::Fish => ".local/share/fish/fish_history",
        ShellKind::Unknown => ".sh_history",
    };
    Some(path_join_str(h, rel))
}

// ---------------------------------------------------------------------------
// History lines
// ---------------------------------------------------------------------------

pub open spec fn is_ascii_digit(c: char) -> bool {
    '0' <= c && c <= '9'
}

/// The first index from `i` on that holds no decimal digit.
pub open spec fn digits_end(s: Seq<char>, i: int) -> int
    decreases s.len() - i,
{
    if 0 <= i < s.len() && is_ascii_digit(s[i]) {
        digits_end(s, i + 1)
    } else {
        i
    }
}

/// Where the command starts in a line of zsh's extended history,
/// `: <timestamp>:<duration>;<command>`; `None` for any other line.
pub open spec fn zsh_command_start(line: Seq<char>) -> Option<int> {
    if line.len() >= 2 && line[0] == ':' && line[1] == ' ' {
        let a = digits_end(line, 2);
        if a > 2 && a < line.len() && line[a] == ':' {
            let b = digits_end(line, a + 1);
            if b > a + 1 && b < line.len() && line[b] == ';' {
                Some(b + 1)
            } else {
                None
            }
        } else {
            None
        }
    } else {
        None
    }
}

/// One history line as presented to the model: a zsh extended-history line
/// (`: <ts>:<dur>;cmd`) keeps only its command; every other line is kept
/// as it is.
pub open spec fn history_entry(kind: ShellKind, line: Seq<char>) -> Seq<char> {
    match zsh_command_start(line) {
        Some(k) => if kind == ShellKind::Zsh {
            line.subrange(k, line.len() as int)
        } else {
            line
        },
        None => line,
    }
}

proof fn lemma_digits_end_bounds(s: Seq<char>, i: int)
    requires
        0 <= i <= s.len(),
    ensures
        i <= digits_end(s, i) <= s.len(),
    decreases s.len() - i,
{
    if i < s.len() && is_ascii_digit(s[i]) {
        lemma_digits_end_bounds(s, i + 1);
    }
}

/// `digits_end(s@, i)`.
fn skip_digits(s: &[char], i: usize) -> (j: usize)
    requires
        i <= s@.len(),
    ensures
        j == digits_end(s@, i as int),
{
    let mut j = i;
    while j < s.len() && '0' <= s[j] && s[j] <= '9'
        invariant
            i <= j <= s@.len(),
            digits_end(s@, i as int) == digits_end(s@, j as int),
        decreases s@.len() - j,
    {
        j = j + 1;
    }
    j
}

/// `zsh_command_start(s@)`.
fn zsh_start(s: &[char]) -> (r: Option<usize>)
    ensures
        match zsh_command_start(s@) {
            Some(k) => r == Some(k as usize),
            None => r is None,
        },
{
    if s.len() >= 2 && s[0] == ':' && s[1] == ' ' {
        let a = skip_digits(s, 2);
        proof {
            lemma_digits_end_bounds(s@, 2);
        }
        if a > 2 && a < s.len() && s[a] == ':' {
            let b = skip_digits(s, a + 1);
            proof {
                lemma_digits_end_bounds(s@, a + 1);
            }
            if b > a + 1 && b < s.len() && s[b] == ';' {
                return Some(b + 1);
            }
        }
    }
    None
}

/// A run of digits from `i` up to a non-digit (or the end) at `j` ends at `j`.
proof fn lemma_digits_end_run(s: Seq<char>, i: int, j: int)
    requires
        0 <= i <= j <= s.len(),
        forall|k: int| i <= k < j ==> is_ascii_digit(#[trigger] s[k]),
        j < s.len() ==> !is_ascii_digit(s[j]),
    ensures
        digits_end(s, i) == j,
    decreases j - i,
{
    if i < j {
        lemma_digits_end_run(s, i + 1, j);
    }
}

/// A zsh extended-history line `: <ts>:<dur>;<cmd>` is presented as its
/// command alone, whatever the timestamp and the duration (each one or more
/// digits) and whatever the command holds, `';'` included.
pub proof fn lemma_zsh_extended_entry(ts: Seq<char>, dur: Seq<char>, cmd: Seq<char>)
    requires
        ts.len() > 0,
        dur.len() > 0,
        forall|k: int| 0 <= k < ts.len() ==> is_ascii_digit(#[trigger] ts[k]),
        forall|k: int| 0 <= k < dur.len() ==> is_ascii_digit(#[trigger] dur[k]),
    ensures
        history_entry(ShellKind::Zsh, ": "@ + ts + ":"@ + dur + ";"@ + cmd) == cmd,
        history_entry(ShellKind::Bash, ": "@ + ts + ":"@ + dur + ";"@ + cmd) == ": "@ + ts + ":"@
            + dur + ";"@ + cmd,
{
    reveal_strlit(": ");
    reveal_strlit(":");
    reveal_strlit(";");
    let line = ": "@ + ts + ":"@ + dur + ";"@ + cmd;
    let a: int = 2 + ts.len() as int;
    let b: int = a + 1 + dur.len() as int;
    assert(line[0] == ':' && line[1] == ' ');
    assert forall|k: int| 2 <= k < a implies is_ascii_digit(#[trigger] line[k]) by {
        assert(line[k] == ts[k - 2]);
    }
    assert(line[a] == ':');
    lemma_digits_end_run(line, 2, a);
    assert forall|k: int| a + 1 <= k < b implies is_ascii_digit(#[trigger] line[k]) by {
        assert(line[k] == dur[k - a - 1]);
    }
    assert(line[b] == ';');
    lemma_digits_end_run(line, a + 1, b);
    assert(zsh_command_start(line) == Some(b + 1));
    assert(line.subrange(b + 1, line.len() as int) =~= cmd);
}

/// A zsh line that does not begin with `": "` and a digit is no
/// extended-history line and is presented as it is, `';'` and all.
pub proof fn lemma_zsh_plain_line_kept(line: Seq<char>)
    requires
        !(line.len() >= 3 && line[0] == ':' && line[1] == ' ' && is_ascii_digit(line[2])),
    ensures
        history_entry(ShellKind::Zsh, line) == line,
{
    if line.len() >= 3 && line[0] == ':' && line[1] == ' ' {
        assert(digits_end(line, 2) == 2);
    }
}

pub open spec fn history_entries(kind: ShellKind, raw: Seq<char>) -> Seq<Seq<char>> {
    lines(raw).map_values(|l: Seq<char>| history_entry(kind, l))
}

/// The history sent with a request never holds more entries than were
/// asked for.
pub proof fn lemma_history_bounded(kind: ShellKind, text: Seq<char>, limit: nat)
    requires
        limit > 0,
    ensures
        history_entries(kind, tail_text(text, limit)).len() <= limit,
{
    lemma_tail_lines_bounded(text, limit);
}

/// The history lines held in `raw` (the tail of the history file), one per
/// line, cleaned up for `kind`.
pub fn read_history(kind: ShellKind, raw: &str) -> (h: Vec<String>)
    ensures
        views(h@) == history_entries(kind, raw@),
{
    let v = chars_of(raw);
    let ls = split_lines(v.as_slice());
    let ghost want = history_entries(kind, raw@);
    let mut out: Vec<String> = Vec::new();
    let mut i: usize = 0;
    while i < ls.len()
        invariant
            i <= ls@.len(),
            char_views(ls@) == lines(raw@),
            want == history_entries(kind, raw@),
            out@.len() == i,
            forall|j: int| 0 <= j < i ==> #[trigger] out@[j]@ == want[j],
        decreases ls@.len() - i,
    {
        let line = &ls[i];
        assert(line@ == lines(raw@)[i as int]);
        let entry = match zsh_start(line.as_slice()) {
            Some(k) if kind == ShellKind::Zsh => {
                proof {
                    lemma_digits_end_bounds(line@, 2);
                }
                string_of(slice_of(line.as_slice(), k, line.len()).as_slice())
            },
            _ => string_of(line.as_slice()),
        };
        out.push(entry);
        i = i + 1;
    }
    assert(views(out@) =~= want);
    out
}

// ---------------------------------------------------------------------------
// Backward tail scan
// ---------------------------------------------------------------------------

/// How many bytes the tail scan reads at a time.
pub const TAIL_CHUNK: usize = 8192;

/// What `String::from_utf8_lossy` makes of a byte sequence.
pub uninterp spec fn utf8_lossy(bytes: Seq<u8>) -> Seq<char>;

/// `String::from_utf8_lossy`: decodes UTF-8, replacing each invalid
/// sequence with U+FFFD; valid input decodes exactly. A line feed byte is a
/// whole character that no invalid sequence includes, so line feeds come
/// through one for one and decoding can be split at any of them.
/// How invalid input is replaced is left to the name `utf8_lossy`.
#[verifier::external_body]
fn decode_lossy(bytes: &[u8]) -> (s: String)
    ensures
        s@ == utf8_lossy(bytes@),
        valid_utf8(bytes@) ==> s@ == decode_utf8(bytes@),
        count_of(s@, '\n') == count_of(bytes@, 10u8),
        forall|k: int|
            0 <= k < bytes@.len() && #[trigger] bytes@[k] == 10u8 ==> s@ == utf8_lossy(
                bytes@.subrange(0, k),
            ) + seq!['\n'] + utf8_lossy(bytes@.subrange(k + 1, bytes@.len() as int)),
{
    String::from_utf8_lossy(bytes).into_owned()
}

/// Number of line feed bytes in `buf`.
pub fn bytecount_newlines(buf: &[u8]) -> (n: usize)
    ensures
        n == count_of(buf@, 10u8),
{
    let mut n: usize = 0;
    let mut i: usize = 0;
    while i < buf.len()
        invariant
            i <= buf@.len(),
            n == count_of(buf@.subrange(0, i as int), 10u8),
            n <= i,
        decreases buf@.len() - i,
    {
        assert(buf@.subrange(0, i + 1).drop_last() =~= buf@.subrange(0, i as int));
        if buf[i] == 10u8 {
            n = n + 1;
        }
        i = i + 1;
    }
    assert(buf@.subrange(0, buf@.len() as int) =~= buf@);
    n
}

/// The index of the first line feed byte at or after `i` (`b.len()` when
/// there is none).
pub open spec fn lf_from(b: Seq<u8>, i: int) -> int
    decreases b.len() - i,
{
    if i < 0 || i >= b.len() {
        b.len() as int
    } else if b[i] == 10u8 {
        i
    } else {
        lf_from(b, i + 1)
    }
}

/// The bytes after the first line feed of `b`.
pub open spec fn after_first_lf(b: Seq<u8>) -> Seq<u8> {
    b.subrange(lf_from(b, 0) + 1, b.len() as int)
}

proof fn lemma_lf_from(b: Seq<u8>, i: int)
    requires
        0 <= i <= b.len(),
    ensures
        i <= lf_from(b, i) <= b.len(),
        lf_from(b, i) < b.len() ==> b[lf_from(b, i)] == 10u8,
        forall|j: int| i <= j < lf_from(b, i) ==> b[j] != 10u8,
    decreases b.len() - i,
{
    if i < b.len() && b[i] != 10u8 {
        lemma_lf_from(b, i + 1);
    }
}

/// `lf_from(b@, 0)`.
fn first_lf(b: &[u8]) -> (k: usize)
    ensures
        k == lf_from(b@, 0),
{
    let mut i: usize = 0;
    while i < b.len() && b[i] != 10u8
        invariant
            i <= b@.len(),
            lf_from(b@, 0) == lf_from(b@, i as int),
        decreases b@.len() - i,
    {
        i = i + 1;
    }
    i
}

/// A copy of `b[lo..]`.
fn bytes_from(b: &[u8], lo: usize) -> (r: Vec<u8>)
    requires
        lo <= b@.len(),
    ensures
        r@ == b@.subrange(lo as int, b@.len() as int),
{
    let mut r: Vec<u8> = Vec::new();
    let mut i = lo;
    while i < b.len()
        invariant
            lo <= i <= b@.len(),
            r@ == b@.subrange(lo as int, i as int),
        decreases b@.len() - i,
    {
        r.push(b[i]);
        i = i + 1;
        assert(r@ =~= b@.subrange(lo as int, i as int));
    }
    r
}

/// The decisions of the backward read of the last `limit` lines of a file
/// of `total` bytes: which chunk to read next, and when to stop. The file is
/// read from its end in chunks of `TAIL_CHUNK` bytes until one line feed
/// more than `limit` has been seen (so the kept text starts at a line
/// boundary) or the whole file has been read.
pub struct TailScan {
    total: u64,
    remaining: u64,
    limit: usize,
    newlines: usize,
    buf: Vec<u8>,
}

impl TailScan {
    /// Size of the file being scanned.
    pub closed spec fn total(&self) -> nat {
        self.total as nat
    }

    /// Offset of the first byte read so far.
    pub closed spec fn remaining(&self) -> nat {
        self.remaining as nat
    }

    /// How many lines are wanted.
    pub closed spec fn limit(&self) -> nat {
        self.limit as nat
    }

    /// The bytes read so far: the file from `remaining()` to its end.
    pub closed spec fn buffered(&self) -> Seq<u8> {
        self.buf@
    }

    pub closed spec fn wf(&self) -> bool {
        &&& self.remaining <= self.total
        &&& self.total <= usize::MAX
        &&& self.buf@.len() == self.total - self.remaining
        &&& self.newlines == count_of(self.buf@, 10u8)
    }

    /// Whether another chunk is to be read.
    pub open spec fn wants_more(&self) -> bool {
        &&& self.remaining() > 0
        &&& self.limit() > 0
        &&& count_of(self.buffered(), 10u8) <= self.limit()
    }

    /// Length of the next chunk.
    pub open spec fn next_len(&self) -> nat {
        if self.remaining() < TAIL_CHUNK {
            self.remaining()
        } else {
            TAIL_CHUNK as nat
        }
    }

    pub fn new(total: u64, limit: usize) -> (s: TailScan)
        requires
            total <= usize::MAX,
        ensures
            s.wf(),
            s.total() == total,
            s.remaining() == total,
            s.limit() == limit,
            s.buffered() == Seq::<u8>::empty(),
    {
        TailScan { total, remaining: total, limit, newlines: 0, buf: Vec::new() }
    }

    /// The next chunk to read, as `(offset, length)`, or `None` once the
    /// scan has what it needs.
    pub fn next_chunk(&self) -> (r: Option<(u64, usize)>)
        requires
            self.wf(),
        ensures
            r is Some <==> self.wants_more(),
            r matches Some((off, len)) ==> len == self.next_len() && off + len
                == self.remaining() && len > 0,
    {
        if self.remaining > 0 && self.limit > 0 && self.newlines <= self.limit {
            let len: usize = if self.remaining < TAIL_CHUNK as u64 {
                self.remaining as usize
            } else {
                TAIL_CHUNK
            };
            Some((self.remaining - len as u64, len))
        } else {
            None
        }
    }

    /// Takes in the chunk that `next_chunk` asked for: the `len` bytes
    /// before everything read so far.
    pub fn push_chunk(&mut self, chunk: Vec<u8>)
        requires
            old(self).wf(),
            old(self).wants_more(),
            chunk@.len() == old(self).next_len(),
        ensures
            final(self).wf(),
            final(self).total() == old(self).total(),
            final(self).limit() == old(self).limit(),
            final(self).remaining() == old(self).remaining() - chunk@.len(),
            final(self).buffered() == chunk@ + old(self).buffered(),
    {
        let len = chunk.len();
        let added = bytecount_newlines(chunk.as_slice());
        let mut chunk = chunk;
        let ghost old_buf = self.buf@;
        let ghost c = chunk@;
        chunk.append(&mut self.buf);
        proof {
            lemma_count_concat(c, old_buf, 10u8);
            lemma_count_le_len(c + old_buf, 10u8);
        }
        self.buf = chunk;
        self.newlines = self.newlines + added;
        self.remaining = self.remaining - len as u64;
    }

    /// The bytes whose text the scan answers with: all that was read when
    /// the whole file was, else what follows the first line feed read (what
    /// precedes it is an incomplete line, never among the last lines).
    pub open spec fn decoded_part(&self) -> Seq<u8> {
        if self.remaining() == 0 {
            self.buffered()
        } else {
            after_first_lf(self.buffered())
        }
    }

    /// The scan's answer: the last `limit` lines of the decoded part.
    pub open spec fn tail(&self) -> Seq<char> {
        tail_text(utf8_lossy(self.decoded_part()), self.limit())
    }

    /// The last `limit` lines of what was read, decoded lossily, joined with
    /// `'\n'`, with a final line feed when the text read ends with one; no
    /// text at all when no line is wanted.
    pub fn finish(self) -> (text: String)
        requires
            self.wf(),
            !self.wants_more(),
        ensures
            self.limit() == 0 ==> text@.len() == 0,
            self.limit() > 0 ==> text@ == self.tail(),
            self.limit() > 0 ==> lines(text@).len() <= self.limit(),
            self.limit() > 0 && self.remaining() > 0 ==> count_of(
                utf8_lossy(after_first_lf(self.buffered())),
                '\n',
            ) >= self.limit(),
            self.limit() > 0 && valid_utf8(self.decoded_part()) ==> text@ == tail_text(
                decode_utf8(self.decoded_part()),
                self.limit(),
            ),
            self.limit() > 0 && self.remaining() > 0 && valid_utf8(
                after_first_lf(self.buffered()),
            ) ==> count_of(decode_utf8(after_first_lf(self.buffered())), '\n') >= self.limit(),
    {
        if self.limit == 0 {
            return String::new();
        }
        let part = if self.remaining > 0 {
            let k = first_lf(self.buf.as_slice());
            proof {
                let b = self.buf@;
                lemma_lf_from(b, 0);
                if k == b.len() {
                    crate::lines::lemma_count_absent(b, 10u8);
                }
                let pre = b.subrange(0, k as int);
                let post = b.subrange(k + 1, b.len() as int);
                assert(b =~= pre + seq![10u8] + post);
                crate::lines::lemma_count_absent(pre, 10u8);
                lemma_count_concat(pre, seq![10u8], 10u8);
                lemma_count_concat(pre + seq![10u8], post, 10u8);
                let one = seq![10u8];
                assert(one.drop_last() =~= Seq::<u8>::empty());
                assert(count_of(one.drop_last(), 10u8) == 0);
                assert(one.last() == 10u8);
                assert(count_of(one, 10u8) == 1);
            }
            bytes_from(self.buf.as_slice(), k + 1)
        } else {
            let all = bytes_from(self.buf.as_slice(), 0);
            assert(all@ =~= self.buf@);
            all
        };
        assert(part@ == self.decoded_part());
        let decoded = decode_lossy(part.as_slice());
        let t = chars_of(decoded.as_str());
        let ls = split_lines(t.as_slice());
        let n = ls.len();
        let start = if n > self.limit {
            n - self.limit
        } else {
            0
        };
        let mut kept: Vec<Vec<char>> = Vec::new();
        let mut i = start;
        while i < n
            invariant
                start <= i <= n == ls@.len(),
                kept@.len() == i - start,
                char_views(kept@) == char_views(ls@).subrange(start as int, i as int),
            decreases n - i,
        {
            let line = slice_of(ls[i].as_slice(), 0, ls[i].len());
            assert(line@ =~= ls@[i as int]@);
            let ghost old_kept = kept@;
            kept.push(line);
            assert forall|j: int| 0 <= j < i + 1 - start implies #[trigger] char_views(kept@)[j]
                == char_views(ls@).subrange(start as int, i + 1)[j] by {
                if j < i - start {
                    assert(char_views(old_kept)[j] == char_views(ls@).subrange(
                        start as int,
                        i as int,
                    )[j]);
                }
            }
            i = i + 1;
            assert(char_views(kept@) =~= char_views(ls@).subrange(start as int, i as int));
        }
        proof {
            let all = lines(t@);
            assert(char_views(ls@) == all);
            if n <= self.limit {
                assert(char_views(ls@).subrange(0, n as int) =~= all);
            }
            assert(char_views(kept@) == last_n(all, self.limit as nat));
        }
        let mut out: Vec<char> = Vec::new();
        let mut nl: Vec<char> = Vec::new();
        nl.push('\n');
        push_joined(&mut out, kept.as_slice(), nl.as_slice());
        if t.len() > 0 && t[t.len() - 1] == '\n' {
            out.push('\n');
        }
        assert(out@ =~= tail_text(t@, self.limit as nat));
        proof {
            lemma_tail_lines_bounded(t@, self.limit as nat);
        }
        string_of(out.as_slice())
    }
}

/// A valid UTF-8 text decodes around each of its line feed bytes: what
/// precedes it, a `'\n'`, and what follows it, both valid on their own.
pub proof fn lemma_decode_at_lf(w: Seq<u8>, p: int)
    requires
        valid_utf8(w),
        0 <= p < w.len(),
        w[p] == 10u8,
    ensures
        valid_utf8(w.subrange(0, p)),
        valid_utf8(w.subrange(p + 1, w.len() as int)),
        decode_utf8(w) == decode_utf8(w.subrange(0, p)) + seq!['\n'] + decode_utf8(
            w.subrange(p + 1, w.len() as int),
        ),
{
    vstd::utf8::is_char_boundary_iff_not_is_continuation_byte(w, p);
    assert(!vstd::utf8::is_continuation_byte(10u8)) by (bit_vector);
    vstd::utf8::valid_utf8_split(w, p);
    vstd::utf8::decode_utf8_split(w, p);
    let r = w.subrange(p, w.len() as int);
    assert(r[0] == 10u8);
    assert(vstd::utf8::is_leading_byte_width_1(10u8)) by (bit_vector);
    assert(vstd::utf8::length_of_first_scalar(r) == 1);
    assert(vstd::utf8::pop_first_scalar(r) =~= w.subrange(p + 1, w.len() as int));
    assert((10u8 & 0x7Fu8) as u32 == 10u32) by (bit_vector);
    assert(vstd::utf8::decode_first_scalar(r) == 10u32);
    assert((10u32 as char) == '\n');
    assert(decode_utf8(r) == seq![vstd::utf8::decode_first_scalar(r) as char] + decode_utf8(
        vstd::utf8::pop_first_scalar(r),
    ));
    assert(decode_utf8(w) =~= decode_utf8(w.subrange(0, p)) + seq!['\n'] + decode_utf8(
        w.subrange(p + 1, w.len() as int),
    ));
}

/// For a file that is valid UTF-8, the scan answers with the last `limit`
/// lines of the whole file, wherever the chunk boundaries fell: `file` is
/// the file scanned, and the line-feed count is what `finish` states of the
/// part it decoded.
pub proof fn lemma_scan_reads_valid_file_tail(scan: TailScan, file: Seq<u8>)
    requires
        scan.wf(),
        !scan.wants_more(),
        scan.limit() > 0,
        file.len() == scan.total(),
        file.subrange(scan.remaining() as int, file.len() as int) == scan.buffered(),
        valid_utf8(file),
        scan.remaining() > 0 && valid_utf8(after_first_lf(scan.buffered())) ==> count_of(
            decode_utf8(after_first_lf(scan.buffered())),
            '\n',
        ) >= scan.limit(),
    ensures
        valid_utf8(scan.decoded_part()),
        tail_text(decode_utf8(scan.decoded_part()), scan.limit()) == tail_text(
            decode_utf8(file),
            scan.limit(),
        ),
{
    let b = scan.buffered();
    if scan.remaining() == 0 {
        assert(file =~= b);
    } else {
        lemma_lf_from(b, 0);
        if lf_from(b, 0) == b.len() {
            crate::lines::lemma_count_absent(b, 10u8);
        }
        let p = scan.remaining() + lf_from(b, 0);
        assert(file[p] == b[lf_from(b, 0)]);
        assert(file.subrange(p + 1, file.len() as int) =~= after_first_lf(b));
        lemma_decode_at_lf(file, p);
        crate::lines::lemma_tail_text_after_nl(
            decode_utf8(file.subrange(0, p)),
            decode_utf8(after_first_lf(b)),
            scan.limit(),
        );
    }
}

/// Whether decoding `file` splits at the line feed byte at `p`: what
/// `String::from_utf8_lossy` does at every line feed.
pub open spec fn decoding_splits_at(file: Seq<u8>, p: int) -> bool {
    utf8_lossy(file) == utf8_lossy(file.subrange(0, p)) + seq!['\n'] + utf8_lossy(
        file.subrange(p + 1, file.len() as int),
    )
}

/// The scan answers with the last `limit` lines of the whole file, wherever
/// the chunk boundaries fell: `file` is the file scanned, the line-feed
/// count is what `finish` states of the part it decoded, and decoding the
/// file splits at the line feed where that part begins.
pub proof fn lemma_scan_reads_file_tail(scan: TailScan, file: Seq<u8>)
    requires
        scan.wf(),
        !scan.wants_more(),
        scan.limit() > 0,
        file.len() == scan.total(),
        file.subrange(scan.remaining() as int, file.len() as int) == scan.buffered(),
        scan.remaining() > 0 ==> count_of(utf8_lossy(after_first_lf(scan.buffered())), '\n')
            >= scan.limit(),
        scan.remaining() > 0 ==> decoding_splits_at(
            file,
            scan.remaining() + lf_from(scan.buffered(), 0),
        ),
    ensures
        scan.tail() == tail_text(utf8_lossy(file), scan.limit()),
{
    let b = scan.buffered();
    if scan.remaining() == 0 {
        assert(file =~= b);
    } else {
        lemma_lf_from(b, 0);
        if lf_from(b, 0) == b.len() {
            crate::lines::lemma_count_absent(b, 10u8);
        }
        let p = scan.remaining() + lf_from(b, 0);
        assert(file.subrange(p + 1, file.len() as int) =~= after_first_lf(b));
        crate::lines::lemma_tail_text_after_nl(
            utf8_lossy(file.subrange(0, p)),
            utf8_lossy(after_first_lf(b)),
            scan.limit(),
        );
    }
}

} // verus!
