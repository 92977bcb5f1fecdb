use interpreter::shell::{history_path, read_history, ShellKind, TailScan, TAIL_CHUNK};

/// Drives the tail scan over an in-memory file, the way the binary drives
/// it over a real one.
fn tail_of(body: &[u8], limit: usize) -> String {
    let mut scan = TailScan::new(body.len() as u64, limit);
    let mut reads = 0;
    while let Some((off, len)) = scan.next_chunk() {
        let off = off as usize;
        scan.push_chunk(body[off..off + len].to_vec());
        reads += 1;
        assert!(reads <= body.len() / TAIL_CHUNK + 1);
    }
    scan.finish()
}

#[test]
fn tail_reads_last_n_lines() {
    let body: String = (0..5000).map(|i| format!("line {i}\n")).collect();
    let tail = tail_of(body.as_bytes(), 10);
    let lines: Vec<&str> = tail.lines().collect();
    assert_eq!(lines.len(), 10);
    assert_eq!(lines.first().copied(), Some("line 4990"));
    assert_eq!(lines.last().copied(), Some("line 4999"));
}

#[test]
fn tail_smaller_than_limit_returns_all() {
    let tail = tail_of(b"a\nb\nc\n", 100);
    assert_eq!(tail.lines().collect::<Vec<_>>(), vec!["a", "b", "c"]);
}

#[test]
fn tail_zero_limit_returns_empty() {
    assert_eq!(tail_of(b"a\nb\n", 0), "");
}

#[test]
fn tail_handles_no_trailing_newline() {
    let tail = tail_of(b"alpha\nbeta\ngamma", 2);
    let lines: Vec<&str> = tail.lines().collect();
    assert_eq!(lines, vec!["beta", "gamma"]);
}

#[test]
fn tail_handles_chunk_boundary() {
    // Force many small reads by writing more than one chunk.
    let big_line = "x".repeat(64);
    let body: String = (0..2000).map(|i| format!("{i}-{big_line}\n")).collect();
    let tail = tail_of(body.as_bytes(), 3);
    let lines: Vec<&str> = tail.lines().collect();
    assert_eq!(lines.len(), 3);
    assert!(lines[2].starts_with("1999-"));
}

#[test]
fn tail_keeps_trailing_newline_and_drops_cr() {
    assert_eq!(tail_of(b"one\r\ntwo\r\nthree\r\n", 2), "two\nthree\n");
    assert_eq!(tail_of(b"", 5), "");
}

#[test]
fn tail_of_suffix_matches_whole_file() {
    // Only part of the file is read, yet the answer is that of the whole file.
    let body: String = (0..3000).map(|i| format!("entry number {i}\n")).collect();
    let whole: Vec<&str> = body.lines().collect();
    let expected = whole[whole.len() - 7..].join("\n") + "\n";
    assert_eq!(tail_of(body.as_bytes(), 7), expected);
}

#[test]
fn tail_decodes_invalid_utf8_lossily() {
    let tail = tail_of(b"ok\nbad \xff byte\n", 5);
    assert_eq!(tail, "ok\nbad \u{FFFD} byte\n");
}

#[test]
fn scan_asks_for_chunks_from_the_end() {
    let scan = TailScan::new(20000, 3);
    assert_eq!(scan.next_chunk(), Some((20000 - TAIL_CHUNK as u64, TAIL_CHUNK)));
    let small = TailScan::new(10, 3);
    assert_eq!(small.next_chunk(), Some((0, 10)));
    assert_eq!(TailScan::new(0, 3).next_chunk(), None);
    assert_eq!(TailScan::new(10, 0).next_chunk(), None);
}

#[test]
fn history_strips_zsh_extended_format() {
    let raw = ": 1700000000:0;git status\n: 1700000001:0;echo a;echo b\nplain\n";
    assert_eq!(read_history(ShellKind::Zsh, raw), vec!["git status", "echo a;echo b", "plain"]);
    assert_eq!(
        read_history(ShellKind::Bash, raw),
        vec![": 1700000000:0;git status", ": 1700000001:0;echo a;echo b", "plain"]
    );
    assert!(read_history(ShellKind::Fish, "").is_empty());
}

#[test]
fn zsh_plain_lines_are_kept_whole() {
    let raw = "cd /tmp; ls
: 12:3;make
: x:0;odd
:1:0;nospace
: 5:;nodur
";
    assert_eq!(
        read_history(ShellKind::Zsh, raw),
        vec!["cd /tmp; ls", "make", ": x:0;odd", ":1:0;nospace", ": 5:;nodur"]
    );
}

#[test]
fn detect_reads_shell_path() {
    assert_eq!(ShellKind::detect(Some("/usr/bin/zsh")), ShellKind::Zsh);
    assert_eq!(ShellKind::detect(Some("/bin/BASH")), ShellKind::Bash);
    assert_eq!(ShellKind::detect(Some("fish")), ShellKind::Fish);
    assert_eq!(ShellKind::detect(Some("/bin/sh")), ShellKind::Unknown);
    assert_eq!(ShellKind::detect(Some("/usr/bin/zsh/")), ShellKind::Unknown);
    assert_eq!(ShellKind::detect(None), ShellKind::Unknown);
}

#[test]
fn detect_recognises_own_names() {
    for kind in [ShellKind::Bash, ShellKind::Zsh, ShellKind::Fish, ShellKind::Unknown] {
        assert_eq!(ShellKind::detect(Some(kind.as_str())), kind);
    }
    assert_eq!(ShellKind::Unknown.as_str(), "sh");
}

#[test]
fn history_paths_per_shell() {
    assert_eq!(history_path(ShellKind::Bash, Some("/home/u"), None).as_deref(), Some("/home/u/.bash_history"));
    assert_eq!(history_path(ShellKind::Zsh, Some("/home/u/"), None).as_deref(), Some("/home/u/.zsh_history"));
    assert_eq!(
        history_path(ShellKind::Zsh, Some("/home/u"), Some("/tmp/h")).as_deref(),
        Some("/tmp/h")
    );
    assert_eq!(
        history_path(ShellKind::Fish, Some("/root"), Some("/tmp/h")).as_deref(),
        Some("/root/.local/share/fish/fish_history")
    );
    assert_eq!(history_path(ShellKind::Unknown, Some(""), None).as_deref(), Some(".sh_history"));
    assert_eq!(history_path(ShellKind::Zsh, None, Some("/tmp/h")), None);
}
