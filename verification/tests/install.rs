use interpreter::install::{install_for, post_install_message, InstallError};
use interpreter::shell::ShellKind;

#[test]
fn integration_files_per_shell() {
    let z = install_for(ShellKind::Zsh).unwrap();
    assert_eq!((z.filename, z.rc_relative, z.pretty), ("interpreter.zsh", ".zshrc", "zsh"));
    let b = install_for(ShellKind::Bash).unwrap();
    assert_eq!((b.filename, b.rc_relative, b.pretty), ("interpreter.bash", ".bashrc", "bash"));
    let f = install_for(ShellKind::Fish).unwrap();
    assert_eq!(
        (f.filename, f.rc_relative, f.pretty),
        ("interpreter.fish", ".config/fish/config.fish", "fish")
    );
    assert_eq!(install_for(ShellKind::Unknown).unwrap_err(), InstallError::UnsupportedShell);
}

#[test]
fn post_install_instructions() {
    let z = install_for(ShellKind::Zsh).unwrap();
    let text = post_install_message(&z, "/home/u/.config/interpreter/interpreter.zsh", Some("/home/u"));
    let expected = "\nInstallation complete.\n\nTo finish setup, add the following to /home/u/.zshrc:\n\n    echo 'source /home/u/.config/interpreter/interpreter.zsh' >> /home/u/.zshrc\n\nThen open a new zsh session (or `source /home/u/.zshrc`) and you're set.\n\nUsage:\n  \u{2022} Type a prompt or partial command at your shell prompt, e.g.\n\n      list files including hidden\n\n  \u{2022} Press Ctrl-G to send the current command line to `interpreter`.\nThe line is replaced in place with an executable shell command,\nwhich you can review and then run with Enter.\n\nOverride the hotkey by exporting INTERPRETER_KEY before sourcing\nthe integration file (e.g. INTERPRETER_KEY='^[i' for Alt-i in zsh).\n";
    assert_eq!(text, expected);
}

#[test]
fn post_install_without_home() {
    let f = install_for(ShellKind::Fish).unwrap();
    let text = post_install_message(&f, "/c/interpreter.fish", None);
    assert!(text.contains("add the following to $HOME/.config/fish/config.fish:\n"));
    assert!(text.contains("Then open a new fish session"));
}
