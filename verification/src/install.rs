//! `--install`: which integration file each shell gets, which rc file it is
//! sourced from, and the instructions printed once it is in place.

use vstd::prelude::*;
use crate::shell::{ShellKind, path_join, path_join_str, shell_name};
use crate::text::{push_str_chars, string_of};

verus! {

/// Where the integration for one shell goes.
#[derive(Debug, Clone, Copy)]
pub struct ShellInstall {
    /// File written to the configuration directory.
    pub filename: &'static str,
    /// The rc file that sources it, relative to the home directory.
    pub rc_relative: &'static str,
    /// The shell's name, for messages.
    pub pretty: &'static str,
}

/// Why the integration cannot be installed.
#[derive(Debug, Clone, Copy, PartialEq, Eq, Structural)]
pub enum InstallError {
    /// `$SHELL` names none of bash, zsh, fish.
    UnsupportedShell,
}

/// The rc file of each supported shell, relative to the home directory.
pub open spec fn rc_file(kind: ShellKind) -> Seq<char> {
    match kind {
        ShellKind::Zsh => ".zshrc"@,
        ShellKind::Bash => ".bashrc"@,
        ShellKind::Fish => ".config/fish/config.fish"@,
        ShellKind::Unknown => Seq::empty(),
    }
}

/// The integration for `kind`: `interpreter.<shell>`, sourced from the
/// shell's rc file.
pub fn install_for(kind: ShellKind) -> (r: Result<ShellInstall, InstallError>)
    ensures
        r is Err <==> kind == ShellKind::Unknown,
        r matches Err(e) ==> e == InstallError::UnsupportedShell,
        r matches Ok(i) ==> {
            &&& i.filename@ == "interpreter."@ + shell_name(kind)
            &&& i.pretty@ == shell_name(kind)
            &&& i.rc_relative@ == rc_file(kind)
        },
{
    proof {
        reveal_strlit("interpreter.");
        reveal_strlit("interpreter.zsh");
        reveal_strlit("interpreter.bash");
        reveal_strlit("interpreter.fish");
        reveal_strlit("zsh");
        reveal_strlit("bash");
        reveal_strlit("fish");
    }
    match kind {
        ShellKind::Zsh => {
            assert("interpreter.zsh"@ =~= "interpreter."@ + "zsh"@);
            Ok(ShellInstall { filename: "interpreter.zsh", rc_relative: ".zshrc", pretty: "zsh" })
        },
        ShellKind::Bash => {
            assert("interpreter.bash"@ =~= "interpreter."@ + "bash"@);
            Ok(
                ShellInstall {
                    filename: "interpreter.bash",
                    rc_relative: ".bashrc",
                    pretty: "bash",
                },
            )
        },
        ShellKind::Fish => {
            assert("interpreter.fish"@ =~= "interpreter."@ + "fish"@);
            Ok(
                ShellInstall {
                    filename: "interpreter.fish",
                    rc_relative: ".config/fish/config.fish",
                    pretty: "fish",
                },
            )
        },
        ShellKind::Unknown => Err(InstallError::UnsupportedShell),
    }
}

/// The hotkey the shell integrations bind by default.
pub open spec fn default_hotkey() -> Seq<char> {
    "Ctrl-G"@
}

/// The instructions printed after installing: how to source the
/// integration from the rc file, and how to use it. `home` is `$HOME`, when
/// set.
pub open spec fn post_install_text(
    install: ShellInstall,
    script_path: Seq<char>,
    home: Option<Seq<char>>,
) -> Seq<char> {
    let h = match home {
        Some(h) => h,
        None => "$HOME"@,
    };
    let rc = path_join(h, install.rc_relative@);
    let source_line = "source "@ + script_path;
    "\n"@ + "Installation complete.\n"@ + "\n"@ + "To finish setup, add the following to "@ + rc
        + ":\n"@ + "\n"@ + "    echo '"@ + source_line + "' >> "@ + rc + "\n"@ + "\n"@
        + "Then open a new "@ + install.pretty@ + " session (or `source "@ + rc
        + "`) and you're set.\n"@ + "\n"@ + "Usage:\n"@
        + "  \u{2022} Type a prompt or partial command at your shell prompt, e.g.\n\n      list files including hidden\n\n"@
        + "  \u{2022} Press "@ + default_hotkey()
        + " to send the current command line to `interpreter`.\nThe line is replaced in place with an executable shell command,\nwhich you can review and then run with Enter.\n"@
        + "\n"@
        + "Override the hotkey by exporting INTERPRETER_KEY before sourcing\nthe integration file (e.g. INTERPRETER_KEY='^[i' for Alt-i in zsh).\n"@
}

pub fn post_install_message(install: &ShellInstall, script_path: &str, home: Option<&str>) -> (t:
    String)
    ensures
        t@ == post_install_text(
            *install,
            script_path@,
            match home {
                Some(h) => Some(h@),
                None => None,
            },
        ),
{
    let h = match home {
        Some(h) => h,
        None => "$HOME",
    };
    let rc = path_join_str(h, install.rc_relative);
    let rc = rc.as_str();
    let mut out: Vec<char> = Vec::new();
    push_str_chars(&mut out, "\n");
    push_str_chars(&mut out, "Installation complete.\n");
    push_str_chars(&mut out, "\n");
    push_str_chars(&mut out, "To finish setup, add the following to ");
    push_str_chars(&mut out, rc);
    push_str_chars(&mut out, ":\n");
    push_str_chars(&mut out, "\n");
    push_str_chars(&mut out, "    echo '");
    push_str_chars(&mut out, "source ");
    push_str_chars(&mut out, script_path);
    push_str_chars(&mut out, "' >> ");
    push_str_chars(&mut out, rc);
    push_str_chars(&mut out, "\n");
    push_str_chars(&mut out, "\n");
    push_str_chars(&mut out, "Then open a new ");
    push_str_chars(&mut out, install.pretty);
    push_str_chars(&mut out, " session (or `source ");
    push_str_chars(&mut out, rc);
    push_str_chars(&mut out, "`) and you're set.\n");
    push_str_chars(&mut out, "\n");
    push_str_chars(&mut out, "Usage:\n");
    push_str_chars(
        &mut out,
        "  \u{2022} Type a prompt or partial command at your shell prompt, e.g.\n\n      list files including hidden\n\n",
    );
    push_str_chars(&mut out, "  \u{2022} Press ");
    push_str_chars(&mut out, "Ctrl-G");
    push_str_chars(
        &mut out,
        " to send the current command line to `interpreter`.\nThe line is replaced in place with an executable shell command,\nwhich you can review and then run with Enter.\n",
    );
    push_str_chars(&mut out, "\n");
    push_str_chars(
        &mut out,
        "Override the hotkey by exporting INTERPRETER_KEY before sourcing\nthe integration file (e.g. INTERPRETER_KEY='^[i' for Alt-i in zsh).\n",
    );
    let ghost hv = match home {
        Some(h) => Some(h@),
        None => None,
    };
    assert(out@ =~= post_install_text(*install, script_path@, hv));
    string_of(out.as_slice())
}

} // verus!
