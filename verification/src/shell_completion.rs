//! Installing the completion script of a shell.

use crate::paths::{
    file_name_range, find_file_name, is_directory, is_part, join_path, joined_path,
    lemma_part_is_found, System,
};
use crate::text::{
    bytes_of, find_subsequence, first_from, lemma_encoding_concat, lemma_first_from, occurs_at,
    same_text,
};
use vstd::prelude::*;

verus! {

/// The shells that a completion script can be installed for.
#[derive(Debug, Clone, Copy, PartialEq, Eq, Structural)]
pub enum Shell {
    Bash,
    Elvish,
    Fish,
    PowerShell,
    Zsh,
}

/// The shell with a file name.
pub open spec fn shell_named(name: Seq<char>) -> Option<Shell> {
    if name == "bash"@ {
        Some(Shell::Bash)
    } else if name == "zsh"@ {
        Some(Shell::Zsh)
    } else if name == "fish"@ {
        Some(Shell::Fish)
    } else if name == "elvish"@ {
        Some(Shell::Elvish)
    } else {
        None
    }
}

/// The file name of a path, empty where it has none.
pub open spec fn name_of(path: Seq<char>) -> Seq<char> {
    match file_name_range(path) {
        Some((start, end)) => path.subrange(start, end),
        None => Seq::empty(),
    }
}

/// The shell that the path of the user's shell names; the file name of the path where
/// it is none that is known.
pub fn detect_shell(shell_path: &str) -> (shell: Result<Shell, String>)
    ensures
        match shell {
            Ok(s) => shell_named(name_of(shell_path@)) == Some(s),
            Err(name) => shell_named(name_of(shell_path@)) is None && name@ == name_of(shell_path@),
        },
{
    let name: String = match find_file_name(shell_path) {
        Some((start, end)) => shell_path.substring_char(start, end).to_owned(),
        None => String::new(),
    };
    proof {
        reveal_strlit("bash");
        reveal_strlit("zsh");
        reveal_strlit("fish");
        reveal_strlit("elvish");
        assert("bash"@[0] == 'b');
        assert("fish"@[0] == 'f');
        assert("zsh"@.len() == 3);
        assert("elvish"@.len() == 6);
    }
    if same_text(name.as_str(), "bash") {
        Ok(Shell::Bash)
    } else if same_text(name.as_str(), "zsh") {
        Ok(Shell::Zsh)
    } else if same_text(name.as_str(), "fish") {
        Ok(Shell::Fish)
    } else if same_text(name.as_str(), "elvish") {
        Ok(Shell::Elvish)
    } else {
        Err(name)
    }
}

/// Where the completion script of a shell goes, and what makes the shell load it.
#[derive(Debug)]
pub struct ShellConfig {
    /// The path of the completion script.
    pub completion_path: String,
    /// The start-up file that has to load the script, if one has to.
    pub rc_path: Option<String>,
    /// The lines to be added to the start-up file.
    pub source_line: String,
    /// What the user is told to do to make it work at once.
    pub reload_hint: String,
}

/// The configuration of a shell, as contracts speak of it.
pub struct ShellConfigItem {
    pub completion_path: Seq<char>,
    pub rc_path: Option<Seq<char>>,
    pub source_line: Seq<char>,
    pub reload_hint: Seq<char>,
}

impl View for ShellConfig {
    type V = ShellConfigItem;

    open spec fn view(&self) -> ShellConfigItem {
        ShellConfigItem {
            completion_path: self.completion_path@,
            rc_path: match self.rc_path {
                Some(path) => Some(path@),
                None => None,
            },
            source_line: self.source_line@,
            reload_hint: self.reload_hint@,
        }
    }
}

/// The profiles of PowerShell on Windows, the one that is preferred first.
pub open spec fn profile_paths(home: Seq<char>) -> (Seq<char>, Seq<char>) {
    (
        joined_path(
            home,
            "Documents/PowerShell/Microsoft.PowerShell_profile.ps1"@,
            System::Windows,
        ),
        joined_path(
            home,
            "Documents/WindowsPowerShell/Microsoft.PowerShell_profile.ps1"@,
            System::Windows,
        ),
    )
}

/// The profile of PowerShell: on Windows the first of the two that exists, the first
/// where none does; elsewhere none.
pub open spec fn profile_path(home: Seq<char>, system: System, exist: (bool, bool)) -> Option<
    Seq<char>,
> {
    if system == System::Windows {
        if !exist.0 && exist.1 {
            Some(profile_paths(home).1)
        } else {
            Some(profile_paths(home).0)
        }
    } else {
        None
    }
}

/// The configuration of a shell for a user with a home directory.
pub open spec fn config_of(shell: Shell, home: Seq<char>, system: System, exist: (bool, bool)) -> ShellConfigItem {
    let shared = joined_path(home, ".local/share/sxlsx/completions"@, system);
    match shell {
        Shell::Bash => {
            let script = joined_path(shared, "sxlsx.bash"@, system);
            ShellConfigItem {
                completion_path: script,
                rc_path: Some(joined_path(home, ".bashrc"@, system)),
                source_line: "# sxlsx shell completion\n[ -f \""@ + script + "\" ] && source \""@
                    + script + "\""@,
                reload_hint: "source ~/.bashrc"@,
            }
        },
        Shell::Zsh => ShellConfigItem {
            completion_path: joined_path(shared, "_sxlsx"@, system),
            rc_path: Some(joined_path(home, ".zshrc"@, system)),
            source_line: "# sxlsx shell completion\nfpath+=(\""@ + shared
                + "\")\nautoload -Uz compinit && compinit"@,
            reload_hint: "source ~/.zshrc"@,
        },
        Shell::Fish => ShellConfigItem {
            completion_path: joined_path(
                joined_path(home, ".config/fish/completions"@, system),
                "sxlsx.fish"@,
                system,
            ),
            rc_path: None,
            source_line: Seq::empty(),
            reload_hint: "无需额外操作，fish 会自动加载"@,
        },
        Shell::PowerShell => {
            let directory = if system == System::Windows {
                joined_path(home, "Documents/PowerShell/Completions"@, system)
            } else {
                joined_path(home, ".local/share/powershell/Completions"@, system)
            };
            let script = joined_path(directory, "sxlsx.ps1"@, system);
            ShellConfigItem {
                completion_path: script,
                rc_path: profile_path(home, system, exist),
                source_line: "# sxlsx shell completion\n. \""@ + script + "\""@,
                reload_hint: ". $PROFILE"@,
            }
        },
        Shell::Elvish => {
            let script = joined_path(shared, "sxlsx.elv"@, system);
            ShellConfigItem {
                completion_path: script,
                rc_path: Some(joined_path(home, ".elvish/rc.elv"@, system)),
                source_line: "# sxlsx shell completion\neval (cat \""@ + script + "\")"@,
                reload_hint: "重启 elvish"@,
            }
        },
    }
}

/// The profiles of PowerShell on Windows, the one that is preferred first.
pub fn profile_candidates(home: &str) -> (paths: (String, String))
    ensures
        (paths.0@, paths.1@) == profile_paths(home@),
{
    (
        join_path(
            home,
            "Documents/PowerShell/Microsoft.PowerShell_profile.ps1",
            System::Windows,
        ),
        join_path(
            home,
            "Documents/WindowsPowerShell/Microsoft.PowerShell_profile.ps1",
            System::Windows,
        ),
    )
}

/// The profile of PowerShell. `exist` says which of the candidates exist.
pub fn powershell_profile_path(home: &str, system: System, exist: (bool, bool)) -> (path: Option<
    String,
>)
    ensures
        match path {
            Some(p) => profile_path(home@, system, exist) == Some(p@),
            None => profile_path(home@, system, exist) is None,
        },
{
    if system == System::Windows {
        let (first, second) = profile_candidates(home);
        if !exist.0 && exist.1 {
            Some(second)
        } else {
            Some(first)
        }
    } else {
        None
    }
}

fn around(before: &str, path: &str, after: &str) -> (text: String)
    ensures
        text@ == before@ + path@ + after@,
{
    let mut text = before.to_owned();
    text.append(path);
    text.append(after);
    text
}

impl ShellConfig {
    /// The configuration of a shell for a user with a home directory. `exist` says
    /// which profiles of PowerShell exist.
    pub fn for_shell(shell: Shell, home: &str, system: System, exist: (bool, bool)) -> (config:
        Self)
        ensures
            config@ == config_of(shell, home@, system, exist),
    {
        let shared = join_path(home, ".local/share/sxlsx/completions", system);
        match shell {
            Shell::Bash => {
                let completion_path = join_path(shared.as_str(), "sxlsx.bash", system);
                let mut source_line = around(
                    "# sxlsx shell completion\n[ -f \"",
                    completion_path.as_str(),
                    "\" ] && source \"",
                );
                source_line.append(completion_path.as_str());
                source_line.append("\"");
                ShellConfig {
                    completion_path,
                    rc_path: Some(join_path(home, ".bashrc", system)),
                    source_line,
                    reload_hint: "source ~/.bashrc".to_owned(),
                }
            },
            Shell::Zsh => ShellConfig {
                completion_path: join_path(shared.as_str(), "_sxlsx", system),
                rc_path: Some(join_path(home, ".zshrc", system)),
                source_line: around(
                    "# sxlsx shell completion\nfpath+=(\"",
                    shared.as_str(),
                    "\")\nautoload -Uz compinit && compinit",
                ),
                reload_hint: "source ~/.zshrc".to_owned(),
            },
            Shell::Fish => {
                let directory = join_path(home, ".config/fish/completions", system);
                ShellConfig {
                    completion_path: join_path(directory.as_str(), "sxlsx.fish", system),
                    rc_path: None,
                    source_line: String::new(),
                    reload_hint: "无需额外操作，fish 会自动加载".to_owned(),
                }
            },
            Shell::PowerShell => {
                let directory = if system == System::Windows {
                    join_path(home, "Documents/PowerShell/Completions", system)
                } else {
                    join_path(home, ".local/share/powershell/Completions", system)
                };
                let completion_path = join_path(directory.as_str(), "sxlsx.ps1", system);
                let source_line = around(
                    "# sxlsx shell completion\n. \"",
                    completion_path.as_str(),
                    "\"",
                );
                ShellConfig {
                    completion_path,
                    rc_path: powershell_profile_path(home, system, exist),
                    source_line,
                    reload_hint: ". $PROFILE".to_owned(),
                }
            },
            Shell::Elvish => {
                let completion_path = join_path(shared.as_str(), "sxlsx.elv", system);
                let source_line = around(
                    "# sxlsx shell completion\neval (cat \"",
                    completion_path.as_str(),
                    "\")",
                );
                ShellConfig {
                    completion_path,
                    rc_path: Some(join_path(home, ".elvish/rc.elv", system)),
                    source_line,
                    reload_hint: "重启 elvish".to_owned(),
                }
            },
        }
    }
}

/// Whether a start-up file, given by its content where it can be read, holds a
/// marker.
pub open spec fn holds_marker(content: Option<Seq<char>>, marker: &str) -> bool {
    match content {
        Some(text) => first_from(vstd::utf8::encode_utf8(text), bytes_of(marker), 0) is Some,
        None => false,
    }
}

/// The marker that the lines in a start-up file start with.
pub open spec fn marker() -> &'static str {
    "sxlsx shell completion"
}

/// An optional text, as contracts speak of it.
pub open spec fn content_text(content: Option<&str>) -> Option<Seq<char>> {
    match content {
        Some(text) => Some(text@),
        None => None,
    }
}

/// Whether a start-up file, given by its content where it can be read, loads the
/// script already.
pub fn already_sourced(content: Option<&str>, marker: &str) -> (sourced: bool)
    ensures
        sourced == holds_marker(content_text(content), marker),
{
    match content {
        Some(text) => find_subsequence(text.as_bytes(), marker.as_bytes()).is_some(),
        None => false,
    }
}

/// What is to be added to the start-up file: an empty line and the lines that load
/// the script, unless the file loads it already.
pub fn lines_to_add(config: &ShellConfig, content: Option<&str>) -> (lines: Option<String>)
    ensures
        match lines {
            Some(text) => config@.rc_path is Some && !holds_marker(content_text(content), marker())
                && text@ == "\n"@ + config@.source_line + "\n"@,
            None => config@.rc_path is None || holds_marker(content_text(content), marker()),
        },
{
    if config.rc_path.is_none() || already_sourced(content, "sxlsx shell completion") {
        return None;
    }
    Some(around("\n", config.source_line.as_str(), "\n"))
}

/// The shells are known by their names, and no other name is one.
pub proof fn law_shell_names(name: Seq<char>)
    ensures
        shell_named(name) == Some(Shell::Bash) <==> name == seq!['b', 'a', 's', 'h'],
        shell_named(name) == Some(Shell::Zsh) <==> name == seq!['z', 's', 'h'],
        shell_named(name) == Some(Shell::Fish) <==> name == seq!['f', 'i', 's', 'h'],
        shell_named(name) == Some(Shell::Elvish) <==> name == seq!['e', 'l', 'v', 'i', 's', 'h'],
        shell_named(name) != Some(Shell::PowerShell),
{
    reveal_strlit("bash");
    reveal_strlit("zsh");
    reveal_strlit("fish");
    reveal_strlit("elvish");
    assert("bash"@ =~= seq!['b', 'a', 's', 'h']);
    assert("zsh"@ =~= seq!['z', 's', 'h']);
    assert("fish"@ =~= seq!['f', 'i', 's', 'h']);
    assert("elvish"@ =~= seq!['e', 'l', 'v', 'i', 's', 'h']);
    assert(seq!['b', 'a', 's', 'h'][0] != seq!['f', 'i', 's', 'h'][0]);
    assert(seq!['z', 's', 'h'].len() != seq!['f', 'i', 's', 'h'].len());
    assert(seq!['z', 's', 'h'].len() != seq!['b', 'a', 's', 'h'].len());
    assert(seq!['e', 'l', 'v', 'i', 's', 'h'].len() == 6);
}

/// The shell is found by the file name of its path, in whatever directory it lies.
pub proof fn law_shell_is_found(dir: Seq<char>, name: Seq<char>)
    requires
        is_directory(dir),
        is_part(name),
        name != seq!['.'],
        name != seq!['.', '.'],
    ensures
        name_of(dir + name) == name,
{
    lemma_part_is_found(dir, name);
    assert((dir + name).subrange(dir.len() as int, (dir + name).len() as int) =~= name);
}

/// Whether a text holds another.
pub open spec fn holds_text(text: Seq<char>, part: Seq<char>) -> bool {
    exists|at: int|
        0 <= at && at + part.len() <= text.len() && #[trigger] text.subrange(at, at + part.len())
            == part
}

/// The lines that are added to the start-up file of a shell are found in it afterwards,
/// whatever else it holds, so that they are not added again.
pub proof fn law_added_lines_are_found(
    shell: Shell,
    home: Seq<char>,
    system: System,
    exist: (bool, bool),
    content: Seq<char>,
    more: Seq<char>,
)
    requires
        config_of(shell, home, system, exist).rc_path is Some,
    ensures
        holds_marker(
            Some(
                content + ("\n"@ + config_of(shell, home, system, exist).source_line + "\n"@) + more,
            ),
            marker(),
        ),
{
    let line = config_of(shell, home, system, exist).source_line;
    lemma_line_starts(shell, home, system, exist);
    let rest = line.skip(marker()@.len() as int + 2);
    let lead = content + "\n"@ + seq!['#', ' '];
    let tail = rest + "\n"@ + more;
    let whole = content + ("\n"@ + line + "\n"@) + more;
    assert(line =~= seq!['#', ' '] + marker()@ + rest);
    assert(whole =~= lead + (marker()@ + tail));
    lemma_encoding_concat(lead, marker()@ + tail);
    lemma_encoding_concat(marker()@, tail);
    let bytes = vstd::utf8::encode_utf8(whole);
    let needle = bytes_of(marker());
    let at = vstd::utf8::encode_utf8(lead).len() as int;
    assert(bytes.subrange(at, at + needle.len()) =~= needle);
    lemma_first_from(bytes, needle, 0);
    assert(occurs_at(bytes, needle, at));
}

/// The lines of every shell that has a start-up file begin with the marker, in a comment.
proof fn lemma_line_starts(shell: Shell, home: Seq<char>, system: System, exist: (bool, bool))
    requires
        config_of(shell, home, system, exist).rc_path is Some,
    ensures
        ({
            let line = config_of(shell, home, system, exist).source_line;
            let n = marker()@.len() as int;
            &&& line.len() >= n + 2
            &&& line.take(n + 2) == seq!['#', ' '] + marker()@
        }),
{
    reveal_strlit("sxlsx shell completion");
    reveal_strlit("# sxlsx shell completion\n[ -f \"");
    reveal_strlit("# sxlsx shell completion\nfpath+=(\"");
    reveal_strlit("# sxlsx shell completion\n. \"");
    reveal_strlit("# sxlsx shell completion\neval (cat \"");
    let line = config_of(shell, home, system, exist).source_line;
    let n = marker()@.len() as int;
    assert(line.take(n + 2) =~= seq!['#', ' '] + marker()@);
}

/// A completion script lies below the user's home directory, and so does the start-up file
/// that loads it; the lines that load it name the script, or the directory that it lies in.
/// `fish` alone needs no such lines.
pub proof fn law_scripts_are_loaded(shell: Shell, home: Seq<char>, exist: (bool, bool))
    requires
        home.len() > 0,
        home.last() != '/',
        shell != Shell::PowerShell,
    ensures
        ({
            let config = config_of(shell, home, System::Unix, exist);
            let shared = home + "/.local/share/sxlsx/completions"@;
            &&& match shell {
                Shell::Bash => config.completion_path == shared + "/sxlsx.bash"@ && config.rc_path
                    == Some(home + "/.bashrc"@),
                Shell::Zsh => config.completion_path == shared + "/_sxlsx"@ && config.rc_path
                    == Some(home + "/.zshrc"@),
                Shell::Fish => config.completion_path == home
                    + "/.config/fish/completions/sxlsx.fish"@ && config.rc_path is None,
                Shell::Elvish => config.completion_path == shared + "/sxlsx.elv"@ && config.rc_path
                    == Some(home + "/.elvish/rc.elv"@),
                Shell::PowerShell => true,
            }
            &&& shell == Shell::Bash || shell == Shell::Elvish ==> holds_text(
                config.source_line,
                config.completion_path,
            )
            &&& shell == Shell::Zsh ==> holds_text(config.source_line, shared)
            &&& shell == Shell::Fish ==> config.source_line.len() == 0
        }),
{
    lemma_paths_of_scripts(home);
    let config = config_of(shell, home, System::Unix, exist);
    let line = config.source_line;
    let script = config.completion_path;
    let shared = home + "/.local/share/sxlsx/completions"@;
    match shell {
        Shell::Bash => {
            let before = "# sxlsx shell completion\n[ -f \""@;
            let behind = "\" ] && source \""@ + script + "\""@;
            assert(line =~= (before + script) + behind);
            let at = before.len() as int;
            assert(line.subrange(at, at + script.len()) =~= script);
        },
        Shell::Zsh => {
            let before = "# sxlsx shell completion\nfpath+=(\""@;
            assert(line =~= (before + shared) + "\")\nautoload -Uz compinit && compinit"@);
            let at = before.len() as int;
            assert(line.subrange(at, at + shared.len()) =~= shared);
        },
        Shell::Elvish => {
            let before = "# sxlsx shell completion\neval (cat \""@;
            assert(line =~= (before + script) + "\")"@);
            let at = before.len() as int;
            assert(line.subrange(at, at + script.len()) =~= script);
        },
        _ => {},
    }
}

proof fn lemma_paths_of_scripts(home: Seq<char>)
    requires
        home.len() > 0,
        home.last() != '/',
    ensures
        ({
            let shared = joined_path(home, ".local/share/sxlsx/completions"@, System::Unix);
            let fish = joined_path(home, ".config/fish/completions"@, System::Unix);
            &&& shared == home + "/.local/share/sxlsx/completions"@
            &&& joined_path(shared, "sxlsx.bash"@, System::Unix) == shared + "/sxlsx.bash"@
            &&& joined_path(shared, "_sxlsx"@, System::Unix) == shared + "/_sxlsx"@
            &&& joined_path(shared, "sxlsx.elv"@, System::Unix) == shared + "/sxlsx.elv"@
            &&& joined_path(fish, "sxlsx.fish"@, System::Unix) == home
                + "/.config/fish/completions/sxlsx.fish"@
            &&& joined_path(home, ".bashrc"@, System::Unix) == home + "/.bashrc"@
            &&& joined_path(home, ".zshrc"@, System::Unix) == home + "/.zshrc"@
            &&& joined_path(home, ".elvish/rc.elv"@, System::Unix) == home + "/.elvish/rc.elv"@
        }),
{
    reveal_strlit("/");
    reveal_strlit(".local/share/sxlsx/completions");
    reveal_strlit("/.local/share/sxlsx/completions");
    reveal_strlit(".config/fish/completions");
    reveal_strlit("/.config/fish/completions/sxlsx.fish");
    reveal_strlit("sxlsx.bash");
    reveal_strlit("/sxlsx.bash");
    reveal_strlit("_sxlsx");
    reveal_strlit("/_sxlsx");
    reveal_strlit("sxlsx.elv");
    reveal_strlit("/sxlsx.elv");
    reveal_strlit("sxlsx.fish");
    reveal_strlit(".bashrc");
    reveal_strlit("/.bashrc");
    reveal_strlit(".zshrc");
    reveal_strlit("/.zshrc");
    reveal_strlit(".elvish/rc.elv");
    reveal_strlit("/.elvish/rc.elv");
    let shared = joined_path(home, ".local/share/sxlsx/completions"@, System::Unix);
    let fish = joined_path(home, ".config/fish/completions"@, System::Unix);
    assert(shared =~= home + "/.local/share/sxlsx/completions"@);
    assert(shared.last() == 's');
    assert(fish.last() == 's');
    assert(joined_path(shared, "sxlsx.bash"@, System::Unix) =~= shared + "/sxlsx.bash"@);
    assert(joined_path(shared, "_sxlsx"@, System::Unix) =~= shared + "/_sxlsx"@);
    assert(joined_path(shared, "sxlsx.elv"@, System::Unix) =~= shared + "/sxlsx.elv"@);
    assert(joined_path(fish, "sxlsx.fish"@, System::Unix) =~= home
        + "/.config/fish/completions/sxlsx.fish"@);
    assert(joined_path(home, ".bashrc"@, System::Unix) =~= home + "/.bashrc"@);
    assert(joined_path(home, ".zshrc"@, System::Unix) =~= home + "/.zshrc"@);
    assert(joined_path(home, ".elvish/rc.elv"@, System::Unix) =~= home + "/.elvish/rc.elv"@);
}

/// The profile of PowerShell on Windows is the newer one, unless only the older one exists;
/// elsewhere there is none.
pub proof fn law_profiles(home: Seq<char>, exist: (bool, bool))
    ensures
        profile_path(home, System::Unix, exist) is None,
        profile_path(home, System::Windows, exist) == Some(
            if exist.1 && !exist.0 {
                profile_paths(home).1
            } else {
                profile_paths(home).0
            },
        ),
        profile_paths(home).0 == joined_path(
            home,
            "Documents/PowerShell/Microsoft.PowerShell_profile.ps1"@,
            System::Windows,
        ),
        profile_paths(home).1 == joined_path(
            home,
            "Documents/WindowsPowerShell/Microsoft.PowerShell_profile.ps1"@,
            System::Windows,
        ),
{
}

} // verus!
