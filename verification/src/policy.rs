//! The process execution gateway's decision logic: a fixed allow-list of
//! developer tools for generic execution, a block-list of remote
//! version-control subcommands, and the rejection of shell-chaining
//! metacharacters in arguments.

use vstd::prelude::*;
use vstd::string::StrSliceExecFns;
use vstd::string::StringExecFns;

use crate::errors::GatewayError;
use crate::strutil::equal_mod_case;
use crate::strutil::eq_ignore_case;
use crate::strutil::str_eq;

verus! {

/// The default timeout reported by the capability listing. Accepted from
/// callers but not enforced: commands run to completion.
pub const DEFAULT_SHELL_TIMEOUT_MS: u64 = 60000;

/// A program name on the fixed allow-list, compared ignoring ASCII case.
pub open spec fn is_allowed_command(s: Seq<char>) -> bool {
    ||| equal_mod_case(s, "ls"@)
    ||| equal_mod_case(s, "cat"@)
    ||| equal_mod_case(s, "tail"@)
    ||| equal_mod_case(s, "pwd"@)
    ||| equal_mod_case(s, "npm"@)
    ||| equal_mod_case(s, "pnpm"@)
    ||| equal_mod_case(s, "yarn"@)
    ||| equal_mod_case(s, "npx"@)
    ||| equal_mod_case(s, "node"@)
    ||| equal_mod_case(s, "deno"@)
    ||| equal_mod_case(s, "cargo"@)
    ||| equal_mod_case(s, "go"@)
    ||| equal_mod_case(s, "python"@)
    ||| equal_mod_case(s, "pip"@)
    ||| equal_mod_case(s, "pip3"@)
    ||| equal_mod_case(s, "just"@)
    ||| equal_mod_case(s, "make"@)
    ||| equal_mod_case(s, "rg"@)
}

/// Whether the program is on the allow-list of known developer tools.
pub fn is_shell_command_allowed(command: &str) -> (r: bool)
    ensures
        r == is_allowed_command(command@),
{
    eq_ignore_case(command, "ls") || eq_ignore_case(command, "cat") || eq_ignore_case(
        command,
        "tail",
    ) || eq_ignore_case(command, "pwd") || eq_ignore_case(command, "npm") || eq_ignore_case(
        command,
        "pnpm",
    ) || eq_ignore_case(command, "yarn") || eq_ignore_case(command, "npx") || eq_ignore_case(
        command,
        "node",
    ) || eq_ignore_case(command, "deno") || eq_ignore_case(command, "cargo") || eq_ignore_case(
        command,
        "go",
    ) || eq_ignore_case(command, "python") || eq_ignore_case(command, "pip") || eq_ignore_case(
        command,
        "pip3",
    ) || eq_ignore_case(command, "just") || eq_ignore_case(command, "make") || eq_ignore_case(
        command,
        "rg",
    )
}

/// A shell-chaining metacharacter: `&`, `|` or `;`.
pub open spec fn is_meta_char(c: char) -> bool {
    c == '&' || c == '|' || c == ';'
}

/// An argument holds a shell-chaining metacharacter.
pub open spec fn has_meta(s: Seq<char>) -> bool {
    exists|i: int| 0 <= i < s.len() && is_meta_char(s[i])
}

/// Some argument holds a shell-chaining metacharacter.
pub open spec fn any_has_meta(args: Seq<Seq<char>>) -> bool {
    exists|k: int| 0 <= k < args.len() && has_meta(args[k])
}

/// Whether any argument holds a shell-chaining metacharacter (`&`, `|`,
/// `;`) — rejected even though no shell is interposed, as a defence
/// against assembled compound commands.
pub fn has_disallowed_tokens(values: &[String]) -> (r: bool)
    ensures
        r == any_has_meta(values.deep_view()),
{
    let n = values.len();
    let mut k: usize = 0;
    while k < n
        invariant
            n == values@.len(),
            k <= n,
            forall|t: int| 0 <= t < k ==> !has_meta(#[trigger] values.deep_view()[t]),
        decreases n - k,
    {
        let v = &values[k];
        let m = v.as_str().unicode_len();
        let mut i: usize = 0;
        while i < m
            invariant
                v@ == values@[k as int]@,
                m == v@.len(),
                k < n == values@.len(),
                i <= m,
                forall|t: int| 0 <= t < i ==> !is_meta_char(#[trigger] v@[t]),
            decreases m - i,
        {
            let c = v.as_str().get_char(i);
            if c == '&' || c == '|' || c == ';' {
                proof {
                    assert(values.deep_view()[k as int] == values@[k as int]@);
                    assert(has_meta(values.deep_view()[k as int]));
                }
                return true;
            }
            i = i + 1;
        }
        proof {
            assert(values.deep_view()[k as int] == values@[k as int]@);
            assert(!has_meta(values.deep_view()[k as int]));
        }
        k = k + 1;
    }
    false
}

/// The decision on a generic execution request.
pub open spec fn shell_request_decision(command: Seq<char>, args: Seq<Seq<char>>) -> Result<
    (),
    GatewayError,
> {
    if !is_allowed_command(command) {
        Err(GatewayError::CommandNotAllowed)
    } else if any_has_meta(args) {
        Err(GatewayError::DisallowedToken)
    } else {
        Ok(())
    }
}

/// Validates a generic execution request before any process is spawned:
/// the program must be allow-listed and no argument may hold a
/// shell-chaining metacharacter.
pub fn validate_shell_request(command: &str, args: &[String]) -> (r: Result<(), GatewayError>)
    ensures
        r == shell_request_decision(command@, args.deep_view()),
{
    if !is_shell_command_allowed(command) {
        return Err(GatewayError::CommandNotAllowed);
    }
    if has_disallowed_tokens(args) {
        return Err(GatewayError::DisallowedToken);
    }
    Ok(())
}

/// A version-control subcommand on the block-list of remote network
/// operations, compared ignoring ASCII case.
pub open spec fn is_blocked_subcommand(s: Seq<char>) -> bool {
    ||| equal_mod_case(s, "push"@)
    ||| equal_mod_case(s, "pull"@)
    ||| equal_mod_case(s, "fetch"@)
    ||| equal_mod_case(s, "remote"@)
    ||| equal_mod_case(s, "clone"@)
}

/// The decision on a version-control execution request.
pub open spec fn git_request_decision(command: Seq<char>, args: Seq<Seq<char>>) -> Result<
    (),
    GatewayError,
> {
    if command != "git"@ && command != "git.exe"@ {
        Err(GatewayError::CommandNotAllowed)
    } else if args.len() == 0 {
        Err(GatewayError::MissingSubcommand)
    } else if is_blocked_subcommand(args[0]) {
        Err(GatewayError::RemoteOpDisabled)
    } else {
        Ok(())
    }
}

/// Validates a version-control execution request before any process is
/// spawned: the program must literally be the version-control executable,
/// a subcommand must be present, and the subcommand must not be a remote
/// network operation.
pub fn validate_git_request(command: &str, args: &[String]) -> (r: Result<(), GatewayError>)
    ensures
        r == git_request_decision(command@, args.deep_view()),
{
    if !str_eq(command, "git") && !str_eq(command, "git.exe") {
        return Err(GatewayError::CommandNotAllowed);
    }
    if args.len() == 0 {
        return Err(GatewayError::MissingSubcommand);
    }
    let sub = &args[0];
    proof {
        assert(args.deep_view()[0] == args@[0]@);
    }
    if eq_ignore_case(sub.as_str(), "push") || eq_ignore_case(sub.as_str(), "pull")
        || eq_ignore_case(sub.as_str(), "fetch") || eq_ignore_case(sub.as_str(), "remote")
        || eq_ignore_case(sub.as_str(), "clone") {
        return Err(GatewayError::RemoteOpDisabled);
    }
    Ok(())
}

/// The capability listing of the generic execution gateway.
pub struct ShellCapabilities {
    /// The allow-listed program names.
    pub allowed_commands: Vec<String>,
    /// The default timeout reported to callers; not enforced.
    pub default_timeout_ms: u64,
}

/// The allow-list, in its published order.
pub open spec fn allowed_command_list() -> Seq<Seq<char>> {
    seq![
        "ls"@,
        "cat"@,
        "tail"@,
        "pwd"@,
        "npm"@,
        "pnpm"@,
        "yarn"@,
        "npx"@,
        "node"@,
        "deno"@,
        "cargo"@,
        "go"@,
        "python"@,
        "pip"@,
        "pip3"@,
        "just"@,
        "make"@,
        "rg"@,
    ]
}

/// Reports the allow-listed commands and the default timeout.
pub fn shell_capabilities() -> (r: ShellCapabilities)
    ensures
        r.allowed_commands.deep_view() == allowed_command_list(),
        r.default_timeout_ms == DEFAULT_SHELL_TIMEOUT_MS,
{
    let mut names: Vec<String> = Vec::new();
    names.push(String::from_str("ls"));
    names.push(String::from_str("cat"));
    names.push(String::from_str("tail"));
    names.push(String::from_str("pwd"));
    names.push(String::from_str("npm"));
    names.push(String::from_str("pnpm"));
    names.push(String::from_str("yarn"));
    names.push(String::from_str("npx"));
    names.push(String::from_str("node"));
    names.push(String::from_str("deno"));
    names.push(String::from_str("cargo"));
    names.push(String::from_str("go"));
    names.push(String::from_str("python"));
    names.push(String::from_str("pip"));
    names.push(String::from_str("pip3"));
    names.push(String::from_str("just"));
    names.push(String::from_str("make"));
    names.push(String::from_str("rg"));
    proof {
        assert(names.deep_view() =~= allowed_command_list());
    }
    ShellCapabilities { allowed_commands: names, default_timeout_ms: DEFAULT_SHELL_TIMEOUT_MS }
}

/// A window or lifecycle operation of the embedding application, as a
/// closed variant set so new operations are compile-time checked.
#[derive(PartialEq, Eq, Structural, Clone, Copy, Debug)]
pub enum WindowCommand {
    /// Show and focus the main window.
    ShowMainWindow,
    /// Open the developer tools if closed, close them if open.
    ToggleDevtools,
    /// Set whether the main window stays on top; takes a boolean flag.
    SetAlwaysOnTop,
}

/// The operation a command name denotes, if any.
pub open spec fn window_command_of(s: Seq<char>) -> Option<WindowCommand> {
    if s == "show-main-window"@ {
        Some(WindowCommand::ShowMainWindow)
    } else if s == "toggle-devtools"@ {
        Some(WindowCommand::ToggleDevtools)
    } else if s == "set-always-on-top"@ {
        Some(WindowCommand::SetAlwaysOnTop)
    } else {
        None
    }
}

/// Parses a window operation name; unknown names are rejected.
pub fn parse_window_command(command: &str) -> (r: Option<WindowCommand>)
    ensures
        r == window_command_of(command@),
{
    if str_eq(command, "show-main-window") {
        Some(WindowCommand::ShowMainWindow)
    } else if str_eq(command, "toggle-devtools") {
        Some(WindowCommand::ToggleDevtools)
    } else if str_eq(command, "set-always-on-top") {
        Some(WindowCommand::SetAlwaysOnTop)
    } else {
        None
    }
}

/// The published window operation names.
pub fn window_capabilities() -> (r: Vec<String>)
    ensures
        r.deep_view() == seq!["show-main-window"@, "toggle-devtools"@, "set-always-on-top"@],
{
    let mut names: Vec<String> = Vec::new();
    names.push(String::from_str("show-main-window"));
    names.push(String::from_str("toggle-devtools"));
    names.push(String::from_str("set-always-on-top"));
    proof {
        assert(names.deep_view() =~= seq![
            "show-main-window"@,
            "toggle-devtools"@,
            "set-always-on-top"@,
        ]);
    }
    names
}

/// The boolean flag of a stay-on-top request: the last argument, read
/// ignoring ASCII case, with a missing argument meaning `false`.
pub fn on_top_flag(args: &[String]) -> (r: bool)
    ensures
        args.deep_view().len() > 0 ==> r == equal_mod_case(args.deep_view().last(), "true"@),
        args.deep_view().len() == 0 ==> r == false,
{
    if args.len() == 0 {
        return false;
    }
    let last = &args[args.len() - 1];
    proof {
        assert(args.deep_view()[args@.len() - 1] == args@[args@.len() - 1]@);
    }
    eq_ignore_case(last.as_str(), "true")
}

/// One completed execution: the spawned program, its arguments, the
/// resolved working directory, the exit code (`-1` when the process was
/// terminated by a signal without a code), the captured output streams,
/// and the wall-clock duration.
pub struct ExecResponse {
    pub command: String,
    pub args: Vec<String>,
    pub cwd: Option<String>,
    pub exit_code: i32,
    pub stdout: String,
    pub stderr: String,
    pub duration_ms: u128,
}

/// Assembles an execution response; a missing exit code (signal
/// termination) maps to the `-1` sentinel.
pub fn build_exec_response(
    command: String,
    args: Vec<String>,
    cwd: Option<String>,
    exit_code: Option<i32>,
    stdout: String,
    stderr: String,
    duration_ms: u128,
) -> (r: ExecResponse)
    ensures
        r.command == command,
        r.args == args,
        r.cwd == cwd,
        r.exit_code == (match exit_code {
            Some(c) => c,
            None => -1i32,
        }),
        r.stdout == stdout,
        r.stderr == stderr,
        r.duration_ms == duration_ms,
{
    let code = match exit_code {
        Some(c) => c,
        None => -1,
    };
    ExecResponse { command, args, cwd, exit_code: code, stdout, stderr, duration_ms }
}

} // verus!
