use cerebro_gateway::policy::build_exec_response;
use cerebro_gateway::policy::has_disallowed_tokens;
use cerebro_gateway::policy::is_shell_command_allowed;
use cerebro_gateway::policy::on_top_flag;
use cerebro_gateway::policy::parse_window_command;
use cerebro_gateway::policy::shell_capabilities;
use cerebro_gateway::policy::validate_git_request;
use cerebro_gateway::policy::validate_shell_request;
use cerebro_gateway::policy::window_capabilities;
use cerebro_gateway::policy::WindowCommand;
use cerebro_gateway::GatewayError;

fn args(values: &[&str]) -> Vec<String> {
    values.iter().map(|v| v.to_string()).collect()
}

#[test]
fn allow_list_ignores_case() {
    assert!(is_shell_command_allowed("ls"));
    assert!(is_shell_command_allowed("LS"));
    assert!(is_shell_command_allowed("Cargo"));
    assert!(is_shell_command_allowed("rg"));
    assert!(!is_shell_command_allowed("curl"));
    assert!(!is_shell_command_allowed("bash"));
    assert!(!is_shell_command_allowed(""));
}

#[test]
fn metacharacters_are_detected() {
    assert!(has_disallowed_tokens(&args(&["&&", "rm"])));
    assert!(has_disallowed_tokens(&args(&["a|b"])));
    assert!(has_disallowed_tokens(&args(&["x", "y;z"])));
    assert!(!has_disallowed_tokens(&args(&["-la", "src"])));
    assert!(!has_disallowed_tokens(&args(&[])));
}

#[test]
fn curl_fails_command_not_allowed() {
    assert!(matches!(
        validate_shell_request("curl", &args(&["https://example.com"])),
        Err(GatewayError::CommandNotAllowed)
    ));
}

#[test]
fn chained_arguments_fail_disallowed_token() {
    assert!(matches!(
        validate_shell_request("ls", &args(&["&&", "rm"])),
        Err(GatewayError::DisallowedToken)
    ));
}

#[test]
fn plain_listing_is_accepted() {
    assert!(validate_shell_request("ls", &args(&["-la"])).is_ok());
    assert!(validate_shell_request("make", &args(&[])).is_ok());
}

#[test]
fn remote_subcommands_fail_any_case() {
    for sub in ["push", "pull", "fetch", "remote", "clone", "PUSH", "Pull", "FeTcH"] {
        assert!(
            matches!(
                validate_git_request("git", &args(&[sub])),
                Err(GatewayError::RemoteOpDisabled)
            ),
            "subcommand {sub} must be blocked"
        );
    }
}

#[test]
fn status_subcommand_is_accepted() {
    assert!(validate_git_request("git", &args(&["status"])).is_ok());
    assert!(validate_git_request("git.exe", &args(&["log", "-1"])).is_ok());
}

#[test]
fn git_requires_git_executable() {
    assert!(matches!(
        validate_git_request("bash", &args(&["status"])),
        Err(GatewayError::CommandNotAllowed)
    ));
    assert!(matches!(
        validate_git_request("GIT", &args(&["status"])),
        Err(GatewayError::CommandNotAllowed)
    ));
}

#[test]
fn git_requires_a_subcommand() {
    assert!(matches!(
        validate_git_request("git", &args(&[])),
        Err(GatewayError::MissingSubcommand)
    ));
}

#[test]
fn capabilities_list_the_allowed_commands() {
    let caps = shell_capabilities();
    assert_eq!(caps.allowed_commands.len(), 18);
    assert_eq!(caps.allowed_commands[0], "ls");
    assert_eq!(caps.allowed_commands[17], "rg");
    assert!(caps.allowed_commands.iter().any(|c| c == "python"));
    assert_eq!(caps.default_timeout_ms, 60000);
}

#[test]
fn window_commands_parse_exactly() {
    assert_eq!(parse_window_command("show-main-window"), Some(WindowCommand::ShowMainWindow));
    assert_eq!(parse_window_command("toggle-devtools"), Some(WindowCommand::ToggleDevtools));
    assert_eq!(parse_window_command("set-always-on-top"), Some(WindowCommand::SetAlwaysOnTop));
    assert_eq!(parse_window_command("Show-Main-Window"), None);
    assert_eq!(parse_window_command("quit"), None);
}

#[test]
fn window_capability_names() {
    let names = window_capabilities();
    assert_eq!(names, vec!["show-main-window", "toggle-devtools", "set-always-on-top"]);
}

#[test]
fn on_top_flag_reads_last_argument() {
    assert!(on_top_flag(&args(&["true"])));
    assert!(on_top_flag(&args(&["x", "TRUE"])));
    assert!(!on_top_flag(&args(&["false"])));
    assert!(!on_top_flag(&args(&["true", "no"])));
    assert!(!on_top_flag(&args(&[])));
}

#[test]
fn exec_response_maps_missing_code_to_sentinel() {
    let r = build_exec_response(
        "git".to_string(),
        args(&["status"]),
        Some(".".to_string()),
        None,
        "out".to_string(),
        "err".to_string(),
        12,
    );
    assert_eq!(r.exit_code, -1);
    assert_eq!(r.command, "git");
    assert_eq!(r.duration_ms, 12);
    let ok = build_exec_response(
        "ls".to_string(),
        args(&[]),
        None,
        Some(0),
        String::new(),
        String::new(),
        3,
    );
    assert_eq!(ok.exit_code, 0);
}
