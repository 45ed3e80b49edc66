use recall::cli::{parse_args, require_value, resolve_shell_configs, Args, CliError, CliOutcome, ShellMode};

fn raw(items: &[&str]) -> Vec<String> {
    items.iter().map(|s| s.to_string()).collect()
}

fn run(items: &[&str]) -> Args {
    match parse_args(&raw(items)) {
        Ok(CliOutcome::Run(a)) => a,
        _ => panic!("expected settings"),
    }
}

#[test]
fn no_arguments_means_auto() {
    let a = run(&[]);
    assert_eq!(a.shell, ShellMode::Auto);
    assert_eq!(a.config, None);
    assert!(a.shell_configs.is_empty());
}

#[test]
fn flags_with_values() {
    let a = run(&["--shell", "both", "--config", "/c.toml", "--shell-config", "a", "--shell-config", "b"]);
    assert_eq!(a.shell, ShellMode::Both);
    assert_eq!(a.config.as_deref(), Some("/c.toml"));
    assert_eq!(a.shell_configs, vec!["a".to_string(), "b".to_string()]);
    assert_eq!(run(&["--shell", "zsh"]).shell, ShellMode::Zsh);
    assert_eq!(run(&["--shell", "bash", "--shell", "zsh"]).shell, ShellMode::Zsh);
}

#[test]
fn help_and_version_stop_reading() {
    assert!(matches!(parse_args(&raw(&["--help", "--bogus"])), Ok(CliOutcome::Help)));
    assert!(matches!(parse_args(&raw(&["-h"])), Ok(CliOutcome::Help)));
    assert!(matches!(parse_args(&raw(&["-V"])), Ok(CliOutcome::Version)));
    assert!(matches!(parse_args(&raw(&["--shell", "zsh", "--version"])), Ok(CliOutcome::Version)));
}

#[test]
fn errors() {
    match parse_args(&raw(&["--bogus", "--help"])) {
        Err(CliError::UnknownArgument(a)) => assert_eq!(a, "--bogus"),
        _ => panic!("expected an unknown argument"),
    }
    match parse_args(&raw(&["--shell", "fish"])) {
        Err(CliError::UnknownShell(s)) => assert_eq!(s, "fish"),
        _ => panic!("expected an unknown shell"),
    }
    match parse_args(&raw(&["--config"])) {
        Err(CliError::MissingValue(f)) => assert_eq!(f, "--config"),
        _ => panic!("expected a missing value"),
    }
    match parse_args(&raw(&["--shell-config"])) {
        Err(CliError::MissingValue(f)) => assert_eq!(f, "--shell-config"),
        _ => panic!("expected a missing value"),
    }
}

#[test]
fn require_value_cases() {
    let r = raw(&["--config", "x"]);
    assert!(matches!(require_value(&r, 1, "--config"), Ok(v) if v == "x"));
    assert!(matches!(require_value(&r, 2, "--config"), Err(CliError::MissingValue(f)) if f == "--config"));
}

#[test]
fn shell_config_paths() {
    assert_eq!(resolve_shell_configs(&run(&[]), "/h", "/bin/bash"), vec!["/h/.bashrc"]);
    assert_eq!(resolve_shell_configs(&run(&[]), "/h", "/bin/zsh"), vec!["/h/.zshrc"]);
    assert_eq!(resolve_shell_configs(&run(&[]), "/h", ""), vec!["/h/.zshrc"]);
    assert_eq!(
        resolve_shell_configs(&run(&["--shell", "both"]), "/h", "/bin/bash"),
        vec!["/h/.zshrc", "/h/.bashrc"]
    );
    assert_eq!(resolve_shell_configs(&run(&["--shell", "bash"]), "", ""), vec!["/.bashrc"]);
    assert_eq!(
        resolve_shell_configs(&run(&["--shell", "bash", "--shell-config", "/x"]), "/h", ""),
        vec!["/x"]
    );
}
