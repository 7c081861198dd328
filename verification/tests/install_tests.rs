use utiman::install::{exit_line, install_argv, InstallError, InstallTasks, TaskState};
use utiman::manifest::Install;

fn spec(kind: &str) -> Install {
    Install {
        kind: kind.into(),
        git: None,
        package: None,
        krate: None,
        command: None,
        self_update_args: None,
        update_check_args: None,
    }
}

#[test]
fn cargo_git_argv() {
    let spec = Install {
        kind: "cargo-git".into(),
        git: Some("https://example.com/repo".into()),
        package: Some("pkg-cli".into()),
        krate: None,
        command: None,
        self_update_args: None,
        update_check_args: None,
    };
    assert_eq!(
        install_argv(&spec).unwrap(),
        ["cargo", "install", "--force", "--git", "https://example.com/repo", "pkg-cli"]
    );
}

#[test]
fn cargo_and_custom_argv() {
    let mut s = spec("cargo");
    s.krate = Some("fpl-cli".into());
    assert_eq!(install_argv(&s).unwrap(), ["cargo", "install", "--force", "fpl-cli"]);
    let mut c = spec("custom");
    c.command = Some(vec!["brew".into(), "install".into(), "foo".into()]);
    assert_eq!(install_argv(&c).unwrap(), ["brew", "install", "foo"]);
}

#[test]
fn install_argv_errors() {
    let e = install_argv(&spec("pip")).unwrap_err();
    assert!(matches!(e, InstallError::UnknownKind(ref k) if k == "pip"));
    assert_eq!(e.message(), "unknown install kind \"pip\"");
    let e = install_argv(&spec("custom")).unwrap_err();
    assert!(matches!(e, InstallError::EmptyCommand));
    assert_eq!(e.message(), "empty install command");
}

#[test]
fn second_start_refused_while_running() {
    let mut t = InstallTasks::new();
    let argv = vec!["cargo".to_string(), "install".to_string()];
    let id = t.start("fpl", &argv).unwrap();
    assert_eq!(id, 0);
    assert!(t.running_for("fpl"));
    let e = t.start("fpl", &argv).unwrap_err();
    assert_eq!(e.message(), "an install for fpl is already running");
    assert_eq!(t.start("tojfl", &argv).unwrap(), 1);
    t.append_log(id, "Compiling\n");
    t.finish(id, true);
    assert!(!t.running_for("fpl"));
    let task = t.get(id).unwrap();
    assert_eq!(task.state, TaskState::Succeeded);
    assert_eq!(task.log, "$ cargo install\nCompiling\n");
    assert_eq!(t.start("fpl", &argv).unwrap(), 2);
}

#[test]
fn empty_argv_is_refused() {
    let mut t = InstallTasks::new();
    assert!(matches!(t.start("fpl", &vec![]), Err(InstallError::EmptyCommand)));
    assert!(t.get(0).is_none());
}

#[test]
fn unknown_task_is_untouched() {
    let mut t = InstallTasks::new();
    t.append_log(7, "x");
    t.finish(7, false);
    assert!(t.get(7).is_none());
}

#[test]
fn exit_line_reports_code_or_signal() {
    assert_eq!(exit_line(Some(0)), "exit: 0\n");
    assert_eq!(exit_line(Some(-1)), "exit: -1\n");
    assert_eq!(exit_line(None), "exit: signal\n");
}
