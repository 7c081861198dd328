use utiman::install::TaskState;
use utiman::manifest::{Auth, Document, Install, Manifest, Pay, Provider, SetupInput, Source};
use utiman::server::{
    applescript_escape, auth_probe, auth_state, begin_install, content_disposition, content_type_for,
    document_argv, document_failure, install_plan, is_local_host, login_command, login_script, login_unsupported,
    lookup_document, lookup_setup, missing, no_provider, not_installed, pay_args, register_conflict, removable_path,
    setup_argv, summary_hint, tail, temp_file_name, update_check_args, App,
};

fn manifest(id: &str) -> Manifest {
    Manifest {
        id: id.into(),
        name: id.to_uppercase(),
        kind: "other".into(),
        binary: format!("{id}-cli"),
        repo: "https://example.com".into(),
        description: None,
        setup_command: None,
        setup: vec![],
        install: None,
        auth: None,
        summary: None,
        pay: None,
        operations: vec![],
        series: vec![],
        documents: vec![],
    }
}

fn install(kind: &str) -> Install {
    Install {
        kind: kind.into(),
        git: None,
        package: None,
        krate: None,
        command: None,
        self_update_args: None,
        update_check_args: None,
    }
}

#[test]
fn tail_respects_char_boundaries() {
    let s = "héllo wörld";
    let t = tail(s, 4);
    assert!(t.starts_with('…'));
    assert!(t.len() <= 8);
}

#[test]
fn server_applescript_escaping() {
    assert_eq!(applescript_escape(r#"echo "a\b""#), r#"echo \"a\\b\""#);
}

#[test]
fn tail_keeps_short_text_and_cuts_long_text() {
    assert_eq!(tail("short", 10), "short");
    assert_eq!(tail("héllo wörld", 4), "…rld");
    assert_eq!(tail("abcdef", 3), "…def");
    assert_eq!(tail("abc", 0), "…");
    assert_eq!(tail("", 0), "");
}

#[test]
fn only_loopback_hosts_are_served() {
    assert!(is_local_host("localhost"));
    assert!(is_local_host("localhost:7878"));
    assert!(is_local_host("127.0.0.1:80"));
    assert!(is_local_host("[::1]:7878"));
    assert!(is_local_host("[::1]"));
    assert!(!is_local_host("::1"));
    assert!(!is_local_host("evil.example.com"));
    assert!(!is_local_host("localhost.evil.com:80"));
    assert!(!is_local_host(""));
}

#[test]
fn content_types_by_extension() {
    assert_eq!(content_type_for("bill.pdf"), "application/pdf");
    assert_eq!(content_type_for("usage.csv"), "text/csv");
    assert_eq!(content_type_for("a.b.json"), "application/json");
    assert_eq!(content_type_for("notes.txt"), "text/plain");
    assert_eq!(content_type_for("pdf"), "application/pdf");
    assert_eq!(content_type_for("archive.tar.gz"), "application/octet-stream");
    assert_eq!(content_disposition("bill.pdf"), "attachment; filename=\"bill.pdf\"");
}

#[test]
fn refusal_messages() {
    let e = no_provider("fpl");
    assert_eq!((e.status, e.message.as_str()), (404, "no provider fpl"));
    let e = missing("fpl", "series", "usage");
    assert_eq!((e.status, e.message.as_str()), (404, "fpl has no series usage"));
    let e = not_installed("fpl-cli");
    assert_eq!((e.status, e.message.as_str()), (409, "fpl-cli is not installed"));
    let e = login_unsupported("fpl auth login");
    assert_eq!(e.status, 501);
    assert_eq!(e.message, "opening a terminal isn't wired up on this platform yet — run `fpl auth login` yourself");
}

#[test]
fn lookups_by_id() {
    let mut m = manifest("fpl");
    m.documents = vec![
        Document { id: "bill".into(), name: "Bill".into(), args: vec!["bill".into()], out_flag: "--out".into(), filename: "bill.pdf".into() },
        Document { id: "bill".into(), name: "Second".into(), args: vec![], out_flag: "-o".into(), filename: "x.pdf".into() },
    ];
    assert_eq!(lookup_document(&m, "fpl", "bill").ok().unwrap().name, "Bill");
    let e = lookup_document(&m, "fpl", "usage").err().unwrap();
    assert_eq!((e.status, e.message.as_str()), (404, "fpl has no document usage"));
    let e = lookup_setup(&m, "fpl", "account").err().unwrap();
    assert_eq!(e.message, "fpl has no setup account");
    let d = &m.documents[0];
    assert_eq!(document_argv(d, "/tmp/x"), ["bill", "--out", "/tmp/x"]);
    assert_eq!(temp_file_name("fpl", 4242, "bill.pdf"), "utiman-fpl-4242-bill.pdf");
}

#[test]
fn document_outcomes() {
    let e = document_failure(false, true, "boom").unwrap();
    assert_eq!((e.status, e.message.as_str()), (502, "document command failed: boom"));
    let e = document_failure(true, false, "").unwrap();
    assert_eq!(e.message, "command succeeded but produced no file");
    assert!(document_failure(true, true, "").is_none());
}

#[test]
fn setup_value_is_trimmed_and_required() {
    let input = SetupInput {
        id: "account".into(),
        name: "Account number".into(),
        description: None,
        args: vec!["config".into(), "set-account".into()],
        placeholder: None,
    };
    assert_eq!(setup_argv(&input, "  1234567-0 \n").ok().unwrap(), ["config", "set-account", "1234567-0"]);
    let e = setup_argv(&input, "   ").err().unwrap();
    assert_eq!((e.status, e.message.as_str()), (400, "Account number requires a value"));
}

#[test]
fn install_plans() {
    let mut spec = install("cargo");
    spec.krate = Some("fpl-cli".into());
    assert_eq!(install_plan(&spec, None).ok().unwrap(), ["cargo", "install", "--force", "fpl-cli"]);
    assert_eq!(install_plan(&spec, Some("/usr/local/bin/fpl")).ok().unwrap(), ["/usr/local/bin/fpl", "self-update"]);
    spec.self_update_args = Some(vec!["upgrade".into(), "--yes".into()]);
    assert_eq!(install_plan(&spec, Some("/bin/fpl")).ok().unwrap(), ["/bin/fpl", "upgrade", "--yes"]);
    let e = install_plan(&install("pip"), None).err().unwrap();
    assert_eq!((e.status, e.message.as_str()), (400, "unknown install kind \"pip\""));
    assert_eq!(update_check_args(&spec), ["self-update", "--check", "--json"]);
}

#[test]
fn begin_install_registers_one_task_per_provider() {
    let mut app = App::new();
    let mut spec = install("cargo");
    spec.krate = Some("fpl-cli".into());
    let e = begin_install(&mut app, "fpl", None, None).err().unwrap();
    assert_eq!((e.status, e.message.as_str()), (400, "fpl has no install spec"));
    let (id, argv) = begin_install(&mut app, "fpl", Some(&spec), None).ok().unwrap();
    assert_eq!(id, 0);
    assert_eq!(argv, ["cargo", "install", "--force", "fpl-cli"]);
    assert_eq!(app.tasks.get(0).unwrap().log, "$ cargo install --force fpl-cli\n");
    let e = begin_install(&mut app, "fpl", Some(&spec), None).err().unwrap();
    assert_eq!((e.status, e.message.as_str()), (409, "an install for fpl is already running"));
    app.tasks.finish(id, false);
    assert_eq!(app.tasks.get(0).unwrap().state, TaskState::Failed);
    let (id, argv) = begin_install(&mut app, "fpl", Some(&spec), Some("/bin/fpl")).ok().unwrap();
    assert_eq!((id, argv), (1, vec!["/bin/fpl".to_string(), "self-update".to_string()]));
}

#[test]
fn auth_defaults_and_states() {
    let auth = Auth { required: true, login_command: None, status_args: None, authenticated_field: None, login_steps: vec![] };
    let (args, field) = auth_probe(&auth);
    assert_eq!(args, ["auth", "status", "--json"]);
    assert_eq!(field, "authenticated");
    assert_eq!(auth_state(Some(true)), "authenticated");
    assert_eq!(auth_state(Some(false)), "unauthenticated");
    assert_eq!(auth_state(None), "unknown");
}

#[test]
fn hints_and_login_commands() {
    let mut m = manifest("fpl");
    assert_eq!(summary_hint(&m), None);
    m.setup_command = Some("fpl config init".into());
    assert_eq!(summary_hint(&m).as_deref(), Some("fpl config init"));
    m.auth = Some(Auth { required: false, login_command: Some("fpl auth login".into()), status_args: None, authenticated_field: None, login_steps: vec![] });
    assert_eq!(summary_hint(&m).as_deref(), Some("fpl config init"));
    m.auth.as_mut().unwrap().required = true;
    assert_eq!(summary_hint(&m).as_deref(), Some("fpl auth login"));
    assert_eq!(login_command(&m, "fpl").ok().unwrap(), "fpl auth login");
    let e = login_command(&manifest("x"), "x").err().unwrap();
    assert_eq!((e.status, e.message.as_str()), (400, "x has no login command"));
    assert_eq!(
        login_script("say \"hi\""),
        "tell application \"Terminal\"\nactivate\ndo script \"say \\\"hi\\\"\"\nend tell"
    );
}

#[test]
fn pay_args_and_registration() {
    let mut m = manifest("fpl");
    let e = pay_args(&m, "fpl").err().unwrap();
    assert_eq!(e.message, "fpl has no pay open-args");
    m.pay = Some(Pay { open_args: Some(vec!["pay".into(), "--open".into()]), url: None, label: None });
    assert_eq!(pay_args(&m, "fpl").ok().unwrap(), ["pay", "--open"]);
    let providers = vec![Provider { manifest: m, source: Source::Builtin, path: None }];
    let e = register_conflict(&providers, "fpl", false).unwrap();
    assert_eq!((e.status, e.message.as_str()), (409, "provider fpl already exists (set overwrite to replace)"));
    assert!(register_conflict(&providers, "fpl", true).is_none());
    assert!(register_conflict(&providers, "tojfl", false).is_none());
    let e = removable_path(&providers[0], "fpl").err().unwrap();
    assert_eq!((e.status, e.message.as_str()), (400, "fpl is built in and can't be removed"));
    let user = Provider { manifest: manifest("mine"), source: Source::User, path: Some("/home/u/.config/utiman/providers/mine.toml".into()) };
    assert_eq!(removable_path(&user, "mine").ok().unwrap(), "/home/u/.config/utiman/providers/mine.toml");
}
