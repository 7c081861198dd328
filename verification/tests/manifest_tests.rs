use utiman::manifest::{
    default_chart, default_format, default_kind, find_provider, merge_providers, validate, Install, Manifest,
    ManifestError, Pay, Provider, Series, SetupInput, Source,
};

fn base(id: &str, binary: &str) -> Manifest {
    Manifest {
        id: id.into(),
        name: id.to_uppercase(),
        kind: default_kind(),
        binary: binary.into(),
        repo: "https://example.com".into(),
        description: None,
        setup_command: None,
        setup: vec![],
        install: None,
        auth: None,
        summary: None,
        pay: None,
        operations: vec![],
        series: vec![],
        documents: vec![],
    }
}

fn provider(id: &str, name: &str, source: Source) -> Provider {
    let mut m = base(id, id);
    m.name = name.into();
    Provider { manifest: m, source, path: None }
}

#[test]
fn rejects_binary_paths() {
    let bad = base("x", "/usr/bin/evil");
    assert!(validate(&bad).is_err());
}

#[test]
fn pay_requires_exactly_one_of_open_args_or_url() {
    let with_pay = |open_args: Option<Vec<&str>>, url: Option<&str>| {
        let mut m = base("x", "x");
        m.pay = Some(Pay {
            open_args: open_args.map(|a| a.iter().map(|s| s.to_string()).collect()),
            url: url.map(String::from),
            label: None,
        });
        m
    };
    assert!(validate(&with_pay(Some(vec!["pay", "--open"]), None)).is_ok());
    assert!(validate(&with_pay(None, Some("https://e.com/pay"))).is_ok());
    assert!(validate(&with_pay(None, None)).is_err(), "neither");
    assert!(validate(&with_pay(Some(vec!["p"]), Some("https://e.com"))).is_err(), "both");
    assert!(validate(&with_pay(None, Some("ftp://e.com"))).is_err(), "non-http url");
}

#[test]
fn rejects_setup_without_args() {
    let mut bad = base("x", "x");
    bad.setup = vec![SetupInput { id: "account".into(), name: "Account".into(), description: None, args: vec![], placeholder: None }];
    assert!(validate(&bad).is_err());
}

#[test]
fn defaults_are_other_json_bar() {
    assert_eq!(default_kind(), "other");
    assert_eq!(default_format(), "json");
    assert_eq!(default_chart(), "bar");
}

#[test]
fn validation_messages() {
    let e = validate(&base("Bad_Id", "x")).unwrap_err();
    assert!(matches!(e, ManifestError::BadId(_)));
    assert_eq!(e.message(), "id must be non-empty kebab-case (got \"Bad_Id\")");
    let e = validate(&base("x", "a\\b")).unwrap_err();
    assert_eq!(e.message(), "binary must be a bare command name, not a path (got \"a\\\\b\")");
    let mut m = base("x", "x");
    m.series = vec![Series {
        id: "usage".into(),
        name: "Usage".into(),
        args: vec![],
        format: "json".into(),
        items_path: String::new(),
        label_field: vec!["date".into()],
        value_fields: vec![],
        unit: None,
        scale: None,
        chart: "bar".into(),
    }];
    assert_eq!(validate(&m).unwrap_err().message(), "series usage: value-fields must not be empty");
    let mut m = base("x", "x");
    m.install = Some(Install { kind: "cargo-git".into(), git: None, package: None, krate: None, command: None, self_update_args: None, update_check_args: None });
    assert_eq!(validate(&m).unwrap_err().message(), "install.kind = cargo-git requires install.git");
    assert!(validate(&base("fpl-2", "fpl")).is_ok());
}

#[test]
fn user_manifests_override_builtins_sorted_by_name() {
    let builtins = vec![provider("fpl", "FPL Electric", Source::Builtin), provider("lrfl", "Lakeland Sewer", Source::Builtin)];
    let users = vec![provider("fpl", "Mine FPL", Source::User), provider("gas", "City Gas", Source::User)];
    let merged = merge_providers(builtins, Some(users));
    let names: Vec<&str> = merged.iter().map(|p| p.manifest.name.as_str()).collect();
    assert_eq!(names, ["City Gas", "Lakeland Sewer", "Mine FPL"]);
    assert!(merged.iter().all(|p| p.manifest.id != "fpl" || p.source == Source::User));
}

#[test]
fn unreadable_user_dir_keeps_catalog_order() {
    let builtins = vec![provider("lrfl", "Lakeland Sewer", Source::Builtin), provider("fpl", "FPL Electric", Source::Builtin)];
    let merged = merge_providers(builtins.clone(), None);
    let ids: Vec<&str> = merged.iter().map(|p| p.manifest.id.as_str()).collect();
    assert_eq!(ids, ["lrfl", "fpl"]);
    let sorted = merge_providers(builtins, Some(vec![]));
    let ids: Vec<&str> = sorted.iter().map(|p| p.manifest.id.as_str()).collect();
    assert_eq!(ids, ["fpl", "lrfl"]);
}

#[test]
fn find_provider_by_id() {
    let ps = vec![provider("fpl", "A", Source::Builtin), provider("gas", "B", Source::User)];
    assert_eq!(find_provider(ps.clone(), "gas").unwrap().manifest.name, "B");
    assert!(find_provider(ps, "water").is_none());
}
