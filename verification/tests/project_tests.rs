use helios_build::project::{extract_hash, BuildType, Project, ProjectError, Publishers};

#[test]
fn hash_extract() {
    assert_eq!(extract_hash("heads/trim-0-g49fb31d-dirty"), Some("49fb31d".to_string()));
    assert_eq!(extract_hash("heads/r151046-0-g82ebda23c9"), Some("82ebda2".to_string()));
    assert_eq!(extract_hash("heads/master-0-g77f745e"), Some("77f745e".to_string()));
    assert_eq!(extract_hash("heads/master-0-g7f745e"), None);
    assert_eq!(extract_hash("heads/master-0"), None);
}

#[test]
fn hash_extract_rightmost_wins() {
    assert_eq!(
        extract_hash("tags/g1111111-0-g2222222"),
        Some("2222222".to_string())
    );
}

#[test]
fn hash_extract_rejects_non_hex() {
    assert_eq!(extract_hash("heads/master-0-gzzzzzzz"), None);
    assert_eq!(extract_hash(""), None);
}

#[test]
fn script_names() {
    assert_eq!(BuildType::Quick.script_name(), "illumos-quick.sh");
    assert_eq!(BuildType::QuickDebug.script_name(), "illumos-quick-debug.sh");
    assert_eq!(BuildType::Full.script_name(), "illumos.sh");
    assert_eq!(BuildType::Release.script_name(), "illumos-release.sh");
}

fn project(github: Option<&str>, url: Option<&str>, use_ssh: bool, unless_env: Option<&str>) -> Project {
    Project {
        github: github.map(|s| s.to_string()),
        url: url.map(|s| s.to_string()),
        auto_update: false,
        rev: None,
        use_ssh,
        site_sh: false,
        cargo_build: false,
        use_debug: false,
        unless_env: unless_env.map(|s| s.to_string()),
        fixup: Vec::new(),
    }
}

#[test]
fn project_url_forms() {
    let p = project(None, Some("https://example.com/x.git"), false, None);
    assert_eq!(p.url(false).unwrap(), "https://example.com/x.git");

    let p = project(Some("acme/thing"), None, false, None);
    assert_eq!(p.url(false).unwrap(), "https://github.com/acme/thing.git");
    assert_eq!(p.url(true).unwrap(), "git@github.com:acme/thing.git");

    let p = project(Some("acme/thing"), None, true, None);
    assert_eq!(p.url(false).unwrap(), "git@github.com:acme/thing.git");

    let p = project(None, None, false, None);
    assert_eq!(p.url(false).unwrap_err(), ProjectError::NoOrigin);
}

#[test]
fn project_skip_values() {
    let p = project(Some("acme/thing"), None, false, Some("BUILD_THING"));
    assert!(p.skip(Some("no")));
    assert!(p.skip(Some("NO")));
    assert!(p.skip(Some("0")));
    assert!(p.skip(Some("False")));
    assert!(!p.skip(Some("yes")));
    assert!(!p.skip(None));

    let q = project(Some("acme/thing"), None, false, None);
    assert!(!q.skip(Some("no")));
}

#[test]
fn publishers_accumulate() {
    let mut ps = Publishers::default();
    assert!(!ps.has_publisher("helios-dev"));
    assert_eq!(ps.display(), "");

    ps.append_origin("helios-dev", "https://pkg.example/a");
    ps.append_origin("helios-dev", "https://pkg.example/b");
    ps.append_origin("helios-dev", "https://pkg.example/a");
    ps.append_origin("extra", "https://pkg.example/c");

    assert!(ps.has_publisher("helios-dev"));
    assert!(ps.has_publisher("extra"));
    assert_eq!(
        ps.display(),
        "helios-dev={ https://pkg.example/a https://pkg.example/b }, extra={ https://pkg.example/c }"
    );
}

#[test]
fn publishers_empty_origins_display() {
    let mut ps = Publishers::default();
    ps.append_origin("solo", "u");
    assert_eq!(ps.display(), "solo={ u }");
}
