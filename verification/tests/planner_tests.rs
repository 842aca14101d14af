use helios_build::planner::{
    normalize, plan, plan_run, resume, PlanError, PlannerState, QueueEntry,
};

fn pairs(v: &[(&str, &str)]) -> Vec<(String, String)> {
    v.iter().map(|(a, b)| (a.to_string(), b.to_string())).collect()
}

fn names(v: &[&str]) -> Vec<String> {
    v.iter().map(|s| s.to_string()).collect()
}

#[test]
fn normalization() {
    assert_eq!(normalize("pkg:/foo@1.2,5.11-0.1"), "foo");
    assert_eq!(normalize("foo"), "foo");
    assert_eq!(normalize("pkg:/foo"), "foo");
    assert_eq!(normalize("system/library@0.5.11"), "system/library");
    assert_eq!(normalize("pkg:"), "pkg:");
    assert_eq!(normalize("@1.0"), "");
    assert_eq!(normalize(""), "");
}

#[test]
fn idempotent_replan_builds_nothing() {
    let seed = names(&["pkg:/a"]);
    let repo = names(&["a", "b"]);
    let manifests = pairs(&[
        ("a", "depend type=require fmri=pkg:/b"),
        ("b", "set name=pkg.fmri value=pkg:/b"),
    ]);
    let mappings = pairs(&[("a", "/src/a"), ("b", "/src/b")]);
    let failing: Vec<String> = Vec::new();

    for _ in 0..2 {
        let (state, outcome) = plan(&seed, &repo, &manifests, &mappings, &failing, false);
        let report = outcome.unwrap();
        assert!(report.built.is_empty());
        assert!(state.q.is_empty());
        assert_eq!(state.seen, names(&["a", "b"]));
    }
}

#[test]
fn breadth_first_build_order() {
    let seed = names(&["pkg:/a"]);
    let repo: Vec<String> = Vec::new();
    let manifests = pairs(&[
        ("a", "depend type=require fmri=pkg:/b@1\ndepend type=require fmri=pkg:/c"),
        ("b", "depend type=require fmri=pkg:/d"),
        ("c", "set name=x value=y"),
        ("d", "set name=x value=y"),
    ]);
    let mappings = pairs(&[("a", "/s/a"), ("b", "/s/b"), ("c", "/s/c"), ("d", "/s/d")]);
    let failing: Vec<String> = Vec::new();

    let (state, outcome) = plan(&seed, &repo, &manifests, &mappings, &failing, false);
    let report = outcome.unwrap();
    assert_eq!(report.built, names(&["a", "b", "c", "d"]));
    assert!(state.q.is_empty());
}

#[test]
fn incorporate_edges_are_never_enqueued() {
    let seed = names(&["a"]);
    let repo: Vec<String> = Vec::new();
    let manifests = pairs(&[("a", "depend type=incorporate fmri=pkg:/bar@2")]);
    let mappings = pairs(&[("a", "/s/a")]);
    let failing: Vec<String> = Vec::new();

    let (state, outcome) = plan(&seed, &repo, &manifests, &mappings, &failing, false);
    let report = outcome.unwrap();
    assert_eq!(report.built, names(&["a"]));
    assert_eq!(state.seen, names(&["a"]));
}

#[test]
fn optional_unmapped_is_not_fatal() {
    let seed = names(&["a"]);
    let repo: Vec<String> = Vec::new();
    let manifests = pairs(&[("a", "depend type=optional fmri=pkg:/baz")]);
    let mappings = pairs(&[("a", "/s/a")]);
    let failing: Vec<String> = Vec::new();

    let (state, outcome) = plan(&seed, &repo, &manifests, &mappings, &failing, false);
    let report = outcome.unwrap();
    assert_eq!(report.built, names(&["a"]));
    assert_eq!(report.skipped, names(&["baz"]));
    assert!(state.seen.contains(&"baz".to_string()));
    assert!(!report.built.contains(&"baz".to_string()));
}

#[test]
fn required_unmapped_is_fatal() {
    let seed = names(&["a"]);
    let repo: Vec<String> = Vec::new();
    let manifests = pairs(&[("a", "depend type=require fmri=pkg:/baz")]);
    let mappings = pairs(&[("a", "/s/a")]);
    let failing: Vec<String> = Vec::new();

    let (_, outcome) = plan(&seed, &repo, &manifests, &mappings, &failing, false);
    match outcome.unwrap_err() {
        PlanError::NoMapping(n) => assert_eq!(n, "baz"),
        e => panic!("unexpected error {:?}", e),
    }
}

#[test]
fn ambiguous_mapping_is_fatal() {
    let seed = names(&["a"]);
    let repo: Vec<String> = Vec::new();
    let manifests = pairs(&[("a", "set name=x value=y")]);
    let mappings = pairs(&[("a", "/s/a"), ("a", "/other/a")]);
    let failing: Vec<String> = Vec::new();

    let (_, outcome) = plan(&seed, &repo, &manifests, &mappings, &failing, false);
    match outcome.unwrap_err() {
        PlanError::AmbiguousMapping(n) => assert_eq!(n, "a"),
        e => panic!("unexpected error {:?}", e),
    }
}

#[test]
fn build_failure_is_fatal_without_skip() {
    let seed = names(&["a"]);
    let repo: Vec<String> = Vec::new();
    let manifests = pairs(&[("a", "set name=x value=y")]);
    let mappings = pairs(&[("a", "/s/a")]);
    let failing = names(&["a"]);

    let (_, outcome) = plan(&seed, &repo, &manifests, &mappings, &failing, false);
    match outcome.unwrap_err() {
        PlanError::BuildFailed(n, loc) => {
            assert_eq!(n, "a");
            assert_eq!(loc, "/s/a");
        }
        e => panic!("unexpected error {:?}", e),
    }
}

#[test]
fn build_failure_is_recorded_under_skip() {
    let seed = names(&["a", "b"]);
    let repo: Vec<String> = Vec::new();
    let manifests = pairs(&[("a", "set name=x value=y"), ("b", "set name=x value=y")]);
    let mappings = pairs(&[("a", "/s/a"), ("b", "/s/b")]);
    let failing = names(&["a"]);

    let (state, outcome) = plan(&seed, &repo, &manifests, &mappings, &failing, true);
    let report = outcome.unwrap();
    assert_eq!(report.built, names(&["b"]));
    assert_eq!(state.fails.len(), 1);
    assert_eq!(state.fails[0].fmri, "a");
}

#[test]
fn missing_manifest_is_fatal_without_skip() {
    let seed = names(&["a"]);
    let repo = names(&["a"]);
    let manifests: Vec<(String, String)> = Vec::new();
    let mappings = pairs(&[("a", "/s/a")]);
    let failing: Vec<String> = Vec::new();

    let (_, outcome) = plan(&seed, &repo, &manifests, &mappings, &failing, false);
    match outcome.unwrap_err() {
        PlanError::ManifestUnavailable(n) => assert_eq!(n, "a"),
        e => panic!("unexpected error {:?}", e),
    }
}

#[test]
fn unparsable_manifest_reports_parse_error() {
    let seed = names(&["a"]);
    let repo = names(&["a"]);
    let manifests = pairs(&[("a", "depend type=require fmri=pkg:/x surprise=1")]);
    let mappings = pairs(&[("a", "/s/a")]);
    let failing: Vec<String> = Vec::new();

    let (_, outcome) = plan(&seed, &repo, &manifests, &mappings, &failing, false);
    match outcome.unwrap_err() {
        PlanError::ManifestUnparsable(n, _) => assert_eq!(n, "a"),
        e => panic!("unexpected error {:?}", e),
    }
}

#[test]
fn base_os_package_is_never_built() {
    let seed = names(&["pkg:/illumos"]);
    let repo: Vec<String> = Vec::new();
    let manifests: Vec<(String, String)> = Vec::new();
    let mappings = pairs(&[("illumos", "/s/illumos")]);
    let failing: Vec<String> = Vec::new();

    let (state, outcome) = plan(&seed, &repo, &manifests, &mappings, &failing, false);
    let report = outcome.unwrap();
    assert!(report.built.is_empty());
    assert_eq!(state.seen, names(&["illumos"]));
}

#[test]
fn resumability_after_interrupted_build() {
    // The persisted state reflects "about to try foo": foo is still queued
    // and not yet in seen, while earlier packages are.
    let state = PlannerState {
        seen: names(&["a"]),
        q: vec![
            QueueEntry { fmri: "pkg:/foo".to_string(), optional: false },
            QueueEntry { fmri: "pkg:/a".to_string(), optional: false },
        ],
        fails: Vec::new(),
    };
    let repo: Vec<String> = Vec::new();
    let manifests = pairs(&[("foo", "set name=x value=y")]);
    let mappings = pairs(&[("foo", "/s/foo"), ("a", "/s/a")]);
    let failing: Vec<String> = Vec::new();

    let (state, outcome) = resume(state, &repo, &manifests, &mappings, &failing, false);
    let report = outcome.unwrap();
    assert_eq!(report.built, names(&["foo"]));
    assert_eq!(state.seen, names(&["a", "foo"]));
    assert!(state.q.is_empty());
}

#[test]
fn take_next_discards_already_seen_entries() {
    let mut state = PlannerState {
        seen: names(&["a"]),
        q: vec![
            QueueEntry { fmri: "pkg:/a@1".to_string(), optional: false },
            QueueEntry { fmri: "pkg:/b".to_string(), optional: true },
        ],
        fails: Vec::new(),
    };
    let (entry, name) = state.take_next().unwrap();
    assert_eq!(entry.fmri, "pkg:/b");
    assert!(entry.optional);
    assert_eq!(name, "b");
    assert_eq!(state.seen, names(&["a", "b"]));
    assert!(state.q.is_empty());
    assert!(state.take_next().is_none());
}

#[test]
fn plan_run_resumes_in_place() {
    let mut state = PlannerState::new(&names(&["pkg:/a"]));
    let repo = names(&["a"]);
    let manifests = pairs(&[("a", "set name=x value=y")]);
    let mappings = pairs(&[("a", "/s/a")]);
    let failing: Vec<String> = Vec::new();
    let report = plan_run(&mut state, &repo, &manifests, &mappings, &failing, false).unwrap();
    assert!(report.built.is_empty());
    assert_eq!(state.seen, names(&["a"]));
}

#[test]
fn first_manifest_of_duplicates_is_used() {
    let seed = names(&["a"]);
    let repo = names(&["a"]);
    let manifests = pairs(&[
        ("a", "depend type=require fmri=pkg:/x oops=1"),
        ("a", "set name=x value=y"),
    ]);
    let mappings = pairs(&[("a", "/s/a")]);
    let failing: Vec<String> = Vec::new();

    let (_, outcome) = plan(&seed, &repo, &manifests, &mappings, &failing, false);
    match outcome.unwrap_err() {
        PlanError::ManifestUnparsable(n, _) => assert_eq!(n, "a"),
        e => panic!("unexpected error {:?}", e),
    }
}
