use smctl::command::{tokenize, BuildPhase};
use smctl::engine::{build, build_parallel, SequentialBuild, TaskStep};
use smctl::deps::collect_deps;
use smctl::levels::resolve_build_levels;
use smctl::order::resolve_build_order;
use smctl::report::BuildReport;
use smctl::workspace::{
    FlowConfig, RepoConfig, SpecConfig, WorkspaceConfig, WorkspaceManifest, WorktreeConfig,
};

fn repo(name: &str, deps: &[&str]) -> RepoConfig {
    RepoConfig {
        name: name.to_string(),
        url: format!("https://example.com/{}", name),
        path: None,
        default_branch: "main".to_string(),
        smctl_home: false,
        build_cmd: None,
        test_cmd: None,
        clean_cmd: None,
        depends_on: deps.iter().map(|d| d.to_string()).collect(),
    }
}

fn manifest(repos: Vec<RepoConfig>) -> WorkspaceManifest {
    WorkspaceManifest {
        workspace: WorkspaceConfig { name: "test".to_string(), root: ".".to_string() },
        repos,
        flow: FlowConfig::default(),
        worktree: WorktreeConfig::default(),
        spec_cfg: SpecConfig::default(),
    }
}

fn make_manifest() -> WorkspaceManifest {
    manifest(vec![repo("A", &[]), repo("B", &["A"]), repo("C", &["A", "B"])])
}

fn order_names(m: &WorkspaceManifest, order: &[usize]) -> Vec<String> {
    order.iter().map(|&i| m.repos[i].name.clone()).collect()
}

#[test]
fn test_resolve_build_order() {
    let manifest = make_manifest();
    let order = resolve_build_order(&manifest).unwrap();
    let names = order_names(&manifest, &order);
    // A must come before B and C; B must come before C
    let a_pos = names.iter().position(|n| n == "A").unwrap();
    let b_pos = names.iter().position(|n| n == "B").unwrap();
    let c_pos = names.iter().position(|n| n == "C").unwrap();
    assert!(a_pos < b_pos);
    assert!(b_pos < c_pos);
}

#[test]
fn test_circular_dependency() {
    let manifest = manifest(vec![repo("A", &["B"]), repo("B", &["A"])]);
    assert!(resolve_build_order(&manifest).is_err());
}

#[test]
fn test_collect_deps() {
    let manifest = make_manifest();
    let deps = collect_deps(&manifest, "C");
    assert!(deps.contains(&"A".to_string()));
    assert!(deps.contains(&"B".to_string()));
}

#[test]
fn test_resolve_build_levels() {
    let manifest = make_manifest();
    let levels = resolve_build_levels(&manifest).unwrap();
    // Level 0: A (no deps)
    // Level 1: B (depends on A)
    // Level 2: C (depends on A, B)
    assert_eq!(levels.len(), 3);
    assert_eq!(levels[0].len(), 1);
    assert_eq!(manifest.repos[levels[0][0]].name, "A");
    assert_eq!(levels[1].len(), 1);
    assert_eq!(manifest.repos[levels[1][0]].name, "B");
    assert_eq!(levels[2].len(), 1);
    assert_eq!(manifest.repos[levels[2][0]].name, "C");
}

#[test]
fn test_resolve_build_levels_parallel_repos() {
    // D and E both depend only on A, so they should be in the same level
    let manifest = manifest(vec![
        repo("A", &[]),
        repo("D", &["A"]),
        repo("E", &["A"]),
        repo("F", &["D", "E"]),
    ]);
    let levels = resolve_build_levels(&manifest).unwrap();
    assert_eq!(levels.len(), 3);
    // Level 0: A
    assert_eq!(levels[0].len(), 1);
    assert_eq!(manifest.repos[levels[0][0]].name, "A");
    // Level 1: D and E (parallel)
    assert_eq!(levels[1].len(), 2);
    let l1_names: Vec<&str> =
        levels[1].iter().map(|&i| manifest.repos[i].name.as_str()).collect();
    assert!(l1_names.contains(&"D"));
    assert!(l1_names.contains(&"E"));
    // Level 2: F
    assert_eq!(levels[2].len(), 1);
    assert_eq!(manifest.repos[levels[2][0]].name, "F");
}

#[test]
fn test_resolve_build_levels_no_deps() {
    // All repos independent: should all be in level 0
    let manifest = manifest(vec![repo("X", &[]), repo("Y", &[]), repo("Z", &[])]);
    let levels = resolve_build_levels(&manifest).unwrap();
    assert_eq!(levels.len(), 1);
    assert_eq!(levels[0].len(), 3);
}

#[test]
fn test_dry_order_idempotent() {
    let manifest = manifest(vec![
        repo("A", &[]),
        repo("D", &["A"]),
        repo("E", &["A"]),
        repo("F", &["D", "E"]),
    ]);
    let first = resolve_build_order(&manifest).unwrap();
    let second = resolve_build_order(&manifest).unwrap();
    assert_eq!(first, second);
}

#[test]
fn test_order_scenario_chain() {
    // A (no deps), B (deps: [A]), C (deps: [A, B]) resolves to [A, B, C]
    let manifest = make_manifest();
    let order = resolve_build_order(&manifest).unwrap();
    assert_eq!(order_names(&manifest, &order), vec!["A", "B", "C"]);
}

#[test]
fn test_cycle_error_names_member() {
    let manifest = manifest(vec![repo("A", &["B"]), repo("B", &["A"])]);
    match resolve_build_order(&manifest) {
        Err(smctl::order::BuildError::Cycle { name }) => {
            assert!(name == "A" || name == "B");
        }
        other => panic!("expected a cycle error, got {:?}", other.is_ok()),
    }
}

#[test]
fn test_unresolvable_dependency_is_skipped() {
    let manifest = manifest(vec![repo("A", &["Ghost"]), repo("B", &["A"])]);
    let order = resolve_build_order(&manifest).unwrap();
    assert_eq!(order_names(&manifest, &order), vec!["A", "B"]);
}

#[test]
fn test_collect_deps_diamond_no_duplicates() {
    // A reachable from C through two paths, reported once; C not in its own closure
    let manifest = manifest(vec![
        repo("A", &[]),
        repo("D", &["A"]),
        repo("E", &["A"]),
        repo("C", &["D", "E"]),
    ]);
    let mut deps = collect_deps(&manifest, "C");
    deps.sort();
    assert_eq!(deps, vec!["A".to_string(), "D".to_string(), "E".to_string()]);
}

#[test]
fn test_collect_deps_excludes_target() {
    let manifest = make_manifest();
    let deps = collect_deps(&manifest, "C");
    assert_eq!(deps.len(), 2);
    assert!(!deps.contains(&"C".to_string()));
}

#[test]
fn test_build_unknown_target_not_found() {
    let manifest = make_manifest();
    match build(&manifest, Some("Nope"), false, false) {
        Err(smctl::order::BuildError::NotFound { name }) => assert_eq!(name, "Nope"),
        _ => panic!("expected a not-found error"),
    }
}

/// Drive a sequential engine, failing the build of the named repositories.
fn run_sequential(mut s: SequentialBuild, fail_builds: &[&str]) -> BuildReport {
    while let Some(req) = s.next_request() {
        let ok = !(matches!(req.phase, BuildPhase::Build)
            && fail_builds.contains(&req.repo_name.as_str()));
        let output = if ok { "done".to_string() } else { "boom".to_string() };
        s.provide(ok, output, 1);
    }
    s.finish(7)
}

#[test]
fn test_sequential_all_pass() {
    let manifest = make_manifest();
    let s = build(&manifest, None, false, false).unwrap();
    let report = run_sequential(s, &[]);
    assert!(report.all_passed);
    let names: Vec<&str> = report.results.iter().map(|r| r.repo_name.as_str()).collect();
    assert_eq!(names, vec!["A", "B", "C"]);
    assert_eq!(report.total_duration_ms, 7);
}

#[test]
fn test_sequential_failure_stops_run() {
    // Scoped build for C with B failing: A succeeds, B fails, C never runs
    let manifest = make_manifest();
    let s = build(&manifest, Some("C"), false, false).unwrap();
    let report = run_sequential(s, &["B"]);
    assert!(!report.all_passed);
    assert_eq!(report.results.len(), 2);
    assert_eq!(report.results[0].repo_name, "A");
    assert!(report.results[0].success);
    assert_eq!(report.results[1].repo_name, "B");
    assert!(!report.results[1].success);
}

#[test]
fn test_sequential_with_tests_records_both() {
    let manifest = manifest(vec![repo("A", &[])]);
    let s = build(&manifest, None, true, false).unwrap();
    let report = run_sequential(s, &[]);
    assert!(report.all_passed);
    assert_eq!(report.results.len(), 2);
    assert_eq!(report.results[0].repo_name, "A");
    assert_eq!(report.results[1].repo_name, "A (test)");
}

#[test]
fn test_sequential_empty_command_fails_repo() {
    let mut broken = repo("A", &[]);
    broken.build_cmd = Some("   ".to_string());
    let manifest = manifest(vec![broken]);
    let s = build(&manifest, None, false, false).unwrap();
    let report = run_sequential(s, &[]);
    assert!(!report.all_passed);
    assert_eq!(report.results.len(), 1);
    assert_eq!(report.results[0].output, "empty command");
}

#[test]
fn test_sequential_build_command_request() {
    let mut custom = repo("A", &[]);
    custom.build_cmd = Some("make -j4 all".to_string());
    let manifest = manifest(vec![custom]);
    let mut s = build(&manifest, None, false, false).unwrap();
    let req = s.next_request().unwrap();
    assert!(matches!(req.phase, BuildPhase::Build));
    assert_eq!(req.command, "make -j4 all");
    assert_eq!(req.tokens, vec!["make", "-j4", "all"]);
    assert_eq!(req.dir, "A");
}

#[test]
fn test_parallel_wavefront_isolation() {
    // If D fails in level 1, E still reports a result, and F never runs
    let manifest = manifest(vec![
        repo("A", &[]),
        repo("D", &["A"]),
        repo("E", &["A"]),
        repo("F", &["D", "E"]),
    ]);
    let mut p = build_parallel(&manifest, None, false, false).unwrap();
    while let Some(mut tasks) = p.take_level() {
        // run the whole wavefront before recording anything new
        let mut outcomes = Vec::new();
        for task in tasks.iter_mut() {
            loop {
                match task.step() {
                    TaskStep::Run(req) => {
                        let ok = req.repo_name != "D";
                        if let Some(res) = task.deliver(ok, "out".to_string(), 1) {
                            outcomes.push(res);
                        }
                    }
                    TaskStep::Record(res) => outcomes.push(res),
                    TaskStep::Idle => break,
                }
            }
        }
        for res in outcomes {
            p.record(res);
        }
    }
    let report = p.finish(3);
    assert!(!report.all_passed);
    let names: Vec<&str> = report.results.iter().map(|r| r.repo_name.as_str()).collect();
    assert!(names.contains(&"A"));
    assert!(names.contains(&"D"));
    assert!(names.contains(&"E"));
    assert!(!names.contains(&"F"));
    let d = report.results.iter().find(|r| r.repo_name == "D").unwrap();
    assert!(!d.success);
    let e = report.results.iter().find(|r| r.repo_name == "E").unwrap();
    assert!(e.success);
}

#[test]
fn test_parallel_gate_closes_after_failure() {
    let manifest = make_manifest();
    let mut p = build_parallel(&manifest, None, false, false).unwrap();
    let tasks = p.take_level().unwrap();
    assert_eq!(tasks.len(), 1);
    p.record(smctl::report::BuildResult {
        repo_name: "A".to_string(),
        success: false,
        output: "boom".to_string(),
        duration_ms: 1,
    });
    assert!(p.is_failed());
    assert!(p.take_level().is_none());
    let report = p.finish(1);
    assert_eq!(report.results.len(), 1);
    assert!(!report.all_passed);
}

#[test]
fn test_parallel_all_levels_run_when_passing() {
    let manifest = make_manifest();
    let mut p = build_parallel(&manifest, None, false, false).unwrap();
    let mut seen = Vec::new();
    while let Some(mut tasks) = p.take_level() {
        for task in tasks.iter_mut() {
            loop {
                match task.step() {
                    TaskStep::Run(req) => {
                        seen.push(req.repo_name.clone());
                        if let Some(res) = task.deliver(true, String::new(), 1) {
                            p.record(res);
                        }
                    }
                    TaskStep::Record(res) => p.record(res),
                    TaskStep::Idle => break,
                }
            }
        }
    }
    assert_eq!(seen, vec!["A", "B", "C"]);
    let report = p.finish(2);
    assert!(report.all_passed);
    assert_eq!(report.results.len(), 3);
}

#[test]
fn test_clean_outcome_is_ignored() {
    let mut with_clean = repo("A", &[]);
    with_clean.clean_cmd = Some("make clean".to_string());
    let manifest = manifest(vec![with_clean]);
    let mut s = build(&manifest, None, false, true).unwrap();
    let req = s.next_request().unwrap();
    assert!(matches!(req.phase, BuildPhase::Clean));
    // a failing clean must not block the build
    s.provide(false, "clean failed".to_string(), 1);
    let req = s.next_request().unwrap();
    assert!(matches!(req.phase, BuildPhase::Build));
    s.provide(true, String::new(), 1);
    let report = s.finish(2);
    assert!(report.all_passed);
    assert_eq!(report.results.len(), 1);
}

#[test]
fn test_tokenize_splits_on_blanks() {
    assert_eq!(tokenize("cargo  build\t--all"), vec!["cargo", "build", "--all"]);
    assert_eq!(tokenize("   "), Vec::<String>::new());
    assert_eq!(tokenize(""), Vec::<String>::new());
    assert_eq!(tokenize(" one "), vec!["one"]);
}

#[test]
fn test_unknown_target_wins_over_cycle() {
    // the target is resolved before the graph walk, so NotFound is reported
    // even on a cyclic manifest
    let cyclic = manifest(vec![repo("A", &["B"]), repo("B", &["A"])]);
    match build(&cyclic, Some("Nope"), false, false) {
        Err(smctl::order::BuildError::NotFound { name }) => assert_eq!(name, "Nope"),
        _ => panic!("expected a not-found error"),
    }
    match build_parallel(&cyclic, Some("Nope"), false, false) {
        Err(smctl::order::BuildError::NotFound { name }) => assert_eq!(name, "Nope"),
        _ => panic!("expected a not-found error"),
    }
}

#[test]
fn test_parallel_unknown_target_not_found() {
    let manifest = make_manifest();
    match build_parallel(&manifest, Some("Nope"), false, false) {
        Err(smctl::order::BuildError::NotFound { name }) => assert_eq!(name, "Nope"),
        _ => panic!("expected a not-found error"),
    }
}
