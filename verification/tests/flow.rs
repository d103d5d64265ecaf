use smctl::flow::{
    classify_branch, feature_finish, feature_list, feature_start, hotfix_start, release_finish,
    BranchInfo, BranchType,
};
use smctl::workspace::{
    FlowConfig, RepoConfig, SpecConfig, WorkspaceConfig, WorkspaceManifest, WorktreeConfig,
};

fn repo(name: &str) -> RepoConfig {
    RepoConfig {
        name: name.to_string(),
        url: format!("https://example.com/{}", name),
        path: None,
        default_branch: "main".to_string(),
        smctl_home: false,
        build_cmd: None,
        test_cmd: None,
        clean_cmd: None,
        depends_on: Vec::new(),
    }
}

fn manifest() -> WorkspaceManifest {
    WorkspaceManifest {
        workspace: WorkspaceConfig { name: "test".to_string(), root: ".".to_string() },
        repos: vec![repo("alpha"), repo("beta")],
        flow: FlowConfig::default(),
        worktree: WorktreeConfig::default(),
        spec_cfg: SpecConfig::default(),
    }
}

#[test]
fn test_classify_branch() {
    let flow = FlowConfig::default();
    assert_eq!(classify_branch("main", &flow), BranchType::Main);
    assert_eq!(classify_branch("develop", &flow), BranchType::Develop);
    assert_eq!(classify_branch("feature/foo", &flow), BranchType::Feature);
    assert_eq!(classify_branch("release/1.0", &flow), BranchType::Release);
    assert_eq!(classify_branch("hotfix/fix", &flow), BranchType::Hotfix);
    assert_eq!(classify_branch("random", &flow), BranchType::Other);
}

#[test]
fn test_classify_all_branch_types() {
    let flow = FlowConfig::default();
    assert_eq!(classify_branch("main", &flow), BranchType::Main);
    assert_eq!(classify_branch("develop", &flow), BranchType::Develop);
    assert_eq!(classify_branch("feature/x", &flow), BranchType::Feature);
    assert_eq!(classify_branch("release/1.0", &flow), BranchType::Release);
    assert_eq!(classify_branch("hotfix/fix", &flow), BranchType::Hotfix);
    assert_eq!(classify_branch("other", &flow), BranchType::Other);
}

#[test]
fn test_feature_start_plan() {
    let m = manifest();
    let plan = feature_start(&m, "login", None);
    assert_eq!(plan.operation, "feature start");
    assert_eq!(plan.branch_name, "feature/login");
    assert_eq!(plan.base_branch, "develop");
    assert_eq!(plan.repo_names, vec!["alpha", "beta"]);
}

#[test]
fn test_feature_start_with_repo_filter() {
    let m = manifest();
    let only = vec!["beta".to_string()];
    let plan = feature_start(&m, "login", Some(&only));
    assert_eq!(plan.repo_names, vec!["beta"]);
}

#[test]
fn test_feature_finish_plan() {
    let m = manifest();
    let plan = feature_finish(&m, "login");
    assert_eq!(plan.operation, "feature finish");
    assert_eq!(plan.branch_name, "feature/login");
    assert_eq!(plan.base_branch, "develop");
}

#[test]
fn test_hotfix_start_plan_uses_main() {
    let m = manifest();
    let plan = hotfix_start(&m, "crash", None);
    assert_eq!(plan.branch_name, "hotfix/crash");
    assert_eq!(plan.base_branch, "main");
}

#[test]
fn test_release_finish_merges_twice() {
    let m = manifest();
    let (to_main, to_develop) = release_finish(&m, "1.2");
    assert_eq!(to_main.branch_name, "release/1.2");
    assert_eq!(to_main.base_branch, "main");
    assert_eq!(to_develop.branch_name, "release/1.2");
    assert_eq!(to_develop.base_branch, "develop");
}

#[test]
fn test_feature_list_filters_by_type() {
    let flow = FlowConfig::default();
    let branches = vec![
        BranchInfo {
            repo_name: "alpha".to_string(),
            branch: "feature/login".to_string(),
            branch_type: BranchType::Other,
        },
        BranchInfo {
            repo_name: "alpha".to_string(),
            branch: "main".to_string(),
            branch_type: BranchType::Other,
        },
        BranchInfo {
            repo_name: "beta".to_string(),
            branch: "feature/ui".to_string(),
            branch_type: BranchType::Other,
        },
    ];
    let features = feature_list(&branches, &flow);
    assert_eq!(features.len(), 2);
    assert_eq!(features[0].branch, "feature/login");
    assert_eq!(features[0].branch_type, BranchType::Feature);
    assert_eq!(features[1].branch, "feature/ui");
}
