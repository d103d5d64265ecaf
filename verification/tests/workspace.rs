use smctl::workspace::{
    add_repo, remove_repo, FlowConfig, RepoConfig, SpecConfig, WorkspaceConfig, WorkspaceManifest,
    WorktreeConfig,
};

fn sample_manifest() -> WorkspaceManifest {
    WorkspaceManifest {
        workspace: WorkspaceConfig { name: "test-workspace".to_string(), root: ".".to_string() },
        repos: vec![
            RepoConfig {
                name: "SmallAIOS".to_string(),
                url: "https://github.com/SmallAIOS/SmallAIOS".to_string(),
                path: Some("smallaios".to_string()),
                default_branch: "main".to_string(),
                smctl_home: false,
                build_cmd: None,
                test_cmd: None,
                clean_cmd: None,
                depends_on: Vec::new(),
            },
            RepoConfig {
                name: "ModelGate".to_string(),
                url: "https://github.com/SmallAIOS/ModelGate".to_string(),
                path: None,
                default_branch: "main".to_string(),
                smctl_home: true,
                build_cmd: None,
                test_cmd: None,
                clean_cmd: None,
                depends_on: vec!["SmallAIOS".to_string()],
            },
        ],
        flow: FlowConfig::default(),
        worktree: WorktreeConfig::default(),
        spec_cfg: SpecConfig::default(),
    }
}

#[test]
fn test_default_flow_config() {
    let flow = FlowConfig::default();
    assert_eq!(flow.main_branch, "main");
    assert_eq!(flow.develop_branch, "develop");
    assert_eq!(flow.feature_prefix, "feature/");
}

#[test]
fn test_find_repo() {
    let manifest = sample_manifest();
    assert!(manifest.find_repo("SmallAIOS").is_some());
    assert!(manifest.find_repo("NonExistent").is_none());
}

#[test]
fn test_add_remove_repo() {
    let mut manifest = sample_manifest();
    add_repo(&mut manifest, "NewRepo", "https://example.com/new", None).unwrap();
    assert_eq!(manifest.repos.len(), 3);

    // Duplicate should fail
    assert!(add_repo(&mut manifest, "NewRepo", "https://example.com/new", None).is_err());

    remove_repo(&mut manifest, "NewRepo").unwrap();
    assert_eq!(manifest.repos.len(), 2);

    // Remove non-existent should fail
    assert!(remove_repo(&mut manifest, "NonExistent").is_err());
}

#[test]
fn test_local_path_defaults_to_name() {
    let manifest = sample_manifest();
    assert_eq!(manifest.repos[0].local_path(), "smallaios");
    assert_eq!(manifest.repos[1].local_path(), "ModelGate");
}

#[test]
fn test_repo_names_in_order() {
    let manifest = sample_manifest();
    assert_eq!(manifest.repo_names(), vec!["SmallAIOS", "ModelGate"]);
}
