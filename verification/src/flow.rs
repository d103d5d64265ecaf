//! Git-flow branch logic: classifying branch names and planning flow
//! operations across the workspace.
//!
//! The git work itself — opening repositories, creating and merging
//! branches — happens outside this library. Here the decisions are made:
//! what a branch name means under the configured scheme, which branch an
//! operation creates or merges, from which base, and in which repositories.
use vstd::prelude::*;
use vstd::string::StringExecFns;

use crate::deps::contains_name;
use crate::workspace::{FlowConfig, WorkspaceManifest, seq_views};

verus! {

/// Result of a flow operation across repositories.
pub struct FlowResult {
    pub operation: String,
    pub branch_name: String,
    pub repos: Vec<FlowRepoResult>,
}

/// One repository's outcome within a flow operation.
pub struct FlowRepoResult {
    pub repo_name: String,
    pub success: bool,
    pub message: String,
}

/// An active branch in one repository.
pub struct BranchInfo {
    pub repo_name: String,
    pub branch: String,
    pub branch_type: BranchType,
}

/// The role of a branch under the git-flow naming scheme.
#[derive(Debug, Clone, Copy, PartialEq, Eq, Structural)]
pub enum BranchType {
    Main,
    Develop,
    Feature,
    Release,
    Hotfix,
    Other,
}

/// The role of a branch name: the main or develop branch by exact name,
/// else the first matching prefix, else other.
pub open spec fn classify_spec(name: Seq<char>, flow: &FlowConfig) -> BranchType {
    if name == flow.main_branch@ {
        BranchType::Main
    } else if name == flow.develop_branch@ {
        BranchType::Develop
    } else if flow.feature_prefix@.is_prefix_of(name) {
        BranchType::Feature
    } else if flow.release_prefix@.is_prefix_of(name) {
        BranchType::Release
    } else if flow.hotfix_prefix@.is_prefix_of(name) {
        BranchType::Hotfix
    } else {
        BranchType::Other
    }
}

/// Whether `p` is a prefix of `s`.
pub fn has_prefix(s: &str, p: &str) -> (r: bool)
    ensures
        r == p@.is_prefix_of(s@),
{
    let n = p.unicode_len();
    let m = s.unicode_len();
    if n > m {
        return false;
    }
    for i in 0..n
        invariant
            n == p@.len(),
            m == s@.len(),
            n <= m,
            forall|j: int| 0 <= j < i ==> p@[j] == s@[j],
    {
        if s.get_char(i) != p.get_char(i) {
            proof {
                assert(s@.subrange(0, n as int)[i as int] != p@[i as int]);
            }
            return false;
        }
    }
    proof {
        assert(p@ =~= s@.subrange(0, n as int));
    }
    true
}

/// Classify a branch name under the configured scheme.
pub fn classify_branch(name: &str, flow: &FlowConfig) -> (r: BranchType)
    ensures
        r == classify_spec(name@, flow),
{
    let name_owned = name.to_owned();
    if name_owned == flow.main_branch {
        BranchType::Main
    } else if name_owned == flow.develop_branch {
        BranchType::Develop
    } else if has_prefix(name, flow.feature_prefix.as_str()) {
        BranchType::Feature
    } else if has_prefix(name, flow.release_prefix.as_str()) {
        BranchType::Release
    } else if has_prefix(name, flow.hotfix_prefix.as_str()) {
        BranchType::Hotfix
    } else {
        BranchType::Other
    }
}

/// A planned flow operation: which branch to act on, from which base, and
/// in which repositories, in manifest order.
pub struct FlowPlan {
    pub operation: String,
    pub branch_name: String,
    pub base_branch: String,
    pub repo_names: Vec<String>,
}

/// The names of the repositories a flow operation works on: all of them, or
/// those whose name the caller listed.
pub open spec fn selected_names(
    repos_names: Seq<Seq<char>>,
    filt: Option<Seq<Seq<char>>>,
) -> Seq<Seq<char>> {
    match filt {
        None => repos_names,
        Some(f) => repos_names.filter(|nm: Seq<char>| f.contains(nm)),
    }
}

/// The names of all repositories of the manifest, in order.
pub open spec fn manifest_names(manifest: &WorkspaceManifest) -> Seq<Seq<char>> {
    manifest.repos@.map_values(|r: crate::workspace::RepoConfig| r.name@)
}

/// The optional repository filter, as sequences of characters.
pub open spec fn filter_view(repos: Option<&Vec<String>>) -> Option<Seq<Seq<char>>> {
    match repos {
        Some(f) => Some(seq_views(f@)),
        None => None,
    }
}

/// Pick the repositories an operation works on.
fn select_names(manifest: &WorkspaceManifest, repos: Option<&Vec<String>>) -> (r: Vec<String>)
    ensures
        seq_views(r@) == selected_names(manifest_names(manifest), filter_view(repos)),
{
    let n = manifest.repos.len();
    let mut out: Vec<String> = Vec::new();
    let ghost pred = |nm: Seq<char>| filter_view(repos).unwrap().contains(nm);
    proof {
        assert(seq_views(out@) =~= Seq::<Seq<char>>::empty());
        assert(manifest_names(manifest).subrange(0, 0) =~= Seq::<Seq<char>>::empty());
    }
    for i in 0..n
        invariant
            n == manifest.repos@.len(),
            pred == (|nm: Seq<char>| filter_view(repos).unwrap().contains(nm)),
            match filter_view(repos) {
                None => seq_views(out@) == manifest_names(manifest).subrange(0, i as int),
                Some(f) => seq_views(out@) == manifest_names(manifest).subrange(
                    0,
                    i as int,
                ).filter(pred),
            },
    {
        let ghost cur = manifest_names(manifest).subrange(0, i + 1);
        let ghost pre = manifest_names(manifest).subrange(0, i as int);
        let ghost out_before = seq_views(out@);
        proof {
            assert(cur.drop_last() =~= pre);
            assert(cur.last() == manifest.repos@[i as int].name@);
            reveal(Seq::filter);
        }
        let keep = match repos {
            None => true,
            Some(f) => contains_name(f, manifest.repos[i].name.as_str()),
        };
        if keep {
            out.push(manifest.repos[i].name.clone());
            proof {
                assert(seq_views(out@) =~= out_before.push(manifest.repos@[i as int].name@));
                if filter_view(repos) is Some {
                    assert(cur.filter(pred) =~= pre.filter(pred).push(cur.last()));
                }
            }
        } else {
            proof {
                assert(cur.filter(pred) =~= pre.filter(pred));
            }
        }
    }
    proof {
        assert(manifest_names(manifest).subrange(0, n as int) =~= manifest_names(manifest));
    }
    out
}

/// Plan starting a feature branch: `feature/<name>` from the develop
/// branch, in the chosen repositories.
pub fn feature_start(manifest: &WorkspaceManifest, name: &str, repos: Option<&Vec<String>>) -> (r:
    FlowPlan)
    ensures
        r.operation@ == "feature start"@,
        r.branch_name@ == manifest.flow.feature_prefix@ + name@,
        r.base_branch@ == manifest.flow.develop_branch@,
        seq_views(r.repo_names@) == selected_names(manifest_names(manifest), filter_view(repos)),
{
    FlowPlan {
        operation: "feature start".to_owned(),
        branch_name: manifest.flow.feature_prefix.clone().concat(name),
        base_branch: manifest.flow.develop_branch.clone(),
        repo_names: select_names(manifest, repos),
    }
}

/// Plan finishing a feature branch: merge `feature/<name>` into the develop
/// branch, in every repository.
pub fn feature_finish(manifest: &WorkspaceManifest, name: &str) -> (r: FlowPlan)
    ensures
        r.operation@ == "feature finish"@,
        r.branch_name@ == manifest.flow.feature_prefix@ + name@,
        r.base_branch@ == manifest.flow.develop_branch@,
        seq_views(r.repo_names@) == manifest_names(manifest),
{
    FlowPlan {
        operation: "feature finish".to_owned(),
        branch_name: manifest.flow.feature_prefix.clone().concat(name),
        base_branch: manifest.flow.develop_branch.clone(),
        repo_names: select_names(manifest, None),
    }
}

/// Plan starting a release branch: `release/<version>` from the develop
/// branch, in the chosen repositories.
pub fn release_start(
    manifest: &WorkspaceManifest,
    version: &str,
    repos: Option<&Vec<String>>,
) -> (r: FlowPlan)
    ensures
        r.operation@ == "release start"@,
        r.branch_name@ == manifest.flow.release_prefix@ + version@,
        r.base_branch@ == manifest.flow.develop_branch@,
        seq_views(r.repo_names@) == selected_names(manifest_names(manifest), filter_view(repos)),
{
    FlowPlan {
        operation: "release start".to_owned(),
        branch_name: manifest.flow.release_prefix.clone().concat(version),
        base_branch: manifest.flow.develop_branch.clone(),
        repo_names: select_names(manifest, repos),
    }
}

/// Plan finishing a release: merge `release/<version>` first into the main
/// branch, then into the develop branch.
pub fn release_finish(manifest: &WorkspaceManifest, version: &str) -> (r: (FlowPlan, FlowPlan))
    ensures
        r.0.operation@ == "release finish"@,
        r.0.branch_name@ == manifest.flow.release_prefix@ + version@,
        r.0.base_branch@ == manifest.flow.main_branch@,
        seq_views(r.0.repo_names@) == manifest_names(manifest),
        r.1.operation@ == "release finish"@,
        r.1.branch_name@ == manifest.flow.release_prefix@ + version@,
        r.1.base_branch@ == manifest.flow.develop_branch@,
        seq_views(r.1.repo_names@) == manifest_names(manifest),
{
    let to_main = FlowPlan {
        operation: "release finish".to_owned(),
        branch_name: manifest.flow.release_prefix.clone().concat(version),
        base_branch: manifest.flow.main_branch.clone(),
        repo_names: select_names(manifest, None),
    };
    let to_develop = FlowPlan {
        operation: "release finish".to_owned(),
        branch_name: manifest.flow.release_prefix.clone().concat(version),
        base_branch: manifest.flow.develop_branch.clone(),
        repo_names: select_names(manifest, None),
    };
    (to_main, to_develop)
}

/// Plan starting a hotfix branch: `hotfix/<name>` from the main branch, in
/// the chosen repositories.
pub fn hotfix_start(manifest: &WorkspaceManifest, name: &str, repos: Option<&Vec<String>>) -> (r:
    FlowPlan)
    ensures
        r.operation@ == "hotfix start"@,
        r.branch_name@ == manifest.flow.hotfix_prefix@ + name@,
        r.base_branch@ == manifest.flow.main_branch@,
        seq_views(r.repo_names@) == selected_names(manifest_names(manifest), filter_view(repos)),
{
    FlowPlan {
        operation: "hotfix start".to_owned(),
        branch_name: manifest.flow.hotfix_prefix.clone().concat(name),
        base_branch: manifest.flow.main_branch.clone(),
        repo_names: select_names(manifest, repos),
    }
}

/// Plan finishing a hotfix: merge `hotfix/<name>` first into the main
/// branch, then into the develop branch.
pub fn hotfix_finish(manifest: &WorkspaceManifest, name: &str) -> (r: (FlowPlan, FlowPlan))
    ensures
        r.0.operation@ == "hotfix finish"@,
        r.0.branch_name@ == manifest.flow.hotfix_prefix@ + name@,
        r.0.base_branch@ == manifest.flow.main_branch@,
        seq_views(r.0.repo_names@) == manifest_names(manifest),
        r.1.operation@ == "hotfix finish"@,
        r.1.branch_name@ == manifest.flow.hotfix_prefix@ + name@,
        r.1.base_branch@ == manifest.flow.develop_branch@,
        seq_views(r.1.repo_names@) == manifest_names(manifest),
{
    let to_main = FlowPlan {
        operation: "hotfix finish".to_owned(),
        branch_name: manifest.flow.hotfix_prefix.clone().concat(name),
        base_branch: manifest.flow.main_branch.clone(),
        repo_names: select_names(manifest, None),
    };
    let to_develop = FlowPlan {
        operation: "hotfix finish".to_owned(),
        branch_name: manifest.flow.hotfix_prefix.clone().concat(name),
        base_branch: manifest.flow.develop_branch.clone(),
        repo_names: select_names(manifest, None),
    };
    (to_main, to_develop)
}

/// The repository and branch names of a list of observed branches, in
/// order.
pub open spec fn branch_views(bs: Seq<BranchInfo>) -> Seq<(Seq<char>, Seq<char>)> {
    bs.map_values(|b: BranchInfo| (b.repo_name@, b.branch@))
}

/// The observed branches whose name classifies as `bt`, in order: exactly
/// the matching entries of the input, each with the classification
/// recorded.
#[verifier::rlimit(30)]
fn branches_of_type(branches: &Vec<BranchInfo>, flow: &FlowConfig, bt: BranchType) -> (r: Vec<
    BranchInfo,
>)
    ensures
        branch_views(r@) == branch_views(branches@).filter(
            |pr: (Seq<char>, Seq<char>)| classify_spec(pr.1, flow) == bt,
        ),
        forall|i: int| 0 <= i < r@.len() ==> (#[trigger] r@[i]).branch_type == bt,
{
    let ghost pred = |pr: (Seq<char>, Seq<char>)| classify_spec(pr.1, flow) == bt;
    let n = branches.len();
    let mut out: Vec<BranchInfo> = Vec::new();
    proof {
        assert(branch_views(out@) =~= Seq::<(Seq<char>, Seq<char>)>::empty());
        assert(branch_views(branches@.subrange(0, 0)) =~= Seq::<(Seq<char>, Seq<char>)>::empty());
        assert(branch_views(branches@.subrange(0, 0)).filter(pred) =~= Seq::<
            (Seq<char>, Seq<char>),
        >::empty());
    }
    for j in 0..n
        invariant
            n == branches@.len(),
            pred == (|pr: (Seq<char>, Seq<char>)| classify_spec(pr.1, flow) == bt),
            branch_views(out@) == branch_views(branches@.subrange(0, j as int)).filter(pred),
            forall|i: int| 0 <= i < out@.len() ==> (#[trigger] out@[i]).branch_type == bt,
    {
        let ghost pre = branch_views(branches@.subrange(0, j as int));
        let ghost cur = branch_views(branches@.subrange(0, j + 1));
        let ghost out_before = branch_views(out@);
        proof {
            assert(branches@.subrange(0, j + 1).drop_last() =~= branches@.subrange(0, j as int));
            assert(cur.drop_last() =~= pre);
            assert(cur.last() == (branches@[j as int].repo_name@, branches@[j as int].branch@));
            reveal(Seq::filter);
        }
        let cls = classify_branch(branches[j].branch.as_str(), flow);
        if cls == bt {
            out.push(
                BranchInfo {
                    repo_name: branches[j].repo_name.clone(),
                    branch: branches[j].branch.clone(),
                    branch_type: bt,
                },
            );
            proof {
                assert(cur.filter(pred) =~= pre.filter(pred).push(cur.last()));
                assert(branch_views(out@) =~= out_before.push(cur.last()));
            }
        } else {
            proof {
                assert(cur.filter(pred) =~= pre.filter(pred));
            }
        }
    }
    proof {
        assert(branches@.subrange(0, n as int) =~= branches@);
    }
    out
}

/// The observed branches that are feature branches: exactly the entries
/// whose name classifies as a feature branch, in order.
pub fn feature_list(branches: &Vec<BranchInfo>, flow: &FlowConfig) -> (r: Vec<BranchInfo>)
    ensures
        branch_views(r@) == branch_views(branches@).filter(
            |pr: (Seq<char>, Seq<char>)| classify_spec(pr.1, flow) == BranchType::Feature,
        ),
        forall|i: int|
            0 <= i < r@.len() ==> (#[trigger] r@[i]).branch_type == BranchType::Feature,
{
    branches_of_type(branches, flow, BranchType::Feature)
}

/// The observed branches that are release branches: exactly the entries
/// whose name classifies as a release branch, in order.
pub fn release_list(branches: &Vec<BranchInfo>, flow: &FlowConfig) -> (r: Vec<BranchInfo>)
    ensures
        branch_views(r@) == branch_views(branches@).filter(
            |pr: (Seq<char>, Seq<char>)| classify_spec(pr.1, flow) == BranchType::Release,
        ),
        forall|i: int|
            0 <= i < r@.len() ==> (#[trigger] r@[i]).branch_type == BranchType::Release,
{
    branches_of_type(branches, flow, BranchType::Release)
}

/// The observed branches that are hotfix branches: exactly the entries
/// whose name classifies as a hotfix branch, in order.
pub fn hotfix_list(branches: &Vec<BranchInfo>, flow: &FlowConfig) -> (r: Vec<BranchInfo>)
    ensures
        branch_views(r@) == branch_views(branches@).filter(
            |pr: (Seq<char>, Seq<char>)| classify_spec(pr.1, flow) == BranchType::Hotfix,
        ),
        forall|i: int| 0 <= i < r@.len() ==> (#[trigger] r@[i]).branch_type == BranchType::Hotfix,
{
    branches_of_type(branches, flow, BranchType::Hotfix)
}

} // verus!
