//! Workspace manifest data: the ordered set of repository descriptors that the
//! build scheduler, the flow commands and the worktree commands all work from.
//!
//! Reading and writing the manifest file is I/O and lives outside this
//! library; here the manifest is plain data with verified operations.
use vstd::prelude::*;

verus! {

/// General workspace settings.
pub struct WorkspaceConfig {
    pub name: String,
    pub root: String,
}

/// One workspace member: a repository with its build commands and the names
/// of the repositories it depends on.
pub struct RepoConfig {
    pub name: String,
    pub url: String,
    pub path: Option<String>,
    pub default_branch: String,
    pub smctl_home: bool,
    pub build_cmd: Option<String>,
    pub test_cmd: Option<String>,
    pub clean_cmd: Option<String>,
    pub depends_on: Vec<String>,
}

/// Branch naming scheme for the flow commands.
pub struct FlowConfig {
    pub main_branch: String,
    pub develop_branch: String,
    pub feature_prefix: String,
    pub release_prefix: String,
    pub hotfix_prefix: String,
}

/// Where linked worktrees are kept, relative to the workspace root.
pub struct WorktreeConfig {
    pub base_dir: String,
}

/// Where spec documents are kept, relative to the workspace root.
pub struct SpecConfig {
    pub openspec_dir: String,
}

/// A workspace manifest: the decoded contents of the workspace file.
pub struct WorkspaceManifest {
    pub workspace: WorkspaceConfig,
    pub repos: Vec<RepoConfig>,
    pub flow: FlowConfig,
    pub worktree: WorktreeConfig,
    pub spec_cfg: SpecConfig,
}

impl Default for FlowConfig {
    /// The conventional git-flow branch names.
    fn default() -> (r: Self)
        ensures
            r.main_branch@ == "main"@,
            r.develop_branch@ == "develop"@,
            r.feature_prefix@ == "feature/"@,
            r.release_prefix@ == "release/"@,
            r.hotfix_prefix@ == "hotfix/"@,
    {
        FlowConfig {
            main_branch: "main".to_owned(),
            develop_branch: "develop".to_owned(),
            feature_prefix: "feature/".to_owned(),
            release_prefix: "release/".to_owned(),
            hotfix_prefix: "hotfix/".to_owned(),
        }
    }
}

impl Default for WorktreeConfig {
    fn default() -> (r: Self)
        ensures
            r.base_dir@ == ".worktrees"@,
    {
        WorktreeConfig { base_dir: ".worktrees".to_owned() }
    }
}

impl Default for SpecConfig {
    fn default() -> (r: Self)
        ensures
            r.openspec_dir@ == "openspec"@,
    {
        SpecConfig { openspec_dir: "openspec".to_owned() }
    }
}

impl RepoConfig {
    /// Effective local path of this repository within the workspace: the
    /// configured path, or the repository name when none is set.
    pub fn local_path(&self) -> (r: &str)
        ensures
            r@ == local_path_spec(self),
    {
        match &self.path {
            Some(p) => p.as_str(),
            None => self.name.as_str(),
        }
    }
}

/// The mathematical content of a repository descriptor: every string as a
/// sequence of characters.
pub ghost struct RepoView {
    pub name: Seq<char>,
    pub url: Seq<char>,
    pub path: Option<Seq<char>>,
    pub default_branch: Seq<char>,
    pub smctl_home: bool,
    pub build_cmd: Option<Seq<char>>,
    pub test_cmd: Option<Seq<char>>,
    pub clean_cmd: Option<Seq<char>>,
    pub depends_on: Seq<Seq<char>>,
}

impl View for RepoConfig {
    type V = RepoView;

    open spec fn view(&self) -> RepoView {
        RepoView {
            name: self.name@,
            url: self.url@,
            path: match self.path {
                Some(p) => Some(p@),
                None => None,
            },
            default_branch: self.default_branch@,
            smctl_home: self.smctl_home,
            build_cmd: match self.build_cmd {
                Some(c) => Some(c@),
                None => None,
            },
            test_cmd: match self.test_cmd {
                Some(c) => Some(c@),
                None => None,
            },
            clean_cmd: match self.clean_cmd {
                Some(c) => Some(c@),
                None => None,
            },
            depends_on: self.depends_on.deep_view(),
        }
    }
}

/// The effective local path of a repository as a sequence of characters.
pub open spec fn local_path_spec(repo: &RepoConfig) -> Seq<char> {
    match repo.path {
        Some(p) => p@,
        None => repo.name@,
    }
}

/// The contents of a list of strings, as sequences of characters.
pub open spec fn seq_views(v: Seq<String>) -> Seq<Seq<char>> {
    v.map_values(|s: String| s@)
}

/// Index of the first repository named `name`, or `repos.len()` when none is.
pub open spec fn first_index_named(repos: Seq<RepoConfig>, name: Seq<char>) -> int
    decreases repos.len(),
{
    if repos.len() == 0 {
        0
    } else if repos[0].name@ == name {
        0
    } else {
        1 + first_index_named(repos.drop_first(), name)
    }
}

/// `name` names some repository of `repos`.
pub open spec fn has_repo_named(repos: Seq<RepoConfig>, name: Seq<char>) -> bool {
    first_index_named(repos, name) < repos.len()
}

/// What `first_index_named` promises: it is the first matching index, and it
/// is in range exactly when a repository of that name exists.
pub proof fn lemma_first_index_named(repos: Seq<RepoConfig>, name: Seq<char>)
    ensures
        0 <= first_index_named(repos, name) <= repos.len(),
        first_index_named(repos, name) < repos.len() ==> repos[first_index_named(repos, name)].name@
            == name,
        forall|i: int|
            0 <= i < first_index_named(repos, name) && i < repos.len() ==> repos[i].name@ != name,
        (exists|i: int| 0 <= i < repos.len() && repos[i].name@ == name) ==> first_index_named(
            repos,
            name,
        ) < repos.len(),
    decreases repos.len(),
{
    if repos.len() > 0 && repos[0].name@ != name {
        lemma_first_index_named(repos.drop_first(), name);
        assert forall|i: int|
            0 <= i < first_index_named(repos, name) && i < repos.len() implies repos[i].name@
            != name by {
            if i > 0 {
                assert(repos.drop_first()[i - 1] == repos[i]);
            }
        }
        if exists|i: int| 0 <= i < repos.len() && repos[i].name@ == name {
            let i = choose|i: int| 0 <= i < repos.len() && repos[i].name@ == name;
            assert(repos.drop_first()[i - 1] == repos[i]);
        }
    }
}

/// Index of the first repository named `name`, or `None` when none is.
pub fn find_index(repos: &Vec<RepoConfig>, name: &str) -> (r: Option<usize>)
    ensures
        match r {
            Some(i) => i == first_index_named(repos@, name@) && i < repos@.len()
                && repos@[i as int].name@ == name@,
            None => !has_repo_named(repos@, name@),
        },
{
    let n = repos.len();
    let name_owned = name.to_owned();
    for i in 0..n
        invariant
            n == repos@.len(),
            name_owned@ == name@,
            forall|j: int| 0 <= j < i ==> repos@[j].name@ != name@,
    {
        if repos[i].name == name_owned {
            proof {
                lemma_first_index_named(repos@, name@);
            }
            return Some(i);
        }
    }
    proof {
        lemma_first_index_named(repos@, name@);
    }
    None
}

impl WorkspaceManifest {
    /// Find a repository by name: the index of the first descriptor with that
    /// name, or `None` when the name is unknown.
    pub fn find_repo(&self, name: &str) -> (r: Option<usize>)
        ensures
            match r {
                Some(i) => i == first_index_named(self.repos@, name@) && i < self.repos@.len()
                    && self.repos@[i as int].name@ == name@,
                None => !has_repo_named(self.repos@, name@),
            },
    {
        find_index(&self.repos, name)
    }

    /// The names of all repositories, in manifest order.
    pub fn repo_names(&self) -> (r: Vec<String>)
        ensures
            r@.len() == self.repos@.len(),
            forall|i: int| 0 <= i < r@.len() ==> r@[i]@ == self.repos@[i].name@,
    {
        let mut names: Vec<String> = Vec::new();
        let n = self.repos.len();
        for i in 0..n
            invariant
                n == self.repos@.len(),
                names@.len() == i,
                forall|j: int| 0 <= j < i ==> names@[j]@ == self.repos@[j].name@,
        {
            names.push(self.repos[i].name.clone());
        }
        names
    }
}

/// Errors of the manifest-editing operations.
#[derive(Debug)]
pub enum WorkspaceError {
    /// A repository of this name is already in the manifest.
    AlreadyExists { name: String },
    /// No repository of this name is in the manifest.
    NoSuchRepo { name: String },
}

/// Add a repository to the manifest, with default settings and no
/// dependencies. Fails exactly when the name is already taken.
pub fn add_repo(
    manifest: &mut WorkspaceManifest,
    name: &str,
    url: &str,
    path: Option<&str>,
) -> (r: Result<(), WorkspaceError>)
    ensures
        match r {
            Ok(()) => {
                &&& !has_repo_named(old(manifest).repos@, name@)
                &&& final(manifest).repos@.len() == old(manifest).repos@.len() + 1
                &&& final(manifest).repos@.last().name@ == name@
                &&& final(manifest).repos@.last().url@ == url@
                &&& final(manifest).repos@.last()@.path == (match path {
                    Some(p) => Some(p@),
                    None => None::<Seq<char>>,
                })
                &&& final(manifest).repos@.last().default_branch@ == "main"@
                &&& !final(manifest).repos@.last().smctl_home
                &&& final(manifest).repos@.last().build_cmd is None
                &&& final(manifest).repos@.last().test_cmd is None
                &&& final(manifest).repos@.last().clean_cmd is None
                &&& final(manifest).repos@.last().depends_on@.len() == 0
                &&& final(manifest).repos@.subrange(0, old(manifest).repos@.len() as int)
                    == old(manifest).repos@
                &&& final(manifest).workspace == old(manifest).workspace
                &&& final(manifest).flow == old(manifest).flow
                &&& final(manifest).worktree == old(manifest).worktree
                &&& final(manifest).spec_cfg == old(manifest).spec_cfg
            },
            Err(WorkspaceError::AlreadyExists { name: n }) => {
                &&& n@ == name@
                &&& has_repo_named(old(manifest).repos@, name@)
                &&& *final(manifest) == *old(manifest)
            },
            Err(_) => false,
        },
{
    if manifest.find_repo(name).is_some() {
        return Err(WorkspaceError::AlreadyExists { name: name.to_owned() });
    }
    let new_repo = RepoConfig {
        name: name.to_owned(),
        url: url.to_owned(),
        path: match path {
            Some(p) => Some(p.to_owned()),
            None => None,
        },
        default_branch: "main".to_owned(),
        smctl_home: false,
        build_cmd: None,
        test_cmd: None,
        clean_cmd: None,
        depends_on: Vec::new(),
    };
    let ghost before = manifest.repos@;
    manifest.repos.push(new_repo);
    proof {
        assert(final(manifest).repos@.subrange(0, before.len() as int) =~= before);
    }
    Ok(())
}

/// Remove every repository of the given name from the manifest. Fails exactly
/// when no repository has that name, leaving the manifest unchanged.
pub fn remove_repo(manifest: &mut WorkspaceManifest, name: &str) -> (r: Result<
    (),
    WorkspaceError,
>)
    ensures
        match r {
            Ok(()) => {
                &&& has_repo_named(old(manifest).repos@, name@)
                &&& final(manifest).repos@ == old(manifest).repos@.filter(
                    |repo: RepoConfig| repo.name@ != name@,
                )
                &&& final(manifest).workspace == old(manifest).workspace
                &&& final(manifest).flow == old(manifest).flow
                &&& final(manifest).worktree == old(manifest).worktree
                &&& final(manifest).spec_cfg == old(manifest).spec_cfg
            },
            Err(WorkspaceError::NoSuchRepo { name: n }) => {
                &&& n@ == name@
                &&& !has_repo_named(old(manifest).repos@, name@)
                &&& *final(manifest) == *old(manifest)
            },
            Err(_) => false,
        },
{
    let ghost before = manifest.repos@;
    let ghost pred = |repo: RepoConfig| repo.name@ != name@;
    let name_owned = name.to_owned();
    let mut i: usize = 0;
    let ghost mut k: int = 0;
    let mut found = false;
    while i < manifest.repos.len()
        invariant
            name_owned@ == name@,
            0 <= k <= before.len(),
            i as int == before.subrange(0, k).filter(pred).len(),
            manifest.repos@ == before.subrange(0, k).filter(pred) + before.subrange(
                k,
                before.len() as int,
            ),
            found <==> exists|j: int| 0 <= j < k && before[j].name@ == name@,
            !found ==> *manifest == *old(manifest),
            manifest.workspace == old(manifest).workspace,
            manifest.flow == old(manifest).flow,
            manifest.worktree == old(manifest).worktree,
            manifest.spec_cfg == old(manifest).spec_cfg,
            pred == (|repo: RepoConfig| repo.name@ != name@),
        decreases before.len() - k,
    {
        proof {
            assert(manifest.repos@[i as int] == before[k]);
            assert(before.subrange(0, k + 1).drop_last() == before.subrange(0, k));
            assert(before.subrange(0, k + 1).last() == before[k]);
            reveal(Seq::filter);
        }
        if manifest.repos[i].name == name_owned {
            found = true;
            let _removed = manifest.repos.remove(i);
            proof {
                assert(manifest.repos@ =~= before.subrange(0, k + 1).filter(pred)
                    + before.subrange(k + 1, before.len() as int));
            }
        } else {
            proof {
                assert(before.subrange(0, k + 1).filter(pred) == before.subrange(0, k).filter(
                    pred,
                ).push(before[k]));
                assert(manifest.repos@ =~= before.subrange(0, k + 1).filter(pred)
                    + before.subrange(k + 1, before.len() as int));
            }
            i = i + 1;
        }
        proof {
            k = k + 1;
        }
    }
    proof {
        assert(before.subrange(0, before.len() as int) =~= before);
        assert(before.subrange(before.len() as int, before.len() as int) =~= Seq::<
            RepoConfig,
        >::empty());
        assert(manifest.repos@ =~= before.filter(pred));
        lemma_first_index_named(before, name@);
    }
    if !found {
        return Err(WorkspaceError::NoSuchRepo { name: name_owned });
    }
    Ok(())
}

impl RepoConfig {
    /// A copy with the same logical content.
    pub fn clone_repo(&self) -> (r: Self)
        ensures
            r@ == self@,
    {
        let r = RepoConfig {
            name: self.name.clone(),
            url: self.url.clone(),
            path: match &self.path {
                Some(p) => Some(p.clone()),
                None => None,
            },
            default_branch: self.default_branch.clone(),
            smctl_home: self.smctl_home,
            build_cmd: match &self.build_cmd {
                Some(c) => Some(c.clone()),
                None => None,
            },
            test_cmd: match &self.test_cmd {
                Some(c) => Some(c.clone()),
                None => None,
            },
            clean_cmd: match &self.clean_cmd {
                Some(c) => Some(c.clone()),
                None => None,
            },
            depends_on: clone_strings(&self.depends_on),
        };
        proof {
            assert(r.depends_on.deep_view() =~= self.depends_on.deep_view());
        }
        r
    }
}

/// A field-for-field copy of a list of strings.
pub fn clone_strings(v: &Vec<String>) -> (r: Vec<String>)
    ensures
        r@.len() == v@.len(),
        forall|i: int| 0 <= i < v@.len() ==> r@[i] == v@[i],
{
    let mut out: Vec<String> = Vec::new();
    let n = v.len();
    for i in 0..n
        invariant
            n == v@.len(),
            out@.len() == i,
            forall|j: int| 0 <= j < i ==> out@[j] == v@[j],
    {
        out.push(v[i].clone());
    }
    out
}

/// Git status of one repository, as reported by the surrounding tool.
pub struct RepoStatus {
    pub name: String,
    pub branch: String,
    pub clean: bool,
    pub ahead: usize,
    pub behind: usize,
    pub modified_files: usize,
}

} // verus!
