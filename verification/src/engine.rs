//! The execution engines: sequential and level-parallel build scheduling.
//!
//! Neither engine runs external commands itself. Each is a state machine
//! that hands out one `CommandRequest` at a time (or one wavefront of
//! single-repository tasks) and consumes the observed outcomes; the caller
//! performs the commands and reports back. Everything the engines decide —
//! which repository is next, which command each phase runs, when a failure
//! stops the run, what the report holds — is stated in the contracts below,
//! for every possible outcome of every command.
//!
//! Per repository the pipeline is: an optional clean (only when requested
//! and configured; its outcome is ignored), then the build, then, after a
//! successful build only, the tests when requested. Build and test outcomes
//! are recorded; a command string without tokens is recorded as that
//! repository's failure without being handed out.
use vstd::prelude::*;

use crate::command::{
    BuildPhase, CommandRequest, build_command, build_command_spec, test_command,
    test_command_spec, tokenize, tokens_of,
};
use crate::deps::{collect_deps, contains_name, name_reachable};
use crate::levels::{levels_minimal, levels_partition, levels_view, resolve_build_levels};
use crate::order::{BuildError, as_ints, build_order_spec, has_cycle, is_cycle, resolve_build_order};
use crate::report::{BuildReport, BuildResult, all_ok, make_report};
use crate::workspace::{RepoConfig, RepoView, WorkspaceManifest, has_repo_named, local_path_spec, seq_views};
use vstd::string::StringExecFns;

verus! {

/// The logical content of a list of repository descriptors.
pub open spec fn views_of_repos(rs: Seq<RepoConfig>) -> Seq<RepoView> {
    rs.map_values(|r: RepoConfig| r@)
}

/// The reported name of a repository's test result.
pub open spec fn test_name(name: Seq<char>) -> Seq<char> {
    name + " (test)"@
}

/// A repository is part of a run scoped to `target`: every repository when
/// there is no target, else the target itself and whatever it reaches.
pub open spec fn keep_name(
    repos: Seq<RepoConfig>,
    target: Option<Seq<char>>,
    nm: Seq<char>,
) -> bool {
    match target {
        None => true,
        Some(t) => nm == t || name_reachable(repos, t, nm),
    }
}

/// The target name as a sequence of characters.
pub open spec fn opt_name_view(target: Option<&str>) -> Option<Seq<char>> {
    match target {
        Some(t) => Some(t@),
        None => None,
    }
}

/// The repositories of a scoped sequential run, in build order.
pub open spec fn build_plan_spec(repos: Seq<RepoConfig>, target: Option<Seq<char>>) -> Seq<
    RepoView,
> {
    match build_order_spec(repos) {
        Some(ord) => ord.map_values(|i: int| repos[i]).filter(
            |rv: RepoConfig| keep_name(repos, target, rv.name@),
        ).map_values(|r: RepoConfig| r@),
        None => Seq::empty(),
    }
}

/// Results recorded per repository that completes its pipeline.
pub open spec fn block_width(run_tests: bool) -> int {
    if run_tests {
        2
    } else {
        1
    }
}

/// Keep, from the picked repositories, those that belong to the scoped run.
fn select_repos(
    repos: &Vec<RepoConfig>,
    picks: &Vec<usize>,
    target: Option<&str>,
    deps: &Vec<String>,
) -> (r: Vec<RepoConfig>)
    requires
        forall|t: int| 0 <= t < picks@.len() ==> #[trigger] picks@[t] < repos@.len(),
        match opt_name_view(target) {
            Some(t) => forall|x: Seq<char>|
                #[trigger] seq_views(deps@).contains(x) <==> (name_reachable(repos@, t, x) && x
                    != t),
            None => true,
        },
    ensures
        views_of_repos(r@) == as_ints(picks@).map_values(|i: int| repos@[i]).filter(
            |rv: RepoConfig| keep_name(repos@, opt_name_view(target), rv.name@),
        ).map_values(|r2: RepoConfig| r2@),
{
    let ghost pred = |rv: RepoConfig| keep_name(repos@, opt_name_view(target), rv.name@);
    let n = picks.len();
    let mut out: Vec<RepoConfig> = Vec::new();
    proof {
        assert(as_ints(picks@).subrange(0, 0) =~= Seq::<int>::empty());
        assert(views_of_repos(out@) =~= Seq::<int>::empty().map_values(
            |i: int| repos@[i],
        ).filter(pred).map_values(|r2: RepoConfig| r2@));
    }
    for q in 0..n
        invariant
            n == picks@.len(),
            forall|t: int| 0 <= t < picks@.len() ==> #[trigger] picks@[t] < repos@.len(),
            match opt_name_view(target) {
                Some(t) => forall|x: Seq<char>|
                    #[trigger] seq_views(deps@).contains(x) <==> (name_reachable(repos@, t, x)
                        && x != t),
                None => true,
            },
            pred == (|rv: RepoConfig| keep_name(repos@, opt_name_view(target), rv.name@)),
            views_of_repos(out@) == as_ints(picks@).subrange(0, q as int).map_values(
                |i: int| repos@[i],
            ).filter(pred).map_values(|r2: RepoConfig| r2@),
    {
        let idx = picks[q];
        let repo = &repos[idx];
        let keep = match target {
            None => true,
            Some(t) => {
                let t_owned = t.to_owned();
                if repo.name == t_owned {
                    true
                } else {
                    contains_name(deps, repo.name.as_str())
                }
            },
        };
        proof {
            assert(keep == pred(repos@[idx as int]));
        }
        let ghost pre = as_ints(picks@).subrange(0, q as int);
        let ghost cur = as_ints(picks@).subrange(0, q + 1);
        let ghost out_before = views_of_repos(out@);
        proof {
            assert(cur.drop_last() =~= pre);
            assert(cur.last() == idx as int);
            assert(cur.map_values(|i: int| repos@[i]).drop_last() =~= pre.map_values(
                |i: int| repos@[i],
            ));
            assert(cur.map_values(|i: int| repos@[i]).last() == repos@[idx as int]);
            reveal(Seq::filter);
        }
        if keep {
            out.push(repo.clone_repo());
            proof {
                assert(cur.map_values(|i: int| repos@[i]).filter(pred) =~= pre.map_values(
                    |i: int| repos@[i],
                ).filter(pred).push(repos@[idx as int]));
                assert(views_of_repos(out@) =~= out_before.push(repos@[idx as int]@));
                assert(views_of_repos(out@) =~= cur.map_values(|i: int| repos@[i]).filter(
                    pred,
                ).map_values(|r2: RepoConfig| r2@));
            }
        } else {
            proof {
                assert(cur.map_values(|i: int| repos@[i]).filter(pred) =~= pre.map_values(
                    |i: int| repos@[i],
                ).filter(pred));
            }
        }
    }
    proof {
        assert(as_ints(picks@).subrange(0, n as int) =~= as_ints(picks@));
    }
    out
}

/// Completed result blocks survive any step that keeps the recorded prefix.
proof fn lemma_blocks_carry(a: SequentialBuild, b: SequentialBuild)
    requires
        forall|i: int| 0 <= i < a.pos ==> #[trigger] entry_block_ok(a, i),
        a.results@.len() >= block_width(a.run_tests) * a.pos,
        a.results@.is_prefix_of(b.results@),
        b.entries@ == a.entries@,
        b.run_tests == a.run_tests,
        b.pos == a.pos,
    ensures
        forall|i: int| 0 <= i < b.pos ==> #[trigger] entry_block_ok(b, i),
{
    let w = block_width(a.run_tests);
    assert(w == 1 || w == 2);
    assert forall|i: int| 0 <= i < b.pos implies #[trigger] entry_block_ok(b, i) by {
        assert(entry_block_ok(a, i));
        assert(0 <= w * i && w * i + (w - 1) < w * a.pos) by (nonlinear_arith)
            requires
                w == 1 || w == 2,
                0 <= i < a.pos,
        {
        }
        assert(b.results@.subrange(0, a.results@.len() as int) == a.results@);
        assert(b.results@[w * i] == a.results@[w * i]) by {
            assert(b.results@.subrange(0, a.results@.len() as int)[w * i] == b.results@[w * i]);
        }
        if a.run_tests {
            assert(b.results@[w * i + 1] == a.results@[w * i + 1]) by {
                assert(b.results@.subrange(0, a.results@.len() as int)[w * i + 1] == b.results@[w
                    * i + 1]);
            }
        }
    }
}

/// The sequential engine: one repository at a time, in build order, stopped
/// at the first recorded failure.
pub struct SequentialBuild {
    pub entries: Vec<RepoConfig>,
    pub pos: usize,
    pub phase: BuildPhase,
    pub awaiting: bool,
    pub run_tests: bool,
    pub clean_first: bool,
    pub results: Vec<BuildResult>,
    pub stopped: bool,
}

/// The block of results recorded for the completed repository `i` of a
/// sequential run: a successful build result, then, when tests run, a
/// successful test result.
pub open spec fn entry_block_ok(s: SequentialBuild, i: int) -> bool {
    let w = block_width(s.run_tests);
    &&& s.results@[w * i].success
    &&& s.results@[w * i].repo_name@ == s.entries@[i].name@
    &&& (s.run_tests ==> s.results@[w * i + 1].success && s.results@[w * i + 1].repo_name@
        == test_name(s.entries@[i].name@))
}

/// What always holds of a sequential engine between calls: the first `pos`
/// repositories completed successfully with their result blocks in order,
/// and when the engine has stopped, the results end with the one failure
/// that stopped it.
pub open spec fn seq_inv(s: SequentialBuild) -> bool {
    let w = block_width(s.run_tests);
    &&& s.pos <= s.entries@.len()
    &&& (s.awaiting ==> !s.stopped && s.pos < s.entries@.len())
    &&& (s.phase is Test ==> s.run_tests)
    &&& (!s.stopped ==> ((s.phase is Clean || s.phase is Build) && s.results@.len() == w * s.pos)
        || (s.phase is Test && s.pos < s.entries@.len() && s.results@.len() == w * s.pos + 1
            && s.results@.last().success && s.results@.last().repo_name@
            == s.entries@[s.pos as int].name@))
    &&& (s.stopped ==> {
        &&& !s.awaiting
        &&& s.pos < s.entries@.len()
        &&& s.results@.len() > 0
        &&& !s.results@.last().success
        &&& ((s.results@.len() == w * s.pos + 1 && s.results@.last().repo_name@
            == s.entries@[s.pos as int].name@) || (s.run_tests && s.results@.len() == w * s.pos
            + 2 && s.results@[w * s.pos].success && s.results@[w * s.pos].repo_name@
            == s.entries@[s.pos as int].name@ && s.results@.last().repo_name@ == test_name(
            s.entries@[s.pos as int].name@,
        )))
    })
    &&& forall|i: int| 0 <= i < s.pos ==> #[trigger] entry_block_ok(s, i)
}

/// Plan a sequential build over the manifest, optionally scoped to one
/// target repository and its transitive dependencies.
///
/// An unknown target is a hard error resolved before any graph walk, so it
/// wins over a dependency cycle; a cyclic graph is the other error. On
/// every other input it returns a fresh engine over exactly the scoped
/// repositories, in build order.
pub fn build(
    manifest: &WorkspaceManifest,
    target: Option<&str>,
    run_tests: bool,
    clean_first: bool,
) -> (r: Result<SequentialBuild, BuildError>)
    ensures
        match r {
            Ok(s) => {
                &&& seq_inv(s)
                &&& s.pos == 0
                &&& s.results@.len() == 0
                &&& !s.stopped
                &&& !s.awaiting
                &&& s.run_tests == run_tests
                &&& s.clean_first == clean_first
                &&& views_of_repos(s.entries@) == build_plan_spec(
                    manifest.repos@,
                    opt_name_view(target),
                )
                &&& !has_cycle(manifest.repos@)
                &&& match target {
                    Some(t) => has_repo_named(manifest.repos@, t@),
                    None => true,
                }
            },
            Err(BuildError::Cycle { name }) => {
                &&& has_cycle(manifest.repos@)
                &&& match target {
                    Some(t) => has_repo_named(manifest.repos@, t@),
                    None => true,
                }
                &&& exists|p: Seq<int>|
                    #[trigger] is_cycle(manifest.repos@, p) && 0 <= p[0] < manifest.repos@.len()
                        && manifest.repos@[p[0]].name@ == name@
            },
            Err(BuildError::NotFound { name }) => {
                &&& match target {
                    Some(t) => name@ == t@ && !has_repo_named(manifest.repos@, t@),
                    None => false,
                }
            },
        },
{
    // an unknown target fails before any graph walk
    let deps: Vec<String> = match target {
        Some(t) => {
            if manifest.find_repo(t).is_none() {
                return Err(BuildError::NotFound { name: t.to_owned() });
            }
            collect_deps(manifest, t)
        },
        None => Vec::new(),
    };
    let order = match resolve_build_order(manifest) {
        Ok(o) => o,
        Err(e) => {
            return Err(e);
        },
    };
    proof {
        assert forall|t: int|
            0 <= t < order@.len() implies #[trigger] order@[t] < manifest.repos@.len() by {
            assert(as_ints(order@)[t] == order@[t] as int);
        }
    }
    let entries = select_repos(&manifest.repos, &order, target, &deps);
    proof {
        assert(build_order_spec(manifest.repos@).unwrap() == as_ints(order@));
    }
    Ok(
        SequentialBuild {
            entries,
            pos: 0,
            phase: BuildPhase::Clean,
            awaiting: false,
            run_tests,
            clean_first,
            results: Vec::new(),
            stopped: false,
        },
    )
}

impl SequentialBuild {
    /// The next command for the caller to run, or `None` when the run is
    /// over — either every scoped repository completed or a failure stopped
    /// it. A phase whose command string has no tokens is not handed out: the
    /// build or test is recorded as failed (`empty command`) and, for the
    /// optional clean, skipped.
    pub fn next_request(&mut self) -> (r: Option<CommandRequest>)
        requires
            seq_inv(*old(self)),
            !old(self).awaiting,
        ensures
            seq_inv(*final(self)),
            final(self).entries@ == old(self).entries@,
            final(self).run_tests == old(self).run_tests,
            final(self).clean_first == old(self).clean_first,
            final(self).pos == old(self).pos,
            match r {
                Some(req) => {
                    &&& final(self).awaiting
                    &&& !final(self).stopped
                    &&& final(self).results@ == old(self).results@
                    &&& req.phase == final(self).phase
                    &&& req.repo_name@ == final(self).entries@[final(self).pos as int].name@
                    &&& req.dir@ == local_path_spec(&final(self).entries@[final(self).pos as int])
                    &&& seq_views(req.tokens@) == tokens_of(req.command@)
                    &&& req.tokens@.len() > 0
                    &&& (req.phase is Build ==> req.command@ == build_command_spec(
                        final(self).entries@[final(self).pos as int]@,
                    ))
                    &&& (req.phase is Test ==> final(self).run_tests && req.command@
                        == test_command_spec(final(self).entries@[final(self).pos as int]@))
                    &&& (req.phase is Clean ==> final(self).clean_first
                        && final(self).entries@[final(self).pos as int]@.clean_cmd is Some
                        && req.command@
                        == final(self).entries@[final(self).pos as int]@.clean_cmd.unwrap())
                },
                None => {
                    &&& !final(self).awaiting
                    &&& (final(self).stopped || final(self).pos == final(self).entries@.len())
                    &&& (old(self).stopped ==> *final(self) == *old(self))
                    &&& (!old(self).stopped && final(self).stopped ==> final(self).results@.len()
                        == old(self).results@.len() + 1 && !final(self).results@.last().success
                        && final(self).results@.last().output@ == "empty command"@
                        && old(self).results@.is_prefix_of(final(self).results@))
                    &&& (!old(self).stopped && final(self).stopped ==> ((final(self).phase
                        is Build && tokens_of(
                        build_command_spec(final(self).entries@[final(self).pos as int]@),
                    ).len() == 0) || (final(self).phase is Test && tokens_of(
                        test_command_spec(final(self).entries@[final(self).pos as int]@),
                    ).len() == 0)))
                    &&& (!final(self).stopped ==> final(self).results@ == old(self).results@)
                },
            },
    {
        if self.stopped || self.pos >= self.entries.len() {
            return None;
        }
        let ghost pre = *self;
        if matches!(self.phase, BuildPhase::Clean) {
            if self.clean_first {
                if let Some(cmd) = &self.entries[self.pos].clean_cmd {
                    let toks = tokenize(cmd.as_str());
                    if toks.len() > 0 {
                        let req = CommandRequest {
                            repo_name: self.entries[self.pos].name.clone(),
                            dir: self.entries[self.pos].local_path().to_owned(),
                            command: cmd.clone(),
                            tokens: toks,
                            phase: BuildPhase::Clean,
                        };
                        self.awaiting = true;
                        proof {
                            assert(pre.results@.is_prefix_of(self.results@)) by {
                                assert(self.results@.subrange(
                                    0,
                                    pre.results@.len() as int,
                                ) =~= pre.results@);
                            }
                            lemma_blocks_carry(pre, *self);
                        }
                        return Some(req);
                    }
                }
            }
            self.phase = BuildPhase::Build;
        }
        if matches!(self.phase, BuildPhase::Build) {
            let cmd = build_command(&self.entries[self.pos]);
            let toks = tokenize(cmd.as_str());
            if toks.len() == 0 {
                let fail = BuildResult {
                    repo_name: self.entries[self.pos].name.clone(),
                    success: false,
                    output: "empty command".to_owned(),
                    duration_ms: 0,
                };
                let ghost before = self.results@;
                self.results.push(fail);
                self.stopped = true;
                proof {
                    assert(self.results@.last().output@ == "empty command"@);
                    assert(before.is_prefix_of(self.results@)) by {
                        assert(self.results@.subrange(0, before.len() as int) =~= before);
                    }
                    lemma_blocks_carry(pre, *self);
                }
                return None;
            }
            let req = CommandRequest {
                repo_name: self.entries[self.pos].name.clone(),
                dir: self.entries[self.pos].local_path().to_owned(),
                command: cmd,
                tokens: toks,
                phase: BuildPhase::Build,
            };
            self.awaiting = true;
            proof {
                assert(pre.results@.is_prefix_of(self.results@)) by {
                    assert(self.results@.subrange(0, pre.results@.len() as int) =~= pre.results@);
                }
                lemma_blocks_carry(pre, *self);
            }
            return Some(req);
        }
        // phase is Test: reached only after a successful build with tests on
        let cmd = test_command(&self.entries[self.pos]);
        let toks = tokenize(cmd.as_str());
        if toks.len() == 0 {
            let test_nm = self.entries[self.pos].name.clone().concat(" (test)");
            let fail = BuildResult {
                repo_name: test_nm,
                success: false,
                output: "empty command".to_owned(),
                duration_ms: 0,
            };
            let ghost before = self.results@;
            self.results.push(fail);
            self.stopped = true;
            proof {
                assert(before.is_prefix_of(self.results@)) by {
                    assert(self.results@.subrange(0, before.len() as int) =~= before);
                }
                assert(self.results@[block_width(self.run_tests) * self.pos] == before[block_width(
                    self.run_tests,
                ) * self.pos]);
                lemma_blocks_carry(pre, *self);
            }
            return None;
        }
        let req = CommandRequest {
            repo_name: self.entries[self.pos].name.clone(),
            dir: self.entries[self.pos].local_path().to_owned(),
            command: cmd,
            tokens: toks,
            phase: BuildPhase::Test,
        };
        self.awaiting = true;
        proof {
            assert(pre.results@.is_prefix_of(self.results@)) by {
                assert(self.results@.subrange(0, pre.results@.len() as int) =~= pre.results@);
            }
            lemma_blocks_carry(pre, *self);
        }
        Some(req)
    }

    /// Record the outcome of the request handed out last. A clean outcome is
    /// ignored either way; a failed build or test stops the run with the
    /// failure as the final result; a successful build moves on to the tests
    /// or the next repository.
    pub fn provide(&mut self, success: bool, output: String, duration_ms: u64)
        requires
            seq_inv(*old(self)),
            old(self).awaiting,
        ensures
            seq_inv(*final(self)),
            !final(self).awaiting,
            final(self).entries@ == old(self).entries@,
            final(self).run_tests == old(self).run_tests,
            final(self).clean_first == old(self).clean_first,
            old(self).results@.is_prefix_of(final(self).results@),
            old(self).phase is Clean ==> {
                &&& final(self).results@ == old(self).results@
                &&& !final(self).stopped
                &&& final(self).pos == old(self).pos
                &&& final(self).phase is Build
            },
            old(self).phase is Build ==> {
                &&& final(self).results@.len() == old(self).results@.len() + 1
                &&& final(self).results@.last().success == success
                &&& final(self).results@.last().repo_name@ == old(self).entries@[old(
                    self,
                ).pos as int].name@
                &&& final(self).results@.last().output@ == output@
                &&& final(self).results@.last().duration_ms == duration_ms
                &&& (!success ==> final(self).stopped && final(self).pos == old(self).pos)
                &&& (success && old(self).run_tests ==> !final(self).stopped && final(self).phase
                    is Test && final(self).pos == old(self).pos)
                &&& (success && !old(self).run_tests ==> !final(self).stopped && final(self).pos
                    == old(self).pos + 1)
            },
            old(self).phase is Test ==> {
                &&& final(self).results@.len() == old(self).results@.len() + 1
                &&& final(self).results@.last().success == success
                &&& final(self).results@.last().repo_name@ == test_name(
                    old(self).entries@[old(self).pos as int].name@,
                )
                &&& final(self).results@.last().output@ == output@
                &&& (!success ==> final(self).stopped && final(self).pos == old(self).pos)
                &&& (success ==> !final(self).stopped && final(self).pos == old(self).pos + 1)
            },
    {
        let ghost pre = *self;
        self.awaiting = false;
        if matches!(self.phase, BuildPhase::Clean) {
            self.phase = BuildPhase::Build;
            proof {
                assert(pre.results@.is_prefix_of(self.results@)) by {
                    assert(self.results@.subrange(0, pre.results@.len() as int) =~= pre.results@);
                }
                lemma_blocks_carry(pre, *self);
            }
            return ;
        }
        if matches!(self.phase, BuildPhase::Build) {
            let ghost before = self.results@;
            let nm = self.entries[self.pos].name.clone();
            self.results.push(BuildResult { repo_name: nm, success, output, duration_ms });
            proof {
                assert(before.is_prefix_of(self.results@)) by {
                    assert(self.results@.subrange(0, before.len() as int) =~= before);
                }
                lemma_blocks_carry(pre, *self);
            }
            if !success {
                self.stopped = true;
                proof {
                    lemma_blocks_carry(pre, *self);
                }
            } else if self.run_tests {
                self.phase = BuildPhase::Test;
                proof {
                    lemma_blocks_carry(pre, *self);
                }
            } else {
                let ghost mid = *self;
                let n_entries = self.entries.len();
                self.pos = self.pos + 1;
                self.phase = BuildPhase::Clean;
                proof {
                    assert forall|i: int| 0 <= i < self.pos implies #[trigger] entry_block_ok(
                        *self,
                        i,
                    ) by {
                        let w = block_width(self.run_tests);
                        assert(w == 1);
                        if i < pre.pos {
                            assert(entry_block_ok(mid, i));
                        } else {
                            assert(i == pre.pos);
                            assert(self.results@[w * i] == self.results@.last());
                        }
                    }
                }
            }
            return ;
        }
        // phase is Test
        let ghost before = self.results@;
        let test_nm = self.entries[self.pos].name.clone().concat(" (test)");
        self.results.push(BuildResult { repo_name: test_nm, success, output, duration_ms });
        proof {
            assert(before.is_prefix_of(self.results@)) by {
                assert(self.results@.subrange(0, before.len() as int) =~= before);
            }
            assert(self.results@[block_width(self.run_tests) * self.pos] == before[block_width(
                self.run_tests,
            ) * self.pos]);
            lemma_blocks_carry(pre, *self);
        }
        if !success {
            self.stopped = true;
            proof {
                lemma_blocks_carry(pre, *self);
            }
        } else {
            let ghost mid = *self;
            let n_entries = self.entries.len();
            self.pos = self.pos + 1;
            self.phase = BuildPhase::Clean;
            proof {
                assert forall|i: int| 0 <= i < self.pos implies #[trigger] entry_block_ok(
                    *self,
                    i,
                ) by {
                    let w = block_width(self.run_tests);
                    assert(w == 2);
                    if i < pre.pos {
                        assert(entry_block_ok(mid, i));
                    } else {
                        assert(i == pre.pos);
                        assert(self.results@[w * i] == before[w * i]);
                        assert(before[w * i] == before.last());
                        assert(self.results@[w * i + 1] == self.results@.last());
                    }
                }
            }
        }
    }

    /// Close the run and aggregate the report.
    pub fn finish(self, total_duration_ms: u64) -> (r: BuildReport)
        ensures
            r.results@ == self.results@,
            r.total_duration_ms == total_duration_ms,
            r.all_passed == all_ok(self.results@),
    {
        make_report(self.results, total_duration_ms)
    }
}

/// Once the sequential engine has stopped on a failure, its report is
/// settled: the repositories before the failing one each contributed their
/// successful block, the failing repository contributed the one failing
/// result (preceded by its successful build when its tests failed), nothing
/// ran after it, and the run as a whole did not pass.
pub proof fn lemma_sequential_failure_report(s: SequentialBuild)
    requires
        seq_inv(s),
        s.stopped,
    ensures
        s.pos < s.entries@.len(),
        s.results@.len() == block_width(s.run_tests) * s.pos + 1 || (s.run_tests
            && s.results@.len() == block_width(s.run_tests) * s.pos + 2),
        !s.results@.last().success,
        forall|i: int| 0 <= i < s.pos ==> #[trigger] entry_block_ok(s, i),
        !all_ok(s.results@),
{
    assert(!all_ok(s.results@)) by {
        assert(!s.results@[s.results@.len() - 1].success);
    }
}

/// One repository's pipeline inside a parallel wavefront. The task hands
/// out the repository's commands one at a time and turns each observed
/// build or test outcome into the result to record; it holds no shared
/// state of its own.
pub struct RepoTask {
    pub repo: RepoConfig,
    pub run_tests: bool,
    pub clean_first: bool,
    pub phase: BuildPhase,
    pub done: bool,
    pub awaiting: bool,
    pub failed: bool,
}

/// What always holds of a task between calls.
pub open spec fn task_inv(t: RepoTask) -> bool {
    &&& (t.awaiting ==> !t.done)
    &&& (t.failed ==> t.done)
    &&& (t.phase is Test ==> t.run_tests)
}

/// What a task asks of its caller next.
pub enum TaskStep {
    /// Run this command, then call `deliver` with its outcome.
    Run(CommandRequest),
    /// Record this result; the task is over. Handed out when a build or
    /// test command string holds no token.
    Record(BuildResult),
    /// Nothing is left to do.
    Idle,
}

impl RepoTask {
    /// A fresh task for one repository.
    pub fn new(repo: RepoConfig, run_tests: bool, clean_first: bool) -> (t: Self)
        ensures
            task_inv(t),
            t.repo == repo,
            t.run_tests == run_tests,
            t.clean_first == clean_first,
            t.phase is Clean,
            !t.done,
            !t.awaiting,
            !t.failed,
    {
        RepoTask {
            repo,
            run_tests,
            clean_first,
            phase: BuildPhase::Clean,
            done: false,
            awaiting: false,
            failed: false,
        }
    }

    /// The task's next move: a command to run, a failure to record (for an
    /// empty command string), or nothing when the pipeline is over.
    pub fn step(&mut self) -> (r: TaskStep)
        requires
            task_inv(*old(self)),
            !old(self).awaiting,
        ensures
            task_inv(*final(self)),
            final(self).repo == old(self).repo,
            final(self).run_tests == old(self).run_tests,
            final(self).clean_first == old(self).clean_first,
            final(self).failed == (old(self).failed || r is Record),
            match r {
                TaskStep::Run(req) => {
                    &&& final(self).awaiting
                    &&& !final(self).done
                    &&& req.phase == final(self).phase
                    &&& req.repo_name@ == final(self).repo.name@
                    &&& req.dir@ == local_path_spec(&final(self).repo)
                    &&& seq_views(req.tokens@) == tokens_of(req.command@)
                    &&& req.tokens@.len() > 0
                    &&& (req.phase is Build ==> req.command@ == build_command_spec(
                        final(self).repo@,
                    ))
                    &&& (req.phase is Test ==> final(self).run_tests && req.command@
                        == test_command_spec(final(self).repo@))
                    &&& (req.phase is Clean ==> final(self).clean_first
                        && final(self).repo@.clean_cmd is Some && req.command@
                        == final(self).repo@.clean_cmd.unwrap())
                },
                TaskStep::Record(res) => {
                    &&& final(self).done
                    &&& final(self).failed
                    &&& !final(self).awaiting
                    &&& !res.success
                    &&& res.output@ == "empty command"@
                    &&& ((final(self).phase is Build && tokens_of(
                        build_command_spec(final(self).repo@),
                    ).len() == 0 && res.repo_name@ == final(self).repo.name@) || (final(self).phase
                        is Test && tokens_of(test_command_spec(final(self).repo@)).len() == 0
                        && res.repo_name@ == test_name(final(self).repo.name@)))
                },
                TaskStep::Idle => {
                    &&& old(self).done
                    &&& *final(self) == *old(self)
                },
            },
    {
        if self.done {
            return TaskStep::Idle;
        }
        if matches!(self.phase, BuildPhase::Clean) {
            if self.clean_first {
                if let Some(cmd) = &self.repo.clean_cmd {
                    let toks = tokenize(cmd.as_str());
                    if toks.len() > 0 {
                        let req = CommandRequest {
                            repo_name: self.repo.name.clone(),
                            dir: self.repo.local_path().to_owned(),
                            command: cmd.clone(),
                            tokens: toks,
                            phase: BuildPhase::Clean,
                        };
                        self.awaiting = true;
                        return TaskStep::Run(req);
                    }
                }
            }
            self.phase = BuildPhase::Build;
        }
        if matches!(self.phase, BuildPhase::Build) {
            let cmd = build_command(&self.repo);
            let toks = tokenize(cmd.as_str());
            if toks.len() == 0 {
                self.done = true;
                self.failed = true;
                return TaskStep::Record(
                    BuildResult {
                        repo_name: self.repo.name.clone(),
                        success: false,
                        output: "empty command".to_owned(),
                        duration_ms: 0,
                    },
                );
            }
            let req = CommandRequest {
                repo_name: self.repo.name.clone(),
                dir: self.repo.local_path().to_owned(),
                command: cmd,
                tokens: toks,
                phase: BuildPhase::Build,
            };
            self.awaiting = true;
            return TaskStep::Run(req);
        }
        // phase is Test: reached only after a successful build with tests on
        let cmd = test_command(&self.repo);
        let toks = tokenize(cmd.as_str());
        if toks.len() == 0 {
            self.done = true;
            self.failed = true;
            return TaskStep::Record(
                BuildResult {
                    repo_name: self.repo.name.clone().concat(" (test)"),
                    success: false,
                    output: "empty command".to_owned(),
                    duration_ms: 0,
                },
            );
        }
        let req = CommandRequest {
            repo_name: self.repo.name.clone(),
            dir: self.repo.local_path().to_owned(),
            command: cmd,
            tokens: toks,
            phase: BuildPhase::Test,
        };
        self.awaiting = true;
        TaskStep::Run(req)
    }

    /// Turn the outcome of the command handed out last into the result to
    /// record: `None` for the best-effort clean, whose outcome is dropped,
    /// a named build or test result otherwise. A failure ends the task; so
    /// does a test outcome either way; a successful build moves on.
    pub fn deliver(&mut self, success: bool, output: String, duration_ms: u64) -> (r: Option<
        BuildResult,
    >)
        requires
            task_inv(*old(self)),
            old(self).awaiting,
        ensures
            task_inv(*final(self)),
            !final(self).awaiting,
            final(self).repo == old(self).repo,
            final(self).run_tests == old(self).run_tests,
            final(self).clean_first == old(self).clean_first,
            old(self).phase is Clean ==> {
                &&& r is None
                &&& !final(self).done
                &&& final(self).failed == old(self).failed
                &&& final(self).phase is Build
            },
            old(self).phase is Build ==> {
                &&& r is Some
                &&& r.unwrap().success == success
                &&& r.unwrap().repo_name@ == old(self).repo.name@
                &&& r.unwrap().output@ == output@
                &&& r.unwrap().duration_ms == duration_ms
                &&& (!success ==> final(self).done && final(self).failed)
                &&& (success && old(self).run_tests ==> !final(self).done && final(self).phase
                    is Test && final(self).failed == old(self).failed)
                &&& (success && !old(self).run_tests ==> final(self).done && final(self).failed
                    == old(self).failed)
            },
            old(self).phase is Test ==> {
                &&& r is Some
                &&& r.unwrap().success == success
                &&& r.unwrap().repo_name@ == test_name(old(self).repo.name@)
                &&& r.unwrap().output@ == output@
                &&& r.unwrap().duration_ms == duration_ms
                &&& final(self).done
                &&& final(self).failed == (old(self).failed || !success)
            },
    {
        self.awaiting = false;
        if matches!(self.phase, BuildPhase::Clean) {
            self.phase = BuildPhase::Build;
            return None;
        }
        if matches!(self.phase, BuildPhase::Build) {
            let res = BuildResult {
                repo_name: self.repo.name.clone(),
                success,
                output,
                duration_ms,
            };
            if !success {
                self.done = true;
                self.failed = true;
            } else if self.run_tests {
                self.phase = BuildPhase::Test;
            } else {
                self.done = true;
            }
            return Some(res);
        }
        // phase is Test
        let res = BuildResult {
            repo_name: self.repo.name.clone().concat(" (test)"),
            success,
            output,
            duration_ms,
        };
        self.done = true;
        if !success {
            self.failed = true;
        }
        Some(res)
    }
}

/// The parallel engine: walks the build levels in order; each taken level
/// is one wavefront of independent tasks that the caller may run
/// concurrently. Once a failure is recorded, results from the
/// running wavefront are still accepted and kept, but no further level is
/// handed out.
pub struct ParallelBuild {
    pub levels: Vec<Vec<RepoConfig>>,
    pub next_level: usize,
    pub run_tests: bool,
    pub clean_first: bool,
    pub results: Vec<BuildResult>,
    pub failed: bool,
}

/// Plan a parallel build over the manifest, optionally scoped to one target
/// repository and its transitive dependencies.
///
/// The engine's buckets are the resolved build levels of the full graph,
/// each restricted to the scoped repositories — the level structure is not
/// recomputed on the filtered subset. Failure cases are those of the
/// sequential planner: an unknown target, checked before any graph walk,
/// then a dependency cycle.
pub fn build_parallel(
    manifest: &WorkspaceManifest,
    target: Option<&str>,
    run_tests: bool,
    clean_first: bool,
) -> (r: Result<ParallelBuild, BuildError>)
    ensures
        match r {
            Ok(p) => {
                &&& p.next_level == 0
                &&& p.results@.len() == 0
                &&& !p.failed
                &&& p.run_tests == run_tests
                &&& p.clean_first == clean_first
                &&& !has_cycle(manifest.repos@)
                &&& match target {
                    Some(t) => has_repo_named(manifest.repos@, t@),
                    None => true,
                }
                &&& exists|lv: Seq<Seq<int>>|
                    {
                        &&& #[trigger] levels_partition(manifest.repos@, lv)
                        &&& levels_minimal(manifest.repos@, lv)
                        &&& p.levels@.len() == lv.len()
                        &&& forall|l: int|
                            0 <= l < lv.len() ==> views_of_repos(#[trigger] p.levels@[l]@)
                                == lv[l].map_values(|i: int| manifest.repos@[i]).filter(
                                |rv: RepoConfig|
                                    keep_name(manifest.repos@, opt_name_view(target), rv.name@),
                            ).map_values(|r2: RepoConfig| r2@)
                    }
            },
            Err(BuildError::Cycle { name }) => {
                &&& has_cycle(manifest.repos@)
                &&& match target {
                    Some(t) => has_repo_named(manifest.repos@, t@),
                    None => true,
                }
                &&& exists|p: Seq<int>|
                    #[trigger] is_cycle(manifest.repos@, p) && 0 <= p[0] < manifest.repos@.len()
                        && manifest.repos@[p[0]].name@ == name@
            },
            Err(BuildError::NotFound { name }) => {
                &&& match target {
                    Some(t) => name@ == t@ && !has_repo_named(manifest.repos@, t@),
                    None => false,
                }
            },
        },
{
    // an unknown target fails before any graph walk
    let deps: Vec<String> = match target {
        Some(t) => {
            if manifest.find_repo(t).is_none() {
                return Err(BuildError::NotFound { name: t.to_owned() });
            }
            collect_deps(manifest, t)
        },
        None => Vec::new(),
    };
    let full = match resolve_build_levels(manifest) {
        Ok(l) => l,
        Err(e) => {
            return Err(e);
        },
    };
    let ghost lv = levels_view(full@);
    let m = full.len();
    let mut levels: Vec<Vec<RepoConfig>> = Vec::new();
    for l in 0..m
        invariant
            m == full@.len(),
            lv == levels_view(full@),
            levels_partition(manifest.repos@, lv),
            levels_minimal(manifest.repos@, lv),
            match opt_name_view(target) {
                Some(t) => forall|x: Seq<char>|
                    #[trigger] seq_views(deps@).contains(x) <==> (name_reachable(
                        manifest.repos@,
                        t,
                        x,
                    ) && x != t),
                None => true,
            },
            levels@.len() == l,
            forall|l2: int|
                0 <= l2 < l ==> views_of_repos(#[trigger] levels@[l2]@) == lv[l2].map_values(
                    |i: int| manifest.repos@[i],
                ).filter(
                    |rv: RepoConfig| keep_name(manifest.repos@, opt_name_view(target), rv.name@),
                ).map_values(|r2: RepoConfig| r2@),
    {
        proof {
            assert(lv[l as int] == as_ints(full@[l as int]@));
            assert forall|t: int|
                0 <= t < full@[l as int]@.len() implies #[trigger] full@[l as int]@[t]
                < manifest.repos@.len() by {
                assert(lv[l as int][t] == full@[l as int]@[t] as int);
            }
        }
        let bucket = select_repos(&manifest.repos, &full[l], target, &deps);
        levels.push(bucket);
    }
    Ok(
        ParallelBuild {
            levels,
            next_level: 0,
            run_tests,
            clean_first,
            results: Vec::new(),
            failed: false,
        },
    )
}

impl ParallelBuild {
    /// Whether a failure has been recorded so far.
    pub fn is_failed(&self) -> (r: bool)
        ensures
            r == self.failed,
    {
        self.failed
    }

    /// Hand out the next wavefront: one fresh task per scoped repository of
    /// the next level that still holds work. Hands out nothing once a
    /// failure has been recorded, and nothing when no level is left — a
    /// failure in level `L` therefore keeps every level after `L` from
    /// producing any result.
    pub fn take_level(&mut self) -> (r: Option<Vec<RepoTask>>)
        ensures
            final(self).levels@ == old(self).levels@,
            final(self).run_tests == old(self).run_tests,
            final(self).clean_first == old(self).clean_first,
            final(self).results@ == old(self).results@,
            final(self).failed == old(self).failed,
            old(self).failed ==> r is None && *final(self) == *old(self),
            match r {
                Some(tasks) => {
                    &&& exists|l: int|
                        {
                            &&& old(self).next_level <= l < old(self).levels@.len()
                            &&& (forall|l2: int|
                                old(self).next_level <= l2 < l ==> (#[trigger] old(
                                    self,
                                ).levels@[l2]@).len() == 0)
                            &&& (#[trigger] old(self).levels@[l]@).len() > 0
                            &&& final(self).next_level == l + 1
                            &&& tasks@.len() == old(self).levels@[l]@.len()
                            &&& forall|j: int|
                                0 <= j < tasks@.len() ==> (#[trigger] tasks@[j]).repo@
                                    == old(self).levels@[l]@[j]@
                        }
                    &&& forall|j: int|
                        0 <= j < tasks@.len() ==> task_inv(#[trigger] tasks@[j]) && tasks@[j].phase
                            is Clean && !tasks@[j].done && !tasks@[j].awaiting
                            && !tasks@[j].failed && tasks@[j].run_tests == old(self).run_tests
                            && tasks@[j].clean_first == old(self).clean_first
                    &&& tasks@.len() > 0
                },
                None => (!old(self).failed ==> forall|l2: int|
                    old(self).next_level <= l2 < old(self).levels@.len() ==> (#[trigger] old(
                        self,
                    ).levels@[l2]@).len() == 0),
            },
    {
        if self.failed {
            return None;
        }
        if self.next_level >= self.levels.len() {
            return None;
        }
        let ghost first = self.next_level as int;
        while self.next_level < self.levels.len() && self.levels[self.next_level].len() == 0
            invariant
                first <= self.next_level as int <= self.levels@.len(),
                forall|l2: int|
                    first <= l2 < self.next_level as int ==> (#[trigger] self.levels@[l2]@).len()
                        == 0,
                self.levels@ == old(self).levels@,
                self.run_tests == old(self).run_tests,
                self.clean_first == old(self).clean_first,
                self.results@ == old(self).results@,
                self.failed == old(self).failed,
                first == old(self).next_level as int,
            decreases self.levels@.len() - self.next_level as int,
        {
            self.next_level = self.next_level + 1;
        }
        if self.next_level >= self.levels.len() {
            return None;
        }
        let l = self.next_level;
        let count = self.levels[l].len();
        let mut tasks: Vec<RepoTask> = Vec::new();
        for j in 0..count
            invariant
                l < self.levels@.len(),
                count == self.levels@[l as int]@.len(),
                count > 0,
                tasks@.len() == j,
                self.levels@ == old(self).levels@,
                self.run_tests == old(self).run_tests,
                self.clean_first == old(self).clean_first,
                self.results@ == old(self).results@,
                self.failed == old(self).failed,
                l as int >= old(self).next_level,
                self.next_level == l,
                forall|l2: int|
                    old(self).next_level <= l2 < l as int ==> (#[trigger] self.levels@[l2]@).len()
                        == 0,
                forall|j2: int|
                    0 <= j2 < j ==> (#[trigger] tasks@[j2]).repo@ == self.levels@[l as int]@[j2]@
                        && task_inv(tasks@[j2]) && tasks@[j2].phase is Clean && !tasks@[j2].done
                        && !tasks@[j2].awaiting && !tasks@[j2].failed && tasks@[j2].run_tests
                        == self.run_tests && tasks@[j2].clean_first == self.clean_first,
        {
            let task = RepoTask::new(
                self.levels[l][j].clone_repo(),
                self.run_tests,
                self.clean_first,
            );
            tasks.push(task);
        }
        self.next_level = l + 1;
        Some(tasks)
    }

    /// Record one observed result, in completion order. A failed result
    /// shuts off later levels; results already under way are
    /// still accepted either way.
    pub fn record(&mut self, result: BuildResult)
        ensures
            final(self).results@ == old(self).results@.push(result),
            final(self).failed == (old(self).failed || !result.success),
            final(self).levels@ == old(self).levels@,
            final(self).next_level == old(self).next_level,
            final(self).run_tests == old(self).run_tests,
            final(self).clean_first == old(self).clean_first,
    {
        if !result.success {
            self.failed = true;
        }
        self.results.push(result);
    }

    /// Close the run and aggregate the report.
    pub fn finish(self, total_duration_ms: u64) -> (r: BuildReport)
        ensures
            r.results@ == self.results@,
            r.total_duration_ms == total_duration_ms,
            r.all_passed == all_ok(self.results@),
    {
        make_report(self.results, total_duration_ms)
    }
}

} // verus!
