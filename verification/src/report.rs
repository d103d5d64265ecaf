//! Build results and the aggregated build report.
use vstd::prelude::*;

verus! {

/// Outcome of one action (build, or test) on one repository. Test results
/// carry a ` (test)` suffix on the repository name.
pub struct BuildResult {
    pub repo_name: String,
    pub success: bool,
    pub output: String,
    pub duration_ms: u64,
}

/// The scheduler's terminal output: every recorded result in order, the
/// wall-clock time of the whole run, and whether everything passed.
pub struct BuildReport {
    pub results: Vec<BuildResult>,
    pub total_duration_ms: u64,
    pub all_passed: bool,
}

/// Every result in the list succeeded.
pub open spec fn all_ok(results: Seq<BuildResult>) -> bool {
    forall|i: int| 0 <= i < results.len() ==> (#[trigger] results[i]).success
}

impl BuildResult {
    /// A copy with the same logical content.
    pub fn clone_result(&self) -> (r: Self)
        ensures
            r.repo_name@ == self.repo_name@,
            r.success == self.success,
            r.output@ == self.output@,
            r.duration_ms == self.duration_ms,
    {
        BuildResult {
            repo_name: self.repo_name.clone(),
            success: self.success,
            output: self.output.clone(),
            duration_ms: self.duration_ms,
        }
    }
}

/// Aggregate recorded results into the final report: `all_passed` is the
/// conjunction of every individual success flag.
pub fn make_report(results: Vec<BuildResult>, total_duration_ms: u64) -> (r: BuildReport)
    ensures
        r.results@ == results@,
        r.total_duration_ms == total_duration_ms,
        r.all_passed == all_ok(results@),
{
    let n = results.len();
    let mut all_passed = true;
    for i in 0..n
        invariant
            n == results@.len(),
            all_passed == all_ok(results@.subrange(0, i as int)),
    {
        proof {
            assert(results@.subrange(0, i + 1).drop_last() == results@.subrange(0, i as int));
            assert(results@.subrange(0, i + 1).last() == results@[i as int]);
        }
        let ok = results[i].success;
        all_passed = all_passed && ok;
        proof {
            let pre = results@.subrange(0, i as int);
            let cur = results@.subrange(0, i + 1);
            assert forall|j: int| 0 <= j < cur.len() implies ((#[trigger] cur[j]).success == if j
                < i as int {
                pre[j].success
            } else {
                results@[i as int].success
            }) by {}
            if all_passed {
                assert forall|j: int| 0 <= j < cur.len() implies (#[trigger] cur[j]).success by {
                    if j < i as int {
                        assert(pre[j].success);
                    }
                }
            } else {
                if !ok {
                    assert(!cur[i as int].success);
                } else {
                    let j = choose|j: int| 0 <= j < pre.len() && !(#[trigger] pre[j]).success;
                    assert(!cur[j].success);
                }
            }
        }
    }
    proof {
        assert(results@.subrange(0, n as int) =~= results@);
    }
    BuildReport { results, total_duration_ms, all_passed }
}

} // verus!
