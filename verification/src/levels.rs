//! Build levels: groups of repositories that are safe to build concurrently.
//!
//! `resolve_build_levels` assigns every repository the earliest level that
//! lies strictly after the levels of all its resolved dependencies: a
//! repository with no resolved dependencies is at level zero, any other is
//! one past the highest level among its dependencies. Repositories sharing a
//! level therefore never depend on one another, directly or transitively
//! (`lemma_same_level_independent`).
use vstd::prelude::*;

use crate::order::{
    BuildError, as_ints, build_order_spec, dep_edge, dep_target, has_cycle, is_cycle, order_ok,
    resolve_build_order,
};
use crate::workspace::{RepoConfig, WorkspaceManifest, find_index};

verus! {

broadcast use vstd::seq_lib::lemma_seq_contains_after_push;

/// The contents of a list of level buckets, as sequences of integers.
pub open spec fn levels_view(levels: Seq<Vec<usize>>) -> Seq<Seq<int>> {
    levels.map_values(|v: Vec<usize>| as_ints(v@))
}

/// Repository `x` stands in level `l`.
pub open spec fn in_level(lv: Seq<Seq<int>>, l: int, x: int) -> bool {
    0 <= l < lv.len() && lv[l].contains(x)
}

/// Repository `x` stands in some level.
pub open spec fn appears(lv: Seq<Seq<int>>, x: int) -> bool {
    exists|l: int| #[trigger] in_level(lv, l, x)
}

/// Repository `x` has been assigned: its recorded level contains it.
pub open spec fn placed(lv: Seq<Seq<int>>, lvl_of: Seq<usize>, x: int) -> bool {
    &&& 0 <= x < lvl_of.len()
    &&& (lvl_of[x] as int) < lv.len()
    &&& in_level(lv, lvl_of[x] as int, x)
}

/// The level buckets partition the repository indices: no bucket is empty,
/// every entry is an index in range, every index appears, and none appears
/// twice.
pub open spec fn levels_partition(repos: Seq<RepoConfig>, lv: Seq<Seq<int>>) -> bool {
    &&& forall|l: int| 0 <= l < lv.len() ==> #[trigger] lv[l].len() > 0
    &&& forall|l: int, j: int|
        0 <= l < lv.len() && 0 <= j < lv[l].len() ==> 0 <= #[trigger] lv[l][j] < repos.len()
    &&& forall|x: int| 0 <= x < repos.len() ==> #[trigger] appears(lv, x)
    &&& forall|l1: int, j1: int, l2: int, j2: int|
        #![trigger lv[l1][j1], lv[l2][j2]]
        0 <= l1 < lv.len() && 0 <= j1 < lv[l1].len() && 0 <= l2 < lv.len() && 0 <= j2
            < lv[l2].len() && lv[l1][j1] == lv[l2][j2] ==> l1 == l2 && j1 == j2
}

/// The repository at position `j` of level `l` has a resolved dependency
/// exactly one level below.
pub open spec fn depends_just_below(repos: Seq<RepoConfig>, lv: Seq<Seq<int>>, l: int, j: int) -> bool {
    exists|d: int| #[trigger] dep_edge(repos, lv[l][j], d) && in_level(lv, l - 1, d)
}

/// Every repository stands at the earliest level its resolved dependencies
/// allow: all of them strictly below, and, above level zero, one exactly one
/// level below.
pub open spec fn levels_minimal(repos: Seq<RepoConfig>, lv: Seq<Seq<int>>) -> bool {
    &&& forall|l: int, j: int, d: int|
        0 <= l < lv.len() && 0 <= j < lv[l].len() && #[trigger] dep_edge(repos, lv[l][j], d)
            ==> exists|l2: int| l2 < l && #[trigger] in_level(lv, l2, d)
    &&& forall|l: int, j: int|
        0 < l < lv.len() && 0 <= j < lv[l].len() ==> #[trigger] depends_just_below(repos, lv, l, j)
}

/// Within each level, repositories keep their relative position from the
/// resolved build order `ord`.
pub open spec fn levels_ordered(lv: Seq<Seq<int>>, ord: Seq<int>) -> bool {
    forall|l: int, j1: int, j2: int|
        #![trigger lv[l][j1], lv[l][j2]]
        0 <= l < lv.len() && 0 <= j1 < j2 < lv[l].len() ==> ord.index_of(lv[l][j1]) < ord.index_of(
            lv[l][j2],
        )
}

/// Everything the level planner maintains after placing the first `t`
/// repositories of the build order `ord`.
pub open spec fn plan_inv(
    repos: Seq<RepoConfig>,
    ord: Seq<int>,
    lv: Seq<Seq<int>>,
    lvl_of: Seq<usize>,
    t: int,
) -> bool {
    &&& order_ok(repos, ord)
    &&& ord.len() == repos.len()
    &&& lvl_of.len() == repos.len()
    &&& 0 <= t <= ord.len()
    &&& forall|l: int| 0 <= l < lv.len() ==> #[trigger] lv[l].len() > 0
    &&& forall|l: int, j: int|
        0 <= l < lv.len() && 0 <= j < lv[l].len() ==> 0 <= #[trigger] lv[l][j] < repos.len()
    &&& forall|l1: int, j1: int, l2: int, j2: int|
        #![trigger lv[l1][j1], lv[l2][j2]]
        0 <= l1 < lv.len() && 0 <= j1 < lv[l1].len() && 0 <= l2 < lv.len() && 0 <= j2
            < lv[l2].len() && lv[l1][j1] == lv[l2][j2] ==> l1 == l2 && j1 == j2
    &&& forall|x: int| #[trigger] appears(lv, x) <==> ord.subrange(0, t).contains(x)
    &&& forall|q: int| 0 <= q < t ==> #[trigger] placed(lv, lvl_of, ord[q])
    &&& levels_minimal(repos, lv)
    &&& levels_ordered(lv, ord)
    &&& forall|l: int, j: int|
        0 <= l < lv.len() && 0 <= j < lv[l].len() ==> 0 <= ord.index_of(#[trigger] lv[l][j]) < t
}

/// The relation between the planner's states across one placement step:
/// `lvS` is the state before the step, `lv0` the same state with a fresh
/// empty bucket when one had to be opened, `lv` the state with the
/// repository `rr_us` appended to bucket `lev`, and `lvl_ofF` the updated
/// level records. The last two clauses are what the scan over the
/// repository's dependency names established about `lev`.
spec fn step_shape(
    repos: Seq<RepoConfig>,
    ord: Seq<int>,
    lvS: Seq<Seq<int>>,
    lv0: Seq<Seq<int>>,
    lv: Seq<Seq<int>>,
    lvl_of0: Seq<usize>,
    lvl_ofF: Seq<usize>,
    t: int,
    lev: usize,
    rr_us: usize,
) -> bool {
    &&& plan_inv(repos, ord, lvS, lvl_of0, t)
    &&& 0 <= t < ord.len()
    &&& ord[t] == rr_us as int
    &&& 0 <= (rr_us as int) < repos.len()
    &&& lev as int <= lvS.len()
    &&& (lev as int == lvS.len() ==> lv0 == lvS.push(Seq::<int>::empty()))
    &&& ((lev as int) < lvS.len() ==> lv0 == lvS)
    &&& lv == lv0.update(lev as int, lv0[lev as int].push(rr_us as int))
    &&& lvl_ofF == lvl_of0.update(rr_us as int, lev)
    &&& forall|kk: int|
        0 <= kk < repos[rr_us as int].depends_on@.len() && 0 <= #[trigger] dep_target(
            repos,
            rr_us as int,
            kk,
        ) < repos.len() ==> lvl_of0[dep_target(repos, rr_us as int, kk)] < lev
    &&& (lev > 0 ==> exists|kk: int|
        0 <= kk < repos[rr_us as int].depends_on@.len() && 0 <= #[trigger] dep_target(
            repos,
            rr_us as int,
            kk,
        ) < repos.len() && lvl_of0[dep_target(repos, rr_us as int, kk)] + 1 == lev)
}

/// How the buckets of the three states of one step relate, entry by entry
/// and membership by membership.
proof fn lemma_step_bridge(
    repos: Seq<RepoConfig>,
    ord: Seq<int>,
    lvS: Seq<Seq<int>>,
    lv0: Seq<Seq<int>>,
    lv: Seq<Seq<int>>,
    lvl_of0: Seq<usize>,
    lvl_ofF: Seq<usize>,
    t: int,
    lev: usize,
    rr_us: usize,
)
    requires
        step_shape(repos, ord, lvS, lv0, lv, lvl_of0, lvl_ofF, t, lev, rr_us),
    ensures
        lv.len() == lv0.len(),
        lvS.len() <= lv0.len(),
        lv[lev as int] == lv0[lev as int].push(rr_us as int),
        forall|l: int| 0 <= l < lvS.len() ==> #[trigger] lv0[l] == lvS[l],
        forall|l: int| 0 <= l < lv.len() && l != lev as int ==> #[trigger] lv[l] == lv0[l],
        forall|l: int, x: int| #[trigger] in_level(lv0, l, x) <==> in_level(lvS, l, x),
        forall|l: int, x: int|
            #[trigger] in_level(lv, l, x) <==> (in_level(lv0, l, x) || (l == lev as int && x
                == rr_us as int)),
        in_level(lv, lev as int, rr_us as int),
        !ord.subrange(0, t).contains(rr_us as int),
        forall|l: int| !(#[trigger] in_level(lv0, l, rr_us as int)),
        forall|l: int, j: int|
            0 <= l < lv0.len() && 0 <= j < lv0[l].len() ==> 0 <= #[trigger] lv0[l][j]
                < repos.len() && 0 <= ord.index_of(lv0[l][j]) < t,
        ord.index_of(rr_us as int) == t,
{
    let rr = rr_us as int;
    let ll = lev as int;
    assert(forall|l: int| 0 <= l < lvS.len() ==> #[trigger] lv0[l] == lvS[l]);
    assert forall|l: int, x: int| #[trigger] in_level(lv0, l, x) implies in_level(lvS, l, x) by {
        if l >= lvS.len() {
            assert(lv0[l].len() == 0);
        }
    }
    assert forall|l: int, x: int| in_level(lvS, l, x) implies #[trigger] in_level(lv0, l, x) by {
        assert(lv0[l] == lvS[l]);
    }
    assert forall|l: int, j: int|
        0 <= l < lv0.len() && 0 <= j < lv0[l].len() implies 0 <= #[trigger] lv0[l][j]
            < repos.len() && 0 <= ord.index_of(lv0[l][j]) < t by {
        assert(l < lvS.len());
        assert(lvS[l][j] == lv0[l][j]);
    }
    assert(lv[ll] == lv0[ll].push(rr));
    assert(!ord.subrange(0, t).contains(rr)) by {
        if ord.subrange(0, t).contains(rr) {
            let q = choose|q: int| 0 <= q < t && ord.subrange(0, t)[q] == rr;
            assert(ord[q] == ord[t]);
        }
    }
    assert forall|l: int| !(#[trigger] in_level(lv0, l, rr)) by {
        if in_level(lv0, l, rr) {
            assert(in_level(lvS, l, rr));
            assert(appears(lvS, rr));
        }
    }
    assert forall|l: int, x: int|
        #[trigger] in_level(lv, l, x) <==> (in_level(lv0, l, x) || (l == ll && x == rr)) by {
        if l == ll {
            assert(lv[l] == lv0[ll].push(rr));
        } else if 0 <= l < lv.len() {
            assert(lv[l] == lv0[l]);
        }
    }
    assert(in_level(lv, ll, rr)) by {
        assert(lv[ll].last() == rr);
    }
    assert(ord.index_of(rr) == t) by {
        assert(ord[t] == rr);
        let q = ord.index_of(rr);
        assert(0 <= q < ord.len() && ord[q] == rr);
    }
}

/// The partition and ordering clauses of the invariant survive one step.
#[verifier::rlimit(100)]
proof fn lemma_step_partition(
    repos: Seq<RepoConfig>,
    ord: Seq<int>,
    lvS: Seq<Seq<int>>,
    lv0: Seq<Seq<int>>,
    lv: Seq<Seq<int>>,
    lvl_of0: Seq<usize>,
    lvl_ofF: Seq<usize>,
    t: int,
    lev: usize,
    rr_us: usize,
)
    requires
        step_shape(repos, ord, lvS, lv0, lv, lvl_of0, lvl_ofF, t, lev, rr_us),
    ensures
        forall|l: int| 0 <= l < lv.len() ==> #[trigger] lv[l].len() > 0,
        forall|l: int, j: int|
            0 <= l < lv.len() && 0 <= j < lv[l].len() ==> 0 <= #[trigger] lv[l][j] < repos.len(),
        forall|l1: int, j1: int, l2: int, j2: int|
            #![trigger lv[l1][j1], lv[l2][j2]]
            0 <= l1 < lv.len() && 0 <= j1 < lv[l1].len() && 0 <= l2 < lv.len() && 0 <= j2
                < lv[l2].len() && lv[l1][j1] == lv[l2][j2] ==> l1 == l2 && j1 == j2,
        forall|x: int| #[trigger] appears(lv, x) <==> ord.subrange(0, t + 1).contains(x),
        forall|q: int| 0 <= q < t + 1 ==> #[trigger] placed(lv, lvl_ofF, ord[q]),
        levels_ordered(lv, ord),
        forall|l: int, j: int|
            0 <= l < lv.len() && 0 <= j < lv[l].len() ==> 0 <= ord.index_of(#[trigger] lv[l][j])
                < t + 1,
{
    lemma_step_bridge(repos, ord, lvS, lv0, lv, lvl_of0, lvl_ofF, t, lev, rr_us);
    let rr = rr_us as int;
    let ll = lev as int;
    let n = repos.len() as int;
    // no bucket is empty, every entry is in range
    assert forall|l: int| 0 <= l < lv.len() implies #[trigger] lv[l].len() > 0 by {
        if l != ll {
            assert(lv[l] == lv0[l]);
            assert(l < lvS.len());
            assert(lv0[l] == lvS[l]);
        }
    }
    assert forall|l: int, j: int|
        0 <= l < lv.len() && 0 <= j < lv[l].len() implies 0 <= #[trigger] lv[l][j] < n by {
        if l == ll && j == lv[ll].len() - 1 {
            assert(lv[l][j] == rr);
        } else {
            assert(lv[l][j] == lv0[l][j]);
        }
    }
    // each repository appears once
    assert forall|l1: int, j1: int, l2: int, j2: int|
        #![trigger lv[l1][j1], lv[l2][j2]]
        0 <= l1 < lv.len() && 0 <= j1 < lv[l1].len() && 0 <= l2 < lv.len() && 0 <= j2
            < lv[l2].len() && lv[l1][j1] == lv[l2][j2] implies l1 == l2 && j1 == j2 by {
        let old1 = !(l1 == ll && j1 == lv[ll].len() - 1);
        let old2 = !(l2 == ll && j2 == lv[ll].len() - 1);
        if old1 {
            assert(lv[l1][j1] == lv0[l1][j1]);
            assert(l1 < lvS.len() && lvS[l1][j1] == lv0[l1][j1]);
            assert(in_level(lv0, l1, lv0[l1][j1])) by {
                assert(lv0[l1].contains(lv0[l1][j1]));
            }
        }
        if old2 {
            assert(lv[l2][j2] == lv0[l2][j2]);
            assert(l2 < lvS.len() && lvS[l2][j2] == lv0[l2][j2]);
            assert(in_level(lv0, l2, lv0[l2][j2])) by {
                assert(lv0[l2].contains(lv0[l2][j2]));
            }
        }
        if old1 != old2 {
            assert(lv[l1][j1] != lv[l2][j2]);
        }
    }
    // positions in the build order
    assert forall|l: int, j: int|
        0 <= l < lv.len() && 0 <= j < lv[l].len() implies 0 <= ord.index_of(#[trigger] lv[l][j]) < t
            + 1 by {
        if !(l == ll && j == lv[ll].len() - 1) {
            assert(lv[l][j] == lv0[l][j]);
        } else {
            assert(lv[l][j] == rr);
        }
    }
    assert forall|l: int, j1: int, j2: int|
        #![trigger lv[l][j1], lv[l][j2]]
        0 <= l < lv.len() && 0 <= j1 < j2 < lv[l].len() implies ord.index_of(lv[l][j1])
        < ord.index_of(lv[l][j2]) by {
        if l == ll && j2 == lv[ll].len() - 1 {
            assert(lv[l][j1] == lv0[l][j1]);
            assert(0 <= ord.index_of(lv0[l][j1]) < t);
            assert(lv[l][j2] == rr);
        } else {
            assert(lv[l][j1] == lv0[l][j1] && lv[l][j2] == lv0[l][j2]);
            assert(l < lvS.len());
            assert(lv0[l] == lvS[l]);
        }
    }
    // membership now matches assignment up to `t + 1`
    assert(ord.subrange(0, t + 1) =~= ord.subrange(0, t).push(rr));
    assert forall|x: int| (#[trigger] appears(lv, x) <==> ord.subrange(0, t + 1).contains(x)) by {
        if appears(lv, x) {
            let l = choose|l: int| #[trigger] in_level(lv, l, x);
            if in_level(lv0, l, x) {
                assert(in_level(lvS, l, x));
                assert(appears(lvS, x));
                assert(ord.subrange(0, t).contains(x));
                assert(ord.subrange(0, t + 1).contains(x));
            } else {
                assert(x == rr);
                assert(ord.subrange(0, t + 1).contains(x));
            }
        }
        if ord.subrange(0, t + 1).contains(x) {
            if x == rr {
                assert(in_level(lv, ll, rr));
                assert(appears(lv, x));
            } else {
                assert(ord.subrange(0, t).contains(x));
                assert(appears(lvS, x));
                let l = choose|l: int| #[trigger] in_level(lvS, l, x);
                assert(in_level(lv0, l, x));
                assert(in_level(lv, l, x));
                assert(appears(lv, x));
            }
        }
    }
    // assignment bookkeeping for the next step
    assert forall|q: int| 0 <= q < t + 1 implies #[trigger] placed(lv, lvl_ofF, ord[q]) by {
        if q < t {
            assert(ord[q] != rr) by {
                assert(ord.subrange(0, t)[q] == ord[q]);
            }
            assert(placed(lvS, lvl_of0, ord[q]));
            assert(lvl_ofF[ord[q]] == lvl_of0[ord[q]]);
            assert(in_level(lvS, lvl_of0[ord[q]] as int, ord[q]));
            assert(in_level(lv0, lvl_of0[ord[q]] as int, ord[q]));
            assert(in_level(lv, lvl_of0[ord[q]] as int, ord[q]));
        } else {
            assert(ord[q] == rr);
            assert(lvl_ofF[rr] == lev);
            assert(in_level(lv, ll, rr));
        }
    }
}

/// The minimality clause of the invariant survives one step: the scan put
/// the new repository exactly one level above its highest dependency.
#[verifier::rlimit(100)]
proof fn lemma_step_minimal(
    repos: Seq<RepoConfig>,
    ord: Seq<int>,
    lvS: Seq<Seq<int>>,
    lv0: Seq<Seq<int>>,
    lv: Seq<Seq<int>>,
    lvl_of0: Seq<usize>,
    lvl_ofF: Seq<usize>,
    t: int,
    lev: usize,
    rr_us: usize,
)
    requires
        step_shape(repos, ord, lvS, lv0, lv, lvl_of0, lvl_ofF, t, lev, rr_us),
    ensures
        levels_minimal(repos, lv),
{
    lemma_step_bridge(repos, ord, lvS, lv0, lv, lvl_of0, lvl_ofF, t, lev, rr_us);
    let rr = rr_us as int;
    let ll = lev as int;
    // every resolved dependency of the new repository sits strictly below
    // `lev`, and it is recorded there
    assert forall|d: int| #[trigger] dep_edge(repos, rr, d) implies in_level(
        lv0,
        lvl_of0[d] as int,
        d,
    ) && lvl_of0[d] < lev by {
        let kk = choose|kk: int|
            0 <= kk < repos[rr].depends_on@.len() && d == #[trigger] dep_target(repos, rr, kk);
        assert(ord.subrange(0, t).contains(d)) by {
            assert(dep_edge(repos, ord[t], d));
        }
        let q = choose|q: int| 0 <= q < t && ord.subrange(0, t)[q] == d;
        assert(ord[q] == d);
        assert(placed(lvS, lvl_of0, ord[q]));
        assert(in_level(lvS, lvl_of0[d] as int, d));
        assert(in_level(lv0, lvl_of0[d] as int, d));
    }
    assert forall|l: int, j: int, d: int|
        0 <= l < lv.len() && 0 <= j < lv[l].len() && #[trigger] dep_edge(
            repos,
            lv[l][j],
            d,
        ) implies exists|l2: int| l2 < l && #[trigger] in_level(lv, l2, d) by {
        if l == ll && j == lv[ll].len() - 1 {
            assert(lv[l][j] == rr);
            let l2 = lvl_of0[d] as int;
            assert(l2 < ll && in_level(lv, l2, d));
        } else {
            assert(lv[l][j] == lv0[l][j]);
            assert(l < lvS.len() && lv0[l][j] == lvS[l][j]);
            assert(dep_edge(repos, lvS[l][j], d));
            let l2 = choose|l2: int| l2 < l && #[trigger] in_level(lvS, l2, d);
            assert(in_level(lv0, l2, d));
            assert(in_level(lv, l2, d));
        }
    }
    assert forall|l: int, j: int|
        0 < l < lv.len() && 0 <= j < lv[l].len() implies #[trigger] depends_just_below(
        repos,
        lv,
        l,
        j,
    ) by {
        if l == ll && j == lv[ll].len() - 1 {
            assert(lv[l][j] == rr);
            let kk = choose|kk: int|
                0 <= kk < repos[rr].depends_on@.len() && 0 <= #[trigger] dep_target(
                    repos,
                    rr,
                    kk,
                ) < repos.len() && lvl_of0[dep_target(repos, rr, kk)] + 1 == lev;
            let d = dep_target(repos, rr, kk);
            assert(dep_edge(repos, rr, d)) by {
                assert(0 <= kk < repos[rr].depends_on@.len() && d == dep_target(repos, rr, kk));
            }
            assert(in_level(lv0, lvl_of0[d] as int, d));
            assert(in_level(lv, l - 1, d));
            assert(dep_edge(repos, lv[l][j], d) && in_level(lv, l - 1, d));
        } else {
            assert(lv[l][j] == lv0[l][j]);
            assert(l < lvS.len() && lv0[l][j] == lvS[l][j]);
            assert(depends_just_below(repos, lvS, l, j));
            let d = choose|d: int|
                #[trigger] dep_edge(repos, lvS[l][j], d) && in_level(lvS, l - 1, d);
            assert(in_level(lv0, l - 1, d));
            assert(in_level(lv, l - 1, d));
            assert(dep_edge(repos, lv[l][j], d) && in_level(lv, l - 1, d));
        }
    }
}

/// Placing the next repository of the order at its computed level keeps the
/// planner's bookkeeping intact.
proof fn lemma_level_step(
    repos: Seq<RepoConfig>,
    ord: Seq<int>,
    lvS: Seq<Seq<int>>,
    lv0: Seq<Seq<int>>,
    lv: Seq<Seq<int>>,
    lvl_of0: Seq<usize>,
    lvl_ofF: Seq<usize>,
    t: int,
    lev: usize,
    rr_us: usize,
)
    requires
        step_shape(repos, ord, lvS, lv0, lv, lvl_of0, lvl_ofF, t, lev, rr_us),
    ensures
        plan_inv(repos, ord, lv, lvl_ofF, t + 1),
{
    lemma_step_partition(repos, ord, lvS, lv0, lv, lvl_of0, lvl_ofF, t, lev, rr_us);
    lemma_step_minimal(repos, ord, lvS, lv0, lv, lvl_of0, lvl_ofF, t, lev, rr_us);
}

/// Compute the build levels of the whole manifest.
///
/// On success the buckets partition all repository indices, each repository
/// stands at the earliest level its resolved dependencies allow, and within
/// a bucket repositories keep their build-order positions; so the result is
/// the same on every call. On failure the graph has a dependency cycle.
pub fn resolve_build_levels(manifest: &WorkspaceManifest) -> (r: Result<
    Vec<Vec<usize>>,
    BuildError,
>)
    ensures
        match r {
            Ok(levels) => {
                &&& levels_partition(manifest.repos@, levels_view(levels@))
                &&& levels_minimal(manifest.repos@, levels_view(levels@))
                &&& build_order_spec(manifest.repos@) is Some
                &&& levels_ordered(
                    levels_view(levels@),
                    build_order_spec(manifest.repos@).unwrap(),
                )
                &&& !has_cycle(manifest.repos@)
            },
            Err(e) => {
                &&& has_cycle(manifest.repos@)
                &&& e is Cycle
                &&& exists|p: Seq<int>|
                    #[trigger] is_cycle(manifest.repos@, p) && 0 <= p[0] < manifest.repos@.len()
                        && manifest.repos@[p[0]].name@ == e->Cycle_name@
            },
        },
{
    let order = match resolve_build_order(manifest) {
        Ok(o) => o,
        Err(e) => {
            return Err(e);
        },
    };
    let repos = &manifest.repos;
    let n = repos.len();
    let ghost ord = as_ints(order@);
    let mut levels: Vec<Vec<usize>> = Vec::new();
    let mut lvl_of: Vec<usize> = Vec::new();
    for i in 0..n
        invariant
            lvl_of@.len() == i,
    {
        lvl_of.push(0);
    }
    proof {
        assert(levels_view(levels@) =~= Seq::<Seq<int>>::empty());
        assert(ord.subrange(0, 0) =~= Seq::<int>::empty());
        assert(forall|x: int| !(#[trigger] appears(levels_view(levels@), x)));
    }
    let m = order.len();
    for t in 0..m
        invariant
            repos@ == manifest.repos@,
            n == repos@.len(),
            m == order@.len(),
            m == n,
            ord == as_ints(order@),
            forall|x: int| 0 <= x < n ==> ord.contains(x),
            build_order_spec(repos@) == Some(ord),
            lvl_of@.len() == n,
            plan_inv(repos@, ord, levels_view(levels@), lvl_of@, t as int),
        decreases m - t,
    {
        let r_idx = order[t];
        proof {
            assert(ord[t as int] == r_idx as int);
            assert(0 <= r_idx < n);
        }
        let deps_len = repos[r_idx].depends_on.len();
        let mut lev: usize = 0;
        for k in 0..deps_len
            invariant
                repos@ == manifest.repos@,
                n == repos@.len(),
                ord == as_ints(order@),
                lvl_of@.len() == n,
                t < m,
                m == order@.len(),
                m == n,
                r_idx as int == ord[t as int],
                r_idx < n,
                deps_len == repos@[r_idx as int].depends_on@.len(),
                plan_inv(repos@, ord, levels_view(levels@), lvl_of@, t as int),
                lev as int <= levels_view(levels@).len(),
                forall|kk: int|
                    0 <= kk < k && 0 <= #[trigger] dep_target(repos@, r_idx as int, kk) < n
                        ==> lvl_of@[dep_target(repos@, r_idx as int, kk)] < lev,
                lev > 0 ==> exists|kk: int|
                    0 <= kk < k && 0 <= #[trigger] dep_target(repos@, r_idx as int, kk) < n
                        && lvl_of@[dep_target(repos@, r_idx as int, kk)] + 1 == lev,
            decreases deps_len - k,
        {
            let dep_name = &repos[r_idx].depends_on[k];
            let found = find_index(repos, dep_name.as_str());
            proof {
                if found is None {
                    assert(dep_target(repos@, r_idx as int, k as int) >= n);
                }
            }
            if let Some(d) = found {
                proof {
                    assert(d as int == dep_target(repos@, r_idx as int, k as int));
                    assert(dep_edge(repos@, r_idx as int, d as int)) by {
                        assert(0 <= k < repos@[r_idx as int].depends_on@.len() && d as int
                            == dep_target(repos@, r_idx as int, k as int));
                    }
                    assert(ord.subrange(0, t as int).contains(d as int)) by {
                        assert(dep_edge(repos@, ord[t as int], d as int));
                    }
                    let q = choose|q: int|
                        0 <= q < t && ord.subrange(0, t as int)[q] == d as int;
                    assert(ord[q] == d as int);
                    assert(placed(levels_view(levels@), lvl_of@, ord[q]));
                    assert(lvl_of@[d as int] < levels_view(levels@).len());
                    assert(levels_view(levels@).len() == levels@.len());
                }
                let dl = lvl_of[d];
                let bucket_count = levels.len();
                proof {
                    assert(dl < bucket_count);
                }
                if dl + 1 > lev {
                    lev = dl + 1;
                }
            }
        }
        let ghost lvS = levels_view(levels@);
        if lev == levels.len() {
            levels.push(Vec::new());
            proof {
                assert(levels_view(levels@)[lvS.len() as int] =~= Seq::<int>::empty());
                assert(levels_view(levels@) =~= lvS.push(Seq::<int>::empty()));
            }
        }
        let ghost lv0 = levels_view(levels@);
        let ghost lvl_of0 = lvl_of@;
        let mut bucket = levels.remove(lev);
        bucket.push(r_idx);
        levels.insert(lev, bucket);
        lvl_of.set(r_idx, lev);
        proof {
            let lv = levels_view(levels@);
            assert(as_ints(bucket@) =~= lv0[lev as int].push(r_idx as int));
            assert(lv =~= lv0.update(lev as int, lv0[lev as int].push(r_idx as int)));
            lemma_level_step(
                repos@,
                ord,
                lvS,
                lv0,
                lv,
                lvl_of0,
                lvl_of@,
                t as int,
                lev,
                r_idx,
            );
        }
    }
    proof {
        let lv = levels_view(levels@);
        assert(ord.subrange(0, m as int) =~= ord);
        assert forall|x: int| 0 <= x < repos@.len() implies #[trigger] appears(lv, x) by {
            assert(ord.contains(x));
            assert(ord.subrange(0, m as int).contains(x));
        }
        assert(levels_partition(repos@, lv));
        assert(build_order_spec(manifest.repos@).unwrap() == ord);
    }
    Ok(levels)
}

/// Consecutive entries of `p` are joined by resolved dependency edges.
pub open spec fn is_dep_path(repos: Seq<RepoConfig>, p: Seq<int>) -> bool {
    &&& p.len() >= 1
    &&& forall|t: int| 0 <= t < p.len() ==> 0 <= #[trigger] p[t] < repos.len()
    &&& forall|t: int| 0 <= t < p.len() - 1 ==> #[trigger] dep_edge(repos, p[t], p[t + 1])
}

/// A walk along resolved dependency edges from `a` to `b`, of at least one
/// edge.
pub open spec fn reaches(repos: Seq<RepoConfig>, a: int, b: int) -> bool {
    exists|p: Seq<int>|
        #![trigger is_dep_path(repos, p)]
        is_dep_path(repos, p) && p.len() >= 2 && p[0] == a && p.last() == b
}

/// The level recorded for `x` in a partitioned assignment: the one level
/// containing it.
pub open spec fn level_of(lv: Seq<Seq<int>>, x: int) -> int {
    choose|l: int| #[trigger] in_level(lv, l, x)
}

/// In a partition, a repository's level is the only one containing it.
proof fn lemma_level_unique(repos: Seq<RepoConfig>, lv: Seq<Seq<int>>, l: int, x: int)
    requires
        levels_partition(repos, lv),
        in_level(lv, l, x),
    ensures
        level_of(lv, x) == l,
{
    let l2 = level_of(lv, x);
    assert(in_level(lv, l2, x));
    let j = choose|j: int| 0 <= j < lv[l].len() && lv[l][j] == x;
    let j2 = choose|j: int| 0 <= j < lv[l2].len() && lv[l2][j] == x;
    assert(lv[l][j] == lv[l2][j2]);
}

/// Along a resolved dependency edge the level drops strictly.
proof fn lemma_edge_level_drop(repos: Seq<RepoConfig>, lv: Seq<Seq<int>>, a: int, b: int)
    requires
        levels_partition(repos, lv),
        levels_minimal(repos, lv),
        dep_edge(repos, a, b),
        appears(lv, a),
    ensures
        level_of(lv, b) < level_of(lv, a),
        appears(lv, b),
{
    let la = level_of(lv, a);
    assert(in_level(lv, la, a));
    let j = choose|j: int| 0 <= j < lv[la].len() && lv[la][j] == a;
    assert(dep_edge(repos, lv[la][j], b));
    let l2 = choose|l2: int| l2 < la && #[trigger] in_level(lv, l2, b);
    lemma_level_unique(repos, lv, l2, b);
}

/// Along a dependency path the level drops strictly at every step.
proof fn lemma_path_level_drop(repos: Seq<RepoConfig>, lv: Seq<Seq<int>>, p: Seq<int>, t: int)
    requires
        levels_partition(repos, lv),
        levels_minimal(repos, lv),
        is_dep_path(repos, p),
        appears(lv, p[0]),
        0 <= t < p.len(),
    ensures
        appears(lv, p[t]),
        level_of(lv, p[t]) <= level_of(lv, p[0]) - t,
    decreases t,
{
    if t > 0 {
        lemma_path_level_drop(repos, lv, p, t - 1);
        let u = t - 1;
        assert(dep_edge(repos, p[u], p[u + 1]));
        lemma_edge_level_drop(repos, lv, p[t - 1], p[t]);
    }
}

/// Two repositories in one level never depend on one another, directly or
/// through other repositories: a level is safe to run concurrently.
pub proof fn lemma_same_level_independent(
    repos: Seq<RepoConfig>,
    lv: Seq<Seq<int>>,
    l: int,
    a: int,
    b: int,
)
    requires
        levels_partition(repos, lv),
        levels_minimal(repos, lv),
        in_level(lv, l, a),
        in_level(lv, l, b),
    ensures
        !reaches(repos, a, b),
        !reaches(repos, b, a),
{
    assert(appears(lv, a));
    assert(appears(lv, b));
    lemma_level_unique(repos, lv, l, a);
    lemma_level_unique(repos, lv, l, b);
    if reaches(repos, a, b) {
        let p = choose|p: Seq<int>|
            #[trigger] is_dep_path(repos, p) && p.len() >= 2 && p[0] == a && p.last() == b;
        lemma_path_level_drop(repos, lv, p, p.len() - 1);
    }
    if reaches(repos, b, a) {
        let p = choose|p: Seq<int>|
            #[trigger] is_dep_path(repos, p) && p.len() >= 2 && p[0] == b && p.last() == a;
        lemma_path_level_drop(repos, lv, p, p.len() - 1);
    }
}

} // verus!
