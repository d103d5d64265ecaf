//! Topological ordering of the repository dependency graph.
//!
//! `resolve_build_order` walks the descriptors depth first, in manifest
//! order, and returns the indices of all repositories so that every resolved
//! dependency comes before its dependent. A dependency name that does not
//! resolve to a descriptor is skipped; a dependency cycle is a hard error.
//! The whole walk is also written down as a specification function,
//! `build_order_spec`, so the returned order is pinned to a single value:
//! two calls on the same manifest give the same order.
use vstd::prelude::*;

use crate::workspace::{RepoConfig, WorkspaceManifest, find_index, first_index_named};

verus! {

broadcast use vstd::seq_lib::lemma_seq_contains_after_push;

/// Errors of order and level resolution and of build planning.
#[derive(Debug)]
pub enum BuildError {
    /// The dependency graph has a cycle through the named repository.
    Cycle { name: String },
    /// A requested target repository is not in the manifest.
    NotFound { name: String },
}

/// The repository index that the `k`-th dependency name of repository `i`
/// resolves to (the first descriptor with that name), or `repos.len()` when
/// the name resolves to nothing.
pub open spec fn dep_target(repos: Seq<RepoConfig>, i: int, k: int) -> int {
    first_index_named(repos, repos[i].depends_on@[k]@)
}

/// Repository `i` has a resolved dependency on repository `j`.
pub open spec fn dep_edge(repos: Seq<RepoConfig>, i: int, j: int) -> bool {
    &&& 0 <= i < repos.len()
    &&& 0 <= j < repos.len()
    &&& exists|k: int| 0 <= k < repos[i].depends_on@.len() && j == #[trigger] dep_target(repos, i, k)
}

/// A non-empty walk along resolved dependency edges that returns to its
/// first repository.
pub open spec fn is_cycle(repos: Seq<RepoConfig>, p: Seq<int>) -> bool {
    &&& p.len() >= 1
    &&& forall|t: int| 0 <= t < p.len() - 1 ==> #[trigger] dep_edge(repos, p[t], p[t + 1])
    &&& dep_edge(repos, p.last(), p[0])
}

/// The dependency graph has a cycle.
pub open spec fn has_cycle(repos: Seq<RepoConfig>) -> bool {
    exists|p: Seq<int>| is_cycle(repos, p)
}

/// A list of repository indices as mathematical integers.
pub open spec fn as_ints(s: Seq<usize>) -> Seq<int> {
    s.map_values(|x: usize| x as int)
}

/// Every resolved dependency of a repository in `order` appears strictly
/// earlier in `order`.
pub open spec fn order_closed(repos: Seq<RepoConfig>, order: Seq<int>) -> bool {
    forall|p: int, j: int|
        0 <= p < order.len() && #[trigger] dep_edge(repos, order[p], j) ==> order.subrange(
            0,
            p,
        ).contains(j)
}

/// A well-formed partial build order: distinct in-range indices, closed
/// under resolved dependencies.
pub open spec fn order_ok(repos: Seq<RepoConfig>, order: Seq<int>) -> bool {
    &&& order.no_duplicates()
    &&& forall|p: int| 0 <= p < order.len() ==> 0 <= #[trigger] order[p] < repos.len()
    &&& order_closed(repos, order)
}

/// A well-formed depth-first stack: distinct in-range indices.
pub open spec fn dfs_wf(repos: Seq<RepoConfig>, stack: Seq<int>) -> bool {
    &&& stack.no_duplicates()
    &&& forall|t: int| 0 <= t < stack.len() ==> 0 <= #[trigger] stack[t] < repos.len()
}

/// Consecutive stack entries are joined by resolved dependency edges.
pub open spec fn stack_chain(repos: Seq<RepoConfig>, stack: Seq<int>) -> bool {
    forall|t: int| 0 <= t < stack.len() - 1 ==> #[trigger] dep_edge(repos, stack[t], stack[t + 1])
}

/// A sequence of distinct integers drawn from `0..n` has at most `n`
/// elements.
proof fn lemma_distinct_bounded_len(s: Seq<int>, n: int)
    requires
        n >= 0,
        s.no_duplicates(),
        forall|t: int| 0 <= t < s.len() ==> 0 <= #[trigger] s[t] < n,
    ensures
        s.len() <= n,
{
    s.unique_seq_to_set();
    vstd::set_lib::lemma_int_range(0, n);
    assert(s.to_set().subset_of(vstd::set_lib::set_int_range(0, n)));
    vstd::set_lib::lemma_len_subset(s.to_set(), vstd::set_lib::set_int_range(0, n));
}

/// One node of the specification-level depth-first walk: `None` means a
/// cycle was found; otherwise the order extended with everything newly
/// finished below `idx`, ending with `idx` itself.
pub open spec fn dfs_node(
    repos: Seq<RepoConfig>,
    idx: int,
    stack: Seq<int>,
    order: Seq<int>,
) -> Option<Seq<int>>
    decreases repos.len() - stack.len(), 0int, 0int,
        when dfs_wf(repos, stack) && 0 <= idx < repos.len()
        via dfs_node_decreases
{
    if stack.contains(idx) {
        None
    } else if order.contains(idx) {
        Some(order)
    } else {
        match dfs_deps(repos, idx, 0, stack.push(idx), order) {
            None => None,
            Some(o) => Some(o.push(idx)),
        }
    }
}

/// The dependencies of `idx` from position `k` on, walked in order.
pub open spec fn dfs_deps(
    repos: Seq<RepoConfig>,
    idx: int,
    k: int,
    stack: Seq<int>,
    order: Seq<int>,
) -> Option<Seq<int>>
    decreases repos.len() - stack.len(), 1int, repos[idx].depends_on@.len() - k,
        when dfs_wf(repos, stack) && 0 <= idx < repos.len() && 0 <= k
        via dfs_deps_decreases
{
    if k >= repos[idx].depends_on@.len() {
        Some(order)
    } else {
        let d = dep_target(repos, idx, k);
        if !(0 <= d < repos.len()) {
            dfs_deps(repos, idx, k + 1, stack, order)
        } else {
            match dfs_node(repos, d, stack, order) {
                None => None,
                Some(o) => dfs_deps(repos, idx, k + 1, stack, o),
            }
        }
    }
}

#[via_fn]
proof fn dfs_node_decreases(repos: Seq<RepoConfig>, idx: int, stack: Seq<int>, order: Seq<int>) {
    if !stack.contains(idx) && !order.contains(idx) {
        lemma_distinct_bounded_len(stack.push(idx), repos.len() as int);
    }
}

#[via_fn]
proof fn dfs_deps_decreases(
    repos: Seq<RepoConfig>,
    idx: int,
    k: int,
    stack: Seq<int>,
    order: Seq<int>,
) {
    lemma_distinct_bounded_len(stack, repos.len() as int);
}

/// The walk from node `i` on, over all remaining roots.
pub open spec fn dfs_from(repos: Seq<RepoConfig>, i: int, order: Seq<int>) -> Option<Seq<int>>
    decreases repos.len() - i,
        when 0 <= i
{
    if i >= repos.len() {
        Some(order)
    } else {
        match dfs_node(repos, i, Seq::empty(), order) {
            None => None,
            Some(o) => dfs_from(repos, i + 1, o),
        }
    }
}

/// The build order of a descriptor list: the depth-first finish order from
/// every root in manifest order, or `None` when the graph has a cycle.
pub open spec fn build_order_spec(repos: Seq<RepoConfig>) -> Option<Seq<int>> {
    dfs_from(repos, 0, Seq::empty())
}

/// `bools[i]` holds exactly for the members of `s`.
pub open spec fn marks_of(bools: Seq<bool>, s: Seq<int>) -> bool {
    forall|i: int| 0 <= i < bools.len() ==> (#[trigger] bools[i] <==> s.contains(i))
}

/// The resolved targets of the first `k` dependency names of repository `i`
/// are all in `order`.
pub open spec fn deps_resolved_in(repos: Seq<RepoConfig>, i: int, k: int, order: Seq<int>) -> bool {
    forall|t: int|
        0 <= t < k && 0 <= #[trigger] dep_target(repos, i, t) < repos.len() ==> order.contains(
            dep_target(repos, i, t),
        )
}
/// Depth-first visit of repository `idx`, mirroring `dfs_node`.
fn dfs(
    repos: &Vec<RepoConfig>,
    idx: usize,
    visited: &mut Vec<bool>,
    in_stack: &mut Vec<bool>,
    order: &mut Vec<usize>,
    Ghost(stack): Ghost<Seq<int>>,
) -> (r: Result<(), BuildError>)
    requires
        idx < repos@.len(),
        old(visited)@.len() == repos@.len(),
        old(in_stack)@.len() == repos@.len(),
        dfs_wf(repos@, stack),
        stack_chain(repos@, stack),
        stack.len() > 0 ==> dep_edge(repos@, stack.last(), idx as int),
        marks_of(old(visited)@, as_ints(old(order)@)),
        marks_of(old(in_stack)@, stack),
        order_ok(repos@, as_ints(old(order)@)),
        forall|t: int| 0 <= t < stack.len() ==> !as_ints(old(order)@).contains(#[trigger] stack[t]),
    ensures
        final(visited)@.len() == repos@.len(),
        final(in_stack)@.len() == repos@.len(),
        match r {
            Ok(()) => {
                &&& dfs_node(repos@, idx as int, stack, as_ints(old(order)@)) == Some(
                    as_ints(final(order)@),
                )
                &&& final(in_stack)@ == old(in_stack)@
                &&& marks_of(final(visited)@, as_ints(final(order)@))
                &&& order_ok(repos@, as_ints(final(order)@))
                &&& as_ints(old(order)@).is_prefix_of(as_ints(final(order)@))
                &&& as_ints(final(order)@).contains(idx as int)
                &&& forall|t: int|
                    0 <= t < stack.len() ==> !as_ints(final(order)@).contains(#[trigger] stack[t])
            },
            Err(e) => {
                &&& dfs_node(repos@, idx as int, stack, as_ints(old(order)@)) == None::<Seq<int>>
                &&& e is Cycle
                &&& exists|p: Seq<int>|
                    #[trigger] is_cycle(repos@, p) && 0 <= p[0] < repos@.len()
                        && repos@[p[0]].name@ == e->Cycle_name@
            },
        },
    decreases repos@.len() - stack.len(),
{
    let ghost ord0 = as_ints(order@);
    if in_stack[idx] {
        proof {
            assert(stack.contains(idx as int));
            let j = stack.index_of(idx as int);
            let p = stack.subrange(j, stack.len() as int);
            assert(p[0] == idx as int);
            assert forall|t: int| 0 <= t < p.len() - 1 implies #[trigger] dep_edge(
                repos@,
                p[t],
                p[t + 1],
            ) by {
                assert(p[t] == stack[j + t]);
                assert(p[t + 1] == stack[j + t + 1]);
            }
            assert(p.last() == stack.last());
            assert(dep_edge(repos@, p.last(), p[0]));
            assert(is_cycle(repos@, p));
        }
        let err_name = repos[idx].name.clone();
        proof {
            let j = stack.index_of(idx as int);
            let p = stack.subrange(j, stack.len() as int);
            assert(is_cycle(repos@, p) && 0 <= p[0] < repos@.len() && repos@[p[0]].name@
                == err_name@);
        }
        return Err(BuildError::Cycle { name: err_name });
    }
    if visited[idx] {
        proof {
            assert(as_ints(order@).contains(idx as int));
        }
        return Ok(());
    }
    proof {
        assert(!stack.contains(idx as int));
        assert(!ord0.contains(idx as int));
    }
    in_stack.set(idx, true);
    let ghost stack1 = stack.push(idx as int);
    proof {
        assert(stack1.last() == idx as int);
        assert(dfs_wf(repos@, stack1));
        assert(marks_of(in_stack@, stack1)) by {
            assert forall|i: int| 0 <= i < in_stack@.len() implies (#[trigger] in_stack@[i]
                <==> stack1.contains(i)) by {
                if i != idx as int {
                    assert(in_stack@[i] == old(in_stack)@[i]);
                }
            }
        }
        assert(stack_chain(repos@, stack1)) by {
            assert forall|t: int| 0 <= t < stack1.len() - 1 implies #[trigger] dep_edge(
                repos@,
                stack1[t],
                stack1[t + 1],
            ) by {
                if t < stack.len() - 1 {
                    assert(dep_edge(repos@, stack[t], stack[t + 1]));
                } else {
                    assert(stack1[t] == stack.last());
                    assert(stack1[t + 1] == idx as int);
                }
            }
        }
        assert forall|t: int| 0 <= t < stack1.len() implies !as_ints(order@).contains(
            #[trigger] stack1[t],
        ) by {
            if t < stack.len() {
                assert(stack1[t] == stack[t]);
            } else {
                assert(stack1[t] == idx as int);
            }
        }
    }
    let deps_len = repos[idx].depends_on.len();
    for k in 0..deps_len
        invariant
            idx < repos@.len(),
            deps_len == repos@[idx as int].depends_on@.len(),
            visited@.len() == repos@.len(),
            in_stack@.len() == repos@.len(),
            dfs_wf(repos@, stack),
            dfs_wf(repos@, stack1),
            stack_chain(repos@, stack1),
            stack1 == stack.push(idx as int),
            ord0 == as_ints(old(order)@),
            !stack.contains(idx as int),
            !ord0.contains(idx as int),
            marks_of(visited@, as_ints(order@)),
            marks_of(in_stack@, stack1),
            order_ok(repos@, as_ints(order@)),
            ord0.is_prefix_of(as_ints(order@)),
            forall|t: int|
                0 <= t < stack1.len() ==> !as_ints(order@).contains(#[trigger] stack1[t]),
            deps_resolved_in(repos@, idx as int, k as int, as_ints(order@)),
            dfs_deps(repos@, idx as int, 0, stack1, ord0) == dfs_deps(
                repos@,
                idx as int,
                k as int,
                stack1,
                as_ints(order@),
            ),
        decreases deps_len - k,
    {
        let ghost cur = as_ints(order@);
        let dep_name = &repos[idx].depends_on[k];
        let found = find_index(repos, dep_name.as_str());
        proof {
            if found is None {
                assert(dep_target(repos@, idx as int, k as int) >= repos@.len());
            }
        }
        if let Some(d) = found {
            proof {
                assert(d as int == dep_target(repos@, idx as int, k as int));
                assert(dep_edge(repos@, idx as int, d as int)) by {
                    assert(0 <= k < repos@[idx as int].depends_on@.len() && d as int == dep_target(
                        repos@,
                        idx as int,
                        k as int,
                    ));
                }
                assert(stack1.last() == idx as int);
                lemma_distinct_bounded_len(stack1, repos@.len() as int);
            }
            let res = dfs(repos, d, visited, in_stack, order, Ghost(stack1));
            if let Err(e) = res {
                proof {
                    assert(dfs_node(repos@, d as int, stack1, cur) == None::<Seq<int>>);
                    assert(dfs_deps(repos@, idx as int, k as int, stack1, cur) == None::<
                        Seq<int>,
                    >);
                    assert(dfs_node(repos@, idx as int, stack, ord0) == None::<Seq<int>>);
                }
                return Err(e);
            }
            proof {
                assert(dfs_node(repos@, d as int, stack1, cur) == Some(as_ints(order@)));
                assert(dfs_deps(repos@, idx as int, k as int, stack1, cur) == dfs_deps(
                    repos@,
                    idx as int,
                    k + 1,
                    stack1,
                    as_ints(order@),
                ));
                assert(deps_resolved_in(repos@, idx as int, k + 1, as_ints(order@))) by {
                    assert(as_ints(order@).contains(d as int));
                    assert forall|t: int|
                        0 <= t < k + 1 && 0 <= #[trigger] dep_target(repos@, idx as int, t)
                            < repos@.len() implies as_ints(order@).contains(
                        dep_target(repos@, idx as int, t),
                    ) by {
                        if t < k {
                            assert(cur.contains(dep_target(repos@, idx as int, t)));
                            let q = choose|q: int|
                                0 <= q < cur.len() && cur[q] == dep_target(repos@, idx as int, t);
                            assert(as_ints(order@)[q] == cur[q]);
                        }
                    }
                }
                assert(ord0.is_prefix_of(as_ints(order@))) by {
                    assert forall|q: int| 0 <= q < ord0.len() implies ord0[q] == as_ints(order@)[q]
                        by {
                        assert(ord0[q] == cur[q]);
                        assert(cur[q] == as_ints(order@)[q]);
                    }
                }
            }
        } else {
            proof {
                assert(dfs_deps(repos@, idx as int, k as int, stack1, cur) == dfs_deps(
                    repos@,
                    idx as int,
                    k + 1,
                    stack1,
                    cur,
                ));
            }
        }
    }
    proof {
        assert(dfs_deps(repos@, idx as int, deps_len as int, stack1, as_ints(order@)) == Some(
            as_ints(order@),
        ));
    }
    in_stack.set(idx, false);
    visited.set(idx, true);
    let ghost before_push = as_ints(order@);
    order.push(idx);
    proof {
        let after = as_ints(order@);
        assert(after =~= before_push.push(idx as int));
        assert(!before_push.contains(idx as int)) by {
            assert(stack1.last() == idx as int);
            assert(!before_push.contains(stack1[stack1.len() - 1]));
        }
        assert(dfs_deps(repos@, idx as int, 0, stack1, ord0) == Some(before_push));
        assert(dfs_node(repos@, idx as int, stack, ord0) == Some(after));
        assert(in_stack@ =~= old(in_stack)@) by {
            assert(!old(in_stack)@[idx as int]);
            assert forall|i: int| 0 <= i < in_stack@.len() implies in_stack@[i] == old(
                in_stack,
            )@[i] by {
                if i != idx as int {
                    assert(in_stack@[i] <==> stack1.contains(i));
                    assert(stack1.contains(i) <==> stack.contains(i));
                    assert(old(in_stack)@[i] <==> stack.contains(i));
                }
            }
        }
        assert(marks_of(visited@, after)) by {
            assert forall|i: int| 0 <= i < visited@.len() implies (#[trigger] visited@[i]
                <==> after.contains(i)) by {
                assert(after.contains(i) <==> (before_push.contains(i) || i == idx as int));
                if i != idx as int {
                    assert(visited@[i] <==> before_push.contains(i));
                }
            }
        }
        assert(order_ok(repos@, after)) by {
            assert(after.no_duplicates()) by {
                assert forall|a: int, b: int|
                    0 <= a < after.len() && 0 <= b < after.len() && a != b implies after[a]
                    != after[b] by {
                    if a < after.len() - 1 && b < after.len() - 1 {
                        assert(before_push[a] == after[a] && before_push[b] == after[b]);
                    } else if a == after.len() - 1 && b < after.len() - 1 {
                        assert(before_push.contains(before_push[b]));
                    } else if b == after.len() - 1 && a < after.len() - 1 {
                        assert(before_push.contains(before_push[a]));
                    }
                }
            }
            assert(order_closed(repos@, after)) by {
                assert forall|p: int, j: int|
                    0 <= p < after.len() && #[trigger] dep_edge(repos@, after[p], j) implies
                    after.subrange(0, p).contains(j) by {
                    if p < after.len() - 1 {
                        assert(after[p] == before_push[p]);
                        assert(before_push.subrange(0, p).contains(j));
                        let q = choose|q: int| 0 <= q < p && before_push.subrange(0, p)[q] == j;
                        assert(after.subrange(0, p)[q] == j);
                    } else {
                        assert(after[p] == idx as int);
                        let kk = choose|kk: int|
                            0 <= kk < repos@[idx as int].depends_on@.len() && j
                                == #[trigger] dep_target(repos@, idx as int, kk);
                        assert(deps_resolved_in(repos@, idx as int, deps_len as int, before_push));
                        assert(before_push.contains(j));
                        let q = choose|q: int| 0 <= q < before_push.len() && before_push[q] == j;
                        assert(after.subrange(0, p)[q] == j);
                    }
                }
            }
        }
        assert(ord0.is_prefix_of(after)) by {
            assert forall|q: int| 0 <= q < ord0.len() implies ord0[q] == after[q] by {
                assert(ord0[q] == before_push[q]);
            }
        }
        assert(after.contains(idx as int)) by {
            assert(after.last() == idx as int);
        }
        assert forall|t: int| 0 <= t < stack.len() implies !after.contains(#[trigger] stack[t]) by {
            assert(stack1[t] == stack[t]);
            assert(!before_push.contains(stack1[t]));
            assert(stack1.no_duplicates());
            assert(stack1[stack1.len() - 1] == idx as int);
            assert(stack[t] != idx as int);
            assert(after.contains(stack[t]) <==> (before_push.contains(stack[t]) || stack[t]
                == idx as int));
        }
    }
    Ok(())
}


/// Resolve the build order of the whole manifest: a depth-first topological
/// sort over resolved dependency edges.
///
/// On success the returned indices are a permutation of all descriptor
/// positions in which every resolved dependency of a repository stands
/// strictly before it; the order is exactly `build_order_spec`, so it is the
/// same on every call. On failure the graph has a dependency cycle, and the
/// error names a repository on one.
pub fn resolve_build_order(manifest: &WorkspaceManifest) -> (r: Result<Vec<usize>, BuildError>)
    ensures
        match r {
            Ok(order) => {
                &&& build_order_spec(manifest.repos@) == Some(as_ints(order@))
                &&& order@.len() == manifest.repos@.len()
                &&& order_ok(manifest.repos@, as_ints(order@))
                &&& forall|x: int| 0 <= x < manifest.repos@.len() ==> as_ints(order@).contains(x)
                &&& forall|p: int, q: int|
                    0 <= p < order@.len() && 0 <= q < order@.len() && #[trigger] dep_edge(
                        manifest.repos@,
                        order@[p] as int,
                        order@[q] as int,
                    ) ==> q < p
                &&& !has_cycle(manifest.repos@)
            },
            Err(e) => {
                &&& build_order_spec(manifest.repos@) == None::<Seq<int>>
                &&& has_cycle(manifest.repos@)
                &&& e is Cycle
                &&& exists|p: Seq<int>|
                    #[trigger] is_cycle(manifest.repos@, p) && 0 <= p[0] < manifest.repos@.len()
                        && manifest.repos@[p[0]].name@ == e->Cycle_name@
            },
        },
{
    let repos = &manifest.repos;
    let n = repos.len();
    let mut visited: Vec<bool> = Vec::new();
    let mut in_stack: Vec<bool> = Vec::new();
    let mut order: Vec<usize> = Vec::new();
    for i in 0..n
        invariant
            n == repos@.len(),
            visited@.len() == i,
            in_stack@.len() == i,
            forall|j: int| 0 <= j < i ==> !visited@[j] && !in_stack@[j],
    {
        visited.push(false);
        in_stack.push(false);
    }
    proof {
        assert(as_ints(order@) =~= Seq::<int>::empty());
        assert(marks_of(visited@, as_ints(order@)));
        assert(marks_of(in_stack@, Seq::empty()));
        assert(order_ok(repos@, as_ints(order@)));
    }
    for i in 0..n
        invariant
            repos@ == manifest.repos@,
            n == repos@.len(),
            visited@.len() == n,
            in_stack@.len() == n,
            marks_of(visited@, as_ints(order@)),
            marks_of(in_stack@, Seq::empty()),
            order_ok(repos@, as_ints(order@)),
            forall|x: int| 0 <= x < i ==> as_ints(order@).contains(x),
            build_order_spec(repos@) == dfs_from(repos@, i as int, as_ints(order@)),
    {
        let ghost cur = as_ints(order@);
        let res = dfs(repos, i, &mut visited, &mut in_stack, &mut order, Ghost(Seq::empty()));
        match res {
            Ok(()) => {
                proof {
                    assert(dfs_node(repos@, i as int, Seq::empty(), cur) == Some(
                        as_ints(order@),
                    ));
                    assert(dfs_from(repos@, i as int, cur) == dfs_from(
                        repos@,
                        i + 1,
                        as_ints(order@),
                    ));
                    assert forall|x: int| 0 <= x < i + 1 implies as_ints(order@).contains(x) by {
                        if x < i {
                            assert(cur.contains(x));
                            let q = choose|q: int| 0 <= q < cur.len() && cur[q] == x;
                            assert(as_ints(order@)[q] == x);
                        }
                    }
                }
            },
            Err(e) => {
                proof {
                    assert(dfs_node(repos@, i as int, Seq::empty(), cur) == None::<Seq<int>>);
                    assert(dfs_from(repos@, i as int, cur) == None::<Seq<int>>);
                    let p = choose|p: Seq<int>|
                        #[trigger] is_cycle(repos@, p) && 0 <= p[0] < repos@.len()
                            && repos@[p[0]].name@ == e->Cycle_name@;
                    assert(is_cycle(repos@, p));
                }
                return Err(e);
            },
        }
    }
    proof {
        let fin = as_ints(order@);
        assert(dfs_from(repos@, n as int, fin) == Some(fin));
        assert(fin.len() == n) by {
            lemma_distinct_bounded_len(fin, n as int);
            fin.unique_seq_to_set();
            vstd::set_lib::lemma_int_range(0, n as int);
            assert(vstd::set_lib::set_int_range(0, n as int).subset_of(fin.to_set())) by {
                assert forall|x: int|
                    vstd::set_lib::set_int_range(0, n as int).contains(x) implies fin.to_set()
                    .contains(x) by {
                    assert(fin.contains(x));
                }
            }
            vstd::set_lib::lemma_len_subset(
                vstd::set_lib::set_int_range(0, n as int),
                fin.to_set(),
            );
        }
        assert forall|p: int, q: int|
            0 <= p < order@.len() && 0 <= q < order@.len() && #[trigger] dep_edge(
                repos@,
                order@[p] as int,
                order@[q] as int,
            ) implies q < p by {
            assert(fin[p] == order@[p] as int);
            assert(fin[q] == order@[q] as int);
            assert(fin.subrange(0, p).contains(fin[q]));
            let q2 = choose|q2: int| 0 <= q2 < p && fin.subrange(0, p)[q2] == fin[q];
            assert(fin[q2] == fin[q]);
            assert(q2 == q);
        }
        lemma_order_no_cycle(repos@, fin);
    }
    Ok(order)
}

/// From a resolved dependency edge, the dependency stands strictly earlier
/// in a closed order that mentions its source.
proof fn lemma_edge_position(repos: Seq<RepoConfig>, order: Seq<int>, a: int, b: int)
    requires
        order_ok(repos, order),
        dep_edge(repos, a, b),
        order.contains(a),
        order.contains(b),
    ensures
        0 <= order.index_of(b) < order.index_of(a) < order.len(),
        order[order.index_of(a)] == a,
        order[order.index_of(b)] == b,
{
    let pa = order.index_of(a);
    let pb = order.index_of(b);
    assert(0 <= pa < order.len() && order[pa] == a);
    assert(0 <= pb < order.len() && order[pb] == b);
    assert(order.subrange(0, pa).contains(b));
    let q = choose|q: int| 0 <= q < pa && order.subrange(0, pa)[q] == b;
    assert(order[q] == b);
    assert(q == pb);
}

/// Along a cycle the position in a closed order drops by at least one per
/// step.
proof fn lemma_cycle_positions(repos: Seq<RepoConfig>, order: Seq<int>, p: Seq<int>, t: int)
    requires
        order_ok(repos, order),
        forall|x: int| 0 <= x < repos.len() ==> order.contains(x),
        is_cycle(repos, p),
        0 <= t < p.len(),
    ensures
        order.contains(p[t]),
        order.index_of(p[t]) <= order.index_of(p[0]) - t,
    decreases t,
{
    if t == 0 {
        assert(dep_edge(repos, p.last(), p[0]));
        assert(0 <= p[0] < repos.len());
    } else {
        lemma_cycle_positions(repos, order, p, t - 1);
        let u = t - 1;
        assert(dep_edge(repos, p[u], p[u + 1]));
        assert(0 <= p[t] < repos.len());
        lemma_edge_position(repos, order, p[t - 1], p[t]);
    }
}

/// A complete closed order rules out dependency cycles.
proof fn lemma_order_no_cycle(repos: Seq<RepoConfig>, order: Seq<int>)
    requires
        order_ok(repos, order),
        forall|x: int| 0 <= x < repos.len() ==> order.contains(x),
    ensures
        !has_cycle(repos),
{
    if has_cycle(repos) {
        let p = choose|p: Seq<int>| is_cycle(repos, p);
        lemma_cycle_positions(repos, order, p, p.len() - 1);
        assert(dep_edge(repos, p.last(), p[0]));
        assert(p.last() == p[p.len() - 1]);
        lemma_edge_position(repos, order, p.last(), p[0]);
        assert(false);
    }
}

/// Requesting the build order twice for the same repository list gives the
/// same order: the result is a function of the manifest alone.
pub proof fn lemma_build_order_deterministic(
    repos: Seq<RepoConfig>,
    r1: Seq<usize>,
    r2: Seq<usize>,
)
    requires
        build_order_spec(repos) == Some(as_ints(r1)),
        build_order_spec(repos) == Some(as_ints(r2)),
    ensures
        r1 == r2,
{
    assert(as_ints(r1) == as_ints(r2));
    assert(r1 =~= r2) by {
        assert(as_ints(r1).len() == r1.len());
        assert(as_ints(r2).len() == r2.len());
        assert forall|i: int| 0 <= i < r1.len() implies r1[i] == r2[i] by {
            assert(as_ints(r1)[i] == as_ints(r2)[i]);
        }
    }
}

} // verus!
