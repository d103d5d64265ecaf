//! The transitive dependency closure of one repository, by name.
//!
//! `collect_deps` walks the `depends_on` chains from a starting repository
//! with an explicit work stack, skipping names it has already seen, so it
//! terminates even on cyclic inputs. It returns exactly the names reachable
//! from the target along dependency edges, without duplicates and without
//! the target itself. A name that resolves to no descriptor can still be
//! reached (and reported), but has no dependencies of its own.
use vstd::prelude::*;

use crate::workspace::{RepoConfig, WorkspaceManifest, find_index, first_index_named, seq_views};

verus! {

broadcast use vstd::seq_lib::lemma_seq_contains_after_push;

/// One dependency edge between names: `a` resolves to a descriptor, and `b`
/// is one of that descriptor's dependency names.
pub open spec fn name_step(repos: Seq<RepoConfig>, a: Seq<char>, b: Seq<char>) -> bool {
    &&& first_index_named(repos, a) < repos.len()
    &&& exists|k: int|
        0 <= k < repos[first_index_named(repos, a)].depends_on@.len() && repos[first_index_named(
            repos,
            a,
        )].depends_on@[k]@ == b
}

/// Consecutive entries are joined by name dependency edges.
pub open spec fn name_path(repos: Seq<RepoConfig>, p: Seq<Seq<char>>) -> bool {
    &&& p.len() >= 1
    &&& forall|t: int| 0 <= t < p.len() - 1 ==> #[trigger] name_step(repos, p[t], p[t + 1])
}

/// `to` can be reached from `from` along at least one dependency edge.
pub open spec fn name_reachable(repos: Seq<RepoConfig>, from: Seq<char>, to: Seq<char>) -> bool {
    exists|p: Seq<Seq<char>>|
        #![trigger name_path(repos, p)]
        name_path(repos, p) && p.len() >= 2 && p[0] == from && p.last() == to
}

/// `x` is the target itself or one of the collected names.
pub open spec fn in_result(deps: Seq<Seq<char>>, target: Seq<char>, x: Seq<char>) -> bool {
    x == target || deps.contains(x)
}

/// Every dependency name of `x` has been collected (or is the target).
pub open spec fn expanded(
    repos: Seq<RepoConfig>,
    deps: Seq<Seq<char>>,
    target: Seq<char>,
    x: Seq<char>,
) -> bool {
    forall|y: Seq<char>| #[trigger] name_step(repos, x, y) ==> in_result(deps, target, y)
}

/// The dependency names of all repositories, in one list.
pub open spec fn all_dep_names(repos: Seq<RepoConfig>) -> Seq<Seq<char>> {
    repos.map_values(|r: RepoConfig| seq_views(r.depends_on@)).flatten()
}

/// An element of an element of `ss` is in its concatenation.
proof fn lemma_flatten_contains<A>(ss: Seq<Seq<A>>, i: int, j: int)
    requires
        0 <= i < ss.len(),
        0 <= j < ss[i].len(),
    ensures
        ss.flatten().contains(ss[i][j]),
    decreases i,
{
    assert(ss.flatten() == ss.first() + ss.drop_first().flatten());
    if i == 0 {
        assert((ss.first() + ss.drop_first().flatten())[j] == ss[0][j]);
    } else {
        lemma_flatten_contains(ss.drop_first(), i - 1, j);
        assert(ss.drop_first()[i - 1] == ss[i]);
        let q = choose|q: int|
            0 <= q < ss.drop_first().flatten().len() && ss.drop_first().flatten()[q] == ss[i][j];
        assert((ss.first() + ss.drop_first().flatten())[ss.first().len() + q] == ss[i][j]);
    }
}

/// Every dependency name occurrence is in the combined list.
proof fn lemma_dep_name_in_universe(repos: Seq<RepoConfig>, i: int, k: int)
    requires
        0 <= i < repos.len(),
        0 <= k < repos[i].depends_on@.len(),
    ensures
        all_dep_names(repos).contains(repos[i].depends_on@[k]@),
{
    let ss = repos.map_values(|r: RepoConfig| seq_views(r.depends_on@));
    assert(ss[i] == seq_views(repos[i].depends_on@));
    assert(ss[i][k] == repos[i].depends_on@[k]@);
    lemma_flatten_contains(ss, i, k);
}

/// A list of distinct elements drawn from another list is no longer than it.
proof fn lemma_distinct_within_len<A>(s: Seq<A>, u: Seq<A>)
    requires
        s.no_duplicates(),
        forall|t: int| 0 <= t < s.len() ==> u.contains(#[trigger] s[t]),
    ensures
        s.len() <= u.len(),
{
    broadcast use vstd::seq_lib::seq_to_set_is_finite;

    s.unique_seq_to_set();
    u.lemma_cardinality_of_set();
    assert(s.to_set().subset_of(u.to_set()));
    vstd::set_lib::lemma_len_subset(s.to_set(), u.to_set());
}

/// Extending a reachability walk by one edge.
proof fn lemma_reach_extend(
    repos: Seq<RepoConfig>,
    from: Seq<char>,
    mid: Seq<char>,
    to: Seq<char>,
)
    requires
        mid == from || name_reachable(repos, from, mid),
        name_step(repos, mid, to),
    ensures
        name_reachable(repos, from, to),
{
    if mid == from {
        let p = seq![from, to];
        assert(name_path(repos, p)) by {
            assert(forall|t: int|
                0 <= t < p.len() - 1 ==> #[trigger] name_step(repos, p[t], p[t + 1]));
        }
        assert(name_path(repos, p) && p.len() >= 2 && p[0] == from && p.last() == to);
    } else {
        let p = choose|p: Seq<Seq<char>>|
            #[trigger] name_path(repos, p) && p.len() >= 2 && p[0] == from && p.last() == mid;
        let p2 = p.push(to);
        assert(name_path(repos, p2)) by {
            assert forall|t: int|
                0 <= t < p2.len() - 1 implies #[trigger] name_step(repos, p2[t], p2[t + 1]) by {
                if t < p.len() - 1 {
                    assert(name_step(repos, p[t], p[t + 1]));
                    assert(p2[t] == p[t] && p2[t + 1] == p[t + 1]);
                } else {
                    assert(p2[t] == p.last() && p2[t + 1] == to);
                }
            }
        }
        assert(p2.len() >= 2 && p2[0] == from && p2.last() == to);
    }
}

/// Whatever the walk reaches stays inside a collection that contains its
/// start and is closed under dependency edges.
proof fn lemma_closed_collects_path(
    repos: Seq<RepoConfig>,
    deps: Seq<Seq<char>>,
    target: Seq<char>,
    p: Seq<Seq<char>>,
    t: int,
)
    requires
        name_path(repos, p),
        p[0] == target,
        0 <= t < p.len(),
        forall|x: Seq<char>| #[trigger] in_result(deps, target, x) ==> expanded(
            repos,
            deps,
            target,
            x,
        ),
    ensures
        in_result(deps, target, p[t]),
    decreases t,
{
    if t == 0 {
        assert(in_result(deps, target, target));
    } else {
        lemma_closed_collects_path(repos, deps, target, p, t - 1);
        let u = t - 1;
        assert(name_step(repos, p[u], p[u + 1]));
        assert(expanded(repos, deps, target, p[t - 1]));
    }
}

/// Whether one of the collected strings reads `name`.
pub fn contains_name(v: &Vec<String>, name: &str) -> (r: bool)
    ensures
        r == seq_views(v@).contains(name@),
{
    let n = v.len();
    let name_owned = name.to_owned();
    for i in 0..n
        invariant
            n == v@.len(),
            name_owned@ == name@,
            forall|j: int| 0 <= j < i ==> seq_views(v@)[j] != name@,
    {
        proof {
            assert(seq_views(v@)[i as int] == v@[i as int]@);
        }
        if v[i] == name_owned {
            proof {
                assert(seq_views(v@).contains(name@)) by {
                    assert(seq_views(v@)[i as int] == name@);
                }
            }
            return true;
        }
    }
    proof {
        if seq_views(v@).contains(name@) {
            let j = choose|j: int| 0 <= j < seq_views(v@).len() && seq_views(v@)[j] == name@;
        }
    }
    false
}

/// Collect every repository name reachable from `name` along `depends_on`
/// edges, each once, the target itself excluded. Duplicate edges and
/// diamonds collapse; a cyclic graph still terminates.
pub fn collect_deps(manifest: &WorkspaceManifest, name: &str) -> (r: Vec<String>)
    ensures
        seq_views(r@).no_duplicates(),
        forall|x: Seq<char>|
            #[trigger] seq_views(r@).contains(x) <==> (name_reachable(manifest.repos@, name@, x)
                && x != name@),
{
    let repos = &manifest.repos;
    let ghost t_name = name@;
    let mut deps: Vec<String> = Vec::new();
    let mut stack: Vec<String> = Vec::new();
    stack.push(name.to_owned());
    proof {
        assert(seq_views(stack@) =~= seq![t_name]);
        assert(seq_views(deps@) =~= Seq::<Seq<char>>::empty());
    }
    loop
        invariant
            repos@ == manifest.repos@,
            t_name == name@,
            seq_views(deps@).no_duplicates(),
            seq_views(stack@).no_duplicates(),
            !seq_views(deps@).contains(t_name),
            forall|t: int|
                0 <= t < seq_views(deps@).len() ==> all_dep_names(repos@).contains(
                    #[trigger] seq_views(deps@)[t],
                ),
            forall|t: int|
                0 <= t < seq_views(deps@).len() ==> name_reachable(
                    repos@,
                    t_name,
                    #[trigger] seq_views(deps@)[t],
                ),
            forall|t: int|
                0 <= t < seq_views(stack@).len() ==> in_result(
                    seq_views(deps@),
                    t_name,
                    #[trigger] seq_views(stack@)[t],
                ),
            forall|x: Seq<char>|
                #[trigger] in_result(seq_views(deps@), t_name, x) && !seq_views(stack@).contains(
                    x,
                ) ==> expanded(repos@, seq_views(deps@), t_name, x),
        ensures
            stack@.len() == 0,
        decreases
            all_dep_names(repos@).len() - seq_views(deps@).len(),
            stack@.len(),
    {
        proof {
            lemma_distinct_within_len(seq_views(deps@), all_dep_names(repos@));
        }
        let ghost stack_pre = seq_views(stack@);
        let ghost deps_before = seq_views(deps@);
        let current = match stack.pop() {
            Some(c) => c,
            None => {
                break ;
            },
        };
        let ghost cur_v = current@;
        let ghost stack_before = seq_views(stack@);
        proof {
            assert(stack_before =~= stack_pre.drop_last());
            assert(cur_v == stack_pre.last());
            assert(in_result(deps_before, t_name, cur_v)) by {
                assert(stack_pre[stack_pre.len() - 1] == cur_v);
            }
            assert(!stack_before.contains(cur_v)) by {
                if stack_before.contains(cur_v) {
                    let t = choose|t: int|
                        0 <= t < stack_before.len() && stack_before[t] == cur_v;
                    assert(stack_pre[t] == cur_v);
                    assert(stack_pre[stack_pre.len() - 1] == cur_v);
                }
            }
            assert forall|x: Seq<char>|
                !stack_before.contains(x) && x != cur_v implies !stack_pre.contains(x) by {
                if stack_pre.contains(x) {
                    let t = choose|t: int| 0 <= t < stack_pre.len() && stack_pre[t] == x;
                    assert(t < stack_pre.len() - 1);
                    assert(stack_before[t] == x);
                }
            }
            assert forall|t: int|
                0 <= t < stack_before.len() implies in_result(
                deps_before,
                t_name,
                #[trigger] stack_before[t],
            ) by {
                assert(stack_pre[t] == stack_before[t]);
            }
        }
        let found = find_index(repos, current.as_str());
        if let Some(idx) = found {
            let dep_count = repos[idx].depends_on.len();
            for k in 0..dep_count
                invariant
                    repos@ == manifest.repos@,
                    t_name == name@,
                    cur_v == current@,
                    idx as int == first_index_named(repos@, cur_v),
                    idx < repos@.len(),
                    dep_count == repos@[idx as int].depends_on@.len(),
                    seq_views(deps@).no_duplicates(),
                    seq_views(stack@).no_duplicates(),
                    !seq_views(deps@).contains(t_name),
                    deps_before.is_prefix_of(seq_views(deps@)),
                    stack@.len() + deps_before.len() == stack_before.len() + seq_views(
                        deps@,
                    ).len(),
                    stack_before.len() < stack_pre.len(),
                    stack_pre.len() == stack_before.len() + 1,
                    forall|t: int|
                        0 <= t < seq_views(deps@).len() ==> all_dep_names(repos@).contains(
                            #[trigger] seq_views(deps@)[t],
                        ),
                    forall|t: int|
                        0 <= t < seq_views(deps@).len() ==> name_reachable(
                            repos@,
                            t_name,
                            #[trigger] seq_views(deps@)[t],
                        ),
                    forall|t: int|
                        0 <= t < seq_views(stack@).len() ==> in_result(
                            seq_views(deps@),
                            t_name,
                            #[trigger] seq_views(stack@)[t],
                        ),
                    forall|x: Seq<char>|
                        #[trigger] in_result(seq_views(deps@), t_name, x) && !seq_views(
                            stack@,
                        ).contains(x) && x != cur_v ==> expanded(
                            repos@,
                            seq_views(deps@),
                            t_name,
                            x,
                        ),
                    in_result(seq_views(deps@), t_name, cur_v),
                    forall|kk: int|
                        0 <= kk < k ==> in_result(
                            seq_views(deps@),
                            t_name,
                            #[trigger] repos@[idx as int].depends_on@[kk]@,
                        ),
                decreases dep_count - k,
            {
                let ghost deps_in = seq_views(deps@);
                let ghost stack_in = seq_views(stack@);
                let dep = &repos[idx].depends_on[k];
                let ghost dep_v = dep@;
                let is_target = {
                    let target_owned = name.to_owned();
                    *dep == target_owned
                };
                if is_target {
                    proof {
                        assert(in_result(seq_views(deps@), t_name, dep_v));
                    }
                } else {
                    let seen = contains_name(&deps, dep.as_str());
                    if !seen {
                        deps.push(dep.clone());
                        stack.push(dep.clone());
                        proof {
                            assert(seq_views(deps@) =~= deps_in.push(dep_v));
                            assert(seq_views(stack@) =~= stack_in.push(dep_v));
                            assert(!stack_in.contains(dep_v)) by {
                                if stack_in.contains(dep_v) {
                                    let t = choose|t: int|
                                        0 <= t < stack_in.len() && stack_in[t] == dep_v;
                                    assert(in_result(deps_in, t_name, stack_in[t]));
                                }
                            }
                            assert(all_dep_names(repos@).contains(dep_v)) by {
                                lemma_dep_name_in_universe(repos@, idx as int, k as int);
                            }
                            assert(name_step(repos@, cur_v, dep_v)) by {
                                assert(repos@[idx as int].depends_on@[k as int]@ == dep_v);
                            }
                            assert(name_reachable(repos@, t_name, dep_v)) by {
                                if cur_v == t_name {
                                    lemma_reach_extend(repos@, t_name, cur_v, dep_v);
                                } else {
                                    assert(deps_in.contains(cur_v));
                                    let t = choose|t: int|
                                        0 <= t < deps_in.len() && deps_in[t] == cur_v;
                                    assert(name_reachable(repos@, t_name, deps_in[t]));
                                    lemma_reach_extend(repos@, t_name, cur_v, dep_v);
                                }
                            }
                            assert forall|t: int|
                                0 <= t < seq_views(deps@).len() implies name_reachable(
                                repos@,
                                t_name,
                                #[trigger] seq_views(deps@)[t],
                            ) by {
                                if t < deps_in.len() {
                                    assert(seq_views(deps@)[t] == deps_in[t]);
                                }
                            }
                            assert forall|t: int|
                                0 <= t < seq_views(deps@).len() implies all_dep_names(
                                repos@,
                            ).contains(#[trigger] seq_views(deps@)[t]) by {
                                if t < deps_in.len() {
                                    assert(seq_views(deps@)[t] == deps_in[t]);
                                }
                            }
                            assert forall|x: Seq<char>|
                                #[trigger] in_result(seq_views(deps@), t_name, x) && !seq_views(
                                    stack@,
                                ).contains(x) && x != cur_v implies expanded(
                                repos@,
                                seq_views(deps@),
                                t_name,
                                x,
                            ) by {
                                assert(x != dep_v);
                                assert(in_result(deps_in, t_name, x));
                                assert(!stack_in.contains(x));
                                assert(expanded(repos@, deps_in, t_name, x));
                                assert forall|y: Seq<char>|
                                    #[trigger] name_step(repos@, x, y) implies in_result(
                                    seq_views(deps@),
                                    t_name,
                                    y,
                                ) by {
                                    assert(in_result(deps_in, t_name, y));
                                }
                            }
                            assert forall|t: int|
                                0 <= t < seq_views(stack@).len() implies in_result(
                                seq_views(deps@),
                                t_name,
                                #[trigger] seq_views(stack@)[t],
                            ) by {
                                if t < stack_in.len() {
                                    assert(seq_views(stack@)[t] == stack_in[t]);
                                    assert(in_result(deps_in, t_name, stack_in[t]));
                                }
                            }
                            assert forall|kk: int| 0 <= kk < k + 1 implies in_result(
                                seq_views(deps@),
                                t_name,
                                #[trigger] repos@[idx as int].depends_on@[kk]@,
                            ) by {
                                if kk < k {
                                    assert(in_result(deps_in, t_name, repos@[idx as int].depends_on@[kk]@));
                                } else {
                                    assert(seq_views(deps@).last() == dep_v);
                                }
                            }
                        }
                    } else {
                        proof {
                            assert(in_result(seq_views(deps@), t_name, dep_v));
                        }
                    }
                }
            }
            proof {
                assert(expanded(repos@, seq_views(deps@), t_name, cur_v)) by {
                    assert forall|y: Seq<char>| #[trigger] name_step(repos@, cur_v, y) implies
                        in_result(seq_views(deps@), t_name, y) by {
                        let kk = choose|kk: int|
                            0 <= kk < repos@[first_index_named(repos@, cur_v)].depends_on@.len()
                                && repos@[first_index_named(repos@, cur_v)].depends_on@[kk]@ == y;
                    }
                }
                assert forall|x: Seq<char>|
                    #[trigger] in_result(seq_views(deps@), t_name, x) && !seq_views(
                        stack@,
                    ).contains(x) implies expanded(repos@, seq_views(deps@), t_name, x) by {
                    if x != cur_v {
                        assert(expanded(repos@, seq_views(deps@), t_name, x));
                    }
                }
            }
        } else {
            proof {
                assert(first_index_named(repos@, cur_v) >= repos@.len());
                assert(expanded(repos@, seq_views(deps@), t_name, cur_v)) by {
                    assert forall|y: Seq<char>| #[trigger] name_step(repos@, cur_v, y) implies
                        in_result(seq_views(deps@), t_name, y) by {
                        assert(first_index_named(repos@, cur_v) < repos@.len());
                    }
                }
                assert forall|x: Seq<char>|
                    #[trigger] in_result(seq_views(deps@), t_name, x) && !seq_views(
                        stack@,
                    ).contains(x) implies expanded(repos@, seq_views(deps@), t_name, x) by {
                    if x != cur_v {
                        assert(in_result(deps_before, t_name, x)) by {
                            if seq_views(deps@).contains(x) {
                            }
                        }
                        assert(!stack_before.contains(x) || x == cur_v);
                        assert(expanded(repos@, deps_before, t_name, x));
                    }
                }
            }
        }
        proof {
            lemma_distinct_within_len(seq_views(deps@), all_dep_names(repos@));
        }
    }
    proof {
        assert(stack@.len() == 0);
        assert forall|x: Seq<char>|
            #[trigger] seq_views(deps@).contains(x) implies (name_reachable(repos@, t_name, x)
                && x != t_name) by {
            let t = choose|t: int| 0 <= t < seq_views(deps@).len() && seq_views(deps@)[t] == x;
            assert(name_reachable(repos@, t_name, seq_views(deps@)[t]));
        }
        assert forall|x: Seq<char>|
            name_reachable(repos@, t_name, x) && x != t_name implies #[trigger] seq_views(
            deps@,
        ).contains(x) by {
            let p = choose|p: Seq<Seq<char>>|
                #[trigger] name_path(repos@, p) && p.len() >= 2 && p[0] == t_name && p.last()
                    == x;
            assert(seq_views(stack@) =~= Seq::<Seq<char>>::empty());
            assert forall|z: Seq<char>| #[trigger] in_result(seq_views(deps@), t_name, z) implies
                expanded(repos@, seq_views(deps@), t_name, z) by {
                assert(!seq_views(stack@).contains(z));
            }
            lemma_closed_collects_path(repos@, seq_views(deps@), t_name, p, p.len() - 1);
            assert(in_result(seq_views(deps@), t_name, x));
        }
    }
    deps
}

} // verus!
