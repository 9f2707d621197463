//! Ranking removable dependencies by the rebuild triggers they carry.
//!
//! A transitive dependency pulled in through two or more distinct
//! dependency-list slots anywhere in a target's closure is a "diamond":
//! removing any single edge to it cannot eliminate it. The detector walks
//! the closure once, keeping a set of labels already encountered; a label
//! met a second time goes into the duplicate set. The subtree that one
//! immediate dependency contributes exclusively is what a walk from it
//! reaches while staying clear of the duplicates, and the ranker scores
//! each non-duplicated immediate dependency by the commits that touch its
//! exclusive subtree.

use vstd::prelude::*;

use crate::bazel::BazelDependencyGraph;
use crate::bazel::clone_string_vec;
use crate::collections::StrSet;
use crate::collections::str_views;
use crate::chars::has_prefix;
use crate::errors::AnalysisError;
use crate::git::GitRepo;
use crate::git::RepoModel;
use crate::reach::GraphModel;
use crate::reach::count_in;
use crate::reach::has_edge;
use crate::reach::is_path;
use crate::reach::lemma_closed_set_contains_closure;
use crate::reach::lemma_count_in_concat;
use crate::reach::lemma_count_in_push;
use crate::reach::lemma_reaches_self;
use crate::reach::lemma_slot_count_pos;
use crate::reach::lemma_slot_count_push;
use crate::reach::lemma_slot_count_two;
use crate::reach::lemma_step_reaches;
use crate::reach::reaches;
use crate::reach::slot_count;
use crate::trigger_scores::is_wildcard;
use crate::trigger_scores::calc_ok;
use crate::trigger_scores::calculate_trigger_scores;
use crate::trigger_scores::resolved_ok;
use crate::trigger_scores::specific_commits;
use crate::trigger_scores::visited_set;

verus! {

/// Slot `i` of the dependency list of `s`, a source inside the closure of
/// `t`, holds the label `d`.
pub open spec fn dep_slot(g: GraphModel, t: Seq<char>, s: Seq<char>, i: int, d: Seq<char>) -> bool {
    &&& reaches(g, t, s)
    &&& g.contains_key(s)
    &&& 0 <= i < g[s].deps.len()
    &&& g[s].deps[i] == d
}

/// `d` is reached through two or more distinct dependency-list slots in the
/// closure of `t`; the seed itself is a duplicate as soon as one slot leads
/// back to it.
pub open spec fn is_duplicate(g: GraphModel, t: Seq<char>, d: Seq<char>) -> bool {
    ||| exists|s1: Seq<char>, i1: int, s2: Seq<char>, i2: int|
        #![trigger dep_slot(g, t, s1, i1, d), dep_slot(g, t, s2, i2, d)]
        dep_slot(g, t, s1, i1, d) && dep_slot(g, t, s2, i2, d) && (s1 != s2 || i1 != i2)
    ||| (d == t && exists|s: Seq<char>, i: int| dep_slot(g, t, s, i, d))
}

/// All labels pulled in through several distinct slots under `t`.
pub open spec fn duplicate_set(g: GraphModel, t: Seq<char>) -> Set<Seq<char>> {
    Set::new(|d: Seq<char>| is_duplicate(g, t, d))
}

/// Every label in the closure of `t` is present in the graph.
pub open spec fn closure_in_graph(g: GraphModel, t: Seq<char>) -> bool {
    forall|x: Seq<char>| reaches(g, t, x) ==> g.contains_key(x)
}

/// `p` leads from `a` to `b` and none of its labels lies in `avoid`.
pub open spec fn reaches_avoiding(
    g: GraphModel,
    a: Seq<char>,
    b: Seq<char>,
    avoid: Set<Seq<char>>,
) -> bool {
    exists|p: Seq<Seq<char>>|
        {
            &&& p.len() >= 1 && p.first() == a && p.last() == b && is_path(g, p)
            &&& forall|i: int| 0 <= i < p.len() ==> !avoid.contains(#[trigger] p[i])
        }
}

/// Like `reaches_avoiding`, but the last label of the path may lie in
/// `avoid`: the walk has found `b` without yet deciding to enter it.
pub open spec fn reaches_avoiding_mid(
    g: GraphModel,
    a: Seq<char>,
    b: Seq<char>,
    avoid: Set<Seq<char>>,
) -> bool {
    exists|p: Seq<Seq<char>>|
        {
            &&& p.len() >= 1 && p.first() == a && p.last() == b && is_path(g, p)
            &&& forall|i: int| 0 <= i < p.len() - 1 ==> !avoid.contains(#[trigger] p[i])
        }
}

/// The labels that belong exclusively to the subtree of `d` once everything
/// in `avoid` is cut away.
pub open spec fn unique_reach_set(g: GraphModel, d: Seq<char>, avoid: Set<Seq<char>>) -> Set<
    Seq<char>,
> {
    Set::new(|x: Seq<char>| reaches_avoiding(g, d, x, avoid))
}

proof fn lemma_avoiding_mid_self(g: GraphModel, a: Seq<char>, avoid: Set<Seq<char>>)
    ensures
        reaches_avoiding_mid(g, a, a, avoid),
{
    let p = seq![a];
    assert(p.len() >= 1 && p.first() == a && p.last() == a && is_path(g, p));
    assert(forall|i: int| 0 <= i < p.len() - 1 ==> !avoid.contains(#[trigger] p[i]));
}

/// A found label outside `avoid` is properly reached.
proof fn lemma_avoiding_mid_to_full(
    g: GraphModel,
    a: Seq<char>,
    b: Seq<char>,
    avoid: Set<Seq<char>>,
)
    requires
        reaches_avoiding_mid(g, a, b, avoid),
        !avoid.contains(b),
    ensures
        reaches_avoiding(g, a, b, avoid),
{
    let p = choose|p: Seq<Seq<char>>|
        {
            &&& p.len() >= 1 && p.first() == a && p.last() == b && is_path(g, p)
            &&& forall|i: int| 0 <= i < p.len() - 1 ==> !avoid.contains(#[trigger] p[i])
        };
    assert forall|i: int| 0 <= i < p.len() implies !avoid.contains(#[trigger] p[i]) by {
        if i == p.len() - 1 {
            assert(p[i] == b);
        }
    }
}

/// Stepping over one edge from a properly reached label finds its target.
proof fn lemma_avoiding_step(
    g: GraphModel,
    a: Seq<char>,
    x: Seq<char>,
    d: Seq<char>,
    avoid: Set<Seq<char>>,
)
    requires
        reaches_avoiding(g, a, x, avoid),
        has_edge(g, x, d),
    ensures
        reaches_avoiding_mid(g, a, d, avoid),
{
    let p = choose|p: Seq<Seq<char>>|
        {
            &&& p.len() >= 1 && p.first() == a && p.last() == x && is_path(g, p)
            &&& forall|i: int| 0 <= i < p.len() ==> !avoid.contains(#[trigger] p[i])
        };
    let q = p.push(d);
    assert forall|i: int| 0 <= i < q.len() - 1 implies has_edge(g, #[trigger] q[i], q[i + 1]) by {
        if i < p.len() - 1 {
            assert(q[i] == p[i] && q[i + 1] == p[i + 1]);
            assert(has_edge(g, p[i], p[i + 1]));
        } else {
            assert(q[i] == x && q[i + 1] == d);
        }
    }
    assert forall|i: int| 0 <= i < q.len() - 1 implies !avoid.contains(#[trigger] q[i]) by {
        assert(q[i] == p[i]);
    }
    assert(q.len() >= 1 && q.first() == a && q.last() == d && is_path(g, q));
}

/// A set that contains the start of an avoiding path and is closed under
/// edges into labels outside `avoid` contains the path's end.
proof fn lemma_avoid_closed_set(
    g: GraphModel,
    s: Set<Seq<char>>,
    avoid: Set<Seq<char>>,
    p: Seq<Seq<char>>,
)
    requires
        is_path(g, p),
        p.len() >= 1,
        s.contains(p.first()),
        forall|i: int| 0 <= i < p.len() ==> !avoid.contains(#[trigger] p[i]),
        forall|x: Seq<char>, y: Seq<char>|
            s.contains(x) && has_edge(g, x, y) && !avoid.contains(y) ==> s.contains(y),
    ensures
        s.contains(p.last()),
    decreases p.len(),
{
    if p.len() > 1 {
        assert(has_edge(g, p[0], p[1]));
        assert(!avoid.contains(p[1]));
        let t = p.subrange(1, p.len() as int);
        assert forall|i: int| 0 <= i < t.len() - 1 implies has_edge(g, #[trigger] t[i], t[i + 1]) by {
            assert(t[i] == p[i + 1] && t[i + 1] == p[i + 2]);
            assert(has_edge(g, p[i + 1], p[i + 2]));
        }
        assert forall|i: int| 0 <= i < t.len() implies !avoid.contains(#[trigger] t[i]) by {
            assert(t[i] == p[i + 1]);
        }
        lemma_avoid_closed_set(g, s, avoid, t);
    }
}

/// Gets all unique dependencies that would be removed if the given
/// dependency edge were removed: exactly the labels reachable from `dep`
/// along paths that stay clear of `duplicate_deps`. Fails with `NotFound`
/// exactly when such a label is absent from the graph.
pub fn get_unique_deps(
    dep: &String,
    deps_graph: &BazelDependencyGraph,
    duplicate_deps: &StrSet,
) -> (r: Result<StrSet, AnalysisError>)
    requires
        deps_graph.wf(),
        duplicate_deps.wf(),
    ensures
        match r {
            Ok(u) => {
                &&& u.wf()
                &&& u@ == unique_reach_set(deps_graph@, dep@, duplicate_deps@)
                &&& forall|x: Seq<char>|
                    reaches_avoiding(deps_graph@, dep@, x, duplicate_deps@)
                        ==> deps_graph@.contains_key(x)
            },
            Err(e) => match e {
                AnalysisError::NotFound(l) => reaches_avoiding(
                    deps_graph@,
                    dep@,
                    l@,
                    duplicate_deps@,
                ) && !deps_graph@.contains_key(l@),
                _ => false,
            },
        },
{
    let ghost g = deps_graph@;
    let ghost dv = dep@;
    let ghost avoid = duplicate_deps@;
    let mut unique = StrSet::new();
    let mut pending: Vec<String> = Vec::new();
    pending.push(dep.clone());
    proof {
        lemma_avoiding_mid_self(g, dv, avoid);
        assert(str_views(pending@).len() == 1 && str_views(pending@)[0] == dv);
    }
    while pending.len() > 0
        invariant
            deps_graph.wf(),
            duplicate_deps.wf(),
            g == deps_graph@,
            dv == dep@,
            avoid == duplicate_deps@,
            unique.wf(),
            forall|x: Seq<char>| #[trigger]
                unique@.contains(x) ==> reaches_avoiding(g, dv, x, avoid) && g.contains_key(x)
                    && !avoid.contains(x),
            forall|j: int|
                0 <= j < pending@.len() ==> reaches_avoiding_mid(
                    g,
                    dv,
                    #[trigger] str_views(pending@)[j],
                    avoid,
                ),
            forall|x: Seq<char>, y: Seq<char>|
                unique@.contains(x) && has_edge(g, x, y) ==> avoid.contains(y) || unique@.contains(
                    y,
                ) || str_views(pending@).contains(y),
            avoid.contains(dv) || unique@.contains(dv) || str_views(pending@).contains(dv),
        decreases g.dom().len() - unique@.len(), pending.len(),
    {
        proof {
            deps_graph.lemma_dom();
            assert(unique@.subset_of(g.dom()));
            vstd::set_lib::lemma_len_subset(unique@, g.dom());
        }
        let ghost pmap_pre = str_views(pending@);
        let x = pending.pop().unwrap();
        let ghost xv = x@;
        proof {
            assert(str_views(pending@) =~= pmap_pre.drop_last());
            assert(pmap_pre[pmap_pre.len() - 1] == xv);
            assert(reaches_avoiding_mid(g, dv, xv, avoid));
            assert forall|a2: Seq<char>, b2: Seq<char>|
                unique@.contains(a2) && has_edge(g, a2, b2) && pmap_pre.contains(b2) && b2 != xv
                    implies str_views(pending@).contains(b2) by {
                let j = choose|j: int| 0 <= j < pmap_pre.len() && pmap_pre[j] == b2;
                assert(j < pmap_pre.len() - 1);
                assert(str_views(pending@)[j] == b2);
            }
        }
        if duplicate_deps.contains(&x) {
            proof {
                if !avoid.contains(dv) && !unique@.contains(dv) {
                    let j = choose|j: int| 0 <= j < pmap_pre.len() && pmap_pre[j] == dv;
                    if j == pmap_pre.len() - 1 {
                        assert(xv == dv);
                    } else {
                        assert(str_views(pending@)[j] == dv);
                        assert(str_views(pending@).contains(dv));
                    }
                }
            }
            continue;
        }
        if unique.contains(&x) {
            proof {
                if !avoid.contains(dv) && !unique@.contains(dv) {
                    let j = choose|j: int| 0 <= j < pmap_pre.len() && pmap_pre[j] == dv;
                    if j == pmap_pre.len() - 1 {
                        assert(xv == dv);
                    } else {
                        assert(str_views(pending@)[j] == dv);
                        assert(str_views(pending@).contains(dv));
                    }
                }
            }
            continue;
        }
        proof {
            lemma_avoiding_mid_to_full(g, dv, xv, avoid);
        }
        let entry = match deps_graph.get_entry(&x) {
            Some(e) => e,
            None => {
                return Err(AnalysisError::NotFound(x));
            },
        };
        let mut fresh = clone_string_vec(&entry.dep_targets);
        let ghost pend_mid = str_views(pending@);
        let ghost u_pre = unique@;
        unique.insert(x);
        pending.append(&mut fresh);
        proof {
            assert(str_views(pending@) =~= pend_mid + g[xv].deps);
            unique.lemma_len();
            assert forall|j: int| 0 <= j < pending@.len() implies reaches_avoiding_mid(
                g,
                dv,
                #[trigger] str_views(pending@)[j],
                avoid,
            ) by {
                if j >= pend_mid.len() {
                    let d2 = g[xv].deps[j - pend_mid.len()];
                    assert(str_views(pending@)[j] == d2);
                    assert(g[xv].deps.contains(d2));
                    assert(has_edge(g, xv, d2));
                    lemma_avoiding_step(g, dv, xv, d2, avoid);
                } else {
                    assert(str_views(pending@)[j] == pend_mid[j]);
                }
            }
            assert forall|a2: Seq<char>, b2: Seq<char>|
                unique@.contains(a2) && has_edge(g, a2, b2) implies avoid.contains(b2)
                || unique@.contains(b2) || str_views(pending@).contains(b2) by {
                if a2 == xv {
                    let i = choose|i: int| 0 <= i < g[xv].deps.len() && g[xv].deps[i] == b2;
                    assert(str_views(pending@)[pend_mid.len() + i] == b2);
                } else {
                    assert(u_pre.contains(a2));
                    if !avoid.contains(b2) && !unique@.contains(b2) {
                        assert(pend_mid.contains(b2));
                        let j = choose|j: int| 0 <= j < pend_mid.len() && pend_mid[j] == b2;
                        assert(str_views(pending@)[j] == b2);
                    }
                }
            }
            assert(avoid.contains(dv) || unique@.contains(dv) || str_views(pending@).contains(dv))
                by {
                if !avoid.contains(dv) && !unique@.contains(dv) {
                    assert(pmap_pre.contains(dv));
                    let j0 = choose|j: int| 0 <= j < pmap_pre.len() && pmap_pre[j] == dv;
                    if j0 == pmap_pre.len() - 1 {
                        assert(dv == xv);
                    } else {
                        assert(pend_mid[j0] == dv);
                        assert(str_views(pending@)[j0] == dv);
                        assert(str_views(pending@).contains(dv));
                    }
                }
            }
            deps_graph.lemma_dom();
            assert forall|a: Seq<char>| unique@.contains(a) implies g.dom().contains(a) by {}
            assert(unique@.subset_of(g.dom()));
            vstd::set_lib::lemma_len_subset(unique@, g.dom());
        }
    }
    proof {
        assert(str_views(pending@) =~= Seq::<Seq<char>>::empty());
        assert forall|x: Seq<char>| #[trigger] reaches_avoiding(g, dv, x, avoid) implies unique@
            .contains(x) by {
            let p = choose|p: Seq<Seq<char>>|
                {
                    &&& p.len() >= 1 && p.first() == dv && p.last() == x && is_path(g, p)
                    &&& forall|i: int| 0 <= i < p.len() ==> !avoid.contains(#[trigger] p[i])
                };
            assert(!avoid.contains(dv));
            assert(unique@.contains(dv));
            lemma_avoid_closed_set(g, unique@, avoid, p);
        }
        assert(unique@ =~= unique_reach_set(g, dv, avoid));
    }
    Ok(unique)
}
pub fn find_duplicate_deps(target: &String, deps_graph: &BazelDependencyGraph) -> (r: Result<
    StrSet,
    AnalysisError,
>)
    requires
        deps_graph.wf(),
    ensures
        match r {
            Ok(dups) => {
                &&& dups.wf()
                &&& closure_in_graph(deps_graph@, target@)
                &&& dups@ == duplicate_set(deps_graph@, target@)
            },
            Err(e) => match e {
                AnalysisError::NotFound(l) => reaches(deps_graph@, target@, l@)
                    && !deps_graph@.contains_key(l@),
                _ => false,
            },
        },
{
    let ghost g = deps_graph@;
    let ghost tv = target@;
    proof {
        lemma_reaches_self(g, tv);
        deps_graph.lemma_dom();
    }
    let entry0 = match deps_graph.get_entry(target) {
        Some(e) => e,
        None => {
            return Err(AnalysisError::NotFound(target.clone()));
        },
    };
    let mut seen = StrSet::new();
    seen.insert(target.clone());
    let mut dups = StrSet::new();
    let mut pending: Vec<String> = clone_string_vec(&entry0.dep_targets);
    let ghost mut vs: Seq<Seq<char>> = seq![tv];
    let ghost mut scanned: Seq<Seq<char>> = Seq::empty();
    proof {
        assert(str_views(pending@) =~= g[tv].deps);
        assert forall|a: Seq<char>| vs.to_set().contains(a) <==> a == tv by {
            if vs.to_set().contains(a) {
                let i = choose|i: int| 0 <= i < vs.len() && vs[i] == a;
                assert(i == 0);
            }
            if a == tv {
                assert(vs[0] == a);
                assert(vs.contains(a));
            }
        }
        assert(seen@ =~= vs.to_set());
        assert(vs.len() == 1 && vs.last() == tv);
        assert(vs.drop_last() =~= Seq::<Seq<char>>::empty());
        assert forall|d: Seq<char>| #[trigger] slot_count(g, vs, d) == count_in(scanned, d)
            + count_in(str_views(pending@), d) by {
            assert(slot_count(g, vs.drop_last(), d) == 0);
            assert(slot_count(g, vs, d) == slot_count(g, vs.drop_last(), d) + count_in(
                g[vs.last()].deps,
                d,
            ));
            assert(count_in(scanned, d) == 0);
            assert(count_in(str_views(pending@), d) == count_in(g[tv].deps, d));
        }
        assert(seen@.len() == vs.len()) by {
            seen.lemma_len();
        }
        assert forall|j: int| 0 <= j < pending@.len() implies reaches(
            g,
            tv,
            #[trigger] str_views(pending@)[j],
        ) by {
            let dep = g[tv].deps[j];
            assert(str_views(pending@)[j] == dep);
            assert(g[tv].deps.contains(dep));
            assert(has_edge(g, tv, dep));
            lemma_reaches_self(g, dep);
            lemma_step_reaches(g, tv, dep, dep);
        }
    }
    while pending.len() > 0
        invariant
            deps_graph.wf(),
            g == deps_graph@,
            tv == target@,
            seen.wf(),
            dups.wf(),
            vs.no_duplicates(),
            vs.len() >= 1,
            vs[0] == tv,
            seen@ == vs.to_set(),
            seen@.len() == vs.len(),
            forall|k: int|
                0 <= k < vs.len() ==> g.contains_key(#[trigger] vs[k]) && reaches(g, tv, vs[k]),
            forall|j: int|
                0 <= j < pending@.len() ==> reaches(g, tv, #[trigger] str_views(pending@)[j]),
            forall|d: Seq<char>| #[trigger] slot_count(g, vs, d) == count_in(scanned, d)
                + count_in(str_views(pending@), d),
            forall|x: Seq<char>| #[trigger] seen@.contains(x) <==> (x == tv || count_in(scanned, x)
                >= 1),
            forall|d: Seq<char>| #[trigger] dups@.contains(d) <==> (count_in(scanned, d) >= 2 || (
            count_in(scanned, d) >= 1 && d == tv)),
        decreases g.dom().len() - seen@.len(), pending.len(),
    {
        proof {
            deps_graph.lemma_dom();
            assert forall|a: Seq<char>| seen@.contains(a) implies g.dom().contains(a) by {
                assert(vs.contains(a));
                let k = choose|k: int| 0 <= k < vs.len() && vs[k] == a;
            }
            assert(seen@.subset_of(g.dom()));
            vstd::set_lib::lemma_len_subset(seen@, g.dom());
        }
        let ghost pmap_pre = str_views(pending@);
        let d = pending.pop().unwrap();
        let ghost dv = d@;
        proof {
            assert(str_views(pending@) =~= pmap_pre.drop_last());
            assert(pmap_pre.last() == dv);
            assert(pmap_pre[pmap_pre.len() - 1] == dv);
            assert(reaches(g, tv, dv));
        }
        let was_seen = seen.contains(&d);
        let ghost scanned_pre = scanned;
        proof {
            scanned = scanned.push(dv);
            assert forall|x: Seq<char>| #[trigger] count_in(scanned, x) == count_in(scanned_pre, x)
                + (if x == dv {
                1nat
            } else {
                0nat
            }) by {
                lemma_count_in_push(scanned_pre, dv, x);
            }
            assert forall|x: Seq<char>| #[trigger] count_in(pmap_pre, x) == count_in(
                str_views(pending@),
                x,
            ) + (if x == dv {
                1nat
            } else {
                0nat
            }) by {
                assert(pmap_pre =~= str_views(pending@).push(dv));
                lemma_count_in_push(str_views(pending@), dv, x);
            }
        }
        if was_seen {
            dups.insert(d);
        } else {
            let entry = match deps_graph.get_entry(&d) {
                Some(e) => e,
                None => {
                    return Err(AnalysisError::NotFound(d));
                },
            };
            let mut fresh = clone_string_vec(&entry.dep_targets);
            let ghost vs_pre = vs;
            let ghost pend_mid = str_views(pending@);
            seen.insert(d);
            pending.append(&mut fresh);
            proof {
                vs = vs.push(dv);
                assert(seen@ =~= vs.to_set()) by {
                    vs_pre.lemma_push_to_set_commute(dv);
                }
                assert(str_views(pending@) =~= pend_mid + g[dv].deps);
                seen.lemma_len();
                assert(seen@.len() == vs.len());
                assert forall|d2: Seq<char>| #[trigger] slot_count(g, vs, d2) == count_in(
                    scanned,
                    d2,
                ) + count_in(str_views(pending@), d2) by {
                    lemma_slot_count_push(g, vs_pre, dv, d2);
                    lemma_count_in_concat(pend_mid, g[dv].deps, d2);
                }
                assert forall|j: int| 0 <= j < pending@.len() implies reaches(
                    g,
                    tv,
                    #[trigger] str_views(pending@)[j],
                ) by {
                    if j >= pend_mid.len() {
                        let dep = g[dv].deps[j - pend_mid.len()];
                        assert(str_views(pending@)[j] == dep);
                        assert(g[dv].deps.contains(dep));
                        assert(has_edge(g, dv, dep));
                        lemma_reaches_self(g, dep);
                        lemma_step_reaches(g, dv, dep, dep);
                        crate::reach::lemma_reaches_trans(g, tv, dv, dep);
                    }
                }
            }
        }
        proof {
            deps_graph.lemma_dom();
            assert forall|a: Seq<char>| seen@.contains(a) implies g.dom().contains(a) by {
                assert(vs.contains(a));
                let k = choose|k: int| 0 <= k < vs.len() && vs[k] == a;
            }
            assert(seen@.subset_of(g.dom()));
            vstd::set_lib::lemma_len_subset(seen@, g.dom());
        }
    }
    proof {
        assert(str_views(pending@) =~= Seq::<Seq<char>>::empty());
        assert forall|d: Seq<char>| #[trigger] count_in(scanned, d) == slot_count(g, vs, d) by {
            assert(slot_count(g, vs, d) == count_in(scanned, d) + count_in(str_views(pending@), d));
        }
        // the encountered set is closed under dependency edges
        assert forall|x: Seq<char>, y: Seq<char>|
            seen@.contains(x) && has_edge(g, x, y) implies seen@.contains(y) by {
            assert(vs.to_set().contains(x));
            assert(vs.contains(x));
            let k = choose|k: int| 0 <= k < vs.len() && vs[k] == x;
            let i = choose|i: int| 0 <= i < g[x].deps.len() && g[x].deps[i] == y;
            assert(g.contains_key(vs[k]) && 0 <= i < g[vs[k]].deps.len() && g[vs[k]].deps[i] == y);
            lemma_slot_count_pos(g, vs, y);
            assert(slot_count(g, vs, y) >= 1);
        }
        // hence it is exactly the closure of the target
        assert forall|x: Seq<char>| #[trigger] reaches(g, tv, x) implies seen@.contains(x) by {
            assert(vs.to_set().contains(vs[0]));
            lemma_closed_set_contains_closure(g, seen@, tv, x);
        }
        assert(closure_in_graph(g, tv)) by {
            assert forall|x: Seq<char>| #[trigger] reaches(g, tv, x) implies g.contains_key(x) by {
                assert(seen@.contains(x));
                assert(vs.contains(x));
                let k = choose|k: int| 0 <= k < vs.len() && vs[k] == x;
            }
        }
        // the collected labels are exactly the duplicate set
        assert forall|d: Seq<char>| #[trigger] dups@.contains(d) == is_duplicate(g, tv, d) by {
            lemma_slot_count_pos(g, vs, d);
            lemma_slot_count_two(g, vs, d);
            if dups@.contains(d) {
                if count_in(scanned, d) >= 2 {
                    let (k1, i1, k2, i2) = choose|k1: int, i1: int, k2: int, i2: int|
                        {
                            &&& 0 <= k1 < vs.len() && g.contains_key(vs[k1])
                            &&& 0 <= i1 < g[vs[k1]].deps.len() && g[vs[k1]].deps[i1] == d
                            &&& 0 <= k2 < vs.len() && g.contains_key(vs[k2])
                            &&& 0 <= i2 < g[vs[k2]].deps.len() && g[vs[k2]].deps[i2] == d
                            &&& (k1 != k2 || i1 != i2)
                        };
                    assert(dep_slot(g, tv, vs[k1], i1, d) && dep_slot(g, tv, vs[k2], i2, d));
                    if k1 != k2 {
                        assert(vs[k1] != vs[k2]);
                    }
                } else {
                    assert(d == tv && count_in(scanned, d) >= 1);
                    let (k, i) = choose|k: int, i: int|
                        0 <= k < vs.len() && g.contains_key(vs[k]) && 0 <= i < g[vs[k]].deps.len()
                            && g[vs[k]].deps[i] == d;
                    assert(dep_slot(g, tv, vs[k], i, d));
                }
            }
            if is_duplicate(g, tv, d) {
                if exists|s1: Seq<char>, i1: int, s2: Seq<char>, i2: int|
                    #![trigger dep_slot(g, tv, s1, i1, d), dep_slot(g, tv, s2, i2, d)]
                    dep_slot(g, tv, s1, i1, d) && dep_slot(g, tv, s2, i2, d) && (s1 != s2 || i1
                        != i2) {
                    let (s1, i1, s2, i2) = choose|s1: Seq<char>, i1: int, s2: Seq<char>, i2: int|
                        #![trigger dep_slot(g, tv, s1, i1, d), dep_slot(g, tv, s2, i2, d)]
                        dep_slot(g, tv, s1, i1, d) && dep_slot(g, tv, s2, i2, d) && (s1 != s2 || i1
                            != i2);
                    assert(seen@.contains(s1) && seen@.contains(s2));
                    assert(vs.contains(s1) && vs.contains(s2));
                    let k1 = choose|k: int| 0 <= k < vs.len() && vs[k] == s1;
                    let k2 = choose|k: int| 0 <= k < vs.len() && vs[k] == s2;
                    assert(g[vs[k1]].deps[i1] == d && g[vs[k2]].deps[i2] == d);
                    assert(k1 != k2 || i1 != i2);
                    assert(slot_count(g, vs, d) >= 2);
                } else {
                    let (s, i) = choose|s: Seq<char>, i: int| dep_slot(g, tv, s, i, d);
                    assert(seen@.contains(s));
                    assert(vs.contains(s));
                    let k = choose|k: int| 0 <= k < vs.len() && vs[k] == s;
                    assert(g.contains_key(vs[k]) && g[vs[k]].deps[i] == d);
                    assert(slot_count(g, vs, d) >= 1);
                    assert(d == tv);
                }
            }
        }
        assert(dups@ =~= duplicate_set(g, tv));
    }
    Ok(dups)
}

/// A removable-dependency candidate: the label of one immediate dependency
/// and the number of distinct commits that would stop triggering the
/// analyzed target if its edge were removed.
pub struct Dependency {
    pub name: String,
    pub score: usize,
}

/// The label and score of each candidate, as plain values.
pub open spec fn pairs_of(s: Seq<Dependency>) -> Seq<(Seq<char>, nat)> {
    s.map_values(|d: Dependency| (d.name@, d.score as nat))
}

/// Insert into a descending list, after every entry scoring at least as
/// much: equal scores keep their earlier position.
pub open spec fn insert_desc(s: Seq<(Seq<char>, nat)>, x: (Seq<char>, nat)) -> Seq<
    (Seq<char>, nat),
>
    decreases s.len(),
{
    if s.len() == 0 {
        seq![x]
    } else if s.first().1 >= x.1 {
        seq![s.first()] + insert_desc(s.drop_first(), x)
    } else {
        seq![x] + s
    }
}

/// Stable sort by descending score: ties keep the order they arrived in.
pub open spec fn sort_desc(s: Seq<(Seq<char>, nat)>) -> Seq<(Seq<char>, nat)>
    decreases s.len(),
{
    if s.len() == 0 {
        s
    } else {
        insert_desc(sort_desc(s.drop_last()), s.last())
    }
}

/// The commits that would stop triggering `t` if the edge to its immediate
/// dependency `d` were removed: those touching the sources of a label that
/// only the subtree of `d` pulls in.
pub open spec fn candidate_commits(
    g: GraphModel,
    rm: RepoModel,
    t: Seq<char>,
    d: Seq<char>,
) -> Set<Seq<char>> {
    Set::new(
        |c: Seq<char>|
            exists|u: Seq<char>|
                reaches_avoiding(g, d, u, duplicate_set(g, t)) && #[trigger] specific_commits(
                    g,
                    rm,
                    u,
                ).contains(c),
    )
}

/// The candidates of the first `k` declared dependencies of `t`, in
/// declaration order, skipping duplicated dependencies.
pub open spec fn candidate_pairs(g: GraphModel, rm: RepoModel, t: Seq<char>, k: int) -> Seq<
    (Seq<char>, nat),
>
    decreases k,
{
    if k <= 0 {
        Seq::empty()
    } else {
        candidate_pairs(g, rm, t, k - 1) + if is_duplicate(g, t, g[t].deps[k - 1]) {
            Seq::empty()
        } else {
            seq![
                (g[t].deps[k - 1], candidate_commits(g, rm, t, g[t].deps[k - 1]).len() as nat),
            ]
        }
    }
}

/// Inserting at the position found by scanning over the entries that score
/// at least as much matches the specified insertion.
proof fn lemma_insert_desc_at(s: Seq<(Seq<char>, nat)>, x: (Seq<char>, nat), p: int)
    requires
        0 <= p <= s.len(),
        forall|q: int| 0 <= q < p ==> s[q].1 >= x.1,
        p == s.len() || s[p].1 < x.1,
    ensures
        insert_desc(s, x) == s.take(p) + seq![x] + s.skip(p),
    decreases s.len(),
{
    if s.len() == 0 {
        assert(insert_desc(s, x) =~= s.take(p) + seq![x] + s.skip(p));
    } else if p == 0 {
        assert(s[0].1 < x.1);
        assert(insert_desc(s, x) =~= s.take(0) + seq![x] + s.skip(0));
    } else {
        assert(s[0].1 >= x.1);
        let t = s.drop_first();
        assert forall|q: int| 0 <= q < p - 1 implies t[q].1 >= x.1 by {
            assert(t[q] == s[q + 1]);
        }
        assert(p - 1 == t.len() || t[p - 1].1 < x.1);
        lemma_insert_desc_at(t, x, p - 1);
        assert(insert_desc(s, x) =~= s.take(p) + seq![x] + s.skip(p));
    }
}

/// No candidate in the list is a duplicated dependency of `t`.
pub open spec fn no_duplicate_candidates(g: GraphModel, t: Seq<char>, v: Seq<Dependency>) -> bool {
    forall|j: int| 0 <= j < v.len() ==> !is_duplicate(g, t, #[trigger] v[j].name@)
}

/// Calculates which dependencies would save the most triggers if removed:
/// one candidate per immediate dependency of `target` that is not itself
/// duplicated, scored by the commits its exclusive subtree contributes, in
/// descending score order with ties in declaration order.
#[verifier::rlimit(100)]
pub fn most_unique_triggers(
    target: &String,
    repo: &GitRepo,
    deps_graph: &BazelDependencyGraph,
) -> (r: Result<Vec<Dependency>, AnalysisError>)
    requires
        deps_graph.wf(),
        repo.wf(),
        crate::trigger_scores::graph_sources_wf(deps_graph@),
    ensures
        match r {
            Ok(v) => {
                &&& calc_ok(deps_graph@, target@)
                &&& deps_graph@.contains_key(target@)
                &&& pairs_of(v@) == sort_desc(
                    candidate_pairs(
                        deps_graph@,
                        repo@,
                        target@,
                        deps_graph@[target@].deps.len() as int,
                    ),
                )
                &&& no_duplicate_candidates(deps_graph@, target@, v@)
            },
            Err(e) => match e {
                AnalysisError::NotFound(l) => !deps_graph@.contains_key(l@) && (visited_set(
                    deps_graph@,
                    target@,
                ).contains(l@) || l@ == target@),
                AnalysisError::CycleDetected(l) => crate::reach::on_cycle(deps_graph@, l@)
                    && visited_set(deps_graph@, target@).contains(l@),
                AnalysisError::Inconsistent(_) => false,
            },
        },
{
    let ghost g = deps_graph@;
    let ghost rm = repo@;
    let ghost tv = target@;
    let scores_by_target = match calculate_trigger_scores(target, repo, deps_graph) {
        Ok(m) => m,
        Err(e) => {
            return Err(e);
        },
    };
    let target_rule = match deps_graph.get_entry(target) {
        Some(e) => e,
        None => {
            return Err(AnalysisError::NotFound(target.clone()));
        },
    };
    let duplicate_deps = match find_duplicate_deps(target, deps_graph) {
        Ok(dups) => dups,
        Err(e) => {
            proof {
                match &e {
                    AnalysisError::NotFound(l) => {
                        assert(crate::trigger_scores::seeds_set(g, tv).contains(tv)) by {
                            if is_wildcard(tv) {
                                assert(has_prefix(tv, crate::trigger_scores::wildcard_prefix(tv)));
                            }
                        }
                        assert(visited_set(g, tv).contains(l@));
                        assert(g.contains_key(l@));
                        assert(false);
                    },
                    _ => {},
                }
            }
            return Err(e);
        },
    };
    let ghost avoid = duplicate_set(g, tv);
    let ghost ds = g[tv].deps;
    let mut cands: Vec<Dependency> = Vec::new();
    let mut di: usize = 0;
    proof {
        assert(target_rule@ == g[tv]);
        assert(pairs_of(cands@) =~= candidate_pairs(g, rm, tv, 0));
        assert(crate::trigger_scores::seeds_set(g, tv).contains(tv)) by {
            if is_wildcard(tv) {
                assert(has_prefix(tv, crate::trigger_scores::wildcard_prefix(tv)));
            }
        }
    }
    while di < target_rule.dep_targets.len()
        invariant
            deps_graph.wf(),
            repo.wf(),
            g == deps_graph@,
            rm == repo@,
            tv == target@,
            g.contains_key(tv),
            calc_ok(g, tv),
            target_rule@ == g[tv],
            ds == g[tv].deps,
            target_rule.dep_targets@.len() == ds.len(),
            di <= target_rule.dep_targets.len(),
            duplicate_deps.wf(),
            duplicate_deps@ == avoid,
            avoid == duplicate_set(g, tv),
            crate::trigger_scores::seeds_set(g, tv).contains(tv),
            scores_by_target.wf(),
            scores_by_target@.dom() == visited_set(g, tv),
            forall|l: Seq<char>| #[trigger]
                scores_by_target@.contains_key(l) ==> resolved_ok(
                    g,
                    rm,
                    tv,
                    scores_by_target.key_views(),
                    l,
                    scores_by_target@[l],
                ),
            pairs_of(cands@) == candidate_pairs(g, rm, tv, di as int),
            forall|j: int| 0 <= j < cands@.len() ==> !is_duplicate(g, tv, #[trigger] cands@[j].name@),
        decreases target_rule.dep_targets.len() - di,
    {
        let dep = &target_rule.dep_targets[di];
        let ghost depv = dep@;
        proof {
            assert(depv == ds[di as int]);
        }
        let ghost cands_pre = cands@;
        if duplicate_deps.contains(dep) {
            proof {
                assert(is_duplicate(g, tv, depv));
                assert(pairs_of(cands@) =~= candidate_pairs(g, rm, tv, di + 1));
            }
        } else {
            proof {
                assert(!is_duplicate(g, tv, depv));
            }
            let unique = match get_unique_deps(dep, deps_graph, &duplicate_deps) {
                Ok(u) => u,
                Err(e) => {
                    proof {
                        match &e {
                            AnalysisError::NotFound(l) => {
                                let p = choose|p: Seq<Seq<char>>|
                                    {
                                        &&& p.len() >= 1 && p.first() == depv && p.last() == l@
                                            && is_path(g, p)
                                        &&& forall|ii: int|
                                            0 <= ii < p.len() ==> !avoid.contains(
                                                #[trigger] p[ii],
                                            )
                                    };
                                assert(reaches(g, depv, l@));
                                assert(ds.contains(depv));
                                assert(has_edge(g, tv, depv));
                                lemma_step_reaches(g, tv, depv, l@);
                                assert(visited_set(g, tv).contains(l@));
                                assert(g.contains_key(l@));
                                assert(false);
                            },
                            _ => {},
                        }
                    }
                    return Err(e);
                },
            };
            let mut commits = StrSet::new();
            let ucount = unique.count();
            let mut ui: usize = 0;
            proof {
                assert(commits@ =~= Set::new(
                    |c: Seq<char>|
                        exists|j: int|
                            0 <= j < 0 && #[trigger] specific_commits(
                                g,
                                rm,
                                unique.elem_views()[j],
                            ).contains(c),
                ));
            }
            while ui < ucount
                invariant
                    deps_graph.wf(),
                    repo.wf(),
                    g == deps_graph@,
                    rm == repo@,
                    tv == target@,
                    g.contains_key(tv),
                    depv == ds[di as int],
                    0 <= di < ds.len(),
                    ds == g[tv].deps,
                    avoid == duplicate_set(g, tv),
                    crate::trigger_scores::seeds_set(g, tv).contains(tv),
                    ui <= ucount == unique.elem_views().len(),
                    unique.wf(),
                    unique@ == unique_reach_set(g, depv, avoid),
                    unique.elem_views().to_set() == unique@,
                    scores_by_target.wf(),
                    scores_by_target@.dom() == visited_set(g, tv),
                    forall|l: Seq<char>| #[trigger]
                        scores_by_target@.contains_key(l) ==> resolved_ok(
                            g,
                            rm,
                            tv,
                            scores_by_target.key_views(),
                            l,
                            scores_by_target@[l],
                        ),
                    commits.wf(),
                    commits@ == Set::new(
                        |c: Seq<char>|
                            exists|j: int|
                                0 <= j < ui && #[trigger] specific_commits(
                                    g,
                                    rm,
                                    unique.elem_views()[j],
                                ).contains(c),
                    ),
                decreases ucount - ui,
            {
                let u = unique.at(ui);
                let ghost uv = u@;
                proof {
                    assert(uv == unique.elem_views()[ui as int]);
                    assert(unique@.contains(uv));
                    assert(reaches_avoiding(g, depv, uv, avoid));
                    let p = choose|p: Seq<Seq<char>>|
                        {
                            &&& p.len() >= 1 && p.first() == depv && p.last() == uv && is_path(
                                g,
                                p,
                            )
                            &&& forall|ii: int| 0 <= ii < p.len() ==> !avoid.contains(
                                #[trigger] p[ii],
                            )
                        };
                    assert(reaches(g, depv, uv));
                    assert(ds.contains(depv));
                    assert(has_edge(g, tv, depv));
                    lemma_step_reaches(g, tv, depv, uv);
                    assert(visited_set(g, tv).contains(uv));
                }
                let ghost commits_pre = commits@;
                match scores_by_target.get(u) {
                    Some(rt) => {
                        proof {
                            assert(rt.commits@ == specific_commits(g, rm, uv));
                        }
                        commits.add_all(&rt.commits);
                    },
                    None => {
                        proof {
                            assert(false);
                        }
                    },
                }
                proof {
                    assert(commits@ =~= Set::new(
                        |c: Seq<char>|
                            exists|j: int|
                                0 <= j < ui + 1 && #[trigger] specific_commits(
                                    g,
                                    rm,
                                    unique.elem_views()[j],
                                ).contains(c),
                    )) by {
                        assert forall|c: Seq<char>| commits@.contains(c) implies exists|j: int|
                            0 <= j < ui + 1 && #[trigger] specific_commits(
                                g,
                                rm,
                                unique.elem_views()[j],
                            ).contains(c) by {
                            if commits_pre.contains(c) {
                                let j = choose|j: int|
                                    0 <= j < ui && #[trigger] specific_commits(
                                        g,
                                        rm,
                                        unique.elem_views()[j],
                                    ).contains(c);
                                assert(specific_commits(g, rm, unique.elem_views()[j]).contains(
                                    c,
                                ));
                            } else {
                                assert(specific_commits(g, rm, unique.elem_views()[ui as int])
                                    .contains(c));
                            }
                        }
                        assert forall|c: Seq<char>|
                            (exists|j: int|
                                0 <= j < ui + 1 && #[trigger] specific_commits(
                                    g,
                                    rm,
                                    unique.elem_views()[j],
                                ).contains(c)) implies commits@.contains(c) by {
                            let j = choose|j: int|
                                0 <= j < ui + 1 && #[trigger] specific_commits(
                                    g,
                                    rm,
                                    unique.elem_views()[j],
                                ).contains(c);
                            if j < ui {
                                assert(commits_pre.contains(c));
                            }
                        }
                    }
                }
                ui = ui + 1;
            }
            proof {
                assert(commits@ =~= candidate_commits(g, rm, tv, depv)) by {
                    assert forall|c: Seq<char>| commits@.contains(c) implies candidate_commits(
                        g,
                        rm,
                        tv,
                        depv,
                    ).contains(c) by {
                        let j = choose|j: int|
                            0 <= j < unique.elem_views().len() && #[trigger] specific_commits(
                                g,
                                rm,
                                unique.elem_views()[j],
                            ).contains(c);
                        assert(unique.elem_views().contains(unique.elem_views()[j]));
                        assert(unique@.contains(unique.elem_views()[j]));
                        assert(reaches_avoiding(g, depv, unique.elem_views()[j], avoid));
                    }
                    assert forall|c: Seq<char>|
                        candidate_commits(g, rm, tv, depv).contains(c) implies commits@.contains(
                        c,
                    ) by {
                        let u2 = choose|u2: Seq<char>|
                            reaches_avoiding(g, depv, u2, avoid) && #[trigger] specific_commits(
                                g,
                                rm,
                                u2,
                            ).contains(c);
                        assert(unique@.contains(u2));
                        assert(unique.elem_views().to_set().contains(u2));
                        assert(unique.elem_views().contains(u2));
                        let j = choose|j: int|
                            0 <= j < unique.elem_views().len() && unique.elem_views()[j] == u2;
                    }
                }
            }
            let score = commits.len();
            cands.push(Dependency { name: dep.clone(), score });
            proof {
                assert(pairs_of(cands@) =~= candidate_pairs(g, rm, tv, di + 1)) by {
                    commits.lemma_len();
                    assert(pairs_of(cands@) =~= pairs_of(cands_pre).push(
                        (depv, commits@.len() as nat),
                    ));
                }
                assert forall|j: int| 0 <= j < cands@.len() implies !is_duplicate(
                    g,
                    tv,
                    #[trigger] cands@[j].name@,
                ) by {
                    if j < cands_pre.len() {
                        assert(cands@[j] == cands_pre[j]);
                        assert(!is_duplicate(g, tv, cands_pre[j].name@));
                    } else {
                        assert(j == cands_pre.len());
                        assert(cands@[j].name@ == depv);
                        assert(!is_duplicate(g, tv, depv));
                    }
                }
            }
        }
        di = di + 1;
    }
    proof {
        assert(candidate_pairs(g, rm, tv, ds.len() as int) == pairs_of(cands@));
    }
    // stable sort, descending by score
    let mut out: Vec<Dependency> = Vec::new();
    let mut ci: usize = 0;
    proof {
        assert(pairs_of(cands@).take(0) =~= Seq::<(Seq<char>, nat)>::empty());
        assert(pairs_of(out@) =~= sort_desc(pairs_of(cands@).take(0)));
    }
    while ci < cands.len()
        invariant
            g == deps_graph@,
            rm == repo@,
            tv == target@,
            g.contains_key(tv),
            calc_ok(g, tv),
            pairs_of(cands@) == candidate_pairs(g, rm, tv, g[tv].deps.len() as int),
            ci <= cands@.len(),
            pairs_of(out@) == sort_desc(pairs_of(cands@).take(ci as int)),
            out@.len() == ci,
            forall|j: int| 0 <= j < cands@.len() ==> !is_duplicate(g, tv, #[trigger] cands@[j].name@),
            forall|j: int| 0 <= j < out@.len() ==> !is_duplicate(g, tv, #[trigger] out@[j].name@),
        decreases cands@.len() - ci,
    {
        let x = Dependency { name: cands[ci].name.clone(), score: cands[ci].score };
        let ghost xp = (x.name@, x.score as nat);
        proof {
            assert(xp == pairs_of(cands@)[ci as int]);
            assert(!is_duplicate(g, tv, x.name@));
        }
        let mut p: usize = 0;
        loop
            invariant
                p <= out@.len(),
                forall|q: int| 0 <= q < p ==> pairs_of(out@)[q].1 >= xp.1,
                xp.1 == x.score as nat,
            ensures
                p <= out@.len(),
                forall|q: int| 0 <= q < p ==> pairs_of(out@)[q].1 >= xp.1,
                p == out@.len() || pairs_of(out@)[p as int].1 < xp.1,
            decreases out@.len() - p,
        {
            if p >= out.len() {
                break ;
            }
            if out[p].score < x.score {
                proof {
                    assert(pairs_of(out@)[p as int].1 < xp.1);
                }
                break ;
            }
            proof {
                assert(pairs_of(out@)[p as int].1 >= xp.1);
            }
            p = p + 1;
        }
        let ghost out_pre = pairs_of(out@);
        let ghost outv_pre = out@;
        out.insert(p, x);
        proof {
            lemma_insert_desc_at(out_pre, xp, p as int);
            assert(out@ =~= outv_pre.take(p as int) + seq![x] + outv_pre.skip(p as int));
            assert(pairs_of(out@) =~= out_pre.take(p as int) + seq![xp] + out_pre.skip(p as int));
            assert(pairs_of(cands@).take(ci + 1) =~= pairs_of(cands@).take(ci as int).push(xp));
            assert(sort_desc(pairs_of(cands@).take(ci + 1)) == insert_desc(
                sort_desc(pairs_of(cands@).take(ci as int)),
                xp,
            )) by {
                assert(pairs_of(cands@).take(ci + 1).drop_last() =~= pairs_of(cands@).take(
                    ci as int,
                ));
            }
            assert forall|j: int| 0 <= j < out@.len() implies !is_duplicate(
                g,
                tv,
                #[trigger] out@[j].name@,
            ) by {
                if j < p {
                    assert(out@[j] == outv_pre[j]);
                    assert(!is_duplicate(g, tv, outv_pre[j].name@));
                } else if j == p {
                    assert(out@[j] == x);
                    assert(!is_duplicate(g, tv, x.name@));
                } else {
                    assert(out@[j] == outv_pre[j - 1]);
                    assert(!is_duplicate(g, tv, outv_pre[j - 1].name@));
                }
            }
        }
        ci = ci + 1;
    }
    proof {
        assert(pairs_of(cands@).take(cands@.len() as int) =~= pairs_of(cands@));
        assert(no_duplicate_candidates(g, tv, out@));
    }
    Ok(out)
}

} // verus!
