//! The general laws of the analysis, stated and proved once for all
//! inputs, over the same spec functions the function contracts use.

use vstd::prelude::*;

use crate::most_unique_triggers::dep_slot;
use crate::most_unique_triggers::duplicate_set;
use crate::most_unique_triggers::is_duplicate;
use crate::most_unique_triggers::reaches_avoiding;
use crate::reach::GraphModel;
use crate::reach::count_in;
use crate::reach::has_edge;
use crate::reach::is_path;
use crate::reach::lemma_edge_then_reach_cycle;
use crate::reach::lemma_reaches_self;
use crate::reach::lemma_reaches_unfold;
use crate::reach::lemma_reaches_unfold_last;
use crate::reach::lemma_step_reaches;
use crate::reach::on_cycle;
use crate::reach::reaches;
use crate::reach::lemma_slot_count_push;
use crate::reach::slot_count;
use crate::trigger_scores::all_commits;
use crate::trigger_scores::dependents_set;
use crate::trigger_scores::score_of;
use crate::trigger_scores::specific_commits;
use crate::git::RepoModel;

verus! {

/// A target with no dependencies and no source files is rebuilt by no
/// commit at all, and its blast-radius score is zero whatever its number
/// of dependents.
pub proof fn lemma_leaf_target_idle(g: GraphModel, rm: RepoModel, l: Seq<char>)
    requires
        g.contains_key(l),
        g[l].deps.len() == 0,
        g[l].srcs.len() == 0,
    ensures
        all_commits(g, rm, l) == Set::<Seq<char>>::empty(),
        specific_commits(g, rm, l) == Set::<Seq<char>>::empty(),
        forall|n: nat| score_of(0, n) == 0,
{
    assert forall|b: Seq<char>| #[trigger] reaches(g, l, b) implies b == l by {
        if b != l {
            lemma_reaches_unfold(g, l, b);
            let d = choose|d: Seq<char>| has_edge(g, l, d) && reaches(g, d, b);
            let i = choose|i: int| 0 <= i < g[l].deps.len() && g[l].deps[i] == d;
        }
    }
    assert(specific_commits(g, rm, l) =~= Set::<Seq<char>>::empty());
    assert(all_commits(g, rm, l) =~= Set::<Seq<char>>::empty());
}

/// The transitive rebuild set of a target contains the commits touching
/// its own sources, so `rebuilds` is at least the number of its specific
/// commits.
pub proof fn lemma_rebuilds_cover_specific(g: GraphModel, rm: RepoModel, l: Seq<char>)
    requires
        all_commits(g, rm, l).finite(),
    ensures
        specific_commits(g, rm, l).subset_of(all_commits(g, rm, l)),
        specific_commits(g, rm, l).finite(),
        specific_commits(g, rm, l).len() <= all_commits(g, rm, l).len(),
{
    assert forall|c: Seq<char>| specific_commits(g, rm, l).contains(c) implies all_commits(
        g,
        rm,
        l,
    ).contains(c) by {
        lemma_reaches_self(g, l);
        assert(reaches(g, l, l) && specific_commits(g, rm, l).contains(c));
    }
    vstd::set_lib::lemma_len_subset(specific_commits(g, rm, l), all_commits(g, rm, l));
}

/// A target is its own dependent: its dependents set contains it, so the
/// count is at least one and exceeds the count of its other dependents by
/// exactly one.
pub proof fn lemma_dependents_include_self(g: GraphModel, vset: Set<Seq<char>>, l: Seq<char>)
    requires
        vset.contains(l),
        vset.finite(),
    ensures
        dependents_set(g, vset, l).contains(l),
        dependents_set(g, vset, l).finite(),
        dependents_set(g, vset, l).len() >= 1,
        dependents_set(g, vset, l).len() == 1 + dependents_set(g, vset, l).remove(l).len(),
{
    lemma_reaches_self(g, l);
    assert(dependents_set(g, vset, l).contains(l));
    assert(dependents_set(g, vset, l).subset_of(vset));
    vstd::set_lib::lemma_len_subset(dependents_set(g, vset, l), vset);
}

/// Two distinct dependency-list slots leading to the same label make that
/// label a duplicate.
pub proof fn lemma_two_slots_make_duplicate(
    g: GraphModel,
    t: Seq<char>,
    s1: Seq<char>,
    i1: int,
    s2: Seq<char>,
    i2: int,
    d: Seq<char>,
)
    requires
        dep_slot(g, t, s1, i1, d),
        dep_slot(g, t, s2, i2, d),
        s1 != s2 || i1 != i2,
    ensures
        is_duplicate(g, t, d),
        duplicate_set(g, t).contains(d),
{
}

/// A path from one dependency slot of the seed to a label that a second,
/// distinct slot also reaches passes through a duplicate: somewhere two
/// distinct edges meet.
proof fn lemma_shared_path_hits_duplicate(
    g: GraphModel,
    t: Seq<char>,
    i1: int,
    i2: int,
    p: Seq<Seq<char>>,
)
    requires
        g.contains_key(t),
        0 <= i1 < g[t].deps.len(),
        0 <= i2 < g[t].deps.len(),
        i1 != i2,
        is_path(g, p),
        p.len() >= 1,
        p.first() == g[t].deps[i1],
        reaches(g, g[t].deps[i2], p.last()),
        forall|y: Seq<char>| #[trigger] reaches(g, t, y) ==> !on_cycle(g, y),
    ensures
        exists|q: int| 0 <= q < p.len() && duplicate_set(g, t).contains(#[trigger] p[q]),
    decreases p.len(),
{
    let d1 = g[t].deps[i1];
    let d2 = g[t].deps[i2];
    let x = p.last();
    lemma_reaches_self(g, t);
    assert(g[t].deps.contains(d1)) by {
        assert(g[t].deps[i1] == d1);
    }
    assert(g[t].deps.contains(d2)) by {
        assert(g[t].deps[i2] == d2);
    }
    assert(has_edge(g, t, d1));
    assert(has_edge(g, t, d2));
    assert(dep_slot(g, t, t, i1, d1));
    assert(dep_slot(g, t, t, i2, d2));
    // `x` is reached along the path from `d1`
    assert(reaches(g, d1, x)) by {
        assert(p.len() >= 1 && p.first() == d1 && p.last() == x && is_path(g, p));
    }
    if p.len() == 1 {
        // x == d1, also reached from the second slot
        assert(x == d1);
        if d2 == d1 {
            lemma_two_slots_make_duplicate(g, t, t, i1, t, i2, d1);
            assert(duplicate_set(g, t).contains(p[0]));
        } else {
            lemma_reaches_unfold_last(g, d2, d1);
            let u = choose|u: Seq<char>| reaches(g, d2, u) && has_edge(g, u, d1);
            if u == t {
                lemma_step_reaches(g, t, d2, t);
                assert(reaches(g, d2, t));
                lemma_edge_then_reach_cycle(g, t, d2);
                assert(reaches(g, t, t));
                assert(false);
            } else {
                let k = choose|k: int| 0 <= k < g[u].deps.len() && g[u].deps[k] == d1;
                lemma_step_reaches(g, t, d2, u);
                assert(dep_slot(g, t, u, k, d1));
                lemma_two_slots_make_duplicate(g, t, t, i1, u, k, d1);
                assert(duplicate_set(g, t).contains(p[0]));
            }
        }
    } else {
        let u1 = p[p.len() - 2];
        assert(has_edge(g, p[p.len() - 2], p[p.len() - 1]));
        let pre = p.take(p.len() - 1);
        assert forall|i: int| 0 <= i < pre.len() - 1 implies has_edge(
            g,
            #[trigger] pre[i],
            pre[i + 1],
        ) by {
            assert(pre[i] == p[i] && pre[i + 1] == p[i + 1]);
            assert(has_edge(g, p[i], p[i + 1]));
        }
        assert(pre.len() >= 1 && pre.first() == d1 && pre.last() == u1 && is_path(g, pre));
        assert(reaches(g, d1, u1));
        lemma_step_reaches(g, t, d1, u1);
        let k1 = choose|k: int| 0 <= k < g[u1].deps.len() && g[u1].deps[k] == x;
        assert(dep_slot(g, t, u1, k1, x)) by {
            assert(g[u1].deps.contains(x));
        }
        if x == d2 {
            if u1 == t {
                assert(reaches(g, d1, t));
                lemma_edge_then_reach_cycle(g, t, d1);
                assert(reaches(g, t, t));
                assert(false);
            } else {
                lemma_two_slots_make_duplicate(g, t, u1, k1, t, i2, x);
                assert(duplicate_set(g, t).contains(p[p.len() - 1]));
            }
        } else {
            lemma_reaches_unfold_last(g, d2, x);
            let u2 = choose|u: Seq<char>| reaches(g, d2, u) && has_edge(g, u, x);
            if u2 == u1 {
                lemma_shared_path_hits_duplicate(g, t, i1, i2, pre);
                let q = choose|q: int|
                    0 <= q < pre.len() && duplicate_set(g, t).contains(#[trigger] pre[q]);
                assert(p[q] == pre[q]);
                assert(duplicate_set(g, t).contains(p[q]));
            } else {
                let k2 = choose|k: int| 0 <= k < g[u2].deps.len() && g[u2].deps[k] == x;
                lemma_step_reaches(g, t, d2, u2);
                assert(dep_slot(g, t, u2, k2, x)) by {
                    assert(g[u2].deps.contains(x));
                }
                lemma_two_slots_make_duplicate(g, t, u1, k1, u2, k2, x);
                assert(duplicate_set(g, t).contains(p[p.len() - 1]));
            }
        }
    }
}

/// The diamond invariant: a label reachable through two distinct
/// dependency slots of the seed belongs to the unique subtree of neither
/// of them, provided the seed's closure is free of cycles.
pub proof fn lemma_diamond_not_in_unique_subtrees(
    g: GraphModel,
    t: Seq<char>,
    i1: int,
    i2: int,
    x: Seq<char>,
)
    requires
        g.contains_key(t),
        0 <= i1 < g[t].deps.len(),
        0 <= i2 < g[t].deps.len(),
        i1 != i2,
        reaches(g, g[t].deps[i1], x),
        reaches(g, g[t].deps[i2], x),
        forall|y: Seq<char>| #[trigger] reaches(g, t, y) ==> !on_cycle(g, y),
    ensures
        !reaches_avoiding(g, g[t].deps[i1], x, duplicate_set(g, t)),
        !reaches_avoiding(g, g[t].deps[i2], x, duplicate_set(g, t)),
{
    if reaches_avoiding(g, g[t].deps[i1], x, duplicate_set(g, t)) {
        let p = choose|p: Seq<Seq<char>>|
            {
                &&& p.len() >= 1 && p.first() == g[t].deps[i1] && p.last() == x && is_path(g, p)
                &&& forall|q: int|
                    0 <= q < p.len() ==> !duplicate_set(g, t).contains(#[trigger] p[q])
            };
        lemma_shared_path_hits_duplicate(g, t, i1, i2, p);
        let q = choose|q: int| 0 <= q < p.len() && duplicate_set(g, t).contains(#[trigger] p[q]);
        assert(!duplicate_set(g, t).contains(p[q]));
    }
    if reaches_avoiding(g, g[t].deps[i2], x, duplicate_set(g, t)) {
        let p = choose|p: Seq<Seq<char>>|
            {
                &&& p.len() >= 1 && p.first() == g[t].deps[i2] && p.last() == x && is_path(g, p)
                &&& forall|q: int|
                    0 <= q < p.len() ==> !duplicate_set(g, t).contains(#[trigger] p[q])
            };
        lemma_shared_path_hits_duplicate(g, t, i2, i1, p);
        let q = choose|q: int| 0 <= q < p.len() && duplicate_set(g, t).contains(#[trigger] p[q]);
        assert(!duplicate_set(g, t).contains(p[q]));
    }
}

/// Taking one source out of the list moves its contribution out of the
/// slot count.
proof fn lemma_slot_count_remove(g: GraphModel, vs: Seq<Seq<char>>, j: int, d: Seq<char>)
    requires
        0 <= j < vs.len(),
    ensures
        slot_count(g, vs, d) == slot_count(g, vs.remove(j), d) + if g.contains_key(vs[j]) {
            count_in(g[vs[j]].deps, d)
        } else {
            0nat
        },
    decreases vs.len(),
{
    if j == vs.len() - 1 {
        assert(vs.remove(j) =~= vs.drop_last());
    } else {
        let pre = vs.drop_last();
        lemma_slot_count_remove(g, pre, j, d);
        assert(pre[j] == vs[j]);
        assert(vs.remove(j) =~= pre.remove(j).push(vs.last()));
        lemma_slot_count_push(g, pre.remove(j), vs.last(), d);
    }
}

/// The slot count does not depend on the order the sources are listed in.
pub proof fn lemma_slot_count_permutation(
    g: GraphModel,
    a: Seq<Seq<char>>,
    b: Seq<Seq<char>>,
    d: Seq<char>,
)
    requires
        a.no_duplicates(),
        b.no_duplicates(),
        a.to_set() == b.to_set(),
    ensures
        slot_count(g, a, d) == slot_count(g, b, d),
    decreases a.len(),
{
    if a.len() == 0 {
        a.unique_seq_to_set();
        b.unique_seq_to_set();
        assert(a.to_set() =~= Set::<Seq<char>>::empty());
        assert(b.to_set().len() == 0);
        assert(b.len() == 0);
    } else {
        let x = a.last();
        assert(a.to_set().contains(x)) by {
            assert(a.contains(x));
        }
        assert(b.contains(x));
        let j = choose|j: int| 0 <= j < b.len() && b[j] == x;
        lemma_slot_count_remove(g, b, j, d);
        let a2 = a.drop_last();
        let b2 = b.remove(j);
        assert(a2.no_duplicates()) by {
            assert forall|q1: int, q2: int|
                0 <= q1 < a2.len() && 0 <= q2 < a2.len() && q1 != q2 implies a2[q1] != a2[q2] by {
                assert(a2[q1] == a[q1] && a2[q2] == a[q2]);
            }
        }
        assert(b2.no_duplicates()) by {
            assert forall|q1: int, q2: int|
                0 <= q1 < b2.len() && 0 <= q2 < b2.len() && q1 != q2 implies b2[q1] != b2[q2] by {
                let r1 = if q1 < j {
                    q1
                } else {
                    q1 + 1
                };
                let r2 = if q2 < j {
                    q2
                } else {
                    q2 + 1
                };
                assert(b2[q1] == b[r1] && b2[q2] == b[r2]);
            }
        }
        assert(a2.to_set() =~= a.to_set().remove(x)) by {
            assert forall|e: Seq<char>| #[trigger] a2.to_set().contains(e) implies a.to_set()
                .remove(x).contains(e) by {
                let q = choose|q: int| 0 <= q < a2.len() && a2[q] == e;
                assert(a[q] == e);
                assert(a.contains(e));
                if e == x {
                    assert(a[q] == a[a.len() - 1]);
                }
            }
            assert forall|e: Seq<char>| a.to_set().remove(x).contains(e) implies #[trigger] a2
                .to_set().contains(e) by {
                let q = choose|q: int| 0 <= q < a.len() && a[q] == e;
                assert(q != a.len() - 1);
                assert(a2[q] == e);
                assert(a2.contains(e));
            }
        }
        assert(b2.to_set() =~= b.to_set().remove(x)) by {
            assert forall|e: Seq<char>| #[trigger] b2.to_set().contains(e) implies b.to_set()
                .remove(x).contains(e) by {
                let q = choose|q: int| 0 <= q < b2.len() && b2[q] == e;
                let r = if q < j {
                    q
                } else {
                    q + 1
                };
                assert(b[r] == e);
                assert(b.contains(e));
                if e == x {
                    assert(b[r] == b[j]);
                }
            }
            assert forall|e: Seq<char>| b.to_set().remove(x).contains(e) implies #[trigger] b2
                .to_set().contains(e) by {
                let q = choose|q: int| 0 <= q < b.len() && b[q] == e;
                assert(q != j);
                let r = if q < j {
                    q
                } else {
                    q - 1
                };
                assert(b2[r] == e);
                assert(b2.contains(e));
            }
        }
        lemma_slot_count_permutation(g, a2, b2, d);
        assert(b[j] == x);
    }
}

/// Cache consistency: the figures resolved for a label are determined by
/// the graph, the history, the seed expression and the label alone; a
/// label reached both as a direct wildcard match and as a dependency of
/// another match resolves to one and the same row.
pub proof fn lemma_resolution_is_seed_determined(
    g: GraphModel,
    rm: RepoModel,
    t: Seq<char>,
    kv1: Seq<Seq<char>>,
    kv2: Seq<Seq<char>>,
    l: Seq<char>,
    rt1: crate::trigger_scores::ResolvedTarget,
    rt2: crate::trigger_scores::ResolvedTarget,
)
    requires
        crate::trigger_scores::resolved_ok(g, rm, t, kv1, l, rt1),
        crate::trigger_scores::resolved_ok(g, rm, t, kv2, l, rt2),
        kv1.no_duplicates(),
        kv2.no_duplicates(),
        kv1.to_set() == kv2.to_set(),
    ensures
        rt1.name@ == rt2.name@,
        rt1.rebuilds == rt2.rebuilds,
        rt1.commits@ == rt2.commits@,
        rt1.total_dependents == rt2.total_dependents,
        rt1.score == rt2.score,
        rt1.immediate_dependents == rt2.immediate_dependents,
{
    lemma_slot_count_permutation(g, kv1, kv2, l);
}

} // verus!
