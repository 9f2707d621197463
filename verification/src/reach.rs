//! The mathematical model of a dependency graph.
//!
//! Contracts throughout the crate speak about labels (character sequences),
//! dependency edges, paths, reachability, and the number of dependency-list
//! slots that point at a label. This module defines those notions and proves
//! the lemmas the algorithm proofs lean on: reachability is reflexive and
//! transitive, a set closed under edges contains the closure of its members,
//! and slot counts agree with the existence of one or two distinct slots.

use vstd::prelude::*;

verus! {

/// The ghost model of one rule: its direct dependency labels and its
/// declared source-file labels, in declaration order.
pub struct EntryModel {
    pub deps: Seq<Seq<char>>,
    pub srcs: Seq<Seq<char>>,
}

/// The ghost model of a dependency graph: a map from label to entry.
pub type GraphModel = Map<Seq<char>, EntryModel>;

/// One declared dependency edge from `a` to `b`.
pub open spec fn has_edge(g: GraphModel, a: Seq<char>, b: Seq<char>) -> bool {
    g.contains_key(a) && g[a].deps.contains(b)
}

/// `p` is a chain of labels linked by dependency edges.
pub open spec fn is_path(g: GraphModel, p: Seq<Seq<char>>) -> bool {
    forall|i: int| #![trigger p[i]] 0 <= i < p.len() - 1 ==> has_edge(g, p[i], p[i + 1])
}

/// `b` lies in the dependency closure of `a`; every label reaches itself.
pub open spec fn reaches(g: GraphModel, a: Seq<char>, b: Seq<char>) -> bool {
    exists|p: Seq<Seq<char>>| p.len() >= 1 && p.first() == a && p.last() == b && is_path(g, p)
}

/// `b` lies at the end of a chain of at least one edge starting at `a`.
pub open spec fn reaches_proper(g: GraphModel, a: Seq<char>, b: Seq<char>) -> bool {
    exists|p: Seq<Seq<char>>| p.len() >= 2 && p.first() == a && p.last() == b && is_path(g, p)
}

/// A dependency chain of at least one edge leads from `b` back to `b`.
pub open spec fn on_cycle(g: GraphModel, b: Seq<char>) -> bool {
    reaches_proper(g, b, b)
}

/// `s` is closed under dependency edges.
pub open spec fn dep_closed(g: GraphModel, s: Set<Seq<char>>) -> bool {
    forall|x: Seq<char>, y: Seq<char>| s.contains(x) && has_edge(g, x, y) ==> s.contains(y)
}

pub proof fn lemma_reaches_self(g: GraphModel, a: Seq<char>)
    ensures
        reaches(g, a, a),
{
    let p = seq![a];
    assert(p.len() >= 1 && p.first() == a && p.last() == a && is_path(g, p));
}

pub proof fn lemma_step_reaches(g: GraphModel, a: Seq<char>, b: Seq<char>, c: Seq<char>)
    requires
        has_edge(g, a, b),
        reaches(g, b, c),
    ensures
        reaches(g, a, c),
{
    let p = choose|p: Seq<Seq<char>>|
        p.len() >= 1 && p.first() == b && p.last() == c && is_path(g, p);
    let q = seq![a] + p;
    assert forall|i: int| 0 <= i < q.len() - 1 implies has_edge(g, #[trigger] q[i], q[i + 1]) by {
        if i == 0 {
            assert(q[0] == a && q[1] == p[0]);
        } else {
            assert(q[i] == p[i - 1] && q[i + 1] == p[i]);
            assert(has_edge(g, p[i - 1], p[i]));
        }
    }
    assert(q.len() >= 1 && q.first() == a && q.last() == c && is_path(g, q));
}

pub proof fn lemma_reaches_trans(g: GraphModel, a: Seq<char>, b: Seq<char>, c: Seq<char>)
    requires
        reaches(g, a, b),
        reaches(g, b, c),
    ensures
        reaches(g, a, c),
{
    let p = choose|p: Seq<Seq<char>>|
        p.len() >= 1 && p.first() == a && p.last() == b && is_path(g, p);
    let q = choose|q: Seq<Seq<char>>|
        q.len() >= 1 && q.first() == b && q.last() == c && is_path(g, q);
    if q.len() == 1 {
        assert(b == c);
    } else {
        let r = p + q.subrange(1, q.len() as int);
        assert forall|i: int| 0 <= i < r.len() - 1 implies has_edge(g, #[trigger] r[i], r[i + 1]) by {
            if i < p.len() - 1 {
                assert(r[i] == p[i] && r[i + 1] == p[i + 1]);
                assert(has_edge(g, p[i], p[i + 1]));
            } else if i == p.len() - 1 {
                assert(r[i] == p.last() && r[i + 1] == q[1]);
                assert(has_edge(g, q[0], q[1]));
            } else {
                let j = i - p.len() + 1;
                assert(r[i] == q[j] && r[i + 1] == q[j + 1]);
                assert(has_edge(g, q[j], q[j + 1]));
            }
        }
        assert(r.len() >= 1 && r.first() == a && r.last() == c && is_path(g, r));
    }
}

/// A nontrivial reach decomposes into a first edge and a shorter reach.
pub proof fn lemma_reaches_unfold(g: GraphModel, a: Seq<char>, c: Seq<char>)
    requires
        reaches(g, a, c),
        a != c,
    ensures
        exists|b: Seq<char>| has_edge(g, a, b) && reaches(g, b, c),
{
    let p = choose|p: Seq<Seq<char>>|
        p.len() >= 1 && p.first() == a && p.last() == c && is_path(g, p);
    assert(p.len() >= 2);
    let b = p[1];
    assert(has_edge(g, p[0], p[1]));
    let t = p.subrange(1, p.len() as int);
    assert forall|i: int| 0 <= i < t.len() - 1 implies has_edge(g, #[trigger] t[i], t[i + 1]) by {
        assert(t[i] == p[i + 1] && t[i + 1] == p[i + 2]);
        assert(has_edge(g, p[i + 1], p[i + 2]));
    }
    assert(t.len() >= 1 && t.first() == b && t.last() == c && is_path(g, t));
    assert(has_edge(g, a, b) && reaches(g, b, c));
}

pub proof fn lemma_edge_proper(g: GraphModel, a: Seq<char>, b: Seq<char>)
    requires
        has_edge(g, a, b),
    ensures
        reaches_proper(g, a, b),
{
    let p = seq![a, b];
    assert(p.len() >= 2 && p.first() == a && p.last() == b);
    assert forall|i: int| 0 <= i < p.len() - 1 implies has_edge(g, #[trigger] p[i], p[i + 1]) by {
        assert(i == 0 && p[0] == a && p[1] == b);
    }
}

/// Extending a proper chain by one edge keeps it proper.
pub proof fn lemma_proper_append_edge(g: GraphModel, a: Seq<char>, b: Seq<char>, c: Seq<char>)
    requires
        reaches_proper(g, a, b),
        has_edge(g, b, c),
    ensures
        reaches_proper(g, a, c),
{
    let p = choose|p: Seq<Seq<char>>|
        p.len() >= 2 && p.first() == a && p.last() == b && is_path(g, p);
    let q = p.push(c);
    assert forall|i: int| 0 <= i < q.len() - 1 implies has_edge(g, #[trigger] q[i], q[i + 1]) by {
        if i < p.len() - 1 {
            assert(q[i] == p[i] && q[i + 1] == p[i + 1]);
            assert(has_edge(g, p[i], p[i + 1]));
        } else {
            assert(q[i] == b && q[i + 1] == c);
        }
    }
    assert(q.len() >= 2 && q.first() == a && q.last() == c && is_path(g, q));
}

/// A proper chain decomposes into a first edge and a reach.
pub proof fn lemma_proper_unfold(g: GraphModel, a: Seq<char>, c: Seq<char>)
    requires
        reaches_proper(g, a, c),
    ensures
        exists|b: Seq<char>| has_edge(g, a, b) && reaches(g, b, c),
{
    let p = choose|p: Seq<Seq<char>>|
        p.len() >= 2 && p.first() == a && p.last() == c && is_path(g, p);
    let b = p[1];
    assert(has_edge(g, p[0], p[1]));
    let t = p.subrange(1, p.len() as int);
    assert forall|i: int| 0 <= i < t.len() - 1 implies has_edge(g, #[trigger] t[i], t[i + 1]) by {
        assert(t[i] == p[i + 1] && t[i + 1] == p[i + 2]);
        assert(has_edge(g, p[i + 1], p[i + 2]));
    }
    assert(t.len() >= 1 && t.first() == b && t.last() == c && is_path(g, t));
    assert(has_edge(g, a, b) && reaches(g, b, c));
}

/// A nontrivial reach decomposes into a shorter reach and a last edge.
pub proof fn lemma_reaches_unfold_last(g: GraphModel, a: Seq<char>, c: Seq<char>)
    requires
        reaches(g, a, c),
        a != c,
    ensures
        exists|u: Seq<char>| reaches(g, a, u) && has_edge(g, u, c),
{
    let p = choose|p: Seq<Seq<char>>|
        p.len() >= 1 && p.first() == a && p.last() == c && is_path(g, p);
    assert(p.len() >= 2);
    let u = p[p.len() - 2];
    assert(has_edge(g, p[p.len() - 2], p[p.len() - 1]));
    let t = p.take(p.len() - 1);
    assert forall|i: int| 0 <= i < t.len() - 1 implies has_edge(g, #[trigger] t[i], t[i + 1]) by {
        assert(t[i] == p[i] && t[i + 1] == p[i + 1]);
        assert(has_edge(g, p[i], p[i + 1]));
    }
    assert(t.len() >= 1 && t.first() == a && t.last() == u && is_path(g, t));
    assert(reaches(g, a, u) && has_edge(g, u, c));
}

/// An edge whose target reaches back to its source closes a cycle.
pub proof fn lemma_edge_then_reach_cycle(g: GraphModel, a: Seq<char>, b: Seq<char>)
    requires
        has_edge(g, a, b),
        reaches(g, b, a),
    ensures
        on_cycle(g, a),
{
    let p = choose|p: Seq<Seq<char>>|
        p.len() >= 1 && p.first() == b && p.last() == a && is_path(g, p);
    let q = seq![a] + p;
    assert forall|i: int| 0 <= i < q.len() - 1 implies has_edge(g, #[trigger] q[i], q[i + 1]) by {
        if i == 0 {
            assert(q[0] == a && q[1] == p[0]);
        } else {
            assert(q[i] == p[i - 1] && q[i + 1] == p[i]);
            assert(has_edge(g, p[i - 1], p[i]));
        }
    }
    assert(q.len() >= 2 && q.first() == a && q.last() == a && is_path(g, q));
}

proof fn lemma_path_stays_in_closed_set(g: GraphModel, s: Set<Seq<char>>, p: Seq<Seq<char>>)
    requires
        is_path(g, p),
        p.len() >= 1,
        s.contains(p.first()),
        dep_closed(g, s),
    ensures
        s.contains(p.last()),
        forall|i: int| 0 <= i < p.len() ==> s.contains(p[i]),
    decreases p.len(),
{
    if p.len() > 1 {
        assert(has_edge(g, p[0], p[1]));
        let t = p.subrange(1, p.len() as int);
        assert forall|i: int| 0 <= i < t.len() - 1 implies has_edge(g, #[trigger] t[i], t[i + 1]) by {
            assert(t[i] == p[i + 1] && t[i + 1] == p[i + 2]);
            assert(has_edge(g, p[i + 1], p[i + 2]));
        }
        lemma_path_stays_in_closed_set(g, s, t);
        assert forall|i: int| 0 <= i < p.len() implies s.contains(p[i]) by {
            if i > 0 {
                assert(t[i - 1] == p[i] && s.contains(t[i - 1]));
            }
        }
    }
}

/// A set that contains `a` and is closed under edges contains everything
/// `a` reaches.
pub proof fn lemma_closed_set_contains_closure(
    g: GraphModel,
    s: Set<Seq<char>>,
    a: Seq<char>,
    b: Seq<char>,
)
    requires
        s.contains(a),
        dep_closed(g, s),
        reaches(g, a, b),
    ensures
        s.contains(b),
{
    let p = choose|p: Seq<Seq<char>>|
        p.len() >= 1 && p.first() == a && p.last() == b && is_path(g, p);
    lemma_path_stays_in_closed_set(g, s, p);
}

/// Walking a path backwards from a set `v` that is closed under reversed
/// edges (relative to a dependency-closed universe) stays in `v`.
pub proof fn lemma_rev_closed_set_contains_sources(
    g: GraphModel,
    universe: Set<Seq<char>>,
    v: Set<Seq<char>>,
    p: Seq<Seq<char>>,
)
    requires
        is_path(g, p),
        p.len() >= 1,
        universe.contains(p.first()),
        dep_closed(g, universe),
        v.contains(p.last()),
        forall|x: Seq<char>, y: Seq<char>|
            v.contains(x) && universe.contains(y) && has_edge(g, y, x) ==> v.contains(y),
    ensures
        v.contains(p.first()),
    decreases p.len(),
{
    if p.len() > 1 {
        assert(has_edge(g, p[0], p[1]));
        let t = p.subrange(1, p.len() as int);
        assert forall|i: int| 0 <= i < t.len() - 1 implies has_edge(g, #[trigger] t[i], t[i + 1]) by {
            assert(t[i] == p[i + 1] && t[i + 1] == p[i + 2]);
            assert(has_edge(g, p[i + 1], p[i + 2]));
        }
        lemma_rev_closed_set_contains_sources(g, universe, v, t);
        assert(v.contains(p[1]));
    }
}

/// How often `d` occurs in a sequence of labels.
pub open spec fn count_in(s: Seq<Seq<char>>, d: Seq<char>) -> nat
    decreases s.len(),
{
    if s.len() == 0 {
        0
    } else {
        count_in(s.drop_last(), d) + if s.last() == d {
            1nat
        } else {
            0nat
        }
    }
}

pub proof fn lemma_count_in_push(s: Seq<Seq<char>>, x: Seq<char>, d: Seq<char>)
    ensures
        count_in(s.push(x), d) == count_in(s, d) + if x == d {
            1nat
        } else {
            0nat
        },
{
    assert(s.push(x).drop_last() =~= s);
    assert(s.push(x).last() == x);
}

pub proof fn lemma_count_in_concat(a: Seq<Seq<char>>, b: Seq<Seq<char>>, d: Seq<char>)
    ensures
        count_in(a + b, d) == count_in(a, d) + count_in(b, d),
    decreases b.len(),
{
    if b.len() == 0 {
        assert(a + b =~= a);
    } else {
        assert((a + b).drop_last() =~= a + b.drop_last());
        assert((a + b).last() == b.last());
        lemma_count_in_concat(a, b.drop_last(), d);
    }
}

/// A positive count is the same as an occurrence.
pub proof fn lemma_count_in_pos(s: Seq<Seq<char>>, d: Seq<char>)
    ensures
        count_in(s, d) >= 1 <==> exists|i: int| 0 <= i < s.len() && s[i] == d,
    decreases s.len(),
{
    if s.len() > 0 {
        lemma_count_in_pos(s.drop_last(), d);
        if s.last() == d {
            assert(s[s.len() - 1] == d);
        } else {
            if exists|i: int| 0 <= i < s.len() && s[i] == d {
                let i = choose|i: int| 0 <= i < s.len() && s[i] == d;
                assert(s.drop_last()[i] == d);
            }
            if count_in(s.drop_last(), d) >= 1 {
                let i = choose|i: int| 0 <= i < s.drop_last().len() && s.drop_last()[i] == d;
                assert(s[i] == d);
            }
        }
    }
}

/// A count of two or more is the same as two distinct occurrences.
pub proof fn lemma_count_in_two(s: Seq<Seq<char>>, d: Seq<char>)
    ensures
        count_in(s, d) >= 2 <==> exists|i1: int, i2: int|
            0 <= i1 < s.len() && 0 <= i2 < s.len() && i1 != i2 && s[i1] == d && s[i2] == d,
    decreases s.len(),
{
    if s.len() > 0 {
        let pre = s.drop_last();
        lemma_count_in_two(pre, d);
        lemma_count_in_pos(pre, d);
        if count_in(s, d) >= 2 {
            if s.last() == d {
                if count_in(pre, d) >= 1 {
                    let i = choose|i: int| 0 <= i < pre.len() && pre[i] == d;
                    assert(s[i] == d && s[s.len() - 1] == d && i != s.len() - 1);
                } else {
                    assert(count_in(pre, d) >= 2);
                    let (i1, i2) = choose|i1: int, i2: int|
                        0 <= i1 < pre.len() && 0 <= i2 < pre.len() && i1 != i2 && pre[i1] == d
                            && pre[i2] == d;
                    assert(s[i1] == d && s[i2] == d);
                }
            } else {
                let (i1, i2) = choose|i1: int, i2: int|
                    0 <= i1 < pre.len() && 0 <= i2 < pre.len() && i1 != i2 && pre[i1] == d
                        && pre[i2] == d;
                assert(s[i1] == d && s[i2] == d);
            }
        }
        if exists|i1: int, i2: int|
            0 <= i1 < s.len() && 0 <= i2 < s.len() && i1 != i2 && s[i1] == d && s[i2] == d {
            let (i1, i2) = choose|i1: int, i2: int|
                0 <= i1 < s.len() && 0 <= i2 < s.len() && i1 != i2 && s[i1] == d && s[i2] == d;
            let lo = if i1 < i2 {
                i1
            } else {
                i2
            };
            let hi = if i1 < i2 {
                i2
            } else {
                i1
            };
            assert(s[lo] == d && s[hi] == d && lo < hi);
            assert(pre[lo] == d);
            if hi < s.len() - 1 {
                assert(pre[hi] == d);
                assert(count_in(pre, d) >= 2);
            } else {
                assert(s.last() == d);
                assert(count_in(pre, d) >= 1);
            }
        }
    }
}

/// How many dependency-list slots of the sources listed in `vs` hold `d`.
pub open spec fn slot_count(g: GraphModel, vs: Seq<Seq<char>>, d: Seq<char>) -> nat
    decreases vs.len(),
{
    if vs.len() == 0 {
        0
    } else {
        slot_count(g, vs.drop_last(), d) + if g.contains_key(vs.last()) {
            count_in(g[vs.last()].deps, d)
        } else {
            0nat
        }
    }
}

pub proof fn lemma_slot_count_push(g: GraphModel, vs: Seq<Seq<char>>, x: Seq<char>, d: Seq<char>)
    ensures
        slot_count(g, vs.push(x), d) == slot_count(g, vs, d) + if g.contains_key(x) {
            count_in(g[x].deps, d)
        } else {
            0nat
        },
{
    assert(vs.push(x).drop_last() =~= vs);
    assert(vs.push(x).last() == x);
}

/// One slot in a source of `vs` holds `d` exactly when the total slot count
/// is positive.
pub proof fn lemma_slot_count_pos(g: GraphModel, vs: Seq<Seq<char>>, d: Seq<char>)
    ensures
        slot_count(g, vs, d) >= 1 <==> exists|k: int, i: int|
            0 <= k < vs.len() && g.contains_key(vs[k]) && 0 <= i < g[vs[k]].deps.len()
                && g[vs[k]].deps[i] == d,
    decreases vs.len(),
{
    if vs.len() > 0 {
        let pre = vs.drop_last();
        lemma_slot_count_pos(g, pre, d);
        let x = vs.last();
        if g.contains_key(x) {
            lemma_count_in_pos(g[x].deps, d);
        }
        if slot_count(g, vs, d) >= 1 {
            if g.contains_key(x) && count_in(g[x].deps, d) >= 1 {
                let i = choose|i: int| 0 <= i < g[x].deps.len() && g[x].deps[i] == d;
                assert(vs[vs.len() - 1] == x);
                assert(g[vs[vs.len() - 1]].deps[i] == d);
            } else {
                let (k, i) = choose|k: int, i: int|
                    0 <= k < pre.len() && g.contains_key(pre[k]) && 0 <= i < g[pre[k]].deps.len()
                        && g[pre[k]].deps[i] == d;
                assert(vs[k] == pre[k]);
            }
        }
        if exists|k: int, i: int|
            0 <= k < vs.len() && g.contains_key(vs[k]) && 0 <= i < g[vs[k]].deps.len()
                && g[vs[k]].deps[i] == d {
            let (k, i) = choose|k: int, i: int|
                0 <= k < vs.len() && g.contains_key(vs[k]) && 0 <= i < g[vs[k]].deps.len()
                    && g[vs[k]].deps[i] == d;
            if k < vs.len() - 1 {
                assert(pre[k] == vs[k]);
                assert(count_in(pre, d) >= 0);
                assert(slot_count(g, pre, d) >= 1);
            } else {
                assert(vs[k] == x);
                assert(count_in(g[x].deps, d) >= 1);
            }
        }
    }
}

/// How many source-file slots of the targets listed in `vs` hold `f`.
pub open spec fn src_slot_count(g: GraphModel, vs: Seq<Seq<char>>, f: Seq<char>) -> nat
    decreases vs.len(),
{
    if vs.len() == 0 {
        0
    } else {
        src_slot_count(g, vs.drop_last(), f) + if g.contains_key(vs.last()) {
            count_in(g[vs.last()].srcs, f)
        } else {
            0nat
        }
    }
}

pub proof fn lemma_src_slot_count_push(
    g: GraphModel,
    vs: Seq<Seq<char>>,
    x: Seq<char>,
    f: Seq<char>,
)
    ensures
        src_slot_count(g, vs.push(x), f) == src_slot_count(g, vs, f) + if g.contains_key(x) {
            count_in(g[x].srcs, f)
        } else {
            0nat
        },
{
    assert(vs.push(x).drop_last() =~= vs);
    assert(vs.push(x).last() == x);
}

/// Two distinct slots among the sources listed in `vs` hold `d` exactly
/// when the total slot count is two or more. Slots are told apart by the
/// position of the source in `vs` and the position within its list.
pub proof fn lemma_slot_count_two(g: GraphModel, vs: Seq<Seq<char>>, d: Seq<char>)
    ensures
        slot_count(g, vs, d) >= 2 <==> exists|k1: int, i1: int, k2: int, i2: int|
            {
                &&& 0 <= k1 < vs.len() && g.contains_key(vs[k1]) && 0 <= i1 < g[vs[k1]].deps.len()
                    && g[vs[k1]].deps[i1] == d
                &&& 0 <= k2 < vs.len() && g.contains_key(vs[k2]) && 0 <= i2 < g[vs[k2]].deps.len()
                    && g[vs[k2]].deps[i2] == d
                &&& (k1 != k2 || i1 != i2)
            },
    decreases vs.len(),
{
    if vs.len() > 0 {
        let pre = vs.drop_last();
        let x = vs.last();
        lemma_slot_count_two(g, pre, d);
        lemma_slot_count_pos(g, pre, d);
        if g.contains_key(x) {
            lemma_count_in_two(g[x].deps, d);
            lemma_count_in_pos(g[x].deps, d);
        }
        let last = vs.len() - 1;
        assert(vs[last] == x);
        if slot_count(g, vs, d) >= 2 {
            let own: nat = if g.contains_key(x) {
                count_in(g[x].deps, d)
            } else {
                0nat
            };
            if own >= 2 {
                let (i1, i2) = choose|i1: int, i2: int|
                    0 <= i1 < g[x].deps.len() && 0 <= i2 < g[x].deps.len() && i1 != i2
                        && g[x].deps[i1] == d && g[x].deps[i2] == d;
                assert(g[vs[last]].deps[i1] == d && g[vs[last]].deps[i2] == d);
            } else if own >= 1 && slot_count(g, pre, d) >= 1 {
                let i1 = choose|i1: int| 0 <= i1 < g[x].deps.len() && g[x].deps[i1] == d;
                let (k2, i2) = choose|k2: int, i2: int|
                    0 <= k2 < pre.len() && g.contains_key(pre[k2]) && 0 <= i2 < g[pre[k2]].deps.len()
                        && g[pre[k2]].deps[i2] == d;
                assert(vs[k2] == pre[k2]);
                assert(g[vs[last]].deps[i1] == d && g[vs[k2]].deps[i2] == d && last != k2);
            } else {
                assert(slot_count(g, pre, d) >= 2);
                let (k1, i1, k2, i2) = choose|k1: int, i1: int, k2: int, i2: int|
                    {
                        &&& 0 <= k1 < pre.len() && g.contains_key(pre[k1])
                        &&& 0 <= i1 < g[pre[k1]].deps.len() && g[pre[k1]].deps[i1] == d
                        &&& 0 <= k2 < pre.len() && g.contains_key(pre[k2])
                        &&& 0 <= i2 < g[pre[k2]].deps.len() && g[pre[k2]].deps[i2] == d
                        &&& (k1 != k2 || i1 != i2)
                    };
                assert(vs[k1] == pre[k1] && vs[k2] == pre[k2]);
            }
        }
        if exists|k1: int, i1: int, k2: int, i2: int|
            {
                &&& 0 <= k1 < vs.len() && g.contains_key(vs[k1]) && 0 <= i1 < g[vs[k1]].deps.len()
                    && g[vs[k1]].deps[i1] == d
                &&& 0 <= k2 < vs.len() && g.contains_key(vs[k2]) && 0 <= i2 < g[vs[k2]].deps.len()
                    && g[vs[k2]].deps[i2] == d
                &&& (k1 != k2 || i1 != i2)
            } {
            let (k1, i1, k2, i2) = choose|k1: int, i1: int, k2: int, i2: int|
                {
                    &&& 0 <= k1 < vs.len() && g.contains_key(vs[k1])
                    &&& 0 <= i1 < g[vs[k1]].deps.len() && g[vs[k1]].deps[i1] == d
                    &&& 0 <= k2 < vs.len() && g.contains_key(vs[k2])
                    &&& 0 <= i2 < g[vs[k2]].deps.len() && g[vs[k2]].deps[i2] == d
                    &&& (k1 != k2 || i1 != i2)
                };
            if k1 < last && k2 < last {
                assert(pre[k1] == vs[k1] && pre[k2] == vs[k2]);
                assert(slot_count(g, pre, d) >= 2);
            } else if k1 == last && k2 == last {
                assert(i1 != i2);
                assert(count_in(g[x].deps, d) >= 2);
            } else if k1 == last {
                assert(pre[k2] == vs[k2]);
                assert(count_in(g[x].deps, d) >= 1 && slot_count(g, pre, d) >= 1);
            } else {
                assert(pre[k1] == vs[k1]);
                assert(count_in(g[x].deps, d) >= 1 && slot_count(g, pre, d) >= 1);
            }
        }
    }
}

} // verus!
