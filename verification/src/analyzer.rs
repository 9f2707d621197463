//! The trigger-score table in its plain form.
//!
//! Same calculation as `trigger_scores`, with a result row that carries the
//! derived figures only and leaves the commit sets out.

use vstd::prelude::*;

use crate::bazel::BazelDependencyGraph;
use crate::collections::StrMap;
use crate::errors::AnalysisError;
use crate::git::GitRepo;
use crate::git::RepoModel;
use crate::reach::GraphModel;
use crate::reach::on_cycle;
use crate::reach::slot_count;
use crate::trigger_scores::all_commits;
use crate::trigger_scores::calc_ok;
use crate::trigger_scores::calculate_trigger_scores;
use crate::trigger_scores::dependents_set;
use crate::trigger_scores::score_of;
use crate::trigger_scores::visited_set;

verus! {

/// The resolved targets of one calculation.
pub struct TriggerScores {
    pub targets: Vec<ResolvedTarget>,
}

/// One target with the derived figures, without the commit sets.
pub struct ResolvedTarget {
    pub name: String,
    /// Number of distinct commits that force this target to rebuild.
    pub rebuilds: usize,
    /// Number of dependency-list slots of visited targets that point here.
    pub immediate_dependents: usize,
    /// Number of visited targets that transitively depend on this one,
    /// itself included.
    pub total_dependents: usize,
    /// Rebuild cost estimate: `rebuilds * (total_dependents + 1)`.
    pub score: usize,
}

/// A target while the reverse-dependency information is being gathered.
pub struct Target {
    pub name: String,
    pub rebuilds: usize,
    /// Labels of the visited targets that declare a dependency on this one.
    pub immediate_dependents: Vec<String>,
    pub score: usize,
}

/// The figures the table promises for one label of its result map.
pub open spec fn row_ok(
    g: GraphModel,
    rm: RepoModel,
    t: Seq<char>,
    kv: Seq<Seq<char>>,
    l: Seq<char>,
    rt: ResolvedTarget,
) -> bool {
    &&& rt.name@ == l
    &&& rt.rebuilds == all_commits(g, rm, l).len()
    &&& all_commits(g, rm, l).finite()
    &&& rt.total_dependents == dependents_set(g, visited_set(g, t), l).len()
    &&& rt.total_dependents >= 1
    &&& rt.score == score_of(rt.rebuilds as nat, rt.total_dependents as nat)
    &&& rt.immediate_dependents == slot_count(g, kv, l)
}

/// The trigger-score table for the seed expression, as a map from label to
/// its resolved figures. Succeeds and fails exactly as
/// `calculate_trigger_scores` does.
pub fn calculate_trigger_scores_map(
    target: &String,
    repo: &GitRepo,
    deps_graph: &BazelDependencyGraph,
) -> (r: Result<StrMap<ResolvedTarget>, AnalysisError>)
    requires
        deps_graph.wf(),
        repo.wf(),
        crate::trigger_scores::graph_sources_wf(deps_graph@),
    ensures
        r is Ok <==> calc_ok(deps_graph@, target@),
        match r {
            Ok(m) => {
                &&& m.wf()
                &&& m@.dom() == visited_set(deps_graph@, target@)
                &&& forall|l: Seq<char>| #[trigger]
                    m@.contains_key(l) ==> row_ok(
                        deps_graph@,
                        repo@,
                        target@,
                        m.key_views(),
                        l,
                        m@[l],
                    )
            },
            Err(e) => match e {
                AnalysisError::NotFound(l) => visited_set(deps_graph@, target@).contains(l@)
                    && !deps_graph@.contains_key(l@),
                AnalysisError::CycleDetected(l) => visited_set(deps_graph@, target@).contains(l@)
                    && on_cycle(deps_graph@, l@),
                AnalysisError::Inconsistent(_) => false,
            },
        },
{
    let ghost g = deps_graph@;
    let ghost rm = repo@;
    let ghost tv = target@;
    let full = match calculate_trigger_scores(target, repo, deps_graph) {
        Ok(m) => m,
        Err(e) => {
            return Err(e);
        },
    };
    let ghost kv = full.key_views();
    let mut result: StrMap<ResolvedTarget> = StrMap::new();
    let total = full.count();
    let mut i: usize = 0;
    proof {
        assert(result.key_views() =~= kv.take(0));
    }
    while i < total
        invariant
            g == deps_graph@,
            rm == repo@,
            tv == target@,
            full.wf(),
            kv == full.key_views(),
            kv.no_duplicates(),
            i <= total == kv.len(),
            full@.dom() == visited_set(g, tv),
            forall|l: Seq<char>| #[trigger]
                full@.contains_key(l) ==> crate::trigger_scores::resolved_ok(
                    g,
                    rm,
                    tv,
                    kv,
                    l,
                    full@[l],
                ),
            result.wf(),
            result.key_views() == kv.take(i as int),
            forall|l: Seq<char>| #[trigger]
                result@.contains_key(l) ==> row_ok(g, rm, tv, kv, l, result@[l]),
        decreases total - i,
    {
        let k = full.key_at(i);
        let ghost lv = k@;
        let row = full.val_at(i);
        proof {
            assert(lv == kv[i as int]);
            assert(full@.contains_key(lv));
            assert(row == full@[lv]);
        }
        let rt = ResolvedTarget {
            name: k.clone(),
            rebuilds: row.rebuilds,
            immediate_dependents: row.immediate_dependents,
            total_dependents: row.total_dependents,
            score: row.score,
        };
        proof {
            assert(row_ok(g, rm, tv, kv, lv, rt));
            assert(!result@.contains_key(lv)) by {
                if result@.contains_key(lv) {
                    result.lemma_dom();
                    assert(kv.take(i as int).to_set().contains(lv));
                    assert(kv.take(i as int).contains(lv));
                    let j = choose|j: int| 0 <= j < i && kv.take(i as int)[j] == lv;
                    assert(kv[j] == lv && kv[i as int] == lv);
                }
            }
        }
        result.insert(k.clone(), rt);
        proof {
            assert(result.key_views() =~= kv.take(i + 1)) by {
                assert(kv.take(i + 1) =~= kv.take(i as int).push(kv[i as int]));
            }
        }
        i = i + 1;
    }
    proof {
        assert(result.key_views() =~= kv) by {
            assert(kv.take(total as int) =~= kv);
        }
        result.lemma_keys();
        full.lemma_keys();
        assert(result@.dom() =~= visited_set(g, tv));
        assert forall|l: Seq<char>| #[trigger] result@.contains_key(l) implies row_ok(
            g,
            rm,
            tv,
            result.key_views(),
            l,
            result@[l],
        ) by {}
    }
    Ok(result)
}

} // verus!
