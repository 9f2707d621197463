//! Trigger scores: how much rebuild churn each target carries.
//!
//! For a seed target (or a wildcard over a label prefix) the calculator
//! resolves every target touched during the traversal: the set of commits
//! that touch the target's own source files, the number of distinct commits
//! that force a rebuild through any transitive dependency, how many targets
//! depend on it directly and transitively, and a blast-radius score.
//!
//! A source-file label `//pkg/path:file` is attributed to the commit
//! history under the repository-relative path `pkg/path/file`.

use vstd::prelude::*;

use crate::bazel::BazelDependencyGraph;
use crate::bazel::Entry;
use crate::chars::chars_of;
use crate::chars::ends_with;
use crate::chars::find_char;
use crate::chars::first_index_of;
use crate::chars::has_prefix;
use crate::chars::has_suffix;
use crate::chars::starts_with;
use crate::collections::StrMap;
use crate::collections::StrSet;
use crate::errors::AnalysisError;
use crate::git::GitRepo;
use crate::git::RepoModel;
use crate::reach::GraphModel;
use crate::reach::dep_closed;
use crate::reach::has_edge;
use crate::reach::lemma_closed_set_contains_closure;
use crate::reach::lemma_edge_proper;
use crate::reach::lemma_proper_append_edge;
use crate::reach::lemma_proper_unfold;
use crate::reach::lemma_reaches_self;
use crate::reach::count_in;
use crate::reach::lemma_count_in_push;
use crate::reach::lemma_slot_count_push;
use crate::reach::slot_count;
use crate::reach::lemma_step_reaches;
use crate::reach::on_cycle;
use crate::reach::reaches;
use crate::reach::reaches_proper;

verus! {

/// The resolved targets of one calculation.
pub struct TriggerScores {
    pub targets: Vec<ResolvedTarget>,
}

/// One target with every figure the calculator derives for it.
pub struct ResolvedTarget {
    pub name: String,
    /// Number of distinct commits that force this target to rebuild,
    /// through its own sources or any transitive dependency.
    pub rebuilds: usize,
    /// Number of dependency-list slots of visited targets that point here.
    pub immediate_dependents: usize,
    /// Number of visited targets that transitively depend on this one,
    /// itself included.
    pub total_dependents: usize,
    /// Rebuild cost estimate: `rebuilds * (total_dependents + 1)`.
    pub score: usize,
    /// The commits that trigger this target specifically, not through its
    /// dependencies.
    pub commits: StrSet,
}

/// A target while the reverse-dependency information is being gathered.
pub struct Target {
    pub name: String,
    pub rebuilds: usize,
    /// Labels of the visited targets that declare a dependency on this one,
    /// one occurrence per dependency-list slot.
    pub immediate_dependents: Vec<String>,
}

/// The label ends in the three-character wildcard marker.
pub open spec fn is_wildcard(t: Seq<char>) -> bool {
    t.len() >= 3 && t.subrange(t.len() - 3, t.len() as int) == seq!['.', '.', '.']
}

/// The label with the wildcard marker cut off.
pub open spec fn wildcard_prefix(t: Seq<char>) -> Seq<char> {
    t.subrange(0, t.len() - 3)
}

/// A well-formed source-file label: `//<package-path>:<file-name>`.
pub open spec fn wf_source_label(f: Seq<char>) -> bool {
    f.len() >= 2 && f[0] == '/' && f[1] == '/' && f.contains(':')
}

/// A source label the calculator accepts: an external reference (skipped)
/// or a well-formed label.
pub open spec fn src_label_ok(f: Seq<char>) -> bool {
    (f.len() >= 1 && f[0] == '@') || wf_source_label(f)
}

/// Every source label of every rule in the graph is acceptable.
pub open spec fn graph_sources_wf(g: GraphModel) -> bool {
    forall|l: Seq<char>, i: int|
        g.contains_key(l) && 0 <= i < g[l].srcs.len() ==> src_label_ok(#[trigger] g[l].srcs[i])
}

/// The repository-relative path of a source label: strip the two leading
/// marker characters and join the package path and the file name with a
/// slash. Of the characters after the first separator, those before any
/// further separator make up the file name.
pub open spec fn norm_path(f: Seq<char>) -> Seq<char> {
    let i = first_index_of(f, ':');
    let rest = f.subrange(i + 1, f.len() as int);
    let j = if rest.contains(':') {
        first_index_of(rest, ':')
    } else {
        rest.len() as int
    };
    (f.subrange(0, i) + seq!['/'] + rest.subrange(0, j)).skip(2)
}

/// The commits that one source label contributes: none for an external
/// reference or a path without recorded history.
pub open spec fn src_commits(rm: RepoModel, f: Seq<char>) -> Set<Seq<char>> {
    if f.len() >= 1 && f[0] == '@' {
        Set::empty()
    } else if rm.contains_key(norm_path(f)) {
        rm[norm_path(f)]
    } else {
        Set::empty()
    }
}

/// The commits touching any of the given source labels.
pub open spec fn entry_commits(rm: RepoModel, srcs: Seq<Seq<char>>) -> Set<Seq<char>> {
    Set::new(
        |c: Seq<char>|
            exists|i: int|
                0 <= i < srcs.len() && #[trigger] src_commits(rm, srcs[i]).contains(c),
    )
}

/// The commits touching the sources owned directly by `l`.
pub open spec fn specific_commits(g: GraphModel, rm: RepoModel, l: Seq<char>) -> Set<Seq<char>> {
    entry_commits(rm, g[l].srcs)
}

/// The commits that rebuild `l`: those touching the sources of any label in
/// its dependency closure, itself included.
pub open spec fn all_commits(g: GraphModel, rm: RepoModel, l: Seq<char>) -> Set<Seq<char>> {
    Set::new(
        |c: Seq<char>|
            exists|b: Seq<char>|
                reaches(g, l, b) && #[trigger] specific_commits(g, rm, b).contains(c),
    )
}

/// Turn a well-formed source label into the repository-relative path of the
/// file it names.
#[verifier::rlimit(50)]
pub fn normalize_source(f: &String) -> (r: Vec<char>)
    requires
        wf_source_label(f@),
    ensures
        r@ == norm_path(f@),
{
    let cs = chars_of(f.as_str());
    let ghost fv = f@;
    let i = match find_char(&cs, ':') {
        Some(i) => i,
        None => {
            proof {
                let j = choose|j: int| 0 <= j < fv.len() && fv[j] == ':';
                assert(false);
            }
            0
        },
    };
    proof {
        assert(i >= 2) by {
            assert(fv[0] == '/' && fv[1] == '/');
        }
    }
    let mut out: Vec<char> = Vec::new();
    let mut k: usize = 2;
    while k < i
        invariant
            2 <= k <= i < cs.len(),
            cs@ == fv,
            out@ == fv.subrange(2, k as int),
        decreases i - k,
    {
        out.push(cs[k]);
        proof {
            assert(out@ =~= fv.subrange(2, k + 1));
        }
        k = k + 1;
    }
    out.push('/');
    let ghost rest = fv.subrange(i + 1, fv.len() as int);
    let mut k2: usize = i + 1;
    loop
        invariant
            wf_source_label(fv),
            i < k2 <= cs.len(),
            cs@ == fv,
            i == first_index_of(fv, ':'),
            i < fv.len(),
            out@ == fv.subrange(2, i as int) + seq!['/'] + rest.subrange(0, k2 - i - 1),
            rest == fv.subrange(i + 1, fv.len() as int),
            forall|m: int| 0 <= m < k2 - i - 1 ==> rest[m] != ':',
        ensures
            out@ == norm_path(fv),
        decreases cs.len() - k2,
    {
        if k2 >= cs.len() {
            proof {
                assert(k2 == cs.len());
                assert(rest.subrange(0, k2 - i - 1) =~= rest);
                assert(!rest.contains(':')) by {
                    if rest.contains(':') {
                        let m = choose|m: int| 0 <= m < rest.len() && rest[m] == ':';
                    }
                }
                lemma_norm_path_shape(fv, rest.len() as int);
            }
            break ;
        }
        let c = cs[k2];
        if c == ':' {
            proof {
                assert(rest[k2 - i - 1] == ':');
                assert(rest.contains(':'));
                crate::chars::lemma_first_index_unique(rest, ':', k2 - i - 1);
                lemma_norm_path_shape(fv, k2 - i - 1);
            }
            break ;
        }
        out.push(c);
        proof {
            assert(rest[k2 - i - 1] == c);
            assert(out@ =~= fv.subrange(2, i as int) + seq!['/'] + rest.subrange(0, k2 - i));
        }
        k2 = k2 + 1;
    }
    out
}

/// Spells out `norm_path` for a label whose file-name part has length `j`.
proof fn lemma_norm_path_shape(f: Seq<char>, j: int)
    requires
        wf_source_label(f),
        ({
            let i = first_index_of(f, ':');
            let rest = f.subrange(i + 1, f.len() as int);
            j == if rest.contains(':') {
                first_index_of(rest, ':')
            } else {
                rest.len() as int
            }
        }),
    ensures
        ({
            let i = first_index_of(f, ':');
            let rest = f.subrange(i + 1, f.len() as int);
            &&& 0 <= j <= rest.len()
            &&& norm_path(f) == f.subrange(2, i) + seq!['/'] + rest.subrange(0, j)
        }),
{
    assert(f.contains(':'));
    let w = choose|w: int| 0 <= w < f.len() && f[w] == ':';
    lemma_some_first_index(f, ':', w);
    let i = first_index_of(f, ':');
    assert(i >= 2) by {
        assert(f[0] == '/' && f[1] == '/');
    }
    let rest = f.subrange(i + 1, f.len() as int);
    if rest.contains(':') {
        let w2 = choose|w2: int| 0 <= w2 < rest.len() && rest[w2] == ':';
        lemma_some_first_index(rest, ':', w2);
    }
    let combined = f.subrange(0, i) + seq!['/'] + rest.subrange(0, j);
    assert(norm_path(f) == combined.skip(2));
    assert(combined.skip(2) =~= f.subrange(2, i) + seq!['/'] + rest.subrange(0, j));
}

/// Below any occurrence of `c` there is a first one, so the chosen first
/// index satisfies its defining property.
proof fn lemma_some_first_index(s: Seq<char>, c: char, w: int)
    requires
        0 <= w < s.len(),
        s[w] == c,
    ensures
        ({
            let i = first_index_of(s, c);
            0 <= i < s.len() && s[i] == c && forall|y: int| 0 <= y < i ==> s[y] != c
        }),
    decreases w,
{
    if forall|y: int| 0 <= y < w ==> s[y] != c {
        assert(0 <= w < s.len() && s[w] == c && forall|y: int| 0 <= y < w ==> s[y] != c);
    } else {
        let w2 = choose|w2: int| 0 <= w2 < w && s[w2] == c;
        lemma_some_first_index(s, c, w2);
    }
}

/// The commits touching the sources that one entry owns directly.
fn collect_source_commits(entry: &Entry, repo: &GitRepo) -> (r: StrSet)
    requires
        repo.wf(),
        forall|i: int| 0 <= i < entry@.srcs.len() ==> src_label_ok(#[trigger] entry@.srcs[i]),
    ensures
        r.wf(),
        r@ == entry_commits(repo@, entry@.srcs),
{
    let ghost rm = repo@;
    let ghost srcs = entry@.srcs;
    let mut acc = StrSet::new();
    let mut i: usize = 0;
    proof {
        assert(acc@ =~= Set::new(
            |c: Seq<char>|
                exists|j: int| 0 <= j < 0 && #[trigger] src_commits(rm, srcs[j]).contains(c),
        ));
    }
    while i < entry.source_files.len()
        invariant
            repo.wf(),
            rm == repo@,
            srcs == entry@.srcs,
            forall|j: int| 0 <= j < srcs.len() ==> src_label_ok(#[trigger] srcs[j]),
            acc.wf(),
            i <= entry.source_files.len(),
            srcs.len() == entry.source_files@.len(),
            acc@ == Set::new(
                |c: Seq<char>|
                    exists|j: int|
                        0 <= j < i && #[trigger] src_commits(rm, srcs[j]).contains(c),
            ),
        decreases entry.source_files.len() - i,
    {
        let f = &entry.source_files[i];
        proof {
            assert(f@ == srcs[i as int]);
        }
        let ghost acc_pre = acc@;
        let cs = chars_of(f.as_str());
        let external = cs.len() >= 1 && cs[0] == '@';
        if !external {
            proof {
                assert(wf_source_label(f@));
            }
            let path = normalize_source(f);
            match repo.files.get_by_chars(&path) {
                Some(file) => {
                    proof {
                        assert(repo.files@[path@].commit_history.wf());
                        assert(file.commit_history.wf());
                        assert(rm.contains_key(path@) && rm[path@] == file@);
                        assert(src_commits(rm, srcs[i as int]) == rm[norm_path(f@)]);
                    }
                    acc.add_all(&file.commit_history);
                },
                None => {
                    proof {
                        assert(!rm.contains_key(norm_path(f@))) by {
                            assert(repo.files@.dom() =~= rm.dom());
                        }
                        assert(src_commits(rm, srcs[i as int]) =~= Set::<Seq<char>>::empty());
                    }
                },
            }
        } else {
            proof {
                assert(src_commits(rm, srcs[i as int]) =~= Set::<Seq<char>>::empty());
            }
        }
        proof {
            assert(acc@ =~= Set::new(
                |c: Seq<char>|
                    exists|j: int|
                        0 <= j < i + 1 && #[trigger] src_commits(rm, srcs[j]).contains(c),
            )) by {
                assert forall|c: Seq<char>| acc@.contains(c) implies exists|j: int|
                    0 <= j < i + 1 && #[trigger] src_commits(rm, srcs[j]).contains(c) by {
                    if acc_pre.contains(c) {
                        let j = choose|j: int|
                            0 <= j < i && #[trigger] src_commits(rm, srcs[j]).contains(c);
                        assert(src_commits(rm, srcs[j]).contains(c));
                    } else {
                        assert(src_commits(rm, srcs[i as int]).contains(c));
                    }
                }
                assert forall|c: Seq<char>|
                    (exists|j: int|
                        0 <= j < i + 1 && #[trigger] src_commits(rm, srcs[j]).contains(c))
                    implies acc@.contains(c) by {
                    let j = choose|j: int|
                        0 <= j < i + 1 && #[trigger] src_commits(rm, srcs[j]).contains(c);
                    if j < i {
                        assert(acc_pre.contains(c));
                    }
                }
            }
        }
        i = i + 1;
    }
    proof {
        assert(acc@ =~= entry_commits(rm, srcs));
    }
    acc
}

/// Everything `t` reaches.
pub open spec fn reach_set(g: GraphModel, t: Seq<char>) -> Set<Seq<char>> {
    Set::new(|x: Seq<char>| reaches(g, t, x))
}

/// The union of the rebuild sets of the first `k` listed dependencies.
pub open spec fn deps_prefix_commits(
    g: GraphModel,
    rm: RepoModel,
    ds: Seq<Seq<char>>,
    k: int,
) -> Set<Seq<char>> {
    Set::new(
        |c: Seq<char>|
            exists|j: int| 0 <= j < k && #[trigger] all_commits(g, rm, ds[j]).contains(c),
    )
}

/// The caches agree with the model on every label recorded so far: the
/// rebuild set and the specific commits are exact, every recorded label is
/// in the graph, the recorded set is closed under dependency edges, and no
/// recorded label lies on a cycle.
pub open spec fn cache_inv(
    g: GraphModel,
    rm: RepoModel,
    cby: &StrMap<StrSet>,
    csp: &StrMap<StrSet>,
) -> bool {
    &&& cby.wf() && csp.wf()
    &&& csp@.dom() == cby@.dom()
    &&& forall|l: Seq<char>| #[trigger]
        cby@.contains_key(l) ==> g.contains_key(l) && !on_cycle(g, l)
    &&& forall|l: Seq<char>| #[trigger]
        cby@.contains_key(l) ==> cby@[l].wf() && cby@[l]@ == all_commits(g, rm, l)
    &&& forall|l: Seq<char>| #[trigger]
        cby@.contains_key(l) ==> csp@[l].wf() && csp@[l]@ == specific_commits(g, rm, l)
    &&& dep_closed(g, cby@.dom())
}

/// Every label waiting on the recursion stack properly depends on the label
/// now being computed.
pub open spec fn gray_ok(g: GraphModel, grayset: Set<Seq<char>>, t: Seq<char>) -> bool {
    forall|x: Seq<char>| #[trigger]
        grayset.contains(x) ==> g.contains_key(x) && reaches_proper(g, x, t)
}

/// The rebuild set of a label splits into its own specific commits and the
/// rebuild sets of its direct dependencies.
proof fn lemma_all_commits_unfold(g: GraphModel, rm: RepoModel, t: Seq<char>)
    requires
        g.contains_key(t),
    ensures
        all_commits(g, rm, t) == specific_commits(g, rm, t) + deps_prefix_commits(
            g,
            rm,
            g[t].deps,
            g[t].deps.len() as int,
        ),
{
    let ds = g[t].deps;
    let lhs = all_commits(g, rm, t);
    let rhs = specific_commits(g, rm, t) + deps_prefix_commits(g, rm, ds, ds.len() as int);
    assert forall|c: Seq<char>| lhs.contains(c) implies rhs.contains(c) by {
        let b = choose|b: Seq<char>|
            reaches(g, t, b) && #[trigger] specific_commits(g, rm, b).contains(c);
        if b == t {
        } else {
            crate::reach::lemma_reaches_unfold(g, t, b);
            let d = choose|d: Seq<char>| has_edge(g, t, d) && reaches(g, d, b);
            let j = choose|j: int| 0 <= j < ds.len() && ds[j] == d;
            assert(all_commits(g, rm, ds[j]).contains(c));
        }
    }
    assert forall|c: Seq<char>| rhs.contains(c) implies lhs.contains(c) by {
        if specific_commits(g, rm, t).contains(c) {
            lemma_reaches_self(g, t);
            assert(reaches(g, t, t) && specific_commits(g, rm, t).contains(c));
        } else {
            let j = choose|j: int|
                0 <= j < ds.len() && #[trigger] all_commits(g, rm, ds[j]).contains(c);
            let b = choose|b: Seq<char>|
                reaches(g, ds[j], b) && #[trigger] specific_commits(g, rm, b).contains(c);
            assert(ds.contains(ds[j]));
            assert(has_edge(g, t, ds[j]));
            lemma_step_reaches(g, t, ds[j], b);
            assert(reaches(g, t, b) && specific_commits(g, rm, b).contains(c));
        }
    }
    assert(lhs =~= rhs);
}

/// The closure of a label splits into the label itself and the closures of
/// its direct dependencies.
proof fn lemma_reach_set_unfold(g: GraphModel, t: Seq<char>)
    requires
        g.contains_key(t),
    ensures
        reach_set(g, t) == Set::new(
            |x: Seq<char>|
                x == t || exists|j: int|
                    0 <= j < g[t].deps.len() && reaches(g, #[trigger] g[t].deps[j], x),
        ),
{
    let ds = g[t].deps;
    let rhs = Set::new(
        |x: Seq<char>|
            x == t || exists|j: int|
                0 <= j < g[t].deps.len() && reaches(g, #[trigger] g[t].deps[j], x),
    );
    assert forall|x: Seq<char>| reach_set(g, t).contains(x) implies rhs.contains(x) by {
        if x != t {
            crate::reach::lemma_reaches_unfold(g, t, x);
            let d = choose|d: Seq<char>| has_edge(g, t, d) && reaches(g, d, x);
            let j = choose|j: int| 0 <= j < ds.len() && ds[j] == d;
            assert(reaches(g, ds[j], x));
        } else {
            assert(rhs.contains(x));
        }
    }
    assert forall|x: Seq<char>| rhs.contains(x) implies reach_set(g, t).contains(x) by {
        if x == t {
            lemma_reaches_self(g, t);
        } else {
            let j = choose|j: int| 0 <= j < ds.len() && reaches(g, #[trigger] ds[j], x);
            assert(ds.contains(ds[j]));
            assert(has_edge(g, t, ds[j]));
            lemma_step_reaches(g, t, ds[j], x);
        }
    }
    assert(reach_set(g, t) =~= rhs);
}

/// One memoized step of the traversal: ensure that `target_name` and its
/// whole dependency closure are recorded in the caches. A label already
/// recorded returns at once; otherwise the dependencies are resolved first,
/// their rebuild sets are unioned with the commits touching the target's
/// own sources, and the result is recorded. The `gray` set holds the labels
/// of the recursion stack: meeting one again means the graph has a cycle.
#[verifier::rlimit(100)]
pub(crate) fn calc_inner(
    target_name: &String,
    repo: &GitRepo,
    deps_graph: &BazelDependencyGraph,
    commits_by_target: &mut StrMap<StrSet>,
    commits_specific: &mut StrMap<StrSet>,
    gray: &mut StrSet,
) -> (r: Result<(), AnalysisError>)
    requires
        deps_graph.wf(),
        repo.wf(),
        graph_sources_wf(deps_graph@),
        deps_graph@.contains_key(target_name@),
        cache_inv(deps_graph@, repo@, old(commits_by_target), old(commits_specific)),
        old(gray).wf(),
        gray_ok(deps_graph@, old(gray)@, target_name@),
    ensures
        cache_inv(deps_graph@, repo@, final(commits_by_target), final(commits_specific)),
        forall|l: Seq<char>| #[trigger]
            old(commits_by_target)@.contains_key(l) ==> final(commits_by_target)@.contains_key(l)
                && final(commits_by_target)@[l] == old(commits_by_target)@[l],
        forall|l: Seq<char>| #[trigger]
            old(commits_specific)@.contains_key(l) ==> final(commits_specific)@.contains_key(l)
                && final(commits_specific)@[l] == old(commits_specific)@[l],
        final(gray).wf(),
        match r {
            Ok(u) => {
                &&& final(gray)@ == old(gray)@
                &&& final(commits_by_target)@.dom() == old(commits_by_target)@.dom() + reach_set(
                    deps_graph@,
                    target_name@,
                )
            },
            Err(e) => match e {
                AnalysisError::NotFound(l) => reaches(deps_graph@, target_name@, l@)
                    && !deps_graph@.contains_key(l@),
                AnalysisError::CycleDetected(l) => reaches(deps_graph@, target_name@, l@)
                    && on_cycle(deps_graph@, l@),
                AnalysisError::Inconsistent(_) => false,
            },
        },
    decreases deps_graph@.dom().len() - gray@.len(),
{
    let ghost g = deps_graph@;
    let ghost rm = repo@;
    let ghost tv = target_name@;
    proof {
        lemma_reaches_self(g, tv);
        deps_graph.lemma_dom();
    }
    if commits_by_target.contains_key(target_name) {
        proof {
            assert forall|x: Seq<char>| #[trigger] reaches(g, tv, x) implies commits_by_target@
                .contains_key(x) by {
                lemma_closed_set_contains_closure(g, commits_by_target@.dom(), tv, x);
            }
            assert(commits_by_target@.dom() =~= commits_by_target@.dom() + reach_set(g, tv));
        }
        return Ok(());
    }
    if gray.contains(target_name) {
        proof {
            assert(reaches_proper(g, tv, tv));
        }
        return Err(AnalysisError::CycleDetected(target_name.clone()));
    }
    let ghost gray0 = gray@;
    gray.insert(target_name.clone());
    proof {
        gray.lemma_len();
        assert(gray@.len() == gray0.len() + 1) by {
            old(gray).lemma_len();
        }
    }
    let entry = match deps_graph.get_entry(target_name) {
        Some(e) => e,
        None => {
            proof {
                assert(false);
            }
            return Err(AnalysisError::Inconsistent(target_name.clone()));
        },
    };
    let ghost dom0 = commits_by_target@.dom();
    let ghost gray1 = gray@;
    let mut all = StrSet::new();
    let mut di: usize = 0;
    proof {
        assert(all@ =~= deps_prefix_commits(g, rm, g[tv].deps, 0));
        assert(commits_by_target@.dom() =~= dom0 + Set::new(
            |x: Seq<char>|
                exists|j: int| 0 <= j < 0 && reaches(g, #[trigger] g[tv].deps[j], x),
        ));
    }
    while di < entry.dep_targets.len()
        invariant
            deps_graph.wf(),
            repo.wf(),
            graph_sources_wf(g),
            g == deps_graph@,
            rm == repo@,
            tv == target_name@,
            g.contains_key(tv),
            entry@ == g[tv],
            di <= entry.dep_targets.len(),
            entry.dep_targets@.len() == g[tv].deps.len(),
            cache_inv(g, rm, commits_by_target, commits_specific),
            gray.wf(),
            gray@ == gray1,
            gray1 == gray0.insert(tv),
            gray0 == old(gray)@,
            !gray0.contains(tv),
            gray_ok(g, gray0, tv),
            gray@.len() == gray0.len() + 1,
            dom0 == old(commits_by_target)@.dom(),
            !dom0.contains(tv),
            forall|l: Seq<char>| #[trigger]
                old(commits_by_target)@.contains_key(l) ==> commits_by_target@.contains_key(l)
                    && commits_by_target@[l] == old(commits_by_target)@[l],
            forall|l: Seq<char>| #[trigger]
                old(commits_specific)@.contains_key(l) ==> commits_specific@.contains_key(l)
                    && commits_specific@[l] == old(commits_specific)@[l],
            commits_by_target@.dom() == dom0 + Set::new(
                |x: Seq<char>|
                    exists|j: int| 0 <= j < di && reaches(g, #[trigger] g[tv].deps[j], x),
            ),
            all.wf(),
            all@ == deps_prefix_commits(g, rm, g[tv].deps, di as int),
        decreases entry.dep_targets.len() - di,
    {
        let dep = &entry.dep_targets[di];
        let ghost depv = dep@;
        proof {
            assert(depv == g[tv].deps[di as int]);
            assert(g[tv].deps.contains(depv));
            assert(has_edge(g, tv, depv));
            lemma_reaches_self(g, depv);
            lemma_step_reaches(g, tv, depv, depv);
        }
        if !deps_graph.contains_label(dep) {
            return Err(AnalysisError::NotFound(dep.clone()));
        }
        proof {
            assert forall|x: Seq<char>| #[trigger] gray@.contains(x) implies g.contains_key(x)
                && reaches_proper(g, x, depv) by {
                if x == tv {
                    lemma_edge_proper(g, tv, depv);
                } else {
                    assert(gray0.contains(x));
                    lemma_proper_append_edge(g, x, tv, depv);
                }
            }
            deps_graph.lemma_dom();
            assert forall|a: Seq<char>| gray@.contains(a) implies g.dom().contains(a) by {}
            vstd::set_lib::lemma_len_subset(gray@, g.dom());
        }
        let ghost dom_pre = commits_by_target@.dom();
        match calc_inner(dep, repo, deps_graph, commits_by_target, commits_specific, gray) {
            Ok(()) => {},
            Err(e) => {
                proof {
                    match &e {
                        AnalysisError::NotFound(l) => {
                            lemma_step_reaches(g, tv, depv, l@);
                        },
                        AnalysisError::CycleDetected(l) => {
                            lemma_step_reaches(g, tv, depv, l@);
                        },
                        AnalysisError::Inconsistent(_) => {},
                    }
                }
                return Err(e);
            },
        }
        let cached = match commits_by_target.get(dep) {
            Some(s) => s,
            None => {
                proof {
                    assert(reach_set(g, depv).contains(depv));
                    assert(false);
                }
                return Err(AnalysisError::Inconsistent(dep.clone()));
            },
        };
        let ghost all_pre = all@;
        all.add_all(cached);
        proof {
            assert(cached@ == all_commits(g, rm, depv));
            assert(all@ =~= deps_prefix_commits(g, rm, g[tv].deps, di + 1)) by {
                assert forall|c: Seq<char>| all@.contains(c) implies deps_prefix_commits(
                    g,
                    rm,
                    g[tv].deps,
                    di + 1,
                ).contains(c) by {
                    if all_pre.contains(c) {
                        let j = choose|j: int|
                            0 <= j < di && #[trigger] all_commits(g, rm, g[tv].deps[j]).contains(c);
                        assert(all_commits(g, rm, g[tv].deps[j]).contains(c));
                    } else {
                        assert(all_commits(g, rm, g[tv].deps[di as int]).contains(c));
                    }
                }
                assert forall|c: Seq<char>|
                    deps_prefix_commits(g, rm, g[tv].deps, di + 1).contains(c) implies all@
                    .contains(c) by {
                    let j = choose|j: int|
                        0 <= j < di + 1 && #[trigger] all_commits(g, rm, g[tv].deps[j]).contains(c);
                    if j < di {
                        assert(all_pre.contains(c));
                    }
                }
            }
            assert(commits_by_target@.dom() =~= dom0 + Set::new(
                |x: Seq<char>|
                    exists|j: int| 0 <= j < di + 1 && reaches(g, #[trigger] g[tv].deps[j], x),
            )) by {
                assert(commits_by_target@.dom() == dom_pre + reach_set(g, depv));
                assert forall|x: Seq<char>| commits_by_target@.dom().contains(x) implies (dom0
                    + Set::new(
                    |x2: Seq<char>|
                        exists|j: int| 0 <= j < di + 1 && reaches(g, #[trigger] g[tv].deps[j], x2),
                )).contains(x) by {
                    if dom_pre.contains(x) && !dom0.contains(x) {
                        let j = choose|j: int|
                            0 <= j < di && reaches(g, #[trigger] g[tv].deps[j], x);
                        assert(reaches(g, g[tv].deps[j], x));
                    } else if !dom_pre.contains(x) {
                        assert(reach_set(g, depv).contains(x));
                        assert(reaches(g, g[tv].deps[di as int], x));
                    }
                }
                assert forall|x: Seq<char>|
                    (dom0 + Set::new(
                        |x2: Seq<char>|
                            exists|j: int|
                                0 <= j < di + 1 && reaches(g, #[trigger] g[tv].deps[j], x2),
                    )).contains(x) implies commits_by_target@.dom().contains(x) by {
                    if !dom0.contains(x) {
                        let j = choose|j: int|
                            0 <= j < di + 1 && reaches(g, #[trigger] g[tv].deps[j], x);
                        if j < di {
                            assert(dom_pre.contains(x));
                        } else {
                            assert(reach_set(g, depv).contains(x));
                        }
                    }
                }
            }
        }
        di = di + 1;
    }
    proof {
        assert forall|i: int| 0 <= i < entry@.srcs.len() implies src_label_ok(
            #[trigger] entry@.srcs[i],
        ) by {
            assert(g[tv].srcs[i] == entry@.srcs[i]);
        }
    }
    let specific = collect_source_commits(entry, repo);
    all.add_all(&specific);
    proof {
        lemma_all_commits_unfold(g, rm, tv);
        assert(entry_commits(rm, entry@.srcs) == specific_commits(g, rm, tv));
        assert(all@ =~= all_commits(g, rm, tv));
    }
    let ghost dom_mid = commits_by_target@.dom();
    let ghost all_final = all@;
    let ghost specific_final = specific@;
    commits_by_target.insert(target_name.clone(), all);
    commits_specific.insert(target_name.clone(), specific);
    gray.remove(target_name);
    proof {
        assert(gray@ =~= gray0);
        // every direct dependency is recorded, so the new domain is closed
        assert forall|x: Seq<char>, y: Seq<char>|
            commits_by_target@.dom().contains(x) && has_edge(g, x, y) implies commits_by_target@
            .dom().contains(y) by {
            if x == tv {
                let j = choose|j: int| 0 <= j < g[tv].deps.len() && g[tv].deps[j] == y;
                lemma_reaches_self(g, y);
                assert(reaches(g, g[tv].deps[j], y));
                assert(dom_mid.contains(y));
            } else {
                assert(dom_mid.contains(x));
                assert(dom_mid.contains(y));
            }
        }
        // the target cannot lie on a cycle: the cycle's first edge leads
        // into a recorded dependency whose closure is recorded, yet the
        // target was not recorded before this call
        assert(!on_cycle(g, tv)) by {
            if on_cycle(g, tv) {
                if dom_mid.contains(tv) {
                } else {
                    lemma_proper_unfold(g, tv, tv);
                    let d = choose|d: Seq<char>| has_edge(g, tv, d) && reaches(g, d, tv);
                    let j = choose|j: int| 0 <= j < g[tv].deps.len() && g[tv].deps[j] == d;
                    lemma_reaches_self(g, d);
                    assert(reaches(g, g[tv].deps[j], d));
                    assert(dom_mid.contains(d));
                    lemma_closed_set_contains_closure(g, dom_mid, d, tv);
                }
            }
        }
        assert(commits_by_target@.dom() =~= dom0 + reach_set(g, tv)) by {
            lemma_reach_set_unfold(g, tv);
            assert forall|x: Seq<char>| commits_by_target@.dom().contains(x) implies (dom0
                + reach_set(g, tv)).contains(x) by {
                if x != tv && dom_mid.contains(x) && !dom0.contains(x) {
                    let j = choose|j: int| 0 <= j < di && reaches(g, #[trigger] g[tv].deps[j], x);
                    assert(reaches(g, g[tv].deps[j], x));
                    assert(reach_set(g, tv).contains(x));
                }
                if x == tv {
                    lemma_reaches_self(g, tv);
                }
            }
            assert forall|x: Seq<char>| (dom0 + reach_set(g, tv)).contains(x)
                implies commits_by_target@.dom().contains(x) by {
                if !dom0.contains(x) && x != tv {
                    assert(reach_set(g, tv).contains(x));
                    let j = choose|j: int|
                        0 <= j < g[tv].deps.len() && reaches(g, #[trigger] g[tv].deps[j], x);
                    assert(dom_mid.contains(x));
                }
            }
        }
        assert(commits_specific@.dom() =~= commits_by_target@.dom());
    }
    Ok(())
}

/// The visited targets that transitively depend on `l`, itself included.
pub open spec fn dependents_set(g: GraphModel, vset: Set<Seq<char>>, l: Seq<char>) -> Set<
    Seq<char>,
> {
    Set::new(|s: Seq<char>| vset.contains(s) && reaches(g, s, l))
}

/// Is one of the strings equal to `x`?
fn vec_contains_string(v: &Vec<String>, x: &String) -> (r: bool)
    ensures
        r == crate::collections::str_views(v@).contains(x@),
{
    let ghost vw = crate::collections::str_views(v@);
    let mut i: usize = 0;
    while i < v.len()
        invariant
            i <= v.len(),
            vw == crate::collections::str_views(v@),
            forall|j: int| 0 <= j < i ==> vw[j] != x@,
        decreases v.len() - i,
    {
        if v[i].eq(x) {
            assert(vw[i as int] == x@);
            return true;
        }
        i = i + 1;
    }
    proof {
        if vw.contains(x@) {
            let j = choose|j: int| 0 <= j < vw.len() && vw[j] == x@;
        }
    }
    false
}

/// Count the visited targets that transitively depend on `label`, itself
/// included, by walking the recorded dependency edges backwards.
#[verifier::rlimit(50)]
fn count_dependents(
    label: &String,
    deps_graph: &BazelDependencyGraph,
    visited: &StrMap<StrSet>,
) -> (n: usize)
    requires
        deps_graph.wf(),
        visited.wf(),
        visited@.contains_key(label@),
        forall|l: Seq<char>| #[trigger] visited@.contains_key(l) ==> deps_graph@.contains_key(l),
        dep_closed(deps_graph@, visited@.dom()),
    ensures
        n == dependents_set(deps_graph@, visited@.dom(), label@).len(),
        n >= 1,
{
    let ghost g = deps_graph@;
    let ghost lv = label@;
    let ghost vset = visited@.dom();
    let mut seen = StrSet::new();
    seen.insert(label.clone());
    let mut pending: Vec<String> = Vec::new();
    pending.push(label.clone());
    proof {
        lemma_reaches_self(g, lv);
        visited.lemma_keys();
        assert(crate::collections::str_views(pending@).len() == 1);
        assert(crate::collections::str_views(pending@)[0] == lv);
        assert(crate::collections::str_views(pending@).contains(lv));
    }
    while pending.len() > 0
        invariant
            deps_graph.wf(),
            visited.wf(),
            g == deps_graph@,
            lv == label@,
            vset == visited@.dom(),
            visited@.contains_key(lv),
            forall|l: Seq<char>| #[trigger] visited@.contains_key(l) ==> deps_graph@.contains_key(
                l,
            ),
            dep_closed(g, vset),
            seen.wf(),
            seen@.contains(lv),
            forall|x: Seq<char>| #[trigger]
                seen@.contains(x) ==> vset.contains(x) && reaches(g, x, lv),
            forall|j: int|
                0 <= j < pending@.len() ==> seen@.contains(
                    #[trigger] crate::collections::str_views(pending@)[j],
                ),
            forall|x: Seq<char>| #[trigger]
                seen@.contains(x) ==> crate::collections::str_views(pending@).contains(x) || (
                forall|v: Seq<char>|
                    vset.contains(v) && has_edge(g, v, x) ==> seen@.contains(v)),
        decreases vset.len() - seen@.len(), pending.len(),
    {
        proof {
            visited.lemma_keys();
            assert(seen@.subset_of(vset));
            vstd::set_lib::lemma_len_subset(seen@, vset);
        }
        let ghost pmap_pre = crate::collections::str_views(pending@);
        let x = pending.pop().unwrap();
        let ghost xv = x@;
        proof {
            assert(crate::collections::str_views(pending@) =~= pmap_pre.drop_last());
            assert(pmap_pre[pmap_pre.len() - 1] == xv);
            assert forall|x2: Seq<char>| #[trigger] seen@.contains(x2) implies x2 == xv
                || crate::collections::str_views(pending@).contains(x2) || (forall|v2: Seq<char>|
                vset.contains(v2) && has_edge(g, v2, x2) ==> seen@.contains(v2)) by {
                if x2 != xv && pmap_pre.contains(x2) {
                    let j = choose|j: int| 0 <= j < pmap_pre.len() && pmap_pre[j] == x2;
                    assert(j < pmap_pre.len() - 1);
                    assert(crate::collections::str_views(pending@)[j] == x2);
                }
            }
        }
        let total = visited.count();
        let mut vi: usize = 0;
        let ghost seen_mid = seen@;
        let ghost plen_mid = pending@.len() as int;
        while vi < total
            invariant
                xv == x@,
                seen_mid.subset_of(seen@),
                pending@.len() + seen_mid.len() == plen_mid + seen@.len(),
                deps_graph.wf(),
                visited.wf(),
                g == deps_graph@,
                lv == label@,
                vset == visited@.dom(),
                visited@.contains_key(lv),
                forall|l: Seq<char>| #[trigger] visited@.contains_key(l)
                    ==> deps_graph@.contains_key(l),
                dep_closed(g, vset),
                seen.wf(),
                seen@.contains(lv),
                seen@.contains(xv),
                reaches(g, xv, lv),
                vi <= total == visited.key_views().len(),
                forall|x2: Seq<char>| #[trigger]
                    seen@.contains(x2) ==> vset.contains(x2) && reaches(g, x2, lv),
                forall|j: int|
                    0 <= j < pending@.len() ==> seen@.contains(
                        #[trigger] crate::collections::str_views(pending@)[j],
                    ),
                forall|x2: Seq<char>| #[trigger]
                    seen@.contains(x2) ==> x2 == xv || crate::collections::str_views(
                        pending@,
                    ).contains(x2) || (forall|v: Seq<char>|
                        vset.contains(v) && has_edge(g, v, x2) ==> seen@.contains(v)),
                forall|k: int|
                    0 <= k < vi ==> (has_edge(g, #[trigger] visited.key_views()[k], xv)
                        ==> seen@.contains(visited.key_views()[k])),
            decreases vset.len() - seen@.len(), pending.len() + 1, total - vi,
        {
            let v = visited.key_at(vi);
            let ghost vv = v@;
            proof {
                assert(vv == visited.key_views()[vi as int]);
                assert(visited@.contains_key(vv));
            }
            if !seen.contains(v) {
                let entry = match deps_graph.get_entry(v) {
                    Some(e) => e,
                    None => {
                        proof {
                            assert(false);
                        }
                        continue ;
                    },
                };
                if vec_contains_string(&entry.dep_targets, &x) {
                    proof {
                        assert(entry@.deps.contains(xv));
                        assert(has_edge(g, vv, xv));
                        lemma_step_reaches(g, vv, xv, lv);
                        visited.lemma_keys();
                        assert(vset.contains(vv));
                    }
                    let ghost pend_pre2 = crate::collections::str_views(pending@);
                    proof {
                        seen.lemma_len();
                    }
                    let ghost slen_pre = seen@.len() as int;
                    seen.insert(v.clone());
                    pending.push(v.clone());
                    proof {
                        seen.lemma_len();
                        assert(seen@.len() == slen_pre + 1);
                        visited.lemma_keys();
                        assert(seen@.subset_of(vset));
                        vstd::set_lib::lemma_len_subset(seen@, vset);
                        assert(crate::collections::str_views(pending@) =~= pend_pre2.push(vv));
                        assert(crate::collections::str_views(pending@)[pend_pre2.len() as int]
                            == vv);
                        assert forall|j: int| 0 <= j < pending@.len() implies seen@.contains(
                            #[trigger] crate::collections::str_views(pending@)[j],
                        ) by {
                            if j < pend_pre2.len() {
                                assert(crate::collections::str_views(pending@)[j]
                                    == pend_pre2[j]);
                            }
                        }
                        assert forall|x2: Seq<char>| #[trigger] seen@.contains(x2) implies x2 == xv
                            || crate::collections::str_views(pending@).contains(x2) || (
                        forall|v2: Seq<char>|
                            vset.contains(v2) && has_edge(g, v2, x2) ==> seen@.contains(v2)) by {
                            if x2 == vv {
                                assert(crate::collections::str_views(pending@)[pend_pre2.len() as int]
                                    == x2);
                                assert(crate::collections::str_views(pending@).contains(x2));
                            } else if x2 != xv {
                                if pend_pre2.contains(x2) {
                                    let j = choose|j: int|
                                        0 <= j < pend_pre2.len() && pend_pre2[j] == x2;
                                    assert(crate::collections::str_views(pending@)[j] == x2);
                                }
                            }
                        }
                    }
                } else {
                    proof {
                        assert(!entry@.deps.contains(xv));
                        assert(!has_edge(g, vv, xv));
                    }
                }
            }
            vi = vi + 1;
        }
        proof {
            visited.lemma_keys();
            assert(seen@.subset_of(vset));
            vstd::set_lib::lemma_len_subset(seen@, vset);
            seen.lemma_len();
            vstd::set_lib::lemma_len_subset(seen_mid, seen@);
            // after the scan, every recorded label with an edge into the
            // popped one is in `seen`
            assert forall|x2: Seq<char>| #[trigger] seen@.contains(x2) implies
                crate::collections::str_views(pending@).contains(x2) || (forall|v: Seq<char>|
                vset.contains(v) && has_edge(g, v, x2) ==> seen@.contains(v)) by {
                if x2 == xv {
                    assert forall|v: Seq<char>|
                        vset.contains(v) && has_edge(g, v, xv) implies seen@.contains(v) by {
                        visited.lemma_keys();
                        assert(visited.key_views().to_set().contains(v));
                        assert(visited.key_views().contains(v));
                        let k = choose|k: int|
                            0 <= k < visited.key_views().len() && visited.key_views()[k] == v;
                    }
                }
            }
        }
    }
    proof {
        assert(crate::collections::str_views(pending@) =~= Seq::<Seq<char>>::empty());
        assert forall|s: Seq<char>|
            vset.contains(s) && reaches(g, s, lv) implies seen@.contains(s) by {
            let p = choose|p: Seq<Seq<char>>|
                p.len() >= 1 && p.first() == s && p.last() == lv && crate::reach::is_path(g, p);
            crate::reach::lemma_rev_closed_set_contains_sources(g, vset, seen@, p);
        }
        assert(seen@ =~= dependents_set(g, vset, lv));
        seen.lemma_len();
        assert(seen@.contains(lv));
        if seen@.len() == 0 {
            assert(false);
        }
    }
    seen.len()
}

/// Count the dependency-list slots of the visited targets that hold
/// `label`, collecting one occurrence of the depending target per slot.
fn collect_immediate_dependents(
    label: &String,
    deps_graph: &BazelDependencyGraph,
    visited: &StrMap<StrSet>,
) -> (r: Vec<String>)
    requires
        deps_graph.wf(),
        visited.wf(),
        forall|l: Seq<char>| #[trigger] visited@.contains_key(l) ==> deps_graph@.contains_key(l),
    ensures
        r@.len() == slot_count(deps_graph@, visited.key_views(), label@),
{
    let ghost g = deps_graph@;
    let ghost lv = label@;
    let ghost kv = visited.key_views();
    let mut r: Vec<String> = Vec::new();
    let total = visited.count();
    let mut vi: usize = 0;
    proof {
        assert(kv.take(0) =~= Seq::<Seq<char>>::empty());
    }
    while vi < total
        invariant
            deps_graph.wf(),
            visited.wf(),
            g == deps_graph@,
            lv == label@,
            kv == visited.key_views(),
            forall|l: Seq<char>| #[trigger] visited@.contains_key(l) ==> deps_graph@.contains_key(
                l,
            ),
            vi <= total == kv.len(),
            r@.len() == slot_count(g, kv.take(vi as int), lv),
        decreases total - vi,
    {
        let v = visited.key_at(vi);
        let ghost vv = v@;
        let entry = match deps_graph.get_entry(v) {
            Some(e) => e,
            None => {
                proof {
                    assert(visited@.contains_key(vv));
                    assert(false);
                }
                continue ;
            },
        };
        let ghost ds = entry@.deps;
        let mut j: usize = 0;
        proof {
            assert(ds.take(0) =~= Seq::<Seq<char>>::empty());
        }
        while j < entry.dep_targets.len()
            invariant
                lv == label@,
                vv == v@,
                ds == entry@.deps,
                entry.dep_targets@.len() == ds.len(),
                j <= entry.dep_targets.len(),
                r@.len() == slot_count(g, kv.take(vi as int), lv) + count_in(
                    ds.take(j as int),
                    lv,
                ),
            decreases entry.dep_targets.len() - j,
        {
            proof {
                assert(ds.take(j + 1) =~= ds.take(j as int).push(ds[j as int]));
                lemma_count_in_push(ds.take(j as int), ds[j as int], lv);
            }
            if entry.dep_targets[j].eq(label) {
                r.push(v.clone());
                proof {
                    assert(ds[j as int] == lv);
                }
            } else {
                proof {
                    assert(ds[j as int] != lv);
                }
            }
            j = j + 1;
        }
        proof {
            assert(ds.take(ds.len() as int) =~= ds);
            assert(kv.take(vi + 1) =~= kv.take(vi as int).push(kv[vi as int]));
            lemma_slot_count_push(g, kv.take(vi as int), kv[vi as int], lv);
            assert(g.contains_key(vv));
            assert(g[vv] == entry@);
        }
        vi = vi + 1;
    }
    proof {
        assert(kv.take(total as int) =~= kv);
    }
    r
}

/// The seed labels a target expression names: a wildcard names every graph
/// label with the given prefix, a plain label names itself.
pub open spec fn seeds_set(g: GraphModel, t: Seq<char>) -> Set<Seq<char>> {
    if is_wildcard(t) {
        Set::new(|l: Seq<char>| g.contains_key(l) && has_prefix(l, wildcard_prefix(t)))
    } else {
        Set::new(|l: Seq<char>| l == t)
    }
}

/// Every label in the closure of any seed.
pub open spec fn visited_set(g: GraphModel, t: Seq<char>) -> Set<Seq<char>> {
    Set::new(
        |x: Seq<char>|
            exists|s: Seq<char>| #[trigger] seeds_set(g, t).contains(s) && reaches(g, s, x),
    )
}

/// The calculation succeeds exactly when every label it must visit is in
/// the graph and none of them lies on a dependency cycle.
pub open spec fn calc_ok(g: GraphModel, t: Seq<char>) -> bool {
    forall|x: Seq<char>| #[trigger]
        visited_set(g, t).contains(x) ==> g.contains_key(x) && !on_cycle(g, x)
}

/// The blast-radius score, saturated at the machine limit.
pub open spec fn score_of(rebuilds: nat, total_dependents: nat) -> nat {
    if rebuilds * (total_dependents + 1) <= usize::MAX as nat {
        rebuilds * (total_dependents + 1)
    } else {
        usize::MAX as nat
    }
}

/// The resolved-target properties the calculator promises for one label of
/// its result map: exact commit sets, counts derived from them, and the
/// saturated score.
pub open spec fn resolved_ok(
    g: GraphModel,
    rm: RepoModel,
    t: Seq<char>,
    kv: Seq<Seq<char>>,
    l: Seq<char>,
    rt: ResolvedTarget,
) -> bool {
    &&& rt.name@ == l
    &&& rt.commits.wf() && rt.commits@ == specific_commits(g, rm, l)
    &&& rt.rebuilds == all_commits(g, rm, l).len()
    &&& all_commits(g, rm, l).finite()
    &&& rt.total_dependents == dependents_set(g, visited_set(g, t), l).len()
    &&& rt.total_dependents >= 1
    &&& rt.score == score_of(rt.rebuilds as nat, rt.total_dependents as nat)
    &&& rt.immediate_dependents == slot_count(g, kv, l)
}

/// Resolve every target in the closure of the seed expression: for a plain
/// label, that label's closure; for a wildcard, the closures of all labels
/// carrying the prefix. Fails with `NotFound` exactly when a label that must
/// be visited is absent from the graph, and with `CycleDetected` exactly
/// when one lies on a dependency cycle.
#[verifier::rlimit(100)]
pub fn calculate_trigger_scores(
    target: &String,
    repo: &GitRepo,
    deps_graph: &BazelDependencyGraph,
) -> (r: Result<StrMap<ResolvedTarget>, AnalysisError>)
    requires
        deps_graph.wf(),
        repo.wf(),
        graph_sources_wf(deps_graph@),
    ensures
        r is Ok <==> calc_ok(deps_graph@, target@),
        match r {
            Ok(m) => {
                &&& m.wf()
                &&& m.key_views().no_duplicates()
                &&& m.key_views().to_set() == m@.dom()
                &&& m@.dom() == visited_set(deps_graph@, target@)
                &&& forall|l: Seq<char>| #[trigger]
                    m@.contains_key(l) ==> resolved_ok(
                        deps_graph@,
                        repo@,
                        target@,
                        m.key_views(),
                        l,
                        m@[l],
                    )
            },
            Err(e) => match e {
                AnalysisError::NotFound(l) => visited_set(deps_graph@, target@).contains(l@)
                    && !deps_graph@.contains_key(l@),
                AnalysisError::CycleDetected(l) => visited_set(deps_graph@, target@).contains(l@)
                    && on_cycle(deps_graph@, l@),
                AnalysisError::Inconsistent(_) => false,
            },
        },
{
    let ghost g = deps_graph@;
    let ghost rm = repo@;
    let ghost tv = target@;
    let mut commits_by_target: StrMap<StrSet> = StrMap::new();
    let mut commits_specific: StrMap<StrSet> = StrMap::new();
    proof {
        assert(commits_by_target@.dom() =~= Set::<Seq<char>>::empty());
        assert(commits_specific@.dom() =~= commits_by_target@.dom());
        assert(dep_closed(g, commits_by_target@.dom()));
    }
    let tchars = chars_of(target.as_str());
    let dots: Vec<char> = vec!['.', '.', '.'];
    proof {
        assert(dots@ =~= seq!['.', '.', '.']);
    }
    let wild = ends_with(&tchars, &dots);
    proof {
        assert(wild == is_wildcard(tv)) by {
            if has_suffix(tv, seq!['.', '.', '.']) {
                assert(tv.subrange(tv.len() - 3, tv.len() as int) == seq!['.', '.', '.']);
            }
            if is_wildcard(tv) {
                assert(has_suffix(tv, seq!['.', '.', '.']));
            }
        }
    }
    if wild {
        let mut prefix: Vec<char> = Vec::new();
        let mut pi: usize = 0;
        let plen = tchars.len() - 3;
        while pi < plen
            invariant
                tchars@ == tv,
                plen == tv.len() - 3,
                pi <= plen,
                prefix@ == tv.subrange(0, pi as int),
            decreases plen - pi,
        {
            prefix.push(tchars[pi]);
            proof {
                assert(prefix@ =~= tv.subrange(0, pi + 1));
            }
            pi = pi + 1;
        }
        proof {
            assert(prefix@ =~= wildcard_prefix(tv));
        }
        let ghost kvg = deps_graph.rules_by_label.key_views();
        let total = deps_graph.rules_by_label.count();
        let mut si: usize = 0;
        proof {
            deps_graph.lemma_dom();
            assert(commits_by_target@.dom() =~= Set::new(
                |x: Seq<char>|
                    exists|k: int|
                        0 <= k < 0 && has_prefix(#[trigger] kvg[k], wildcard_prefix(tv))
                            && reaches(g, kvg[k], x),
            ));
        }
        while si < total
            invariant
                deps_graph.wf(),
                repo.wf(),
                graph_sources_wf(g),
                g == deps_graph@,
                rm == repo@,
                tv == target@,
                is_wildcard(tv),
                prefix@ == wildcard_prefix(tv),
                kvg == deps_graph.rules_by_label.key_views(),
                si <= total == kvg.len(),
                cache_inv(g, rm, &commits_by_target, &commits_specific),
                commits_by_target@.dom() == Set::new(
                    |x: Seq<char>|
                        exists|k: int|
                            0 <= k < si && has_prefix(#[trigger] kvg[k], wildcard_prefix(tv))
                                && reaches(g, kvg[k], x),
                ),
            decreases total - si,
        {
            let lab = deps_graph.rules_by_label.key_at(si);
            let ghost labv = lab@;
            proof {
                assert(labv == kvg[si as int]);
                assert(deps_graph.rules_by_label@.contains_key(labv));
                assert(g.contains_key(labv)) by {
                    deps_graph.lemma_dom();
                    deps_graph.rules_by_label.lemma_dom();
                }
            }
            let labc = chars_of(lab.as_str());
            if starts_with(&labc, &prefix) {
                let mut gray = StrSet::new();
                let ghost dom_pre = commits_by_target@.dom();
                match calc_inner(
                    lab,
                    repo,
                    deps_graph,
                    &mut commits_by_target,
                    &mut commits_specific,
                    &mut gray,
                ) {
                    Ok(()) => {
                        proof {
                            assert(commits_by_target@.dom() =~= Set::new(
                                |x: Seq<char>|
                                    exists|k: int|
                                        0 <= k < si + 1 && has_prefix(
                                            #[trigger] kvg[k],
                                            wildcard_prefix(tv),
                                        ) && reaches(g, kvg[k], x),
                            )) by {
                                assert(commits_by_target@.dom() == dom_pre + reach_set(g, labv));
                                assert forall|x: Seq<char>|
                                    commits_by_target@.dom().contains(x) implies exists|k: int|
                                    0 <= k < si + 1 && has_prefix(
                                        #[trigger] kvg[k],
                                        wildcard_prefix(tv),
                                    ) && reaches(g, kvg[k], x) by {
                                    if dom_pre.contains(x) {
                                        let k = choose|k: int|
                                            0 <= k < si && has_prefix(
                                                #[trigger] kvg[k],
                                                wildcard_prefix(tv),
                                            ) && reaches(g, kvg[k], x);
                                        assert(has_prefix(kvg[k], wildcard_prefix(tv)) && reaches(
                                            g,
                                            kvg[k],
                                            x,
                                        ));
                                    } else {
                                        assert(reach_set(g, labv).contains(x));
                                        assert(has_prefix(kvg[si as int], wildcard_prefix(tv))
                                            && reaches(g, kvg[si as int], x));
                                    }
                                }
                                assert forall|x: Seq<char>|
                                    (exists|k: int|
                                        0 <= k < si + 1 && has_prefix(
                                            #[trigger] kvg[k],
                                            wildcard_prefix(tv),
                                        ) && reaches(g, kvg[k], x))
                                    implies commits_by_target@.dom().contains(x) by {
                                    let k = choose|k: int|
                                        0 <= k < si + 1 && has_prefix(
                                            #[trigger] kvg[k],
                                            wildcard_prefix(tv),
                                        ) && reaches(g, kvg[k], x);
                                    if k < si {
                                        assert(dom_pre.contains(x));
                                    } else {
                                        assert(reach_set(g, labv).contains(x));
                                    }
                                }
                            }
                        }
                    },
                    Err(e) => {
                        proof {
                            assert(seeds_set(g, tv).contains(labv));
                            match &e {
                                AnalysisError::NotFound(l) => {
                                    assert(visited_set(g, tv).contains(l@));
                                    assert(!calc_ok(g, tv));
                                },
                                AnalysisError::CycleDetected(l) => {
                                    assert(visited_set(g, tv).contains(l@));
                                    assert(!calc_ok(g, tv));
                                },
                                AnalysisError::Inconsistent(_) => {},
                            }
                        }
                        return Err(e);
                    },
                }
            } else {
                proof {
                    assert(commits_by_target@.dom() =~= Set::new(
                        |x: Seq<char>|
                            exists|k: int|
                                0 <= k < si + 1 && has_prefix(
                                    #[trigger] kvg[k],
                                    wildcard_prefix(tv),
                                ) && reaches(g, kvg[k], x),
                    )) by {
                        assert(!has_prefix(kvg[si as int], wildcard_prefix(tv)));
                        assert forall|x: Seq<char>|
                            (exists|k: int|
                                0 <= k < si + 1 && has_prefix(#[trigger] kvg[k], wildcard_prefix(tv))
                                    && reaches(g, kvg[k], x))
                            implies commits_by_target@.dom().contains(x) by {
                            let k = choose|k: int|
                                0 <= k < si + 1 && has_prefix(#[trigger] kvg[k], wildcard_prefix(tv))
                                    && reaches(g, kvg[k], x);
                            assert(k < si);
                        }
                    }
                }
            }
            si = si + 1;
        }
        proof {
            deps_graph.lemma_dom();
            deps_graph.rules_by_label.lemma_keys();
            assert(commits_by_target@.dom() =~= visited_set(g, tv)) by {
                assert forall|x: Seq<char>| commits_by_target@.dom().contains(x)
                    implies visited_set(g, tv).contains(x) by {
                    let k = choose|k: int|
                        0 <= k < total && has_prefix(#[trigger] kvg[k], wildcard_prefix(tv))
                            && reaches(g, kvg[k], x);
                    assert(kvg.to_set().contains(kvg[k]));
                    assert(g.contains_key(kvg[k]));
                    assert(seeds_set(g, tv).contains(kvg[k]));
                }
                assert forall|x: Seq<char>| visited_set(g, tv).contains(x)
                    implies commits_by_target@.dom().contains(x) by {
                    let sd = choose|sd: Seq<char>| #[trigger]
                        seeds_set(g, tv).contains(sd) && reaches(g, sd, x);
                    assert(g.contains_key(sd));
                    assert(kvg.to_set().contains(sd));
                    assert(kvg.contains(sd));
                    let k = choose|k: int| 0 <= k < kvg.len() && kvg[k] == sd;
                    assert(has_prefix(kvg[k], wildcard_prefix(tv)) && reaches(g, kvg[k], x));
                }
            }
        }
    } else {
        if !deps_graph.contains_label(target) {
            proof {
                assert(seeds_set(g, tv).contains(tv));
                lemma_reaches_self(g, tv);
                assert(visited_set(g, tv).contains(tv));
                assert(!calc_ok(g, tv));
            }
            return Err(AnalysisError::NotFound(target.clone()));
        }
        let mut gray = StrSet::new();
        match calc_inner(
            target,
            repo,
            deps_graph,
            &mut commits_by_target,
            &mut commits_specific,
            &mut gray,
        ) {
            Ok(()) => {
                proof {
                    assert(commits_by_target@.dom() =~= visited_set(g, tv)) by {
                        assert(commits_by_target@.dom() == Set::<Seq<char>>::empty() + reach_set(
                            g,
                            tv,
                        ));
                        assert(seeds_set(g, tv).contains(tv));
                        assert forall|x: Seq<char>| visited_set(g, tv).contains(x)
                            implies commits_by_target@.dom().contains(x) by {
                            let sd = choose|sd: Seq<char>| #[trigger]
                                seeds_set(g, tv).contains(sd) && reaches(g, sd, x);
                            assert(sd == tv);
                            assert(reach_set(g, tv).contains(x));
                        }
                    }
                }
            },
            Err(e) => {
                proof {
                    assert(seeds_set(g, tv).contains(tv));
                    match &e {
                        AnalysisError::NotFound(l) => {
                            assert(visited_set(g, tv).contains(l@));
                            assert(!calc_ok(g, tv));
                        },
                        AnalysisError::CycleDetected(l) => {
                            assert(visited_set(g, tv).contains(l@));
                            assert(!calc_ok(g, tv));
                        },
                        AnalysisError::Inconsistent(_) => {},
                    }
                }
                return Err(e);
            },
        }
    }
    proof {
        assert(calc_ok(g, tv)) by {
            assert forall|x: Seq<char>| #[trigger] visited_set(g, tv).contains(x)
                implies g.contains_key(x) && !on_cycle(g, x) by {
                assert(commits_by_target@.contains_key(x));
            }
        }
    }
    let ghost vset = commits_by_target@.dom();
    let ghost kv = commits_by_target.key_views();
    let mut result: StrMap<ResolvedTarget> = StrMap::new();
    let total2 = commits_by_target.count();
    let mut i: usize = 0;
    proof {
        assert(result.key_views() =~= kv.take(0));
    }
    while i < total2
        invariant
            deps_graph.wf(),
            repo.wf(),
            g == deps_graph@,
            rm == repo@,
            tv == target@,
            cache_inv(g, rm, &commits_by_target, &commits_specific),
            vset == commits_by_target@.dom(),
            vset == visited_set(g, tv),
            kv == commits_by_target.key_views(),
            i <= total2 == kv.len(),
            kv.no_duplicates(),
            result.wf(),
            result.key_views() == kv.take(i as int),
            forall|l: Seq<char>| #[trigger]
                result@.contains_key(l) ==> resolved_ok(g, rm, tv, kv, l, result@[l]),
        decreases total2 - i,
    {
        let k = commits_by_target.key_at(i);
        let ghost lv = k@;
        proof {
            assert(lv == kv[i as int]);
            assert(commits_by_target@.contains_key(lv));
        }
        let all_set = commits_by_target.val_at(i);
        let spec_set = match commits_specific.get(k) {
            Some(sp) => sp,
            None => {
                proof {
                    commits_by_target.lemma_dom();
                    commits_specific.lemma_dom();
                    assert(commits_specific@.dom().contains(lv));
                    assert(false);
                }
                return Err(AnalysisError::Inconsistent(k.clone()));
            },
        };
        let rebuilds = all_set.len();
        proof {
            all_set.lemma_len();
            assert(all_set@ == all_commits(g, rm, lv));
        }
        let td = count_dependents(k, deps_graph, &commits_by_target);
        let imm = collect_immediate_dependents(k, deps_graph, &commits_by_target);
        let tgt = Target { name: k.clone(), rebuilds, immediate_dependents: imm };
        let td1: u128 = td as u128 + 1;
        proof {
            assert(usize::MAX as u128 <= 0xFFFF_FFFF_FFFF_FFFFu128);
            assert((rebuilds as u128) * td1 <= u128::MAX) by (nonlinear_arith)
                requires
                    rebuilds as u128 <= usize::MAX as u128,
                    td1 <= (usize::MAX as u128) + 1,
                    usize::MAX as u128 <= 0xFFFF_FFFF_FFFF_FFFFu128,
            ;
        }
        let prod: u128 = (rebuilds as u128) * td1;
        let score: usize = if prod > (usize::MAX as u128) {
            usize::MAX
        } else {
            prod as usize
        };
        proof {
            assert(score as nat == score_of(rebuilds as nat, td as nat));
        }
        let rt = ResolvedTarget {
            name: tgt.name,
            rebuilds: tgt.rebuilds,
            immediate_dependents: tgt.immediate_dependents.len(),
            total_dependents: td,
            score,
            commits: spec_set.duplicate(),
        };
        proof {
            assert(resolved_ok(g, rm, tv, kv, lv, rt));
            assert(!result@.contains_key(lv)) by {
                if result@.contains_key(lv) {
                    result.lemma_dom();
                    assert(kv.take(i as int).to_set().contains(lv));
                    assert(kv.take(i as int).contains(lv));
                    let j = choose|j: int| 0 <= j < i && kv.take(i as int)[j] == lv;
                    assert(kv[j] == lv && kv[i as int] == lv);
                }
            }
        }
        result.insert(k.clone(), rt);
        proof {
            assert(result.key_views() =~= kv.take(i + 1)) by {
                assert(kv.take(i + 1) =~= kv.take(i as int).push(kv[i as int]));
            }
        }
        i = i + 1;
    }
    proof {
        assert(result.key_views() =~= kv) by {
            assert(kv.take(total2 as int) =~= kv);
        }
        result.lemma_keys();
        commits_by_target.lemma_keys();
        assert(result@.dom() =~= visited_set(g, tv));
    }
    Ok(result)
}

} // verus!
