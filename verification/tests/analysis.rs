use depsaw::bazel::BazelDependencyGraph;
use depsaw::bazel::Entry;
use depsaw::collections::StrMap;
use depsaw::collections::StrSet;
use depsaw::errors::AnalysisError;
use depsaw::git::GitFile;
use depsaw::git::GitRepo;
use depsaw::most_unique_triggers::find_duplicate_deps;
use depsaw::most_unique_triggers::get_unique_deps;
use depsaw::most_unique_triggers::most_unique_triggers;
use depsaw::trigger_scores::calculate_trigger_scores;

fn s(x: &str) -> String {
    x.to_string()
}

fn rule(graph: &mut BazelDependencyGraph, name: &str, deps: &[&str], srcs: &[&str]) {
    let entry = Entry {
        dep_targets: deps.iter().map(|d| s(d)).collect(),
        source_files: srcs.iter().map(|f| s(f)).collect(),
    };
    graph.set_rule(s(name), entry);
}

fn repo(files: &[(&str, &[&str])]) -> GitRepo {
    let mut map: StrMap<GitFile> = StrMap::new();
    for (path, commits) in files {
        let mut set = StrSet::new();
        for c in *commits {
            set.insert(s(c));
        }
        map.insert(s(path), GitFile { commit_history: set });
    }
    GitRepo { files: map }
}

/// A target with no dependencies and no source files has no rebuilds and
/// a zero score.
#[test]
fn leaf_target_scores_zero() {
    let mut graph = BazelDependencyGraph::new();
    rule(&mut graph, "//a:a", &[], &[]);
    let history = repo(&[]);
    let scores = calculate_trigger_scores(&s("//a:a"), &history, &graph).unwrap();
    let row = scores.get(&s("//a:a")).unwrap();
    assert_eq!(row.rebuilds, 0);
    assert_eq!(row.score, 0);
    assert_eq!(row.total_dependents, 1);
    assert_eq!(row.immediate_dependents, 0);
}

/// The linear chain: rebuilds accumulate down the chain, dependents
/// accumulate up the chain, and the score is their product.
#[test]
fn linear_chain_scores() {
    let mut graph = BazelDependencyGraph::new();
    rule(&mut graph, "//x:a", &["//x:b"], &["//x:fa"]);
    rule(&mut graph, "//x:b", &["//x:c"], &["//x:fb"]);
    rule(&mut graph, "//x:c", &[], &["//x:fc"]);
    let history = repo(&[("x/fa", &["c1"]), ("x/fb", &["c2"]), ("x/fc", &["c3"])]);
    let scores = calculate_trigger_scores(&s("//x:a"), &history, &graph).unwrap();

    let a = scores.get(&s("//x:a")).unwrap();
    let b = scores.get(&s("//x:b")).unwrap();
    let c = scores.get(&s("//x:c")).unwrap();

    assert_eq!(c.rebuilds, 1);
    assert_eq!(b.rebuilds, 2);
    assert_eq!(a.rebuilds, 3);

    assert_eq!(c.total_dependents, 3);
    assert_eq!(b.total_dependents, 2);
    assert_eq!(a.total_dependents, 1);

    assert_eq!(c.score, 1 * 4);
    assert_eq!(b.score, 2 * 3);
    assert_eq!(a.score, 3 * 2);

    assert_eq!(c.immediate_dependents, 1);
    assert_eq!(b.immediate_dependents, 1);
    assert_eq!(a.immediate_dependents, 0);

    assert!(c.commits.contains(&s("c3")));
    assert_eq!(c.commits.len(), 1);
    assert!(a.commits.contains(&s("c1")));
    assert_eq!(a.commits.len(), 1);
}

/// Rebuilds always cover the target's own commits.
#[test]
fn rebuilds_cover_specific_commits() {
    let mut graph = BazelDependencyGraph::new();
    rule(&mut graph, "//x:a", &["//x:b"], &["//x:fa"]);
    rule(&mut graph, "//x:b", &[], &["//x:fb"]);
    let history = repo(&[("x/fa", &["c1", "c2"]), ("x/fb", &["c2", "c3"])]);
    let scores = calculate_trigger_scores(&s("//x:a"), &history, &graph).unwrap();
    let a = scores.get(&s("//x:a")).unwrap();
    assert!(a.rebuilds >= a.commits.len());
    assert_eq!(a.commits.len(), 2);
    assert_eq!(a.rebuilds, 3);
}

/// The diamond: `D` is reached from `A` through both branches, so it is a
/// duplicate; each branch keeps only itself as its unique subtree.
#[test]
fn diamond_duplicates_and_unique_subtrees() {
    let mut graph = BazelDependencyGraph::new();
    rule(&mut graph, "A", &["B", "C"], &[]);
    rule(&mut graph, "B", &["D"], &[]);
    rule(&mut graph, "C", &["D"], &[]);
    rule(&mut graph, "D", &[], &[]);

    let dups = find_duplicate_deps(&s("A"), &graph).unwrap();
    assert!(dups.contains(&s("D")));
    assert!(!dups.contains(&s("B")));
    assert!(!dups.contains(&s("C")));
    assert_eq!(dups.len(), 1);

    let ub = get_unique_deps(&s("B"), &graph, &dups).unwrap();
    assert!(ub.contains(&s("B")));
    assert!(!ub.contains(&s("D")));
    assert_eq!(ub.len(), 1);

    let uc = get_unique_deps(&s("C"), &graph, &dups).unwrap();
    assert!(uc.contains(&s("C")));
    assert!(!uc.contains(&s("D")));
    assert_eq!(uc.len(), 1);
}

/// The diamond scenario ranked: removing the edge to `B` saves the commit
/// touching `B`'s sources; `D`'s commits are excluded from both branches.
#[test]
fn diamond_ranking() {
    let mut graph = BazelDependencyGraph::new();
    rule(&mut graph, "A", &["B", "C"], &[]);
    rule(&mut graph, "B", &["D"], &["//b:src"]);
    rule(&mut graph, "C", &["D"], &[]);
    rule(&mut graph, "D", &[], &["//d:src"]);
    let history = repo(&[("d/src", &["c1"]), ("b/src", &["c2"])]);

    let cands = most_unique_triggers(&s("A"), &history, &graph).unwrap();
    assert_eq!(cands.len(), 2);
    assert_eq!(cands[0].name, "B");
    assert_eq!(cands[0].score, 1);
    assert_eq!(cands[1].name, "C");
    assert_eq!(cands[1].score, 0);
}

/// Candidates never include a duplicated immediate dependency.
#[test]
fn candidates_skip_duplicates() {
    let mut graph = BazelDependencyGraph::new();
    rule(&mut graph, "A", &["B", "D"], &[]);
    rule(&mut graph, "B", &["D"], &[]);
    rule(&mut graph, "D", &[], &["//d:src"]);
    let history = repo(&[("d/src", &["c1"])]);

    let cands = most_unique_triggers(&s("A"), &history, &graph).unwrap();
    assert_eq!(cands.len(), 1);
    assert_eq!(cands[0].name, "B");
}

/// Equal scores keep the dependency declaration order.
#[test]
fn ranking_ties_keep_declaration_order() {
    let mut graph = BazelDependencyGraph::new();
    rule(&mut graph, "A", &["B", "C", "E"], &[]);
    rule(&mut graph, "B", &[], &["//b:src"]);
    rule(&mut graph, "C", &[], &["//c:src"]);
    rule(&mut graph, "E", &[], &["//e:src"]);
    let history = repo(&[("b/src", &["c1"]), ("c/src", &["c2"]), ("e/src", &["c3", "c4"])]);

    let cands = most_unique_triggers(&s("A"), &history, &graph).unwrap();
    assert_eq!(cands.len(), 3);
    assert_eq!(cands[0].name, "E");
    assert_eq!(cands[0].score, 2);
    assert_eq!(cands[1].name, "B");
    assert_eq!(cands[1].score, 1);
    assert_eq!(cands[2].name, "C");
    assert_eq!(cands[2].score, 1);
}

/// A dependency missing from the graph is fatal.
#[test]
fn missing_label_is_not_found() {
    let mut graph = BazelDependencyGraph::new();
    rule(&mut graph, "A", &["GONE"], &[]);
    let history = repo(&[]);
    match calculate_trigger_scores(&s("A"), &history, &graph) {
        Err(AnalysisError::NotFound(l)) => assert_eq!(l, "GONE"),
        _ => panic!("expected a missing-label failure"),
    }
}

/// A missing seed target is fatal.
#[test]
fn missing_seed_is_not_found() {
    let graph = BazelDependencyGraph::new();
    let history = repo(&[]);
    match calculate_trigger_scores(&s("A"), &history, &graph) {
        Err(AnalysisError::NotFound(l)) => assert_eq!(l, "A"),
        _ => panic!("expected a missing-label failure"),
    }
}

/// A dependency chain leading back to itself is reported as a cycle.
#[test]
fn cycle_is_detected() {
    let mut graph = BazelDependencyGraph::new();
    rule(&mut graph, "A", &["B"], &[]);
    rule(&mut graph, "B", &["A"], &[]);
    let history = repo(&[]);
    match calculate_trigger_scores(&s("A"), &history, &graph) {
        Err(AnalysisError::CycleDetected(_)) => {},
        _ => panic!("expected a cycle failure"),
    }
}

/// A wildcard seed expands to every label carrying the prefix, and a label
/// reached both as a direct match and as a dependency of another match
/// resolves to one consistent row.
#[test]
fn wildcard_expansion_is_cache_consistent() {
    let mut graph = BazelDependencyGraph::new();
    rule(&mut graph, "//pkg/a:a", &["//pkg/b:b"], &["//pkg/a:src"]);
    rule(&mut graph, "//pkg/b:b", &[], &["//pkg/b:src"]);
    rule(&mut graph, "//other:o", &[], &["//other:src"]);
    let history = repo(&[
        ("pkg/a/src", &["c1"]),
        ("pkg/b/src", &["c2"]),
        ("other/src", &["c3"]),
    ]);

    let scores = calculate_trigger_scores(&s("//pkg/..."), &history, &graph).unwrap();
    assert!(scores.get(&s("//other:o")).is_none());
    let a = scores.get(&s("//pkg/a:a")).unwrap();
    let b = scores.get(&s("//pkg/b:b")).unwrap();
    assert_eq!(a.rebuilds, 2);
    assert_eq!(b.rebuilds, 1);
    assert!(b.commits.contains(&s("c2")));
    assert_eq!(b.commits.len(), 1);
    // b is its own dependent and a's dependency
    assert_eq!(b.total_dependents, 2);
    assert_eq!(b.immediate_dependents, 1);

    // reached only as a dependency, the row carries the same figures
    let direct = calculate_trigger_scores(&s("//pkg/a:a"), &history, &graph).unwrap();
    let b2 = direct.get(&s("//pkg/b:b")).unwrap();
    assert_eq!(b2.rebuilds, b.rebuilds);
    assert_eq!(b2.commits.len(), b.commits.len());
}

/// The plain table mirrors the full calculation without the commit sets.
#[test]
fn plain_table_matches() {
    let mut graph = BazelDependencyGraph::new();
    rule(&mut graph, "//x:a", &["//x:b"], &["//x:fa"]);
    rule(&mut graph, "//x:b", &[], &["//x:fb"]);
    let history = repo(&[("x/fa", &["c1"]), ("x/fb", &["c2"])]);
    let table =
        depsaw::analyzer::calculate_trigger_scores_map(&s("//x:a"), &history, &graph).unwrap();
    let a = table.get(&s("//x:a")).unwrap();
    assert_eq!(a.rebuilds, 2);
    assert_eq!(a.total_dependents, 1);
    assert_eq!(a.score, 2 * 2);
}

/// A source file with no recorded history contributes nothing.
#[test]
fn unknown_paths_contribute_nothing() {
    let mut graph = BazelDependencyGraph::new();
    rule(&mut graph, "//x:a", &[], &["//x:generated", "//x:known"]);
    let history = repo(&[("x/known", &["c1"])]);
    let scores = calculate_trigger_scores(&s("//x:a"), &history, &graph).unwrap();
    let a = scores.get(&s("//x:a")).unwrap();
    assert_eq!(a.rebuilds, 1);
}

/// External source references are skipped.
#[test]
fn external_sources_are_skipped() {
    let mut graph = BazelDependencyGraph::new();
    rule(&mut graph, "//x:a", &[], &["@remote//lib:file", "//x:own"]);
    let history = repo(&[("x/own", &["c1"])]);
    let scores = calculate_trigger_scores(&s("//x:a"), &history, &graph).unwrap();
    assert_eq!(scores.get(&s("//x:a")).unwrap().rebuilds, 1);
}

/// A source label with several separators maps the first two segments to
/// the lookup path.
#[test]
fn source_label_normalization() {
    let mut graph = BazelDependencyGraph::new();
    rule(&mut graph, "//p:a", &[], &["//p/q:file.txt"]);
    let history = repo(&[("p/q/file.txt", &["c9"])]);
    let scores = calculate_trigger_scores(&s("//p:a"), &history, &graph).unwrap();
    assert_eq!(scores.get(&s("//p:a")).unwrap().rebuilds, 1);
}

/// When two branches merge above a shared node, the merge point is the
/// duplicate, not what lies below it, and the nodes below the merge belong
/// to no branch's unique subtree.
#[test]
fn merge_point_is_the_duplicate() {
    let mut graph = BazelDependencyGraph::new();
    rule(&mut graph, "S", &["B1", "B2"], &[]);
    rule(&mut graph, "B1", &["M"], &[]);
    rule(&mut graph, "B2", &["M"], &[]);
    rule(&mut graph, "M", &["D"], &[]);
    rule(&mut graph, "D", &[], &[]);

    let dups = find_duplicate_deps(&s("S"), &graph).unwrap();
    assert!(dups.contains(&s("M")));
    assert!(!dups.contains(&s("D")));
    assert_eq!(dups.len(), 1);

    let u1 = get_unique_deps(&s("B1"), &graph, &dups).unwrap();
    assert!(u1.contains(&s("B1")));
    assert!(!u1.contains(&s("M")));
    assert!(!u1.contains(&s("D")));
    assert_eq!(u1.len(), 1);
}

/// The seed itself becomes a duplicate as soon as one dependency slot
/// leads back to it; the calculator reports the cycle instead.
#[test]
fn duplicate_detection_survives_back_edges() {
    let mut graph = BazelDependencyGraph::new();
    rule(&mut graph, "A", &["B"], &[]);
    rule(&mut graph, "B", &["A"], &[]);
    let dups = find_duplicate_deps(&s("A"), &graph).unwrap();
    assert!(dups.contains(&s("A")));
}
