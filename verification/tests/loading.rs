use depsaw::bazel::BazelDependencyGraph;
use depsaw::bazel::DependencyEntry;
use depsaw::bazel::Entry;
use depsaw::bazel::GeneratedFile;
use depsaw::bazel::PackageGroup;
use depsaw::bazel::Rule;
use depsaw::bazel::SourceFile;
use depsaw::errors::AnalysisError;
use depsaw::git::GitRepo;

fn s(x: &str) -> String {
    x.to_string()
}

fn rule_entry(name: &str, inputs: &[&str]) -> DependencyEntry {
    DependencyEntry::Rule {
        rule: Rule {
            name: s(name),
            rule_class: s("library"),
            location: s("BUILD:1"),
            attribute: Vec::new(),
            rule_input: inputs.iter().map(|i| s(i)).collect(),
            rule_output: Vec::new(),
        },
    }
}

fn source_entry(name: &str) -> DependencyEntry {
    DependencyEntry::SourceFile {
        source_file: SourceFile {
            name: s(name),
            location: s("BUILD:1"),
            visibility_label: Vec::new(),
        },
    }
}

/// Rule inputs are classified against the named entries: rules become
/// dependencies, source files become own sources, everything else is
/// dropped, and external inputs are ignored.
#[test]
fn entries_build_the_graph() {
    let entries = vec![
        rule_entry("//x:a", &["//x:b", "//x:src", "@remote//r:r", "//x:gen", "//x:grp"]),
        rule_entry("//x:b", &[]),
        source_entry("//x:src"),
        DependencyEntry::GeneratedFile {
            generated_file: GeneratedFile {
                name: s("//x:gen"),
                generating_rule: s("//x:a"),
                location: s("BUILD:2"),
            },
        },
        DependencyEntry::PackageGroup { package_group: PackageGroup { name: s("//x:grp") } },
    ];
    let graph = BazelDependencyGraph::from_entries(&entries);
    let a = graph.get_entry(&s("//x:a")).unwrap();
    assert_eq!(a.dep_targets, vec![s("//x:b")]);
    assert_eq!(a.source_files, vec![s("//x:src")]);
    let b = graph.get_entry(&s("//x:b")).unwrap();
    assert!(b.dep_targets.is_empty());
    assert!(graph.get_entry(&s("//x:src")).is_none());
}

/// An input that names nothing in the query is dropped.
#[test]
fn unnamed_inputs_are_dropped() {
    let entries = vec![rule_entry("//x:a", &["//x:unknown"])];
    let graph = BazelDependencyGraph::from_entries(&entries);
    let a = graph.get_entry(&s("//x:a")).unwrap();
    assert!(a.dep_targets.is_empty());
    assert!(a.source_files.is_empty());
}

/// Source files of the whole closure are gathered once per target.
#[test]
fn source_files_of_the_closure() {
    let mut graph = BazelDependencyGraph::new();
    graph.set_rule(
        s("A"),
        Entry { dep_targets: vec![s("B"), s("C")], source_files: vec![s("//a:f")] },
    );
    graph.set_rule(s("B"), Entry { dep_targets: vec![s("D")], source_files: vec![s("//b:f")] });
    graph.set_rule(s("C"), Entry { dep_targets: vec![s("D")], source_files: vec![s("//c:f")] });
    graph.set_rule(s("D"), Entry { dep_targets: Vec::new(), source_files: vec![s("//d:f")] });
    let mut files = graph.get_source_files(&s("A"), true).unwrap();
    files.sort();
    assert_eq!(files, vec![s("//a:f"), s("//b:f"), s("//c:f"), s("//d:f")]);
}

/// A missing label in the closure fails the gathering.
#[test]
fn source_files_of_inconsistent_graph() {
    let mut graph = BazelDependencyGraph::new();
    graph.set_rule(s("A"), Entry { dep_targets: vec![s("B")], source_files: Vec::new() });
    match graph.get_source_files(&s("A"), true) {
        Err(AnalysisError::NotFound(l)) => assert_eq!(l, "B"),
        _ => panic!("expected a missing-label failure"),
    }
}

/// The log parser: the first line is skipped, marker lines switch the
/// current commit, and the files that follow are attributed to it.
#[test]
fn log_lines_build_the_index() {
    let lines = vec![
        s("ignored header"),
        s("depsaw-commit:c1"),
        s("src/main.rs"),
        s("src/lib.rs"),
        s(""),
        s("depsaw-commit:c2"),
        s("src/main.rs"),
    ];
    let repo = GitRepo::from_log_lines(&lines);
    let main = repo.files.get(&s("src/main.rs")).unwrap();
    assert!(main.commit_history.contains(&s("c1")));
    assert!(main.commit_history.contains(&s("c2")));
    assert_eq!(main.commit_history.len(), 2);
    let lib = repo.files.get(&s("src/lib.rs")).unwrap();
    assert!(lib.commit_history.contains(&s("c1")));
    assert_eq!(lib.commit_history.len(), 1);
}

/// A file line before any marker line is attributed to the empty commit,
/// and the very first line never counts.
#[test]
fn log_edge_cases() {
    let lines = vec![s("depsaw-commit:c0"), s("early.rs"), s("depsaw-commit:c1"), s("late.rs")];
    let repo = GitRepo::from_log_lines(&lines);
    let early = repo.files.get(&s("early.rs")).unwrap();
    assert!(early.commit_history.contains(&s("")));
    assert_eq!(early.commit_history.len(), 1);
    let late = repo.files.get(&s("late.rs")).unwrap();
    assert!(late.commit_history.contains(&s("c1")));
    assert_eq!(late.commit_history.len(), 1);
}

/// An empty log yields an empty index.
#[test]
fn empty_log() {
    let repo = GitRepo::from_log_lines(&Vec::new());
    assert!(repo.files.get(&s("anything")).is_none());
}

/// A marker line whose identifier is followed by another marker keeps
/// only the characters up to it.
#[test]
fn marker_recurrence_truncates_the_identifier() {
    let lines = vec![s("header"), s("depsaw-commit:abdepsaw-commit:cd"), s("f.rs")];
    let repo = GitRepo::from_log_lines(&lines);
    let f = repo.files.get(&s("f.rs")).unwrap();
    assert!(f.commit_history.contains(&s("ab")));
    assert_eq!(f.commit_history.len(), 1);
}
