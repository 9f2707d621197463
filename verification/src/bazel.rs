//! The dependency graph as a build tool reports it.
//!
//! A graph maps each rule label to the labels it directly depends on and the
//! source files it directly owns. The graph is built from the entries of a
//! build-tool query: rules, source files, package groups and generated
//! files; a rule's inputs are classified against the named entries, external
//! inputs (prefixed with `@`) are dropped, and only rule and source-file
//! inputs are kept.

use vstd::prelude::*;

use crate::chars::chars_of;
use crate::collections::StrMap;
use crate::collections::str_views;
use crate::errors::AnalysisError;
use crate::collections::StrSet;
use crate::reach::EntryModel;
use crate::reach::GraphModel;
use crate::reach::count_in;
use crate::reach::dep_closed;
use crate::reach::has_edge;
use crate::reach::lemma_closed_set_contains_closure;
use crate::reach::lemma_count_in_concat;
use crate::reach::lemma_reaches_self;
use crate::reach::lemma_src_slot_count_push;
use crate::reach::lemma_step_reaches;
use crate::reach::reaches;
use crate::reach::src_slot_count;

verus! {

/// One rule of the dependency graph: its direct dependencies and its own
/// source files, in declaration order.
pub struct Entry {
    pub dep_targets: Vec<String>,
    pub source_files: Vec<String>,
}

impl View for Entry {
    type V = EntryModel;

    open spec fn view(&self) -> EntryModel {
        EntryModel { deps: str_views(self.dep_targets@), srcs: str_views(self.source_files@) }
    }
}

/// The dependency graph: a map from rule label to its entry.
pub struct BazelDependencyGraph {
    pub rules_by_label: StrMap<Entry>,
}

impl View for BazelDependencyGraph {
    type V = GraphModel;

    open spec fn view(&self) -> GraphModel {
        self.rules_by_label@.map_values(|e: Entry| e@)
    }
}

impl BazelDependencyGraph {
    pub open spec fn wf(&self) -> bool {
        self.rules_by_label.wf()
    }

    pub proof fn lemma_dom(&self)
        ensures
            self@.dom() == self.rules_by_label@.dom(),
            self@.dom() == self.rules_by_label.key_views().to_set(),
            self@.dom().finite(),
    {
        assert(self@.dom() =~= self.rules_by_label@.dom());
        self.rules_by_label.lemma_dom();
    }

    pub fn new() -> (r: BazelDependencyGraph)
        ensures
            r.wf(),
            r@ == Map::<Seq<char>, EntryModel>::empty(),
    {
        let r = BazelDependencyGraph { rules_by_label: StrMap::new() };
        proof {
            assert(r@ =~= Map::<Seq<char>, EntryModel>::empty());
        }
        r
    }

    /// Add or replace one rule.
    pub fn set_rule(&mut self, label: String, entry: Entry)
        requires
            old(self).wf(),
        ensures
            final(self).wf(),
            final(self)@ == old(self)@.insert(label@, entry@),
    {
        let ghost lv = label@;
        let ghost ev = entry@;
        self.rules_by_label.insert(label, entry);
        proof {
            assert(self@ =~= old(self)@.insert(lv, ev));
        }
    }

    pub fn contains_label(&self, label: &String) -> (r: bool)
        requires
            self.wf(),
        ensures
            r == self@.contains_key(label@),
    {
        self.rules_by_label.contains_key(label)
    }

    pub fn get_entry(&self, label: &String) -> (r: Option<&Entry>)
        requires
            self.wf(),
        ensures
            match r {
                Some(e) => self@.contains_key(label@) && e@ == self@[label@],
                None => !self@.contains_key(label@),
            },
    {
        self.rules_by_label.get(label)
    }

    /// Build the graph from the entries of a build-tool dependency query:
    /// classify every name, then keep, per rule, the non-external inputs
    /// that name rules (as dependencies) or source files (as own sources).
    pub fn from_entries(entries: &Vec<DependencyEntry>) -> (r: BazelDependencyGraph)
        ensures
            r.wf(),
            r@ == graph_of_entries(entries@.map_values(|e: DependencyEntry| e@)),
    {
        let ghost models = entries@.map_values(|e: DependencyEntry| e@);
        let mut tbl: StrMap<EntryKind> = StrMap::new();
        let mut rule_names: Vec<String> = Vec::new();
        let mut rule_inputs: Vec<Vec<String>> = Vec::new();
        let mut i: usize = 0;
        proof {
            assert(models.take(0) =~= Seq::<DependencyEntryModel>::empty());
            assert(tbl@ =~= kind_map(models.take(0)));
            assert(rule_list(models.take(0)) =~= Seq::<(Seq<char>, Seq<Seq<char>>)>::empty());
        }
        while i < entries.len()
            invariant
                models == entries@.map_values(|e: DependencyEntry| e@),
                i <= entries.len(),
                tbl.wf(),
                tbl@ == kind_map(models.take(i as int)),
                rule_names@.len() == rule_inputs@.len(),
                rule_names@.len() == rule_list(models.take(i as int)).len(),
                forall|j: int|
                    0 <= j < rule_names@.len() ==> (#[trigger] rule_names@[j])@ == rule_list(
                        models.take(i as int),
                    )[j].0 && str_views(rule_inputs@[j]@) == rule_list(models.take(i as int))[j].1,
            decreases entries.len() - i,
        {
            let ghost pre = models.take(i as int);
            proof {
                assert(models.take(i + 1) =~= pre.push(models[i as int]));
                assert(models.take(i + 1).drop_last() =~= pre);
                assert(models[i as int] == entries@[i as int]@);
            }
            match &entries[i] {
                DependencyEntry::Rule { rule } => {
                    tbl.insert(rule.name.clone(), EntryKind::RuleKind);
                    rule_names.push(rule.name.clone());
                    rule_inputs.push(clone_string_vec(&rule.rule_input));
                    proof {
                        assert(rule_list(models.take(i + 1)) =~= rule_list(pre).push(
                            (rule.name@, str_views(rule.rule_input@)),
                        ));
                        assert forall|j: int| 0 <= j < rule_names@.len() implies (
                        #[trigger] rule_names@[j])@ == rule_list(models.take(i + 1))[j].0
                            && str_views(rule_inputs@[j]@) == rule_list(models.take(i + 1))[j].1 by {
                            if j < rule_names@.len() - 1 {
                                assert(rule_list(models.take(i + 1))[j] == rule_list(pre)[j]);
                            }
                        }
                    }
                },
                DependencyEntry::SourceFile { source_file } => {
                    tbl.insert(source_file.name.clone(), EntryKind::SourceFileKind);
                    proof {
                        assert(rule_list(models.take(i + 1)) =~= rule_list(pre));
                    }
                },
                DependencyEntry::PackageGroup { package_group } => {
                    tbl.insert(package_group.name.clone(), EntryKind::PackageGroupKind);
                    proof {
                        assert(rule_list(models.take(i + 1)) =~= rule_list(pre));
                    }
                },
                DependencyEntry::GeneratedFile { generated_file } => {
                    tbl.insert(generated_file.name.clone(), EntryKind::GeneratedFileKind);
                    proof {
                        assert(rule_list(models.take(i + 1)) =~= rule_list(pre));
                    }
                },
            }
            i = i + 1;
        }
        proof {
            assert(models.take(models.len() as int) =~= models);
        }
        let ghost tblm = tbl@;
        let ghost rl = rule_list(models);
        let mut graph = BazelDependencyGraph::new();
        let mut ri: usize = 0;
        proof {
            assert(graph@ =~= graph_of_rules(tblm, rl, 0));
        }
        while ri < rule_names.len()
            invariant
                tbl.wf(),
                tbl@ == tblm,
                rl == rule_list(models),
                rule_names@.len() == rule_inputs@.len(),
                rule_names@.len() == rl.len(),
                forall|j: int|
                    0 <= j < rule_names@.len() ==> (#[trigger] rule_names@[j])@ == rl[j].0
                        && str_views(rule_inputs@[j]@) == rl[j].1,
                ri <= rule_names.len(),
                graph.wf(),
                graph@ == graph_of_rules(tblm, rl, ri as int),
            decreases rule_names.len() - ri,
        {
            let inputs = &rule_inputs[ri];
            let ghost inm = rl[ri as int].1;
            proof {
                assert((#[trigger] rule_names@[ri as int])@ == rl[ri as int].0);
                assert(str_views(inputs@) == inm);
            }
            let mut dep_targets: Vec<String> = Vec::new();
            let mut source_files: Vec<String> = Vec::new();
            let mut j: usize = 0;
            proof {
                assert(inm.take(0) =~= Seq::<Seq<char>>::empty());
                assert(str_views(dep_targets@) =~= deps_of_inputs(tblm, inm.take(0)));
                assert(str_views(source_files@) =~= srcs_of_inputs(tblm, inm.take(0)));
            }
            while j < inputs.len()
                invariant
                    tbl.wf(),
                    tbl@ == tblm,
                    inm == str_views(inputs@),
                    j <= inputs.len(),
                    inputs@.len() == inm.len(),
                    str_views(dep_targets@) == deps_of_inputs(tblm, inm.take(j as int)),
                    str_views(source_files@) == srcs_of_inputs(tblm, inm.take(j as int)),
                decreases inputs.len() - j,
            {
                let d = &inputs[j];
                let ghost dv = d@;
                proof {
                    assert(dv == inm[j as int]);
                    assert(inm.take(j + 1) =~= inm.take(j as int).push(dv));
                    assert(inm.take(j + 1).drop_last() =~= inm.take(j as int));
                }
                let dc = chars_of(d.as_str());
                let external = dc.len() >= 1 && dc[0] == '@';
                if !external {
                    match tbl.get(d) {
                        Some(k) => {
                            if *k == EntryKind::RuleKind {
                                dep_targets.push(d.clone());
                                proof {
                                    assert(str_views(dep_targets@) =~= deps_of_inputs(
                                        tblm,
                                        inm.take(j + 1),
                                    ));
                                    assert(str_views(source_files@) =~= srcs_of_inputs(
                                        tblm,
                                        inm.take(j + 1),
                                    ));
                                }
                            } else if *k == EntryKind::SourceFileKind {
                                source_files.push(d.clone());
                                proof {
                                    assert(str_views(dep_targets@) =~= deps_of_inputs(
                                        tblm,
                                        inm.take(j + 1),
                                    ));
                                    assert(str_views(source_files@) =~= srcs_of_inputs(
                                        tblm,
                                        inm.take(j + 1),
                                    ));
                                }
                            } else {
                                proof {
                                    assert(str_views(dep_targets@) =~= deps_of_inputs(
                                        tblm,
                                        inm.take(j + 1),
                                    ));
                                    assert(str_views(source_files@) =~= srcs_of_inputs(
                                        tblm,
                                        inm.take(j + 1),
                                    ));
                                }
                            }
                        },
                        None => {
                            proof {
                                assert(str_views(dep_targets@) =~= deps_of_inputs(
                                    tblm,
                                    inm.take(j + 1),
                                ));
                                assert(str_views(source_files@) =~= srcs_of_inputs(
                                    tblm,
                                    inm.take(j + 1),
                                ));
                            }
                        },
                    }
                } else {
                    proof {
                        assert(is_external(dv));
                        assert(str_views(dep_targets@) =~= deps_of_inputs(tblm, inm.take(j + 1)));
                        assert(str_views(source_files@) =~= srcs_of_inputs(tblm, inm.take(j + 1)));
                    }
                }
                j = j + 1;
            }
            proof {
                assert(inm.take(inm.len() as int) =~= inm);
            }
            let entry = Entry { dep_targets, source_files };
            graph.set_rule(rule_names[ri].clone(), entry);
            proof {
                assert(graph@ =~= graph_of_rules(tblm, rl, ri + 1));
            }
            ri = ri + 1;
        }
        proof {
            assert(graph@ =~= graph_of_entries(models));
        }
        graph
    }

    /// Gather the source files declared by `target` and by everything in
    /// its dependency closure, each target contributing once. The
    /// `recursive` flag is accepted for interface compatibility and does
    /// not alter the walk. Fails with `NotFound` exactly when a label in
    /// the closure is absent from the graph.
    #[verifier::rlimit(50)]
    pub fn get_source_files(&self, target: &String, recursive: bool) -> (r: Result<
        Vec<String>,
        AnalysisError,
    >)
        requires
            self.wf(),
        ensures
            match r {
                Ok(files) => {
                    &&& forall|x: Seq<char>|
                        reaches(self@, target@, x) ==> self@.contains_key(x)
                    &&& exists|vs: Seq<Seq<char>>|
                        {
                            &&& #[trigger] vs.no_duplicates()
                            &&& vs.to_set() == Set::new(|x: Seq<char>| reaches(self@, target@, x))
                            &&& forall|f: Seq<char>|
                                #[trigger] count_in(str_views(files@), f) == src_slot_count(
                                    self@,
                                    vs,
                                    f,
                                )
                        }
                },
                Err(e) => match e {
                    AnalysisError::NotFound(l) => reaches(self@, target@, l@)
                        && !self@.contains_key(l@),
                    _ => false,
                },
            },
    {
        let ghost g = self@;
        let ghost tv = target@;
        proof {
            lemma_reaches_self(g, tv);
            self.lemma_dom();
        }
        if !self.contains_label(target) {
            return Err(AnalysisError::NotFound(target.clone()));
        }
        let mut visited = StrSet::new();
        visited.insert(target.clone());
        let mut pending: Vec<String> = Vec::new();
        pending.push(target.clone());
        let mut out: Vec<String> = Vec::new();
        let ghost mut processed: Seq<Seq<char>> = Seq::empty();
        proof {
            assert(str_views(pending@).len() == 1 && str_views(pending@)[0] == tv);
            assert(processed.to_set() =~= Set::<Seq<char>>::empty());
            assert(visited@ =~= processed.to_set() + str_views(pending@).to_set());
            assert(str_views(pending@).to_set().contains(tv)) by {
                assert(str_views(pending@).contains(tv));
            }
        }
        while pending.len() > 0
            invariant
                self.wf(),
                g == self@,
                tv == target@,
                visited.wf(),
                visited@.contains(tv),
                forall|x: Seq<char>| #[trigger]
                    visited@.contains(x) ==> g.contains_key(x) && reaches(g, tv, x),
                processed.no_duplicates(),
                str_views(pending@).no_duplicates(),
                forall|j: int|
                    0 <= j < pending@.len() ==> !processed.contains(
                        #[trigger] str_views(pending@)[j],
                    ),
                visited@ == processed.to_set() + str_views(pending@).to_set(),
                forall|x: Seq<char>, y: Seq<char>|
                    processed.contains(x) && has_edge(g, x, y) ==> visited@.contains(y),
                forall|f: Seq<char>| #[trigger]
                    count_in(str_views(out@), f) == src_slot_count(g, processed, f),
            decreases g.dom().len() - visited@.len(), pending.len(),
        {
            proof {
                self.lemma_dom();
                visited.lemma_len();
                assert(visited@.subset_of(g.dom()));
                vstd::set_lib::lemma_len_subset(visited@, g.dom());
            }
            let ghost pmap_pre = str_views(pending@);
            let x = pending.pop().unwrap();
            let ghost xv = x@;
            proof {
                assert(str_views(pending@) =~= pmap_pre.drop_last());
                assert(pmap_pre[pmap_pre.len() - 1] == xv);
                assert(pmap_pre.to_set().contains(xv)) by {
                    assert(pmap_pre.contains(xv));
                }
                assert(visited@.contains(xv));
                assert(!processed.contains(xv));
            }
            let entry = match self.get_entry(&x) {
                Some(e) => e,
                None => {
                    proof {
                        assert(false);
                    }
                    return Err(AnalysisError::NotFound(x));
                },
            };
            let mut own = clone_string_vec(&entry.source_files);
            let ghost out_pre = str_views(out@);
            out.append(&mut own);
            let ghost processed_pre = processed;
            proof {
                processed = processed.push(xv);
                assert(str_views(out@) =~= out_pre + g[xv].srcs);
                assert forall|f: Seq<char>| #[trigger]
                    count_in(str_views(out@), f) == src_slot_count(g, processed, f) by {
                    lemma_count_in_concat(out_pre, g[xv].srcs, f);
                    lemma_src_slot_count_push(g, processed_pre, xv, f);
                }
                assert forall|j: int| 0 <= j < pending@.len() implies !processed.contains(
                    #[trigger] str_views(pending@)[j],
                ) by {
                    assert(str_views(pending@)[j] == pmap_pre[j]);
                    if str_views(pending@)[j] == xv {
                        assert(pmap_pre[j] == pmap_pre[pmap_pre.len() - 1]);
                    }
                }
                assert(pmap_pre =~= str_views(pending@).push(xv));
                str_views(pending@).lemma_push_to_set_commute(xv);
                assert(visited@ =~= processed_pre.to_set() + str_views(pending@).to_set().insert(
                    xv,
                ));
            }
            let mut di: usize = 0;
            let ghost visited_mid = visited@;
            let ghost plen_mid = pending@.len() as int;
            while di < entry.dep_targets.len()
                invariant
                    self.wf(),
                    g == self@,
                    tv == target@,
                    xv == x@,
                    g.contains_key(xv),
                    entry@ == g[xv],
                    reaches(g, tv, xv),
                    entry.dep_targets@.len() == g[xv].deps.len(),
                    di <= entry.dep_targets.len(),
                    visited.wf(),
                    visited@.contains(tv),
                    visited_mid.subset_of(visited@),
                    pending@.len() + visited_mid.len() == plen_mid + visited@.len(),
                    forall|x2: Seq<char>| #[trigger]
                        visited@.contains(x2) ==> g.contains_key(x2) && reaches(g, tv, x2),
                    processed.no_duplicates(),
                    processed == processed_pre.push(xv),
                    str_views(pending@).no_duplicates(),
                    forall|j: int|
                        0 <= j < pending@.len() ==> !processed.contains(
                            #[trigger] str_views(pending@)[j],
                        ),
                    visited@ == processed_pre.to_set() + str_views(pending@).to_set().insert(xv),
                    forall|x2: Seq<char>, y: Seq<char>|
                        processed_pre.contains(x2) && has_edge(g, x2, y) ==> visited@.contains(y),
                    forall|k: int|
                        0 <= k < di ==> visited@.contains(#[trigger] g[xv].deps[k]),
                    forall|f: Seq<char>| #[trigger]
                        count_in(str_views(out@), f) == src_slot_count(g, processed, f),
                decreases entry.dep_targets.len() - di,
            {
                let dep = &entry.dep_targets[di];
                let ghost depv = dep@;
                proof {
                    assert(depv == g[xv].deps[di as int]);
                    assert(g[xv].deps.contains(depv));
                    assert(has_edge(g, xv, depv));
                    lemma_reaches_self(g, depv);
                    lemma_step_reaches(g, xv, depv, depv);
                    crate::reach::lemma_reaches_trans(g, tv, xv, depv);
                }
                if !visited.contains(dep) {
                    if !self.contains_label(dep) {
                        return Err(AnalysisError::NotFound(dep.clone()));
                    }
                    let ghost pend_pre2 = str_views(pending@);
                    proof {
                        visited.lemma_len();
                    }
                    let ghost vlen_pre = visited@.len() as int;
                    visited.insert(dep.clone());
                    pending.push(dep.clone());
                    proof {
                        visited.lemma_len();
                        assert(visited@.len() == vlen_pre + 1);
                        assert(str_views(pending@) =~= pend_pre2.push(depv));
                        assert(str_views(pending@).no_duplicates()) by {
                            assert(!pend_pre2.to_set().contains(depv)) by {
                                if pend_pre2.to_set().contains(depv) {
                                    assert(pend_pre2.contains(depv));
                                }
                            }
                            assert(!pend_pre2.contains(depv));
                        }
                        assert forall|j: int| 0 <= j < pending@.len() implies !processed.contains(
                            #[trigger] str_views(pending@)[j],
                        ) by {
                            if j < pend_pre2.len() {
                                assert(str_views(pending@)[j] == pend_pre2[j]);
                            } else {
                                assert(str_views(pending@)[j] == depv);
                                if processed.contains(depv) {
                                    assert(processed_pre.contains(depv) || depv == xv);
                                    assert(visited@.contains(depv));
                                }
                            }
                        }
                        pend_pre2.lemma_push_to_set_commute(depv);
                        assert(visited@ =~= processed_pre.to_set() + str_views(
                            pending@,
                        ).to_set().insert(xv));
                    }
                } else {
                    proof {
                        assert(visited@.contains(depv));
                    }
                }
                di = di + 1;
            }
            proof {
                visited.lemma_len();
                vstd::set_lib::lemma_len_subset(visited_mid, visited@);
                self.lemma_dom();
                assert(visited@.subset_of(g.dom()));
                vstd::set_lib::lemma_len_subset(visited@, g.dom());
                processed_pre.lemma_push_to_set_commute(xv);
                assert(visited@ =~= processed.to_set() + str_views(pending@).to_set());
                assert forall|x2: Seq<char>, y: Seq<char>|
                    processed.contains(x2) && has_edge(g, x2, y) implies visited@.contains(y) by {
                    if x2 == xv {
                        let k = choose|k: int| 0 <= k < g[xv].deps.len() && g[xv].deps[k] == y;
                    } else {
                        assert(processed_pre.contains(x2));
                    }
                }
                assert(processed.no_duplicates());
            }
        }
        proof {
            assert(str_views(pending@) =~= Seq::<Seq<char>>::empty());
            assert(visited@ =~= processed.to_set()) by {
                assert(str_views(pending@).to_set() =~= Set::<Seq<char>>::empty());
            }
            assert(dep_closed(g, visited@)) by {
                assert forall|x2: Seq<char>, y: Seq<char>|
                    visited@.contains(x2) && has_edge(g, x2, y) implies visited@.contains(y) by {
                    assert(processed.contains(x2));
                }
            }
            assert forall|x2: Seq<char>| reaches(g, tv, x2) implies visited@.contains(x2) by {
                lemma_closed_set_contains_closure(g, visited@, tv, x2);
            }
            assert(visited@ =~= Set::new(|x2: Seq<char>| reaches(g, tv, x2)));
            assert(processed.to_set() == Set::new(|x2: Seq<char>| reaches(g, tv, x2)));
        }
        Ok(out)
    }
}

/// One source-file entry of a build-tool query.
pub struct SourceFile {
    pub name: String,
    pub location: String,
    pub visibility_label: Vec<String>,
}

/// One rule entry of a build-tool query.
pub struct Rule {
    pub name: String,
    pub rule_class: String,
    pub location: String,
    pub attribute: Vec<Attribute>,
    pub rule_input: Vec<String>,
    pub rule_output: Vec<String>,
}

/// One attribute of a rule entry.
pub struct Attribute {
    pub name: String,
    pub attr_type: String,
    pub string_value: Option<String>,
    pub string_list_value: Option<Vec<String>>,
    pub int_value: Option<i64>,
    pub boolean_value: Option<bool>,
    pub explicitly_specified: Option<bool>,
    pub nodep: Option<bool>,
}

/// One package-group entry of a build-tool query.
pub struct PackageGroup {
    pub name: String,
}

/// One generated-file entry of a build-tool query.
pub struct GeneratedFile {
    pub name: String,
    pub generating_rule: String,
    pub location: String,
}

/// One entry of a build-tool dependency query.
pub enum DependencyEntry {
    Rule { rule: Rule },
    SourceFile { source_file: SourceFile },
    PackageGroup { package_group: PackageGroup },
    GeneratedFile { generated_file: GeneratedFile },
}

/// What kind of entry a name refers to.
#[derive(Clone, Copy, PartialEq, Eq, Structural, Debug)]
pub enum EntryKind {
    RuleKind,
    SourceFileKind,
    PackageGroupKind,
    GeneratedFileKind,
}

/// The ghost model of one query entry: its kind, its name, and, for a
/// rule, its declared inputs.
pub struct DependencyEntryModel {
    pub kind: EntryKind,
    pub name: Seq<char>,
    pub inputs: Seq<Seq<char>>,
}

impl View for DependencyEntry {
    type V = DependencyEntryModel;

    open spec fn view(&self) -> DependencyEntryModel {
        match self {
            DependencyEntry::Rule { rule } => DependencyEntryModel {
                kind: EntryKind::RuleKind,
                name: rule.name@,
                inputs: str_views(rule.rule_input@),
            },
            DependencyEntry::SourceFile { source_file } => DependencyEntryModel {
                kind: EntryKind::SourceFileKind,
                name: source_file.name@,
                inputs: Seq::empty(),
            },
            DependencyEntry::PackageGroup { package_group } => DependencyEntryModel {
                kind: EntryKind::PackageGroupKind,
                name: package_group.name@,
                inputs: Seq::empty(),
            },
            DependencyEntry::GeneratedFile { generated_file } => DependencyEntryModel {
                kind: EntryKind::GeneratedFileKind,
                name: generated_file.name@,
                inputs: Seq::empty(),
            },
        }
    }
}

/// Name-to-kind classification of the entries; a later entry with the same
/// name wins.
pub open spec fn kind_map(entries: Seq<DependencyEntryModel>) -> Map<Seq<char>, EntryKind>
    decreases entries.len(),
{
    if entries.len() == 0 {
        Map::empty()
    } else {
        kind_map(entries.drop_last()).insert(entries.last().name, entries.last().kind)
    }
}

/// The rule entries, in order: name and declared inputs.
pub open spec fn rule_list(entries: Seq<DependencyEntryModel>) -> Seq<(Seq<char>, Seq<Seq<char>>)>
    decreases entries.len(),
{
    if entries.len() == 0 {
        Seq::empty()
    } else {
        rule_list(entries.drop_last()) + if entries.last().kind == EntryKind::RuleKind {
            seq![(entries.last().name, entries.last().inputs)]
        } else {
            Seq::<(Seq<char>, Seq<Seq<char>>)>::empty()
        }
    }
}

/// An input is dropped as external when it starts with the remote marker.
pub open spec fn is_external(d: Seq<char>) -> bool {
    d.len() >= 1 && d[0] == '@'
}

/// The inputs kept as direct dependencies: non-external names classified as
/// rules.
pub open spec fn deps_of_inputs(
    tbl: Map<Seq<char>, EntryKind>,
    inputs: Seq<Seq<char>>,
) -> Seq<Seq<char>>
    decreases inputs.len(),
{
    if inputs.len() == 0 {
        Seq::empty()
    } else {
        deps_of_inputs(tbl, inputs.drop_last()) + if !is_external(inputs.last())
            && tbl.contains_key(inputs.last()) && tbl[inputs.last()] == EntryKind::RuleKind {
            seq![inputs.last()]
        } else {
            Seq::<Seq<char>>::empty()
        }
    }
}

/// The inputs kept as source files: non-external names classified as
/// source files.
pub open spec fn srcs_of_inputs(
    tbl: Map<Seq<char>, EntryKind>,
    inputs: Seq<Seq<char>>,
) -> Seq<Seq<char>>
    decreases inputs.len(),
{
    if inputs.len() == 0 {
        Seq::empty()
    } else {
        srcs_of_inputs(tbl, inputs.drop_last()) + if !is_external(inputs.last())
            && tbl.contains_key(inputs.last()) && tbl[inputs.last()]
            == EntryKind::SourceFileKind {
            seq![inputs.last()]
        } else {
            Seq::<Seq<char>>::empty()
        }
    }
}

/// The graph the first `k` rules build, classified against `tbl`.
pub open spec fn graph_of_rules(
    tbl: Map<Seq<char>, EntryKind>,
    rules: Seq<(Seq<char>, Seq<Seq<char>>)>,
    k: int,
) -> GraphModel
    decreases k,
{
    if k <= 0 {
        Map::empty()
    } else {
        graph_of_rules(tbl, rules, k - 1).insert(
            rules[k - 1].0,
            EntryModel {
                deps: deps_of_inputs(tbl, rules[k - 1].1),
                srcs: srcs_of_inputs(tbl, rules[k - 1].1),
            },
        )
    }
}

/// The dependency graph a sequence of query entries describes.
pub open spec fn graph_of_entries(entries: Seq<DependencyEntryModel>) -> GraphModel {
    graph_of_rules(kind_map(entries), rule_list(entries), rule_list(entries).len() as int)
}

/// Copy a vector of strings.
pub fn clone_string_vec(v: &Vec<String>) -> (r: Vec<String>)
    ensures
        r@ == v@,
{
    let mut r: Vec<String> = Vec::new();
    let mut i: usize = 0;
    while i < v.len()
        invariant
            i <= v.len(),
            r@ == v@.take(i as int),
        decreases v.len() - i,
    {
        r.push(v[i].clone());
        proof {
            assert(r@ =~= v@.take(i + 1));
        }
        i = i + 1;
    }
    proof {
        assert(v@.take(v@.len() as int) =~= v@);
    }
    r
}

} // verus!
