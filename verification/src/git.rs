//! The commit history index.
//!
//! A repository's history, reduced to what the analysis needs: for each
//! repository-relative file path, the set of commit identifiers that
//! modified that path. The index is built from the text of a version-control
//! log in `from_log_lines`; running the version-control tool itself is the
//! caller's business.

use vstd::prelude::*;

use crate::chars::char_substring;
use crate::chars::chars_of;
use crate::chars::find_seq;
use crate::chars::first_seq_at;
use crate::chars::has_prefix;
use crate::chars::is_seq_at;
use crate::chars::starts_with;
use crate::collections::StrMap;
use crate::collections::StrSet;
use crate::collections::str_views;

verus! {

/// The ghost model of a commit history index: path to set of commits.
pub type RepoModel = Map<Seq<char>, Set<Seq<char>>>;

/// The commits that modified one file.
pub struct GitFile {
    pub commit_history: StrSet,
}

impl View for GitFile {
    type V = Set<Seq<char>>;

    open spec fn view(&self) -> Set<Seq<char>> {
        self.commit_history@
    }
}

/// A repository's per-file commit history.
pub struct GitRepo {
    pub files: StrMap<GitFile>,
}

impl View for GitRepo {
    type V = RepoModel;

    open spec fn view(&self) -> RepoModel {
        self.files@.map_values(|f: GitFile| f@)
    }
}

impl GitRepo {
    pub open spec fn wf(&self) -> bool {
        &&& self.files.wf()
        &&& forall|k: Seq<char>|
            self.files@.contains_key(k) ==> (#[trigger] self.files@[k]).commit_history.wf()
    }

    pub fn new() -> (r: GitRepo)
        ensures
            r.wf(),
            r@ == Map::<Seq<char>, Set<Seq<char>>>::empty(),
    {
        let r = GitRepo { files: StrMap::new() };
        proof {
            assert(r@ =~= Map::<Seq<char>, Set<Seq<char>>>::empty());
        }
        r
    }

    /// Build the index from the lines of a version-control log produced
    /// with the commit-marker format: the first line is skipped, a line
    /// carrying the marker switches the current commit, and every other
    /// non-empty line names a file touched by that commit.
    #[verifier::rlimit(50)]
    pub fn from_log_lines(lines: &Vec<String>) -> (r: GitRepo)
        ensures
            r.wf(),
            r@ == log_model(str_views(lines@), commit_marker()),
    {
        let ghost lv = str_views(lines@);
        let ghost pv = commit_marker();
        let marker = "depsaw-commit:";
        let pref = chars_of(marker);
        proof {
            reveal_strlit("depsaw-commit:");
            assert(pref@ == pv);
            assert(pv.len() >= 1);
        }
        let mut files: StrMap<GitFile> = StrMap::new();
        let mut commit = String::new();
        if lines.len() <= 1 {
            let r = GitRepo { files };
            proof {
                assert(r@ =~= Map::<Seq<char>, Set<Seq<char>>>::empty());
                assert(log_state(lv, lv.len() as int, pv).1 =~= Map::<
                    Seq<char>,
                    Set<Seq<char>>,
                >::empty());
            }
            return r;
        }
        let mut i: usize = 1;
        proof {
            assert(files@.map_values(|f: GitFile| f@) =~= log_state(lv, 1, pv).1);
            assert(commit@ =~= log_state(lv, 1, pv).0);
        }
        while i < lines.len()
            invariant
                lv == str_views(lines@),
                pv == commit_marker(),
                pref@ == pv,
                pv.len() >= 1,
                1 <= i <= lines@.len(),
                files.wf(),
                forall|k: Seq<char>|
                    files@.contains_key(k) ==> (#[trigger] files@[k]).commit_history.wf(),
                files@.map_values(|f: GitFile| f@) == log_state(lv, i as int, pv).1,
                commit@ == log_state(lv, i as int, pv).0,
            decreases lines@.len() - i,
        {
            let line = &lines[i];
            let ghost linev = line@;
            proof {
                assert(linev == lv[i as int]);
            }
            let lc = chars_of(line.as_str());
            if lc.len() == 0 {
                proof {
                    assert(log_state(lv, i + 1, pv).1 == log_state(lv, i as int, pv).1);
                    assert(log_state(lv, i + 1, pv).0 == log_state(lv, i as int, pv).0);
                }
            } else if starts_with(&lc, &pref) {
                let mut rest: Vec<char> = Vec::new();
                let mut k: usize = pref.len();
                while k < lc.len()
                    invariant
                        pref@.len() <= k <= lc@.len(),
                        lc@ == linev,
                        pref@.len() <= linev.len(),
                        rest@ == linev.subrange(pref@.len() as int, k as int),
                    decreases lc@.len() - k,
                {
                    rest.push(lc[k]);
                    proof {
                        assert(rest@ =~= linev.subrange(pref@.len() as int, k + 1));
                    }
                    k = k + 1;
                }
                proof {
                    assert(rest@ =~= linev.skip(pref@.len() as int));
                }
                let end = match find_seq(&rest, &pref) {
                    Some(e) => {
                        proof {
                            assert(exists|q: int| is_seq_at(rest@, pv, q));
                        }
                        e
                    },
                    None => {
                        proof {
                            assert(!exists|q: int| is_seq_at(rest@, pv, q));
                        }
                        rest.len()
                    },
                };
                commit = char_substring(line.as_str(), pref.len(), pref.len() + end);
                proof {
                    assert(commit@ =~= rest@.take(end as int)) by {
                        assert(commit@ == linev.subrange(
                            pref@.len() as int,
                            pref@.len() + end,
                        ));
                    }
                    assert(commit@ == commit_of_line(linev, pv));
                    assert(log_state(lv, i + 1, pv).1 == log_state(lv, i as int, pv).1);
                    assert(log_state(lv, i + 1, pv).0 == commit_of_line(linev, pv));
                }
            } else {
                let mut set = match files.get(line) {
                    Some(f) => f.commit_history.duplicate(),
                    None => StrSet::new(),
                };
                proof {
                    assert(!has_prefix(linev, pv));
                }
                set.insert(commit.clone());
                let ghost setv = set@;
                files.insert(line.clone(), GitFile { commit_history: set });
                proof {
                    let m = log_state(lv, i as int, pv).1;
                    let c = log_state(lv, i as int, pv).0;
                    assert(log_state(lv, i + 1, pv).0 == c);
                    assert(log_state(lv, i + 1, pv).1 == m.insert(
                        linev,
                        (if m.contains_key(linev) {
                            m[linev]
                        } else {
                            Set::empty()
                        }).insert(c),
                    ));
                    assert(files@.map_values(|f: GitFile| f@) =~= m.insert(linev, setv));
                    assert(setv =~= (if m.contains_key(linev) {
                        m[linev]
                    } else {
                        Set::<Seq<char>>::empty()
                    }).insert(c));
                }
            }
            i = i + 1;
        }
        let r = GitRepo { files };
        proof {
            assert(i == lv.len());
        }
        r
    }
}

/// The marker the log format puts in front of each commit identifier.
pub open spec fn commit_marker() -> Seq<char> {
    "depsaw-commit:"@
}

/// The commit identifier a marker line carries: the characters after the
/// marker, up to its next occurrence if any.
pub open spec fn commit_of_line(l: Seq<char>, p: Seq<char>) -> Seq<char> {
    let rest = l.skip(p.len() as int);
    if exists|q: int| is_seq_at(rest, p, q) {
        rest.take(first_seq_at(rest, p))
    } else {
        rest
    }
}

/// The current commit and the index built after the first `k` lines; the
/// first line is skipped.
pub open spec fn log_state(lines: Seq<Seq<char>>, k: int, p: Seq<char>) -> (
    Seq<char>,
    RepoModel,
)
    decreases k,
{
    if k <= 1 {
        (Seq::empty(), Map::empty())
    } else {
        let prev = log_state(lines, k - 1, p);
        let l = lines[k - 1];
        if l.len() == 0 {
            prev
        } else if has_prefix(l, p) {
            (commit_of_line(l, p), prev.1)
        } else {
            (
                prev.0,
                prev.1.insert(
                    l,
                    (if prev.1.contains_key(l) {
                        prev.1[l]
                    } else {
                        Set::empty()
                    }).insert(prev.0),
                ),
            )
        }
    }
}

/// The index a whole log describes.
pub open spec fn log_model(lines: Seq<Seq<char>>, p: Seq<char>) -> RepoModel {
    log_state(lines, lines.len() as int, p).1
}

} // verus!
