//! Character-level views of strings.
//!
//! Labels, file paths and commit identifiers are all strings; the analysis
//! compares and rewrites them character by character. This module turns a
//! `&str` into a `Vec<char>` whose view equals the string's view, and offers
//! the small set of sequence operations the analysis needs (prefix and
//! suffix tests, searching for a character).

use vstd::prelude::*;

verus! {

broadcast use vstd::string::axiom_spec_iter, vstd::string::next_postcondition;

use vstd::std_specs::iter::IteratorSpec;

/// The characters of `s`, as a vector whose view is exactly `s@`.
pub fn chars_of(s: &str) -> (r: Vec<char>)
    ensures
        r@ == s@,
{
    let mut it = s.chars();
    let mut r: Vec<char> = Vec::new();
    loop
        invariant
            it.decrease() is Some,
            r@ + it.remaining() == s@,
        ensures
            r@ == s@,
        decreases it.decrease()->0,
    {
        match it.next() {
            Some(c) => {
                r.push(c);
            },
            None => {
                assert(r@ =~= s@);
                break;
            },
        }
    }
    r
}

/// Does the character sequence `s` start with `p`?
pub open spec fn has_prefix(s: Seq<char>, p: Seq<char>) -> bool {
    p.len() <= s.len() && s.subrange(0, p.len() as int) == p
}

/// Does the character sequence `s` end with `p`?
pub open spec fn has_suffix(s: Seq<char>, p: Seq<char>) -> bool {
    p.len() <= s.len() && s.subrange(s.len() - p.len(), s.len() as int) == p
}

pub fn starts_with(s: &Vec<char>, p: &Vec<char>) -> (r: bool)
    ensures
        r == has_prefix(s@, p@),
{
    if p.len() > s.len() {
        return false;
    }
    let mut i: usize = 0;
    while i < p.len()
        invariant
            i <= p.len() <= s.len(),
            forall|j: int| 0 <= j < i ==> s@[j] == p@[j],
        decreases p.len() - i,
    {
        if s[i] != p[i] {
            assert(s@.subrange(0, p@.len() as int)[i as int] != p@[i as int]);
            return false;
        }
        i = i + 1;
    }
    assert(s@.subrange(0, p@.len() as int) =~= p@);
    true
}

pub fn ends_with(s: &Vec<char>, p: &Vec<char>) -> (r: bool)
    ensures
        r == has_suffix(s@, p@),
{
    if p.len() > s.len() {
        return false;
    }
    let offset = s.len() - p.len();
    let mut i: usize = 0;
    while i < p.len()
        invariant
            i <= p.len() <= s.len(),
            offset == s.len() - p.len(),
            forall|j: int| 0 <= j < i ==> s@[offset + j] == p@[j],
        decreases p.len() - i,
    {
        if s[offset + i] != p[i] {
            assert(s@.subrange(s@.len() - p@.len(), s@.len() as int)[i as int] != p@[i as int]);
            return false;
        }
        i = i + 1;
    }
    assert(s@.subrange(s@.len() - p@.len(), s@.len() as int) =~= p@);
    true
}

/// The index of the first occurrence of `c` in `s`, if any.
pub open spec fn first_index_of(s: Seq<char>, c: char) -> int {
    choose|i: int| 0 <= i < s.len() && s[i] == c && forall|j: int| 0 <= j < i ==> s[j] != c
}

pub fn find_char(s: &Vec<char>, c: char) -> (r: Option<usize>)
    ensures
        match r {
            Some(i) => i < s@.len() && s@[i as int] == c && (forall|j: int|
                0 <= j < i ==> s@[j] != c) && i == first_index_of(s@, c),
            None => forall|j: int| 0 <= j < s@.len() ==> s@[j] != c,
        },
{
    let mut i: usize = 0;
    while i < s.len()
        invariant
            i <= s.len(),
            forall|j: int| 0 <= j < i ==> s@[j] != c,
        decreases s.len() - i,
    {
        if s[i] == c {
            return Some(i);
        }
        i = i + 1;
    }
    None
}

/// An index that holds `c` with none before it is the first index of `c`.
pub proof fn lemma_first_index_unique(s: Seq<char>, c: char, i: int)
    requires
        0 <= i < s.len(),
        s[i] == c,
        forall|j: int| 0 <= j < i ==> s[j] != c,
    ensures
        first_index_of(s, c) == i,
{
    assert(0 <= i < s.len() && s[i] == c && (forall|j: int| 0 <= j < i ==> s[j] != c));
    let i2 = first_index_of(s, c);
    assert(0 <= i2 < s.len() && s[i2] == c && (forall|j: int| 0 <= j < i2 ==> s[j] != c));
    if i2 < i {
        assert(s[i2] != c);
    }
    if i < i2 {
        assert(s[i] != c);
    }
}

/// The characters of `s` from position `a` up to `b`, as an owned string.
///
/// Relies on `str::chars`, `Iterator::skip`, `Iterator::take` and
/// `String::from_iter`: the characters of a string are yielded in order,
/// skipping the first `a` and keeping the next `b - a` of the rest, and
/// collecting characters builds the string holding exactly them.
#[verifier::external_body]
pub(crate) fn char_substring(s: &str, a: usize, b: usize) -> (r: String)
    requires
        a <= b <= s@.len(),
    ensures
        r@ == s@.subrange(a as int, b as int),
{
    s.chars().skip(a).take(b - a).collect()
}

/// The characters of `p` appear in `s` starting at position `i`.
pub open spec fn is_seq_at(s: Seq<char>, p: Seq<char>, i: int) -> bool {
    0 <= i && i + p.len() <= s.len() && s.subrange(i, i + p.len()) == p
}

/// The first position where `p` appears in `s`, if any.
pub open spec fn first_seq_at(s: Seq<char>, p: Seq<char>) -> int {
    choose|i: int| is_seq_at(s, p, i) && forall|j: int| 0 <= j < i ==> !is_seq_at(s, p, j)
}

/// Below any occurrence there is a first occurrence, so the chosen first
/// position satisfies its defining property.
pub proof fn lemma_some_first_seq_at(s: Seq<char>, p: Seq<char>, w: int)
    requires
        is_seq_at(s, p, w),
    ensures
        ({
            let i = first_seq_at(s, p);
            is_seq_at(s, p, i) && forall|j: int| 0 <= j < i ==> !is_seq_at(s, p, j)
        }),
    decreases w,
{
    if forall|j: int| 0 <= j < w ==> !is_seq_at(s, p, j) {
        assert(is_seq_at(s, p, w) && (forall|j: int| 0 <= j < w ==> !is_seq_at(s, p, j)));
    } else {
        let w2 = choose|w2: int| 0 <= w2 < w && is_seq_at(s, p, w2);
        lemma_some_first_seq_at(s, p, w2);
    }
}

/// A position holding `p` with none before it is the first position.
pub proof fn lemma_first_seq_at_unique(s: Seq<char>, p: Seq<char>, i: int)
    requires
        is_seq_at(s, p, i),
        forall|j: int| 0 <= j < i ==> !is_seq_at(s, p, j),
    ensures
        first_seq_at(s, p) == i,
{
    assert(is_seq_at(s, p, i) && (forall|j: int| 0 <= j < i ==> !is_seq_at(s, p, j)));
    let i2 = first_seq_at(s, p);
    assert(is_seq_at(s, p, i2) && (forall|j: int| 0 <= j < i2 ==> !is_seq_at(s, p, j)));
    if i2 < i {
        assert(!is_seq_at(s, p, i2));
    }
    if i < i2 {
        assert(!is_seq_at(s, p, i));
    }
}

/// Find the first occurrence of `p` in `s`.
pub fn find_seq(s: &Vec<char>, p: &Vec<char>) -> (r: Option<usize>)
    requires
        p@.len() >= 1,
    ensures
        match r {
            Some(i) => is_seq_at(s@, p@, i as int) && (forall|j: int|
                0 <= j < i ==> !is_seq_at(s@, p@, j)) && i == first_seq_at(s@, p@),
            None => forall|j: int| !is_seq_at(s@, p@, j),
        },
{
    if p.len() > s.len() {
        proof {
            assert forall|j: int| !is_seq_at(s@, p@, j) by {}
        }
        return None;
    }
    let last_start = s.len() - p.len();
    let mut i: usize = 0;
    while i <= last_start
        invariant
            p@.len() >= 1,
            s@.len() <= usize::MAX,
            last_start == s@.len() - p@.len(),
            i <= last_start + 1,
            forall|j: int| 0 <= j < i ==> !is_seq_at(s@, p@, j),
        decreases last_start + 1 - i,
    {
        let mut k: usize = 0;
        let mut matched = true;
        while k < p.len()
            invariant_except_break
                matched,
                forall|q: int| 0 <= q < k ==> s@[i + q] == p@[q],
                i + p@.len() <= s@.len(),
                s@.len() <= usize::MAX,
                k <= p@.len(),
                p@.len() >= 1,
            ensures
                matched ==> forall|q: int| 0 <= q < p@.len() ==> s@[i + q] == p@[q],
                !matched ==> !is_seq_at(s@, p@, i as int),
            decreases p.len() - k,
        {
            if s[i + k] != p[k] {
                proof {
                    if is_seq_at(s@, p@, i as int) {
                        assert(s@.subrange(i as int, i + p@.len())[k as int] == p@[k as int]);
                    }
                }
                matched = false;
                break ;
            }
            k = k + 1;
        }
        if matched {
            proof {
                assert(s@.subrange(i as int, i + p@.len()) =~= p@);
                lemma_first_seq_at_unique(s@, p@, i as int);
            }
            return Some(i);
        }
        i = i + 1;
    }
    proof {
        assert forall|j: int| !is_seq_at(s@, p@, j) by {
            if 0 <= j <= last_start {
                assert(!is_seq_at(s@, p@, j));
            }
        }
    }
    None
}

/// Are two character vectors equal as sequences?
pub fn chars_eq(a: &Vec<char>, b: &Vec<char>) -> (r: bool)
    ensures
        r == (a@ == b@),
{
    if a.len() != b.len() {
        return false;
    }
    let mut i: usize = 0;
    while i < a.len()
        invariant
            i <= a.len() == b.len(),
            forall|j: int| 0 <= j < i ==> a@[j] == b@[j],
        decreases a.len() - i,
    {
        if a[i] != b[i] {
            return false;
        }
        i = i + 1;
    }
    assert(a@ =~= b@);
    true
}

} // verus!
