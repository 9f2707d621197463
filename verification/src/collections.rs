//! String-keyed sets and maps.
//!
//! The analysis works with sets of commit identifiers and maps keyed by
//! target labels. These containers store their contents in vectors, keep
//! the stored keys free of duplicates, and present a mathematical `Set` or
//! `Map` over character sequences as their view, so every contract of the
//! analysis can speak in terms of plain sets and maps. Each container has a
//! well-formedness predicate `wf` that its constructors establish and its
//! methods preserve.

use vstd::prelude::*;

verus! {

broadcast use vstd::seq_lib::group_seq_lib_default, vstd::set_lib::group_set_lib_default;

/// The views of a sequence of strings.
pub open spec fn str_views(v: Seq<String>) -> Seq<Seq<char>> {
    v.map_values(|s: String| s@)
}

/// A set of strings, viewed as a `Set<Seq<char>>`.
pub struct StrSet {
    elems: Vec<String>,
}

impl View for StrSet {
    type V = Set<Seq<char>>;

    closed spec fn view(&self) -> Set<Seq<char>> {
        self.elem_views().to_set()
    }
}

impl StrSet {
    /// The stored elements, in insertion order.
    pub closed spec fn elem_views(&self) -> Seq<Seq<char>> {
        self.elems@.map_values(|s: String| s@)
    }

    /// The stored elements are free of duplicates.
    pub closed spec fn wf(&self) -> bool {
        self.elem_views().no_duplicates()
    }

    pub proof fn lemma_len(&self)
        requires
            self.wf(),
        ensures
            self@.len() == self.elem_views().len(),
            self@.finite(),
    {
        self.elem_views().unique_seq_to_set();
    }

    pub fn new() -> (r: StrSet)
        ensures
            r.wf(),
            r@ == Set::<Seq<char>>::empty(),
            r.elem_views() == Seq::<Seq<char>>::empty(),
    {
        let r = StrSet { elems: Vec::new() };
        proof {
            assert(r@ =~= Set::<Seq<char>>::empty());
        }
        r
    }

    pub fn contains(&self, x: &String) -> (r: bool)
        ensures
            r == self@.contains(x@),
    {
        let mut i: usize = 0;
        let n = self.elems.len();
        while i < n
            invariant
                i <= n == self.elems.len(),
                forall|j: int| 0 <= j < i ==> self.elem_views()[j] != x@,
            decreases n - i,
        {
            if self.elems[i].eq(x) {
                assert(self.elem_views()[i as int] == x@);
                return true;
            }
            i = i + 1;
        }
        assert(!self.elem_views().contains(x@));
        false
    }

    /// Number of elements; equals the cardinality of the view.
    pub fn len(&self) -> (n: usize)
        requires
            self.wf(),
        ensures
            n == self@.len(),
            n == self.elem_views().len(),
    {
        proof {
            self.elem_views().unique_seq_to_set();
        }
        self.elems.len()
    }

    pub fn insert(&mut self, x: String)
        requires
            old(self).wf(),
        ensures
            final(self).wf(),
            final(self)@ == old(self)@.insert(x@),
            final(self).elem_views() == if old(self)@.contains(x@) {
                old(self).elem_views()
            } else {
                old(self).elem_views().push(x@)
            },
    {
        if self.contains(&x) {
            proof {
                assert(self@.insert(x@) =~= self@);
            }
        } else {
            let ghost pre = self.elem_views();
            let ghost xv = x@;
            self.elems.push(x);
            proof {
                assert(self.elem_views() =~= pre.push(xv));
                pre.lemma_push_to_set_commute(xv);
                assert(self@ =~= old(self)@.insert(xv));
            }
        }
    }

    /// Union the other set into this one.
    pub fn add_all(&mut self, other: &StrSet)
        requires
            old(self).wf(),
        ensures
            final(self).wf(),
            final(self)@ == old(self)@ + other@,
    {
        let n = other.elems.len();
        let mut i: usize = 0;
        while i < n
            invariant
                i <= n == other.elems.len(),
                self.wf(),
                self@ == old(self)@ + other.elem_views().take(i as int).to_set(),
            decreases n - i,
        {
            self.insert(other.elems[i].clone());
            proof {
                assert(other.elem_views().take(i + 1) =~= other.elem_views().take(i as int).push(
                    other.elem_views()[i as int],
                ));
                other.elem_views().take(i as int).lemma_push_to_set_commute(
                    other.elem_views()[i as int],
                );
                assert(other.elem_views().take(i + 1).to_set() =~= other.elem_views().take(
                    i as int,
                ).to_set().insert(other.elem_views()[i as int]));
                assert(self@ =~= old(self)@ + other.elem_views().take(i + 1).to_set());
            }
            i = i + 1;
        }
        proof {
            assert(other.elem_views().take(n as int) =~= other.elem_views());
            assert(self@ =~= old(self)@ + other@);
        }
    }

    /// Take one element out of the set.
    pub fn remove(&mut self, x: &String)
        requires
            old(self).wf(),
        ensures
            final(self).wf(),
            final(self)@ == old(self)@.remove(x@),
    {
        let mut i: usize = 0;
        let n = self.elems.len();
        while i < n
            invariant
                self == old(self),
                i <= n == self.elems.len(),
                old(self).wf(),
                forall|j: int| 0 <= j < i ==> self.elem_views()[j] != x@,
            decreases n - i,
        {
            if self.elems[i].eq(x) {
                let ghost pre = self.elem_views();
                let ghost xv = x@;
                let ghost ii = i as int;
                self.elems.remove(i);
                proof {
                    assert(self.elem_views() =~= pre.remove(ii));
                    assert forall|j: int, k: int|
                        0 <= j < self.elem_views().len() && 0 <= k < self.elem_views().len() && j
                            != k implies self.elem_views()[j] != self.elem_views()[k] by {
                        let j2 = if j < ii {
                            j
                        } else {
                            j + 1
                        };
                        let k2 = if k < ii {
                            k
                        } else {
                            k + 1
                        };
                        assert(self.elem_views()[j] == pre[j2]);
                        assert(self.elem_views()[k] == pre[k2]);
                    }
                    assert forall|e: Seq<char>| #[trigger]
                        self.elem_views().to_set().contains(e) == old(self)@.remove(xv).contains(
                        e,
                    ) by {
                        if self.elem_views().contains(e) {
                            let j = choose|j: int|
                                0 <= j < self.elem_views().len() && self.elem_views()[j] == e;
                            let j2 = if j < ii {
                                j
                            } else {
                                j + 1
                            };
                            assert(pre[j2] == e);
                            assert(pre.contains(e));
                            assert(j2 != ii);
                            if e == xv {
                                assert(pre[j2] == pre[ii]);
                            }
                        }
                        if pre.contains(e) && e != xv {
                            let j = choose|j: int| 0 <= j < pre.len() && pre[j] == e;
                            assert(j != ii);
                            let j2 = if j < ii {
                                j
                            } else {
                                j - 1
                            };
                            assert(self.elem_views()[j2] == pre[j]);
                            assert(self.elem_views().contains(e));
                        }
                    }
                    assert(self@ =~= old(self)@.remove(xv));
                }
                return ;
            }
            i = i + 1;
        }
        proof {
            assert(!self.elem_views().contains(x@));
            assert(self@ =~= old(self)@.remove(x@));
        }
    }

    /// How many elements there are, for indexed iteration.
    pub fn count(&self) -> (n: usize)
        requires
            self.wf(),
        ensures
            n == self.elem_views().len(),
            n == self@.len(),
            self.elem_views().no_duplicates(),
            self.elem_views().to_set() == self@,
    {
        self.len()
    }

    /// An owned copy of the set.
    pub fn duplicate(&self) -> (r: StrSet)
        ensures
            r@ == self@,
            r.elem_views() == self.elem_views(),
            self.wf() ==> r.wf(),
    {
        let mut elems: Vec<String> = Vec::new();
        let mut i: usize = 0;
        while i < self.elems.len()
            invariant
                i <= self.elems.len(),
                elems@ == self.elems@.take(i as int),
            decreases self.elems.len() - i,
        {
            elems.push(self.elems[i].clone());
            proof {
                assert(elems@ =~= self.elems@.take(i + 1));
            }
            i = i + 1;
        }
        proof {
            assert(self.elems@.take(self.elems@.len() as int) =~= self.elems@);
        }
        let r = StrSet { elems };
        proof {
            assert(r.elem_views() =~= self.elem_views());
        }
        r
    }

    /// The element at a position, for indexed iteration.
    pub fn at(&self, i: usize) -> (e: &String)
        requires
            i < self.elem_views().len(),
        ensures
            e@ == self.elem_views()[i as int],
            self@.contains(e@),
    {
        proof {
            assert(self.elem_views().contains(self.elem_views()[i as int]));
        }
        &self.elems[i]
    }
}

/// A map from strings to values, viewed as a `Map<Seq<char>, V>`.
pub struct StrMap<V> {
    keys: Vec<String>,
    vals: Vec<V>,
}

impl<V> View for StrMap<V> {
    type V = Map<Seq<char>, V>;

    closed spec fn view(&self) -> Map<Seq<char>, V> {
        Map::new(
            |k: Seq<char>| self.key_views().contains(k),
            |k: Seq<char>| self.vals@[self.key_views().index_of(k)],
        )
    }
}

impl<V> StrMap<V> {
    /// The stored keys, in insertion order.
    pub closed spec fn key_views(&self) -> Seq<Seq<char>> {
        self.keys@.map_values(|s: String| s@)
    }

    /// As many values as keys, and no key stored twice.
    pub closed spec fn wf(&self) -> bool {
        self.keys@.len() == self.vals@.len() && self.key_views().no_duplicates()
    }

    pub proof fn lemma_dom(&self)
        ensures
            self@.dom() == self.key_views().to_set(),
            self@.dom().finite(),
    {
        assert(self@.dom() =~= self.key_views().to_set());
    }

    pub proof fn lemma_keys(&self)
        requires
            self.wf(),
        ensures
            self.key_views().no_duplicates(),
            self.key_views().to_set() == self@.dom(),
            self@.dom().finite(),
            self.key_views().len() == self@.dom().len(),
    {
        self.lemma_dom();
        self.key_views().unique_seq_to_set();
    }

    pub fn new() -> (r: StrMap<V>)
        ensures
            r.wf(),
            r@ == Map::<Seq<char>, V>::empty(),
            r.key_views() == Seq::<Seq<char>>::empty(),
    {
        let r = StrMap { keys: Vec::new(), vals: Vec::new() };
        proof {
            assert(r@ =~= Map::<Seq<char>, V>::empty());
        }
        r
    }

    /// The position of a present key among the stored keys.
    fn index_for(&self, k: &String) -> (r: Option<usize>)
        requires
            self.wf(),
        ensures
            match r {
                Some(i) => i < self.key_views().len() && self.key_views()[i as int] == k@
                    && self@.contains_key(k@),
                None => !self@.contains_key(k@),
            },
    {
        let mut i: usize = 0;
        let n = self.keys.len();
        while i < n
            invariant
                i <= n == self.keys.len(),
                forall|j: int| 0 <= j < i ==> self.key_views()[j] != k@,
            decreases n - i,
        {
            if self.keys[i].eq(k) {
                assert(self.key_views()[i as int] == k@);
                assert(self.key_views().contains(k@));
                return Some(i);
            }
            i = i + 1;
        }
        assert(!self.key_views().contains(k@));
        None
    }

    pub fn contains_key(&self, k: &String) -> (r: bool)
        requires
            self.wf(),
        ensures
            r == self@.contains_key(k@),
    {
        self.index_for(k).is_some()
    }

    pub fn get(&self, k: &String) -> (r: Option<&V>)
        requires
            self.wf(),
        ensures
            match r {
                Some(v) => self@.contains_key(k@) && *v == self@[k@],
                None => !self@.contains_key(k@),
            },
    {
        match self.index_for(k) {
            Some(i) => {
                proof {
                    let j = self.key_views().index_of(k@);
                    assert(self.key_views().contains(k@));
                    assert(self.key_views()[j] == k@);
                    assert(j == i);
                }
                Some(&self.vals[i])
            },
            None => None,
        }
    }

    pub fn insert(&mut self, k: String, v: V)
        requires
            old(self).wf(),
        ensures
            final(self).wf(),
            final(self)@ == old(self)@.insert(k@, v),
            final(self).key_views() == if old(self)@.contains_key(k@) {
                old(self).key_views()
            } else {
                old(self).key_views().push(k@)
            },
    {
        match self.index_for(&k) {
            Some(i) => {
                self.vals.set(i, v);
                proof {
                    assert(self.key_views() =~= old(self).key_views());
                    assert forall|k2: Seq<char>| true implies {
                        &&& self@.contains_key(k2) == old(self)@.insert(k@, v).contains_key(k2)
                        &&& self@.contains_key(k2) ==> self@[k2] == old(self)@.insert(k@, v)[k2]
                    } by {
                        if self.key_views().contains(k2) {
                            let j = self.key_views().index_of(k2);
                            assert(self.key_views()[j] == k2);
                            if k2 == k@ {
                                assert(j == i);
                            }
                        }
                    }
                    assert(self@ =~= old(self)@.insert(k@, v));
                }
            },
            None => {
                let ghost pre = self.key_views();
                let ghost kv = k@;
                self.keys.push(k);
                self.vals.push(v);
                proof {
                    assert(self.key_views() =~= pre.push(kv));
                    pre.lemma_push_to_set_commute(kv);
                    assert forall|k2: Seq<char>| true implies {
                        &&& self@.contains_key(k2) == old(self)@.insert(kv, v).contains_key(k2)
                        &&& self@.contains_key(k2) ==> self@[k2] == old(self)@.insert(kv, v)[k2]
                    } by {
                        if self.key_views().contains(k2) {
                            let j = self.key_views().index_of(k2);
                            assert(self.key_views()[j] == k2);
                            if k2 == kv {
                                assert(j == pre.len());
                            } else {
                                assert(pre[j] == k2);
                            }
                        }
                    }
                    assert(self@ =~= old(self)@.insert(kv, v));
                }
            },
        }
    }

    /// Look a key up by its characters.
    pub fn get_by_chars(&self, k: &Vec<char>) -> (r: Option<&V>)
        requires
            self.wf(),
        ensures
            match r {
                Some(v) => self@.contains_key(k@) && *v == self@[k@],
                None => !self@.contains_key(k@),
            },
    {
        let mut i: usize = 0;
        let n = self.keys.len();
        while i < n
            invariant
                self.wf(),
                i <= n == self.keys.len(),
                forall|j: int| 0 <= j < i ==> self.key_views()[j] != k@,
            decreases n - i,
        {
            let kc = crate::chars::chars_of(self.keys[i].as_str());
            if crate::chars::chars_eq(&kc, k) {
                assert(self.key_views()[i as int] == k@);
                assert(self.key_views().contains(k@));
                proof {
                    let j = self.key_views().index_of(k@);
                    assert(self.key_views()[j] == k@);
                    assert(j == i);
                }
                return Some(&self.vals[i]);
            }
            i = i + 1;
        }
        assert(!self.key_views().contains(k@));
        None
    }

    /// How many keys there are, for indexed iteration.
    pub fn count(&self) -> (n: usize)
        requires
            self.wf(),
        ensures
            n == self.key_views().len(),
            n == self@.dom().len(),
            self.key_views().no_duplicates(),
            self.key_views().to_set() == self@.dom(),
    {
        proof {
            self.key_views().unique_seq_to_set();
            self.lemma_dom();
        }
        self.keys.len()
    }

    /// The key at a position, for indexed iteration.
    pub fn key_at(&self, i: usize) -> (k: &String)
        requires
            i < self.key_views().len(),
        ensures
            k@ == self.key_views()[i as int],
            self@.contains_key(k@),
    {
        proof {
            assert(self.key_views().contains(self.key_views()[i as int]));
        }
        &self.keys[i]
    }

    /// The value at a position, for indexed iteration.
    pub fn val_at(&self, i: usize) -> (v: &V)
        requires
            self.wf(),
            i < self.key_views().len(),
        ensures
            *v == self@[self.key_views()[i as int]],
    {
        proof {
            let k2 = self.key_views()[i as int];
            assert(self.key_views().contains(k2));
            let j = self.key_views().index_of(k2);
            assert(self.key_views()[j] == k2);
            assert(j == i);
        }
        &self.vals[i]
    }
}

} // verus!
