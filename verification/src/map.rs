//! Association tables keyed by packed cell coordinates.
//!
//! Entries sit in a vector sorted by key, so lookups are scans, iteration
//! order is deterministic, and the abstract view is a `Map` or `Set`.

use vstd::prelude::*;

verus! {

/// Strictly ascending, hence duplicate-free.
pub open spec fn sorted_keys(s: Seq<u64>) -> bool {
    forall|i: int, j: int| 0 <= i < j < s.len() ==> s[i] < s[j]
}

/// The unique position of `k` in a duplicate-free key sequence.
pub open spec fn idx_of(s: Seq<u64>, k: u64) -> int {
    choose|i: int| 0 <= i < s.len() && s[i] == k
}

pub proof fn lemma_idx_of(s: Seq<u64>, k: u64, i: int)
    requires
        sorted_keys(s),
        0 <= i < s.len(),
        s[i] == k,
    ensures
        idx_of(s, k) == i,
{
    let j = idx_of(s, k);
    assert(0 <= j < s.len() && s[j] == k);
    if i < j {
        assert(s[i] < s[j]);
    }
    if j < i {
        assert(s[j] < s[i]);
    }
}

/// A map from cell key to `V`, stored as parallel sorted vectors.
pub struct AddrMap<V> {
    keys: Vec<u64>,
    vals: Vec<V>,
}

impl<V> AddrMap<V> {
    pub closed spec fn key_seq(self) -> Seq<u64> {
        self.keys@
    }

    pub closed spec fn wf(self) -> bool {
        sorted_keys(self.keys@) && self.keys@.len() == self.vals@.len()
    }

    pub closed spec fn view(self) -> Map<u64, V> {
        Map::new(|k: u64| self.keys@.contains(k), |k: u64| self.vals@[idx_of(self.keys@, k)])
    }

    /// The abstract domain is exactly the key sequence's content.
    pub proof fn lemma_dom(self)
        ensures
            forall|k: u64| #[trigger] self@.dom().contains(k) <==> self.key_seq().contains(k),
            self.key_seq().no_duplicates() ==> self@.dom().len() == self.key_seq().len(),
    {
        if self.key_seq().no_duplicates() {
            assert(self@.dom() =~= self.key_seq().to_set());
            self.key_seq().unique_seq_to_set();
        }
    }

    /// The key sequence is duplicate-free when well-formed.
    pub proof fn lemma_no_dup(self)
        requires
            self.wf(),
        ensures
            self.key_seq().no_duplicates(),
            self@.dom().len() == self.key_seq().len(),
    {
        assert forall|i: int, j: int|
            0 <= i < self.key_seq().len() && 0 <= j < self.key_seq().len() && i != j implies
            self.key_seq()[i] != self.key_seq()[j] by {
            if i < j {
                assert(self.key_seq()[i] < self.key_seq()[j]);
            } else {
                assert(self.key_seq()[j] < self.key_seq()[i]);
            }
        }
        self.lemma_dom();
    }

    pub fn new() -> (r: AddrMap<V>)
        ensures
            r.wf(),
            r@ == Map::<u64, V>::empty(),
            r.key_seq() == Seq::<u64>::empty(),
    {
        let r = AddrMap { keys: Vec::new(), vals: Vec::new() };
        proof {
            assert(r@ =~= Map::<u64, V>::empty());
            assert(r.key_seq() =~= Seq::<u64>::empty());
        }
        r
    }

    pub fn len(&self) -> (r: usize)
        ensures
            r == self.key_seq().len(),
    {
        self.keys.len()
    }

    pub fn is_empty(&self) -> (r: bool)
        requires
            self.wf(),
        ensures
            r <==> self@.dom() == Set::<u64>::empty(),
    {
        let r = self.keys.len() == 0;
        proof {
            self.lemma_dom();
            if r {
                assert(self@.dom() =~= Set::<u64>::empty());
            } else {
                assert(self@.dom().contains(self.key_seq()[0]));
            }
        }
        r
    }

    /// First position whose key is `>= k`, or the length if none is.
    fn find(&self, k: u64) -> (r: usize)
        requires
            self.wf(),
        ensures
            r <= self.key_seq().len(),
            forall|j: int| 0 <= j < r ==> self.key_seq()[j] < k,
            r < self.key_seq().len() ==> self.key_seq()[r as int] >= k,
    {
        let n: usize = self.keys.len();
        let mut i: usize = 0;
        while i < n
            invariant
                n == self.key_seq().len(),
                i <= n,
                self.wf(),
                forall|j: int| 0 <= j < i ==> self.key_seq()[j] < k,
            ensures
                i <= n,
                forall|j: int| 0 <= j < i ==> self.key_seq()[j] < k,
                i < n ==> self.key_seq()[i as int] >= k,
            decreases n - i,
        {
            if self.keys[i] >= k {
                break ;
            }
            i = i + 1;
        }
        i
    }

    pub fn contains_key(&self, k: u64) -> (r: bool)
        requires
            self.wf(),
        ensures
            r == self@.dom().contains(k),
    {
        let i: usize = self.find(k);
        proof {
            self.lemma_dom();
        }
        if i < self.keys.len() && self.keys[i] == k {
            true
        } else {
            proof {
                if self.key_seq().contains(k) {
                    let j = choose|j: int|
                        0 <= j < self.key_seq().len() && self.key_seq()[j] == k;
                    if j < i {
                        assert(self.key_seq()[j] < k);
                    }
                    if i < j {
                        assert(self.key_seq()[i as int] < self.key_seq()[j]);
                    }
                }
            }
            false
        }
    }

    pub fn get(&self, k: u64) -> (r: Option<&V>)
        requires
            self.wf(),
        ensures
            match r {
                Some(v) => self@.dom().contains(k) && self@[k] == *v,
                None => !self@.dom().contains(k),
            },
    {
        let i: usize = self.find(k);
        proof {
            self.lemma_dom();
        }
        if i < self.keys.len() && self.keys[i] == k {
            proof {
                lemma_idx_of(self.key_seq(), k, i as int);
            }
            Some(&self.vals[i])
        } else {
            proof {
                if self.key_seq().contains(k) {
                    let j = choose|j: int|
                        0 <= j < self.key_seq().len() && self.key_seq()[j] == k;
                    if j < i {
                        assert(self.key_seq()[j] < k);
                    }
                    if i < j {
                        assert(self.key_seq()[i as int] < self.key_seq()[j]);
                    }
                }
            }
            None
        }
    }

    pub fn insert(&mut self, k: u64, v: V)
        requires
            old(self).wf(),
        ensures
            final(self).wf(),
            final(self)@ == old(self)@.insert(k, v),
            forall|x: u64| #[trigger]
                final(self).key_seq().contains(x) <==> (old(self).key_seq().contains(x) || x == k),
    {
        let i: usize = self.find(k);
        proof {
            self.lemma_dom();
        }
        if i < self.keys.len() && self.keys[i] == k {
            self.vals.remove(i);
            self.vals.insert(i, v);
            proof {
                lemma_idx_of(self.key_seq(), k, i as int);
                assert forall|x: u64| self.key_seq().contains(x) implies #[trigger] self@[x]
                    == old(self)@.insert(k, v)[x] by {
                    let j = choose|j: int|
                        0 <= j < self.key_seq().len() && self.key_seq()[j] == x;
                    lemma_idx_of(self.key_seq(), x, j);
                }
                assert(self@ =~= old(self)@.insert(k, v));
            }
        } else {
            proof {
                if self.key_seq().contains(k) {
                    let j = choose|j: int|
                        0 <= j < self.key_seq().len() && self.key_seq()[j] == k;
                    if j < i {
                        assert(self.key_seq()[j] < k);
                    }
                    if i < j {
                        assert(self.key_seq()[i as int] < self.key_seq()[j]);
                    }
                }
            }
            self.keys.insert(i, k);
            self.vals.insert(i, v);
            proof {
                let ks = self.key_seq();
                let oks = old(self).key_seq();
                assert forall|a: int, b: int| 0 <= a < b < ks.len() implies ks[a] < ks[b] by {
                    if b < i {
                        assert(ks[a] == oks[a] && ks[b] == oks[b]);
                    } else if a > i {
                        assert(ks[a] == oks[a - 1] && ks[b] == oks[b - 1]);
                    } else if a == i && b > i {
                        assert(ks[b] == oks[b - 1] && oks[b - 1] >= k);
                        assert(oks[b - 1] != k);
                    } else if b == i {
                        assert(ks[a] == oks[a] && oks[a] < k);
                    } else {
                        // a < i < b
                        assert(ks[a] == oks[a] && oks[a] < k);
                        assert(ks[b] == oks[b - 1] && oks[b - 1] >= k && oks[b - 1] != k);
                    }
                }
                assert forall|x: u64| #[trigger]
                    ks.contains(x) <==> (oks.contains(x) || x == k) by {
                    if ks.contains(x) {
                        let j = choose|j: int| 0 <= j < ks.len() && ks[j] == x;
                        if j < i {
                            assert(oks[j] == x);
                        } else if j > i {
                            assert(oks[j - 1] == x);
                        }
                    }
                    if oks.contains(x) {
                        let j = choose|j: int| 0 <= j < oks.len() && oks[j] == x;
                        if j < i {
                            assert(ks[j] == x);
                        } else {
                            assert(ks[j + 1] == x);
                        }
                    }
                    assert(ks[i as int] == k);
                }
                assert forall|x: u64| ks.contains(x) implies #[trigger] self@[x]
                    == old(self)@.insert(k, v)[x] by {
                    let j = choose|j: int| 0 <= j < ks.len() && ks[j] == x;
                    lemma_idx_of(ks, x, j);
                    if j < i {
                        lemma_idx_of(oks, x, j);
                    } else if j > i {
                        lemma_idx_of(oks, x, j - 1);
                    }
                }
                assert(self@ =~= old(self)@.insert(k, v));
            }
        }
    }

    pub fn remove(&mut self, k: u64) -> (r: Option<V>)
        requires
            old(self).wf(),
        ensures
            final(self).wf(),
            final(self)@ == old(self)@.remove(k),
            match r {
                Some(v) => old(self)@.dom().contains(k) && old(self)@[k] == v,
                None => !old(self)@.dom().contains(k),
            },
            forall|x: u64| #[trigger]
                final(self).key_seq().contains(x) <==> (old(self).key_seq().contains(x) && x != k),
    {
        let i: usize = self.find(k);
        proof {
            self.lemma_dom();
        }
        if i < self.keys.len() && self.keys[i] == k {
            self.keys.remove(i);
            let v = self.vals.remove(i);
            proof {
                lemma_idx_of(old(self).key_seq(), k, i as int);
                let ks = self.key_seq();
                let oks = old(self).key_seq();
                assert forall|a: int, b: int| 0 <= a < b < ks.len() implies ks[a] < ks[b] by {
                    if b < i {
                    } else if a >= i {
                        assert(ks[a] == oks[a + 1] && ks[b] == oks[b + 1]);
                    } else {
                        assert(ks[a] == oks[a] && ks[b] == oks[b + 1]);
                    }
                }
                assert forall|x: u64| #[trigger]
                    ks.contains(x) <==> (oks.contains(x) && x != k) by {
                    if ks.contains(x) {
                        let j = choose|j: int| 0 <= j < ks.len() && ks[j] == x;
                        if j < i {
                            assert(oks[j] == x);
                            if x == k {
                                lemma_idx_of(oks, k, j);
                            }
                        } else {
                            assert(oks[j + 1] == x);
                            if x == k {
                                lemma_idx_of(oks, k, j + 1);
                            }
                        }
                    }
                    if oks.contains(x) && x != k {
                        let j = choose|j: int| 0 <= j < oks.len() && oks[j] == x;
                        if j < i {
                            assert(ks[j] == x);
                        } else {
                            assert(j != i);
                            assert(ks[j - 1] == x);
                        }
                    }
                }
                assert forall|x: u64| ks.contains(x) implies #[trigger] self@[x]
                    == old(self)@.remove(k)[x] by {
                    let j = choose|j: int| 0 <= j < ks.len() && ks[j] == x;
                    lemma_idx_of(ks, x, j);
                    if j < i {
                        lemma_idx_of(oks, x, j);
                    } else {
                        lemma_idx_of(oks, x, j + 1);
                    }
                }
                assert(self@ =~= old(self)@.remove(k));
            }
            Some(v)
        } else {
            proof {
                if self.key_seq().contains(k) {
                    let j = choose|j: int|
                        0 <= j < self.key_seq().len() && self.key_seq()[j] == k;
                    if j < i {
                        assert(self.key_seq()[j] < k);
                    }
                    if i < j {
                        assert(self.key_seq()[i as int] < self.key_seq()[j]);
                    }
                }
                assert(self@ =~= old(self)@.remove(k));
            }
            None
        }
    }

    pub fn key_at(&self, i: usize) -> (r: u64)
        requires
            self.wf(),
            i < self.key_seq().len(),
        ensures
            r == self.key_seq()[i as int],
            self@.dom().contains(r),
    {
        proof {
            self.lemma_dom();
        }
        self.keys[i]
    }

    pub fn val_at(&self, i: usize) -> (r: &V)
        requires
            self.wf(),
            i < self.key_seq().len(),
        ensures
            self@.dom().contains(self.key_seq()[i as int]),
            *r == self@[self.key_seq()[i as int]],
    {
        proof {
            self.lemma_dom();
            lemma_idx_of(self.key_seq(), self.key_seq()[i as int], i as int);
        }
        &self.vals[i]
    }

    /// The abstract domain is finite and as large as the key sequence.
    pub proof fn lemma_finite(self)
        requires
            self.wf(),
        ensures
            self@.dom().finite(),
            self@.dom().len() == self.key_seq().len(),
    {
        self.lemma_no_dup();
        self.lemma_dom();
        assert(self@.dom() =~= self.key_seq().to_set());
        vstd::seq_lib::seq_to_set_is_finite(self.key_seq());
    }

    /// The key sequence sits in a vector, so its length is machine-bounded.
    pub proof fn lemma_len_bound(self)
        ensures
            self.key_seq().len() <= usize::MAX,
    {
        vstd::std_specs::vec::axiom_spec_len(&self.keys);
    }

    /// The keys are kept strictly ascending.
    pub proof fn lemma_sorted(self)
        requires
            self.wf(),
        ensures
            sorted_keys(self.key_seq()),
    {
    }

    /// A copy of the sorted key sequence.
    pub fn keys_vec(&self) -> (r: Vec<u64>)
        requires
            self.wf(),
        ensures
            r@ == self.key_seq(),
    {
        let n: usize = self.keys.len();
        let mut out: Vec<u64> = Vec::new();
        let mut i: usize = 0;
        while i < n
            invariant
                n == self.key_seq().len(),
                i <= n,
                self.wf(),
                out@ == self.key_seq().subrange(0, i as int),
            decreases n - i,
        {
            out.push(self.keys[i]);
            proof {
                assert(out@ =~= self.key_seq().subrange(0, i + 1 as int));
            }
            i = i + 1;
        }
        proof {
            assert(out@ =~= self.key_seq());
        }
        out
    }
}

/// A set of cell keys, stored sorted.
pub struct AddrSet {
    m: AddrMap<()>,
}

impl AddrSet {
    pub closed spec fn view(self) -> Set<u64> {
        self.m@.dom()
    }

    pub closed spec fn key_seq(self) -> Seq<u64> {
        self.m.key_seq()
    }

    pub closed spec fn wf(self) -> bool {
        self.m.wf()
    }

    pub proof fn lemma_dom(self)
        ensures
            forall|k: u64| #[trigger] self@.contains(k) <==> self.key_seq().contains(k),
    {
        self.m.lemma_dom();
    }

    pub proof fn lemma_finite(self)
        requires
            self.wf(),
        ensures
            self@.finite(),
            self@.len() == self.key_seq().len(),
    {
        self.m.lemma_finite();
    }

    pub fn new() -> (r: AddrSet)
        ensures
            r.wf(),
            r@ == Set::<u64>::empty(),
            r.key_seq() == Seq::<u64>::empty(),
    {
        let r = AddrSet { m: AddrMap::new() };
        proof {
            assert(r@ =~= Set::<u64>::empty());
        }
        r
    }

    pub fn len(&self) -> (r: usize)
        ensures
            r == self.key_seq().len(),
    {
        self.m.len()
    }

    pub fn is_empty(&self) -> (r: bool)
        requires
            self.wf(),
        ensures
            r <==> self@ == Set::<u64>::empty(),
    {
        self.m.is_empty()
    }

    pub fn contains(&self, k: u64) -> (r: bool)
        requires
            self.wf(),
        ensures
            r == self@.contains(k),
    {
        self.m.contains_key(k)
    }

    pub fn insert(&mut self, k: u64)
        requires
            old(self).wf(),
        ensures
            final(self).wf(),
            final(self)@ == old(self)@.insert(k),
            final(self).key_seq().len() <= old(self).key_seq().len() + 1,
    {
        let ghost olen = self.m.key_seq().len();
        proof {
            self.m.lemma_finite();
        }
        self.m.insert(k, ());
        proof {
            self.m.lemma_finite();
            assert(self@ =~= old(self)@.insert(k));
            assert(self.m@.dom().len() <= old(self).m@.dom().len() + 1) by {
                broadcast use vstd::set::group_set_axioms;

                assert(self.m@.dom() =~= old(self).m@.dom().insert(k));
            }
        }
    }

    pub fn remove(&mut self, k: u64)
        requires
            old(self).wf(),
        ensures
            final(self).wf(),
            final(self)@ == old(self)@.remove(k),
    {
        self.m.remove(k);
        proof {
            assert(self@ =~= old(self)@.remove(k));
        }
    }

    pub fn key_at(&self, i: usize) -> (r: u64)
        requires
            self.wf(),
            i < self.key_seq().len(),
        ensures
            r == self.key_seq()[i as int],
            self@.contains(r),
    {
        self.m.key_at(i)
    }

    /// The element sequence sits in a vector, so its length is bounded.
    pub proof fn lemma_len_bound(self)
        ensures
            self.key_seq().len() <= usize::MAX,
    {
        self.m.lemma_len_bound();
    }

    /// A copy of the sorted element sequence.
    pub fn to_vec(&self) -> (r: Vec<u64>)
        requires
            self.wf(),
        ensures
            r@ == self.key_seq(),
            forall|j: int| 0 <= j < r@.len() ==> self@.contains(#[trigger] r@[j]),
            forall|k: u64| #[trigger] self@.contains(k) ==> r@.contains(k),
            sorted_keys(r@),
    {
        let v = self.m.keys_vec();
        proof {
            self.lemma_dom();
        }
        v
    }
}

} // verus!
