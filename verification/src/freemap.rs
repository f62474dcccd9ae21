//! A bitmap over slot indices, with a running count of the bits that are
//! set. The store uses it while opening a table, to check that the free
//! list names each free slot exactly once.

use vstd::prelude::*;
use vstd::set_lib::{set_int_range, lemma_int_range, lemma_len_subset};

verus! {

/// A bitmap of slot indices, 64 to the word.
pub struct FreeMap {
    words: Vec<u64>,
    count: usize,
}

/// Whether bit `i` is set in `words`.
pub open spec fn bit_set(words: Seq<u64>, i: int) -> bool {
    0 <= i < 64 * words.len() && (words[i / 64] >> ((i % 64) as u64)) & 1 == 1
}

impl FreeMap {
    /// The set of indices whose bits are set.
    pub closed spec fn view(&self) -> Set<int> {
        Set::new(|i: int| bit_set(self.words@, i))
    }

    /// The number of indices the map covers.
    pub closed spec fn spec_capacity(&self) -> int {
        64 * self.words@.len() as int
    }

    /// The running count agrees with the bits, and the capacity fits the
    /// machine.
    pub closed spec fn wf(&self) -> bool {
        &&& self@.finite()
        &&& self.count == self@.len()
        &&& 64 * self.words@.len() as int <= usize::MAX as int
    }

    /// The view only holds indices below the capacity, and is finite.
    /// The set of set bits is finite and lies within the capacity, so
    /// counting laws over it are available to callers.
    pub proof fn lemma_view_bounded(&self)
        ensures
            self@.finite(),
            self@.len() <= self.spec_capacity(),
            forall|i: int| self@.contains(i) ==> 0 <= i < self.spec_capacity(),
    {
        lemma_int_range(0, self.spec_capacity());
        assert(self@.subset_of(set_int_range(0, self.spec_capacity())));
        lemma_len_subset(self@, set_int_range(0, self.spec_capacity()));
    }

    /// A fresh map over `words` zeroed words: nothing is set.
    pub fn new(data: Vec<u64>) -> (r: Self)
        requires
            forall|k: int| 0 <= k < data@.len() ==> data@[k] == 0,
            64 * data@.len() as int <= usize::MAX as int,
        ensures
            r.wf(),
            r@ == Set::<int>::empty(),
            r.spec_capacity() == 64 * data@.len(),
    {
        proof {
            let m = Set::new(|i: int| bit_set(data@, i));
            assert forall|i: int| !m.contains(i) by {
                if 0 <= i < 64 * data@.len() {
                    let w = data@[i / 64];
                    assert(w == 0);
                    let k = (i % 64) as u64;
                    assert((0u64 >> k) & 1 == 0) by (bit_vector);
                }
            }
            assert(m =~= Set::<int>::empty());
        }
        FreeMap { words: data, count: 0 }
    }

    /// Whether bit `i` is set.
    pub fn get(&self, i: usize) -> (r: bool)
        requires
            i < self.spec_capacity(),
        ensures
            r == self@.contains(i as int),
    {
        let w: u64 = self.words[i / 64];
        let r = (w >> ((i % 64) as u64)) & 1 == 1;
        proof {
            assert(bit_set(self.words@, i as int) == r);
        }
        r
    }

    /// Sets bit `i`, counting it if it was clear.
    pub fn set(&mut self, i: usize)
        requires
            old(self).wf(),
            i < old(self).spec_capacity(),
        ensures
            final(self).wf(),
            final(self)@ == old(self)@.insert(i as int),
            final(self).spec_capacity() == old(self).spec_capacity(),
    {
        proof {
            self.lemma_view_bounded();
        }
        if !self.get(i) {
            let w: u64 = self.words[i / 64];
            let nw: u64 = w | (1u64 << ((i % 64) as u64));
            self.words.set(i / 64, nw);
            proof {
                let cap = old(self).spec_capacity();
                lemma_int_range(0, cap);
                vstd::set::axiom_set_remove_len(set_int_range(0, cap), i as int);
                assert(old(self)@.subset_of(set_int_range(0, cap).remove(i as int)));
                lemma_len_subset(old(self)@, set_int_range(0, cap).remove(i as int));
            }
            self.count = self.count + 1;
            proof {
                let k = (i % 64) as u64;
                assert((nw >> k) & 1 == 1) by (bit_vector)
                    requires
                        nw == w | (1u64 << k),
                        k < 64,
                ;
                assert(forall|j: u64| j < 64 && j != k ==> #[trigger] ((nw >> j) & 1) == (w >> j)
                    & 1) by (bit_vector)
                    requires
                        nw == w | (1u64 << k),
                        k < 64,
                ;
                assert forall|j: int| self@.contains(j) == old(self)@.insert(i as int).contains(j)
                by {
                    if 0 <= j < self.spec_capacity() {
                        if j / 64 == i as int / 64 && j != i {
                            assert((j % 64) as u64 != k) by {
                                vstd::arithmetic::div_mod::lemma_fundamental_div_mod(j, 64);
                                vstd::arithmetic::div_mod::lemma_fundamental_div_mod(i as int, 64);
                            };
                            assert(((j % 64) as u64) < 64);
                        }
                    }
                }
                assert(self@ =~= old(self)@.insert(i as int));
                vstd::set::axiom_set_insert_len(old(self)@, i as int);
            }
        } else {
            proof {
                assert(self@ =~= old(self)@.insert(i as int));
            }
        }
    }

    /// Clears bit `i`, discounting it if it was set.
    pub fn clear(&mut self, i: usize)
        requires
            old(self).wf(),
            i < old(self).spec_capacity(),
        ensures
            final(self).wf(),
            final(self)@ == old(self)@.remove(i as int),
            final(self).spec_capacity() == old(self).spec_capacity(),
    {
        proof {
            self.lemma_view_bounded();
        }
        if self.get(i) {
            let w: u64 = self.words[i / 64];
            let nw: u64 = w & !(1u64 << ((i % 64) as u64));
            self.words.set(i / 64, nw);
            proof {
                vstd::set::axiom_set_remove_len(old(self)@, i as int);
            }
            self.count = self.count - 1;
            proof {
                let k = (i % 64) as u64;
                assert((nw >> k) & 1 == 0) by (bit_vector)
                    requires
                        nw == w & !(1u64 << k),
                        k < 64,
                ;
                assert(forall|j: u64| j < 64 && j != k ==> #[trigger] ((nw >> j) & 1) == (w >> j)
                    & 1) by (bit_vector)
                    requires
                        nw == w & !(1u64 << k),
                        k < 64,
                ;
                assert forall|j: int| self@.contains(j) == old(self)@.remove(i as int).contains(j)
                by {
                    if 0 <= j < self.spec_capacity() {
                        if j / 64 == i as int / 64 && j != i {
                            assert((j % 64) as u64 != k) by {
                                vstd::arithmetic::div_mod::lemma_fundamental_div_mod(j, 64);
                                vstd::arithmetic::div_mod::lemma_fundamental_div_mod(i as int, 64);
                            };
                            assert(((j % 64) as u64) < 64);
                        }
                    }
                }
                assert(self@ =~= old(self)@.remove(i as int));
                vstd::set::axiom_set_remove_len(old(self)@, i as int);
            }
        } else {
            proof {
                assert(self@ =~= old(self)@.remove(i as int));
            }
        }
    }

    /// The lowest clear index below `count`, if any bit there is clear.
    pub fn next_free(&self, count: usize) -> (r: Option<usize>)
        requires
            count <= self.spec_capacity(),
        ensures
            match r {
                Some(i) => {
                    &&& i < count
                    &&& !self@.contains(i as int)
                    &&& forall|j: int| 0 <= j < i ==> self@.contains(j)
                }
                None => forall|j: int| 0 <= j < count ==> self@.contains(j),
            },
    {
        let mut i: usize = 0;
        while i < count
            invariant
                i <= count <= self.spec_capacity(),
                forall|j: int| 0 <= j < i ==> self@.contains(j),
            decreases count - i,
        {
            if !self.get(i) {
                return Some(i);
            }
            i = i + 1;
        }
        None
    }

    /// How many bits are set.
    pub fn total_set(&self) -> (r: usize)
        requires
            self.wf(),
        ensures
            r == self@.len(),
    {
        self.count
    }
}

} // verus!
