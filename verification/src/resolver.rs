//! The label resolver: the latest destination labels received from
//! service discovery, keyed by destination address. Each update replaces
//! the previous label set for its address as a whole; observations read
//! whatever is current when they begin.
use vstd::prelude::*;

use crate::labels::{dst_view, empty_dst_view, DstLabels};
use crate::metrics::{has_key, keys_unique, lemma_has_key_index, lemma_lookup_absent,
    lemma_lookup_index, lemma_lookup_push, lemma_lookup_update, lookup};

verus! {

pub struct Resolver {
    entries: Vec<(Vec<u8>, DstLabels)>,
}

impl View for Resolver {
    type V = Seq<(Seq<u8>, (Seq<(Seq<u8>, Seq<u8>)>, Seq<(Seq<u8>, Seq<u8>)>))>;

    closed spec fn view(&self) -> Seq<(Seq<u8>, (Seq<(Seq<u8>, Seq<u8>)>, Seq<(Seq<u8>, Seq<u8>)>))> {
        Seq::new(self.entries@.len(), |i: int| (self.entries@[i].0@, dst_view(self.entries@[i].1)))
    }
}

impl Resolver {
    spec fn all_wf(&self) -> bool {
        forall|i: int| 0 <= i < self.entries@.len() ==> (#[trigger] self.entries@[i]).1.wf()
    }

    pub closed spec fn wf(&self) -> bool {
        keys_unique(self@) && self.all_wf()
    }

    pub fn new() -> (r: Resolver)
        ensures
            r.wf(),
            r@ =~= Seq::<(Seq<u8>, (Seq<(Seq<u8>, Seq<u8>)>, Seq<(Seq<u8>, Seq<u8>)>))>::empty(),
    {
        Resolver { entries: Vec::new() }
    }

    fn find(&self, addr: &Vec<u8>) -> (r: Option<usize>)
        requires
            self.wf(),
        ensures
            match r {
                Some(j) => j < self@.len() && self@[j as int].0 == addr@,
                None => !has_key(self@, addr@),
            },
    {
        let mut j: usize = 0;
        while j < self.entries.len()
            invariant
                j <= self@.len(),
                self@.len() == self.entries@.len(),
                forall|i: int| 0 <= i < j ==> (#[trigger] self@[i]).0 != addr@,
            decreases self@.len() - j,
        {
            if crate::text::bytes_eq(&self.entries[j].0, addr) {
                assert(self@[j as int].0 == addr@);
                return Some(j);
            }
            j += 1;
        }
        proof {
            lemma_has_key_index(self@, addr@);
        }
        None
    }

    /// Replace the label state of `addr` with `labels`, atomically and
    /// as a whole; no other address changes.
    pub fn update(&mut self, addr: &Vec<u8>, labels: DstLabels)
        requires
            old(self).wf(),
            labels.wf(),
        ensures
            final(self).wf(),
            lookup(final(self)@, addr@, empty_dst_view()) == dst_view(labels),
            forall|k: Seq<u8>| k != addr@ ==> lookup(final(self)@, k, empty_dst_view()) == lookup(
                old(self)@,
                k,
                empty_dst_view(),
            ),
            forall|k: Seq<u8>| has_key(final(self)@, k) == (has_key(old(self)@, k) || k == addr@),
    {
        let ghost nv = dst_view(labels);
        let found = self.find(addr);
        match found {
            Some(j) => {
                let ghost prev = self@;
                let nk = crate::text::clone_bytes(addr);
                self.entries[j] = (nk, labels);
                proof {
                    assert(self@ =~= prev.update(j as int, (prev[j as int].0, nv)));
                    lemma_lookup_update(prev, j as int, nv, empty_dst_view());
                    lemma_has_key_index(prev, addr@);
                    assert(has_key(prev, addr@)) by {
                        assert(prev[j as int].0 == addr@);
                    }
                    assert forall|k: Seq<u8>| has_key(self@, k) == (has_key(prev, k) || k
                        == addr@) by {
                        if k == addr@ {
                            assert(has_key(prev, addr@));
                        }
                    }
                    assert forall|a: int, b: int| 0 <= a && a < b && b < self@.len() implies (
                    #[trigger] self@[a]).0 != (#[trigger] self@[b]).0 by {
                        assert(self@[a].0 == prev[a].0);
                        assert(self@[b].0 == prev[b].0);
                    }
                    assert forall|i: int| 0 <= i < self.entries@.len() implies (
                    #[trigger] self.entries@[i]).1.wf() by {}
                }
            },
            None => {
                let ghost prev = self@;
                let nk = crate::text::clone_bytes(addr);
                self.entries.push((nk, labels));
                proof {
                    assert(self@ =~= prev.push((addr@, nv)));
                    lemma_lookup_push(prev, addr@, nv, empty_dst_view());
                    lemma_has_key_index(prev, addr@);
                    assert forall|a: int, b: int| 0 <= a && a < b && b < self@.len() implies (
                    #[trigger] self@[a]).0 != (#[trigger] self@[b]).0 by {
                        if b < prev.len() {
                            assert(self@[a].0 == prev[a].0);
                            assert(self@[b].0 == prev[b].0);
                        } else {
                            assert(self@[a].0 == prev[a].0);
                            assert(self@[b].0 == addr@);
                        }
                    }
                    assert forall|i: int| 0 <= i < self.entries@.len() implies (
                    #[trigger] self.entries@[i]).1.wf() by {}
                }
            },
        }
    }

    /// The labels currently held for `addr`: a copy of the latest
    /// update, or the empty set when none was ever received.
    pub fn current(&self, addr: &Vec<u8>) -> (r: DstLabels)
        requires
            self.wf(),
        ensures
            r.wf(),
            dst_view(r) == lookup(self@, addr@, empty_dst_view()),
    {
        let found = self.find(addr);
        match found {
            Some(j) => {
                proof {
                    lemma_lookup_index(self@, j as int, empty_dst_view());
                    assert(self.entries@[j as int].1.wf());
                }
                self.entries[j].1.duplicate()
            },
            None => {
                proof {
                    lemma_lookup_absent(self@, addr@, empty_dst_view());
                }
                let r = DstLabels::empty();
                proof {
                    assert(dst_view(r).0 =~= empty_dst_view().0);
                    assert(dst_view(r).1 =~= empty_dst_view().1);
                }
                r
            },
        }
    }
}

} // verus!
