//! The iteration capability and the producers that come with it.

use crate::delivery;
use vstd::prelude::*;

verus! {

/// Something that can hand each of its elements, in order, to a callback.
///
/// An implementation says what its elements are and when it can be driven,
/// and proves that `iter` delivers just these elements, each once and in
/// order. The defaults are those of a source that says nothing of itself, as
/// one written outside Verus does: verified code cannot drive it, and of what
/// other code gets from it nothing is proved.
pub trait Iterable<A> {
    /// The elements of this source, in the order in which it delivers them.
    open spec fn elems(&self) -> Seq<A> {
        Seq::empty()
    }

    /// What a source has to satisfy before it can be driven.
    open spec fn wf(&self) -> bool {
        false
    }

    /// What a traversal that has returned establishes of the elements: that
    /// they are made of results which the functions inside the source have
    /// really given. Before a traversal this is not known of a function, only
    /// that it may be called.
    open spec fn realized(&self) -> bool {
        true
    }

    /// Calls `blk` once for each element, in order, threading the state
    /// through the calls, and returns the state that the last call left.
    fn iter<S, F: Fn(S, A) -> S>(&self, s0: S, blk: &F) -> (s: S)
        requires
            self.wf(),
            delivery::accepts(blk, s0, self.elems()),
        ensures
            delivery::folds_to(blk, s0, self.elems(), s),
            self.realized(),
    ;
}

/// An ordered sequence delivers its elements from left to right.
impl<A: Copy> Iterable<A> for Vec<A> {
    open spec fn elems(&self) -> Seq<A> {
        self@
    }

    open spec fn wf(&self) -> bool {
        true
    }

    open spec fn realized(&self) -> bool {
        true
    }

    fn iter<S, F: Fn(S, A) -> S>(&self, s0: S, blk: &F) -> (s: S) {
        let mut s = s0;
        let mut i: usize = 0;
        while i < self.len()
            invariant
                i <= self.len(),
                delivery::accepts(blk, s0, self@),
                delivery::folds_to(blk, s0, self@.take(i as int), s),
            decreases self.len() - i,
        {
            let ghost before = s;
            s = blk(s, self[i]);
            proof {
                delivery::lemma_folds_to_push(
                    blk,
                    s0,
                    self@.take(i as int),
                    before,
                    self@[i as int],
                    s,
                );
                assert(self@.take(i + 1) =~= self@.take(i as int).push(self@[i as int]));
            }
            i += 1;
        }
        proof {
            assert(self@.take(self.len() as int) =~= self@);
        }
        s
    }
}

/// An optional value delivers nothing when absent and its value, once, when
/// present.
impl<A: Copy> Iterable<A> for Option<A> {
    open spec fn elems(&self) -> Seq<A> {
        match *self {
            Some(a) => seq![a],
            None => Seq::empty(),
        }
    }

    open spec fn wf(&self) -> bool {
        true
    }

    open spec fn realized(&self) -> bool {
        true
    }

    fn iter<S, F: Fn(S, A) -> S>(&self, s0: S, blk: &F) -> (s: S) {
        match *self {
            Some(a) => {
                proof {
                    assert(seq![a].take(0) =~= Seq::<A>::empty());
                    assert(delivery::folds_to(blk, s0, seq![a].take(0), s0));
                }
                let s = blk(s0, a);
                proof {
                    delivery::lemma_folds_to_push(blk, s0, Seq::<A>::empty(), s0, a, s);
                    assert(Seq::<A>::empty().push(a) =~= seq![a]);
                }
                s
            },
            None => s0,
        }
    }
}

} // verus!
