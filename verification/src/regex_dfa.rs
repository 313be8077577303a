//! A subset-construction cache for the automaton, built lazily while
//! matching.  It is a future extension point and is not wired into the
//! matching path.

use vstd::prelude::*;
use std::collections::HashMap;

verus! {

/// A table mapping sets of marked automaton states (as boolean vectors) to
/// cached per-byte transition rows.
pub struct LazyRegexDFA {
    convert: HashMap<Vec<bool>, usize>,
    inner: Vec<Vec<usize>>,
    reconvert: Vec<Vec<bool>>,
}

impl LazyRegexDFA {
    /// The number of cached states.
    pub closed spec fn num_states(&self) -> nat {
        self.inner@.len()
    }

    /// The transition rows, one entry per byte value.
    pub closed spec fn rows(&self) -> Seq<Seq<usize>> {
        self.inner@.map_values(|r: Vec<usize>| r@)
    }

    /// The marked-state sets the rows were made from.
    pub closed spec fn state_sets(&self) -> Seq<Seq<bool>> {
        self.reconvert@.map_values(|r: Vec<bool>| r@)
    }

    /// The conversion table from marked-state sets to cached state numbers.
    pub closed spec fn conversion(&self) -> Map<Vec<bool>, usize> {
        self.convert@
    }

    /// Makes a cache with a single initial state, sized after the marker
    /// vector of the automaton it will serve.  The conversion table starts
    /// empty.
    pub fn new(nfa_vec: &Vec<bool>) -> (r: Self)
        ensures
            r.conversion() == Map::<Vec<bool>, usize>::empty(),
            r.num_states() == 1,
            r.rows()[0] == Seq::new(256, |j: int| 0usize),
            r.state_sets().len() == 1,
            r.state_sets()[0] == Seq::new(nfa_vec@.len(), |j: int| false),
    {
        let row = zero_row();
        let blank = false_row(nfa_vec.len());
        let mut inner: Vec<Vec<usize>> = Vec::new();
        inner.push(row);
        let mut reconvert: Vec<Vec<bool>> = Vec::new();
        reconvert.push(blank);
        let r = LazyRegexDFA { convert: HashMap::new(), inner, reconvert };
        proof {
            assert(r.rows() =~= seq![Seq::new(256, |j: int| 0usize)]);
            assert(r.state_sets() =~= seq![Seq::new(nfa_vec@.len(), |j: int| false)]);
        }
        r
    }

    /// Records one more marked-state set, with a fresh all-zero transition
    /// row; earlier rows and sets are kept unchanged.
    pub fn new_state(&mut self, i: Vec<bool>)
        ensures
            final(self).num_states() == old(self).num_states() + 1,
            final(self).rows() == old(self).rows().push(Seq::new(256, |j: int| 0usize)),
            final(self).state_sets() == old(self).state_sets().push(i@),
    {
        self.convert.insert(i.clone(), self.inner.len());
        let row = zero_row();
        self.inner.push(row);
        self.reconvert.push(i);
        proof {
            assert(self.rows() =~= old(self).rows().push(Seq::new(256, |j: int| 0usize)));
            assert(self.state_sets() =~= old(self).state_sets().push(
                self.reconvert@[self.reconvert@.len() - 1]@,
            ));
        }
    }
}

/// A transition row of 256 zero entries, one per byte value.
fn zero_row() -> (r: Vec<usize>)
    ensures
        r@ == Seq::new(256, |j: int| 0usize),
{
    let mut r: Vec<usize> = Vec::new();
    let mut i: usize = 0;
    while i < 256
        invariant
            i <= 256,
            r@ == Seq::new(i as nat, |j: int| 0usize),
        decreases 256 - i,
    {
        r.push(0);
        i = i + 1;
        proof {
            assert(r@ =~= Seq::new(i as nat, |j: int| 0usize));
        }
    }
    r
}

/// A marker vector of `n` entries, all false.
fn false_row(n: usize) -> (r: Vec<bool>)
    ensures
        r@ == Seq::new(n as nat, |j: int| false),
{
    let mut r: Vec<bool> = Vec::new();
    let mut i: usize = 0;
    while i < n
        invariant
            i <= n,
            r@ == Seq::new(i as nat, |j: int| false),
        decreases n - i,
    {
        r.push(false);
        i = i + 1;
        proof {
            assert(r@ =~= Seq::new(i as nat, |j: int| false));
        }
    }
    r
}

} // verus!
