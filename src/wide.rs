//! The selector with full-width weights.
use vstd::prelude::*;

use crate::model::{first_eligible, initial, lemma_first_eligible, lemma_next, lemma_restart_finds,
    next, restart_pick, restarted, select_from, seq_max, SelectorState};

verus! {

broadcast use vstd::array::group_array_axioms;

/// The weights of a full-width selector as integers.
pub open spec fn weights_of(ws: Seq<usize>) -> Seq<int> {
    ws.map_values(|w: usize| w as int)
}

/// Interleaved weighted round-robin selector over `LEN` candidates whose
/// weights are below `usize::MAX`.
#[derive(Debug, Clone)]
pub struct IWRRSelectorByWider<const LEN: usize> {
    pos: usize,
    round: usize,
    max_weight: usize,
    weights: [usize; LEN],
}

impl<const LEN: usize> View for IWRRSelectorByWider<LEN> {
    type V = SelectorState;

    closed spec fn view(&self) -> SelectorState {
        SelectorState {
            weights: weights_of(self.weights@),
            max_weight: self.max_weight as int,
            round: self.round as int,
            pos: self.pos as int,
        }
    }
}

impl<const LEN: usize> IWRRSelectorByWider<LEN> {
    /// Well-formed: a valid state over `LEN` candidates, every weight and the
    /// cycle bound below `usize::MAX`.
    pub open spec fn wf(&self) -> bool {
        &&& self@.valid()
        &&& self@.len() == LEN
        &&& self@.max_weight < usize::MAX
        &&& forall|i: int| 0 <= i < LEN ==> #[trigger] self@.weights[i] < usize::MAX
    }

    /// The abstract weights are the array's, one for one.
    proof fn lemma_view_len(&self)
        ensures
            self@.len() == LEN,
            forall|i: int| 0 <= i < LEN ==> #[trigger] self@.weights[i] == self.weights@[i] as int,
    {
    }

    /// Builds a selector over `weights`, or `None` when a weight is `usize::MAX`.
    pub fn try_new(weights: [usize; LEN]) -> (r: Option<Self>)
        ensures
            r is None <==> exists|i: int| 0 <= i < LEN && weights@[i] == usize::MAX,
            r matches Some(s) ==> s.wf() && s@ == initial(weights_of(weights@)),
    {
        let ghost ws = weights_of(weights@);
        let mut max_weight: usize = 0;
        let mut i: usize = 0;
        while i < LEN
            invariant
                0 <= i <= LEN,
                ws == weights_of(weights@),
                ws.len() == LEN,
                max_weight as int == seq_max(ws.take(i as int)),
                max_weight < usize::MAX,
                forall|j: int| 0 <= j < i ==> weights@[j] < usize::MAX,
            decreases LEN - i,
        {
            let weight = weights[i];
            if weight >= usize::MAX {
                return None;
            }
            assert(ws.take(i as int + 1).drop_last() == ws.take(i as int));
            if max_weight < weight {
                max_weight = weight;
            }
            i += 1;
        }
        assert(ws.take(LEN as int) == ws);
        let s = IWRRSelectorByWider { pos: 0, round: 0, max_weight, weights };
        proof {
            s.lemma_view_len();
        }
        Some(s)
    }

    /// Builds a selector over `weights`; every weight must be below `usize::MAX`.
    pub fn new(weights: [usize; LEN]) -> (r: Self)
        requires
            forall|i: int| 0 <= i < LEN ==> weights@[i] < usize::MAX,
        ensures
            r.wf(),
            r@ == initial(weights_of(weights@)),
    {
        Self::try_new(weights).unwrap()
    }

    /// The number of candidates.
    pub fn len(&self) -> (r: usize)
        ensures
            r == LEN,
            r == self@.len(),
    {
        proof {
            self.lemma_view_len();
        }
        LEN
    }

    /// The current round of the cycle.
    pub fn round(&self) -> (r: usize)
        ensures
            r == self@.round,
    {
        self.round
    }

    /// The largest weight the selector was built with.
    pub fn max_weight(&self) -> (r: usize)
        ensures
            r == self@.max_weight,
    {
        self.max_weight
    }

    /// The weight at `index`, or `None` past the last candidate.
    pub fn try_weight(&self, index: usize) -> (r: Option<usize>)
        ensures
            index >= self@.len() ==> r is None,
            index < self@.len() ==> (r matches Some(w) && w == self@.weights[index as int]),
    {
        proof {
            self.lemma_view_len();
        }
        if index >= self.len() {
            None
        } else {
            Some(self.weights[index])
        }
    }

    /// Sets the weight at `index` and returns the one it replaces. Nothing
    /// changes, and `None` comes back, when `weight` is `usize::MAX` or `index`
    /// is past the last candidate. The cycle bound is kept as it was.
    pub fn change_weight(&mut self, index: usize, weight: usize) -> (r: Option<usize>)
        requires
            old(self).wf(),
        ensures
            final(self).wf(),
            weight == usize::MAX || index >= old(self)@.len() ==> r is None && final(self)@ == old(self)@,
            weight < usize::MAX && index < old(self)@.len() ==> {
                &&& (r matches Some(w) && w == old(self)@.weights[index as int])
                &&& final(self)@ == (SelectorState {
                    weights: old(self)@.weights.update(index as int, weight as int),
                    ..old(self)@
                })
            },
    {
        proof {
            self.lemma_view_len();
        }
        if weight >= usize::MAX {
            return None;
        }
        match self.try_weight(index) {
            Some(previous) => {
                self.weights[index] = weight;
                proof {
                    self.lemma_view_len();
                    assert(self@.weights == old(self)@.weights.update(index as int, weight as int));
                }
                Some(previous)
            },
            None => None,
        }
    }

    /// The next candidate index to examine in the current round.
    pub fn pos(&self) -> (r: usize)
        ensures
            r == self@.pos,
    {
        self.pos
    }

    /// The first index at or after `start` that is eligible in the current round.
    fn scan(&self, start: usize) -> (r: Option<usize>)
        requires
            self.wf(),
            start <= LEN,
        ensures
            match r {
                Some(i) => first_eligible(self@.weights, self@.round, start as int) == Some(i as int),
                None => first_eligible(self@.weights, self@.round, start as int) is None,
            },
    {
        proof {
            self.lemma_view_len();
        }
        let mut p: usize = start;
        while p < LEN
            invariant
                start <= p <= LEN,
                self.wf(),
                first_eligible(self@.weights, self@.round, start as int) == first_eligible(
                    self@.weights,
                    self@.round,
                    p as int,
                ),
            decreases LEN - p,
        {
            let weight = self.weights[p];
            if weight != 0 && weight >= self.round {
                return Some(p);
            }
            p += 1;
        }
        None
    }

    /// Chooses the next candidate. Within a round the candidates are scanned
    /// in index order from the cursor; the first one whose weight is nonzero
    /// and at least the round is returned and the cursor moves past it. A
    /// round that is exhausted gives way to the next, and after the last
    /// round of the cycle the cycle restarts at round 0.
    pub fn select(&mut self) -> (r: usize)
        requires
            old(self).wf(),
            old(self)@.has_candidate(),
        ensures
            final(self).wf(),
            (r as int, final(self)@) == next(old(self)@),
            r < old(self)@.len(),
            old(self)@.weights[r as int] != 0,
    {
        let ghost s0 = self@;
        let ghost target = select_from(s0.weights, s0.max_weight, s0.round, s0.pos);
        let ghost mut restarted_cycle = false;
        proof {
            self.lemma_view_len();
            lemma_next(s0);
            lemma_restart_finds(s0);
        }
        loop
            invariant
                self.wf(),
                s0 == old(self)@,
                target == select_from(s0.weights, s0.max_weight, s0.round, s0.pos),
                self@.weights == s0.weights,
                self@.max_weight == s0.max_weight,
                first_eligible(s0.weights, 0, 0) is Some,
                !restarted_cycle ==> target == select_from(
                    s0.weights,
                    s0.max_weight,
                    self@.round,
                    self@.pos,
                ),
                restarted_cycle ==> self@.round == 0 && self@.pos == 0 && target == restart_pick(
                    s0.weights,
                ),
            decreases (if restarted_cycle {
                0
            } else {
                self@.max_weight - self@.round + 1
            }),
        {
            match self.scan(self.pos) {
                Some(i) => {
                    proof {
                        lemma_first_eligible(self@.weights, self@.round, self@.pos);
                    }
                    self.pos = i + 1;
                    return i;
                },
                None => {
                    if self.round >= self.max_weight {
                        self.reset();
                        proof {
                            restarted_cycle = true;
                        }
                    } else {
                        self.pos = 0;
                        self.round = self.round + 1;
                    }
                },
            }
        }
    }

    /// Moves back to the start of a cycle; the weights are untouched.
    pub fn reset(&mut self)
        requires
            old(self).wf(),
        ensures
            final(self).wf(),
            final(self)@ == restarted(old(self)@),
    {
        self.round = 0;
        self.pos = 0;
    }
}

impl<const LEN: usize> Default for IWRRSelectorByWider<LEN> {
    /// A selector over `LEN` candidates of weight 1: plain round robin.
    fn default() -> (r: Self)
        ensures
            r.wf(),
            r@ == initial(Seq::new(LEN as nat, |i: int| 1int)),
    {
        let r = Self::new([1usize; LEN]);
        assert(weights_of([1usize; LEN]@) == Seq::new(LEN as nat, |i: int| 1int));
        r
    }
}

} // verus!
