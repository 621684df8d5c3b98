//! The mathematical model shared by both selector widths: the abstract
//! state, what one selection does to it, and the laws that follow.
use vstd::prelude::*;

verus! {

/// Abstract state of a selector.
pub ghost struct SelectorState {
    /// One weight per candidate.
    pub weights: Seq<int>,
    /// Largest weight at construction; the last round of a cycle.
    pub max_weight: int,
    /// Current round of the cycle.
    pub round: int,
    /// Next candidate index to examine in the current round.
    pub pos: int,
}

impl SelectorState {
    pub open spec fn len(self) -> int {
        self.weights.len() as int
    }

    /// Round within the cycle, cursor within the candidates, weights not negative.
    pub open spec fn valid(self) -> bool {
        &&& 0 <= self.round <= self.max_weight
        &&& 0 <= self.pos <= self.len()
        &&& forall|i: int| 0 <= i < self.len() ==> 0 <= #[trigger] self.weights[i]
    }

    /// Some candidate has a nonzero weight, so a selection always ends.
    pub open spec fn has_candidate(self) -> bool {
        exists|i: int| 0 <= i < self.len() && #[trigger] self.weights[i] != 0
    }
}

/// A candidate of weight `w` may be chosen in round `round`.
pub open spec fn eligible(w: int, round: int) -> bool {
    w != 0 && w >= round
}

/// The first index at or after `pos` that is eligible in `round`.
pub open spec fn first_eligible(ws: Seq<int>, round: int, pos: int) -> Option<int>
    decreases ws.len() - pos,
{
    if pos >= ws.len() {
        None
    } else if eligible(ws[pos], round) {
        Some(pos)
    } else {
        first_eligible(ws, round, pos + 1)
    }
}

/// Where a selection lands once a whole cycle has ended: round 0, from the start.
pub open spec fn restart_pick(ws: Seq<int>) -> (int, int, int) {
    match first_eligible(ws, 0, 0) {
        Some(i) => (i, 0, i + 1),
        None => (0, 0, 0),
    }
}

/// One selection from round `round` and cursor `pos`: the chosen index, and
/// the round and cursor after it. Rounds whose scan finds nothing are
/// passed over; after round `max_weight` the cycle restarts at round 0.
pub open spec fn select_from(ws: Seq<int>, max_weight: int, round: int, pos: int) -> (int, int, int)
    decreases max_weight - round,
{
    match first_eligible(ws, round, pos) {
        Some(i) => (i, round, i + 1),
        None => if round >= max_weight {
            restart_pick(ws)
        } else {
            select_from(ws, max_weight, round + 1, 0)
        },
    }
}

/// The index one selection returns from `s`, and the state after it.
pub open spec fn next(s: SelectorState) -> (int, SelectorState) {
    let (i, round, pos) = select_from(s.weights, s.max_weight, s.round, s.pos);
    (i, SelectorState { round, pos, ..s })
}

/// The indices returned by `k` selections in a row from `s`.
pub open spec fn outputs(s: SelectorState, k: nat) -> Seq<int>
    decreases k,
{
    if k == 0 {
        Seq::empty()
    } else {
        seq![next(s).0] + outputs(next(s).1, (k - 1) as nat)
    }
}

/// The state after `k` selections in a row from `s`.
pub open spec fn after(s: SelectorState, k: nat) -> SelectorState
    decreases k,
{
    if k == 0 {
        s
    } else {
        after(next(s).1, (k - 1) as nat)
    }
}

/// The largest of the weights, 0 for none.
pub open spec fn seq_max(ws: Seq<int>) -> int
    decreases ws.len(),
{
    if ws.len() == 0 {
        0
    } else {
        let m = seq_max(ws.drop_last());
        if ws.last() > m {
            ws.last()
        } else {
            m
        }
    }
}

/// The state of a selector just built from `ws`.
pub open spec fn initial(ws: Seq<int>) -> SelectorState {
    SelectorState { weights: ws, max_weight: seq_max(ws), round: 0, pos: 0 }
}

/// `s` moved back to the start of a cycle, weights untouched.
pub open spec fn restarted(s: SelectorState) -> SelectorState {
    SelectorState { round: 0, pos: 0, ..s }
}

/// What `first_eligible` finds is eligible, in range, and the first such.
pub proof fn lemma_first_eligible(ws: Seq<int>, round: int, pos: int)
    requires
        0 <= pos,
    ensures
        match first_eligible(ws, round, pos) {
            Some(i) => pos <= i < ws.len() && eligible(ws[i], round) && forall|j: int|
                pos <= j < i ==> !eligible(#[trigger] ws[j], round),
            None => forall|j: int| pos <= j < ws.len() ==> !eligible(#[trigger] ws[j], round),
        },
    decreases ws.len() - pos,
{
    if pos < ws.len() && !eligible(ws[pos], round) {
        lemma_first_eligible(ws, round, pos + 1);
    }
}

/// Round 0 admits every nonzero weight, so a scan of it from the start succeeds.
pub proof fn lemma_restart_finds(s: SelectorState)
    requires
        s.valid(),
        s.has_candidate(),
    ensures
        first_eligible(s.weights, 0, 0) is Some,
{
    lemma_first_eligible(s.weights, 0, 0);
    let i = choose|i: int| 0 <= i < s.len() && #[trigger] s.weights[i] != 0;
    assert(eligible(s.weights[i], 0));
}

/// One selection returns an eligible candidate of nonzero weight, keeps the
/// weights and the cycle bound, and leaves a valid state just past the choice.
pub proof fn lemma_next(s: SelectorState)
    requires
        s.valid(),
        s.has_candidate(),
    ensures
        ({
            let (i, t) = next(s);
            &&& 0 <= i < s.len()
            &&& s.weights[i] != 0
            &&& eligible(s.weights[i], t.round)
            &&& t.pos == i + 1
            &&& t.valid()
            &&& t.has_candidate()
            &&& t.weights == s.weights
            &&& t.max_weight == s.max_weight
        }),
    decreases s.max_weight - s.round,
{
    lemma_first_eligible(s.weights, s.round, s.pos);
    match first_eligible(s.weights, s.round, s.pos) {
        Some(i) => {},
        None => {
            if s.round >= s.max_weight {
                lemma_restart_finds(s);
                lemma_first_eligible(s.weights, 0, 0);
            } else {
                let s1 = SelectorState { round: s.round + 1, pos: 0, ..s };
                assert(s1.weights == s.weights);
                lemma_next(s1);
            }
        },
    }
}

} // verus!
