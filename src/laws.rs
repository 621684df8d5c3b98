//! Laws of the selection model: what a run of selections returns, over
//! any number of calls and over whole cycles.
use vstd::prelude::*;

use crate::model::{
    after, eligible, first_eligible, initial, lemma_first_eligible, lemma_next, lemma_restart_finds,
    next, outputs, restarted, select_from, seq_max, SelectorState,
};

verus! {

/// How many times `x` occurs in `s`.
pub open spec fn count(s: Seq<int>, x: int) -> nat
    decreases s.len(),
{
    if s.len() == 0 {
        0
    } else {
        count(s.drop_last(), x) + if s.last() == x {
            1nat
        } else {
            0nat
        }
    }
}

/// How many times a candidate of weight `w` is chosen in one cycle.
pub open spec fn share(w: int) -> int {
    if w == 0 {
        0
    } else {
        w + 1
    }
}

/// The shares of the first `n` weights added up: the length of a cycle.
pub open spec fn sum_shares(ws: Seq<int>, n: int) -> int
    decreases n,
{
    if n <= 0 {
        0
    } else {
        sum_shares(ws, n - 1) + share(ws[n - 1])
    }
}

/// The indices at or after `pos` eligible in `round`, in increasing order.
pub open spec fn round_picks(ws: Seq<int>, round: int, pos: int) -> Seq<int>
    decreases ws.len() - pos,
{
    if pos >= ws.len() {
        Seq::empty()
    } else if eligible(ws[pos], round) {
        seq![pos] + round_picks(ws, round, pos + 1)
    } else {
        round_picks(ws, round, pos + 1)
    }
}

/// The picks of rounds `round` through `max_weight`, one round after another.
pub open spec fn cycle_picks(ws: Seq<int>, max_weight: int, round: int) -> Seq<int>
    decreases max_weight + 1 - round,
{
    if round > max_weight {
        Seq::empty()
    } else {
        round_picks(ws, round, 0) + cycle_picks(ws, max_weight, round + 1)
    }
}

/// Where a state goes once its current round has nothing left to give.
pub open spec fn round_over(s: SelectorState) -> SelectorState {
    if s.round >= s.max_weight {
        restarted(s)
    } else {
        SelectorState { round: s.round + 1, pos: 0, ..s }
    }
}

proof fn lemma_count_concat(a: Seq<int>, b: Seq<int>, x: int)
    ensures
        count(a + b, x) == count(a, x) + count(b, x),
    decreases b.len(),
{
    if b.len() == 0 {
        assert(a + b == a);
    } else {
        assert((a + b).drop_last() == a + b.drop_last());
        lemma_count_concat(a, b.drop_last(), x);
    }
}

proof fn lemma_count_single(y: int, x: int)
    ensures
        count(seq![y], x) == if y == x {
            1int
        } else {
            0int
        },
{
    assert(seq![y].drop_last() == Seq::<int>::empty());
    assert(count(Seq::<int>::empty(), x) == 0);
}

/// Runs split: `a + b` selections are `a` selections, then `b` more from where they left off.
proof fn lemma_outputs_split(s: SelectorState, a: nat, b: nat)
    ensures
        outputs(s, a + b) == outputs(s, a) + outputs(after(s, a), b),
        after(s, a + b) == after(after(s, a), b),
    decreases a,
{
    if a == 0 {
        assert(outputs(s, a) + outputs(after(s, a), b) == outputs(s, b));
    } else {
        lemma_outputs_split(next(s).1, (a - 1) as nat, b);
        assert((a + b - 1) as nat == (a - 1) as nat + b);
    }
}

/// States whose next selection agrees agree on every later one.
proof fn lemma_same_future(a: SelectorState, b: SelectorState, k: nat)
    requires
        next(a) == next(b),
    ensures
        outputs(a, k) == outputs(b, k),
        next(after(a, k)) == next(after(b, k)),
{
}

proof fn lemma_round_picks_first(ws: Seq<int>, round: int, pos: int)
    requires
        0 <= pos,
    ensures
        match first_eligible(ws, round, pos) {
            Some(i) => round_picks(ws, round, pos) == seq![i] + round_picks(ws, round, i + 1),
            None => round_picks(ws, round, pos) == Seq::<int>::empty(),
        },
    decreases ws.len() - pos,
{
    if pos < ws.len() && !eligible(ws[pos], round) {
        lemma_round_picks_first(ws, round, pos + 1);
    }
}

/// Finishing a round returns its remaining picks, then behaves as the next round would.
proof fn lemma_round_run(s: SelectorState)
    requires
        s.valid(),
        s.has_candidate(),
    ensures
        ({
            let picks = round_picks(s.weights, s.round, s.pos);
            &&& outputs(s, picks.len()) == picks
            &&& next(after(s, picks.len())) == next(round_over(s))
        }),
    decreases s.len() - s.pos,
{
    let ws = s.weights;
    lemma_first_eligible(ws, s.round, s.pos);
    lemma_round_picks_first(ws, s.round, s.pos);
    match first_eligible(ws, s.round, s.pos) {
        None => {
            if s.round >= s.max_weight {
                lemma_restart_finds(s);
                assert(select_from(ws, s.max_weight, 0, 0) == select_from(ws, s.max_weight, s.round, s.pos));
            }
        },
        Some(i) => {
            lemma_next(s);
            let t = next(s).1;
            assert(t == SelectorState { pos: i + 1, ..s });
            lemma_round_run(t);
            assert(round_over(t) == round_over(s));
            let rest = round_picks(ws, s.round, i + 1);
            assert(outputs(s, rest.len() + 1) == seq![i] + outputs(t, rest.len()));
        },
    }
}

/// A run from the start of round `s.round` to the end of the cycle returns
/// the picks of those rounds, then behaves as a fresh cycle would.
proof fn lemma_cycle_run(s: SelectorState)
    requires
        s.valid(),
        s.has_candidate(),
        s.pos == 0,
    ensures
        ({
            let picks = cycle_picks(s.weights, s.max_weight, s.round);
            &&& outputs(s, picks.len()) == picks
            &&& next(after(s, picks.len())) == next(restarted(s))
        }),
    decreases s.max_weight - s.round,
{
    let ws = s.weights;
    let first = round_picks(ws, s.round, 0);
    lemma_round_run(s);
    if s.round >= s.max_weight {
        assert(cycle_picks(ws, s.max_weight, s.round + 1) == Seq::<int>::empty());
        assert(first + Seq::<int>::empty() == first);
    } else {
        let s1 = round_over(s);
        assert(s1.weights == s.weights);
        lemma_cycle_run(s1);
        let rest = cycle_picks(ws, s.max_weight, s.round + 1);
        lemma_outputs_split(s, first.len(), rest.len());
        lemma_same_future(after(s, first.len()), s1, rest.len());
        assert(restarted(s1) == restarted(s));
    }
}

proof fn lemma_count_round_picks(ws: Seq<int>, round: int, pos: int, x: int)
    requires
        0 <= pos,
    ensures
        count(round_picks(ws, round, pos), x) == if pos <= x < ws.len() && eligible(ws[x], round) {
            1int
        } else {
            0int
        },
    decreases ws.len() - pos,
{
    if pos < ws.len() {
        lemma_count_round_picks(ws, round, pos + 1, x);
        if eligible(ws[pos], round) {
            lemma_count_concat(seq![pos], round_picks(ws, round, pos + 1), x);
            lemma_count_single(pos, x);
        }
    }
}

proof fn lemma_count_cycle_picks(ws: Seq<int>, max_weight: int, round: int, x: int)
    requires
        0 <= round,
        0 <= x < ws.len(),
        0 <= ws[x] <= max_weight,
    ensures
        count(cycle_picks(ws, max_weight, round), x) == if ws[x] == 0 || ws[x] < round {
            0
        } else {
            ws[x] - round + 1
        },
    decreases max_weight + 1 - round,
{
    if round <= max_weight {
        lemma_count_cycle_picks(ws, max_weight, round + 1, x);
        lemma_count_concat(round_picks(ws, round, 0), cycle_picks(ws, max_weight, round + 1), x);
        lemma_count_round_picks(ws, round, 0, x);
    }
}

proof fn lemma_round_picks_range(ws: Seq<int>, round: int, pos: int)
    requires
        0 <= pos,
    ensures
        forall|j: int|
            0 <= j < round_picks(ws, round, pos).len() ==> pos <= #[trigger] round_picks(ws, round, pos)[j] < ws.len(),
    decreases ws.len() - pos,
{
    if pos < ws.len() {
        lemma_round_picks_range(ws, round, pos + 1);
        let rest = round_picks(ws, round, pos + 1);
        if eligible(ws[pos], round) {
            assert forall|j: int| 0 <= j < round_picks(ws, round, pos).len() implies pos
                <= #[trigger] round_picks(ws, round, pos)[j] < ws.len() by {
                if j > 0 {
                    assert(round_picks(ws, round, pos)[j] == rest[j - 1]);
                }
            }
        }
    }
}

proof fn lemma_cycle_picks_range(ws: Seq<int>, max_weight: int, round: int)
    ensures
        forall|j: int|
            0 <= j < cycle_picks(ws, max_weight, round).len() ==> 0 <= #[trigger] cycle_picks(ws, max_weight, round)[j] < ws.len(),
    decreases max_weight + 1 - round,
{
    if round <= max_weight {
        lemma_round_picks_range(ws, round, 0);
        lemma_cycle_picks_range(ws, max_weight, round + 1);
        let first = round_picks(ws, round, 0);
        let rest = cycle_picks(ws, max_weight, round + 1);
        assert forall|j: int| 0 <= j < cycle_picks(ws, max_weight, round).len() implies 0
            <= #[trigger] cycle_picks(ws, max_weight, round)[j] < ws.len() by {
            if j < first.len() {
                assert(cycle_picks(ws, max_weight, round)[j] == first[j]);
            } else {
                assert(cycle_picks(ws, max_weight, round)[j] == rest[j - first.len()]);
            }
        }
    }
}

/// The counts of the values `0..n` in `t`, added up.
spec fn count_sum(t: Seq<int>, n: int) -> int
    decreases n,
{
    if n <= 0 {
        0
    } else {
        count_sum(t, n - 1) + count(t, n - 1)
    }
}

proof fn lemma_count_sum_push(t: Seq<int>, n: int)
    requires
        t.len() > 0,
        0 <= n,
    ensures
        count_sum(t, n) == count_sum(t.drop_last(), n) + if 0 <= t.last() < n {
            1int
        } else {
            0int
        },
    decreases n,
{
    if n > 0 {
        lemma_count_sum_push(t, n - 1);
    }
}

/// A sequence of values in `0..n` is as long as its counts of those values added up.
proof fn lemma_len_is_count_sum(t: Seq<int>, n: int)
    requires
        0 <= n,
        forall|j: int| 0 <= j < t.len() ==> 0 <= #[trigger] t[j] < n,
    ensures
        t.len() == count_sum(t, n),
    decreases t.len(),
{
    if t.len() == 0 {
        lemma_count_sum_zero(t, n);
    } else {
        let u = t.drop_last();
        assert forall|j: int| 0 <= j < u.len() implies 0 <= #[trigger] u[j] < n by {
            assert(u[j] == t[j]);
        }
        lemma_len_is_count_sum(u, n);
        lemma_count_sum_push(t, n);
    }
}

proof fn lemma_count_sum_zero(t: Seq<int>, n: int)
    requires
        t.len() == 0,
    ensures
        count_sum(t, n) == 0,
    decreases n,
{
    if n > 0 {
        lemma_count_sum_zero(t, n - 1);
    }
}

proof fn lemma_sum_shares_counts(ws: Seq<int>, t: Seq<int>, n: int)
    requires
        0 <= n <= ws.len(),
        forall|i: int| 0 <= i < n ==> count(t, i) == share(#[trigger] ws[i]),
    ensures
        sum_shares(ws, n) == count_sum(t, n),
    decreases n,
{
    if n > 0 {
        lemma_sum_shares_counts(ws, t, n - 1);
    }
}

proof fn lemma_seq_max(ws: Seq<int>)
    ensures
        0 <= seq_max(ws),
        forall|i: int| 0 <= i < ws.len() ==> #[trigger] ws[i] <= seq_max(ws),
    decreases ws.len(),
{
    if ws.len() > 0 {
        let u = ws.drop_last();
        lemma_seq_max(u);
        assert forall|i: int| 0 <= i < ws.len() implies #[trigger] ws[i] <= seq_max(ws) by {
            if i < u.len() {
                assert(u[i] == ws[i]);
            }
        }
    }
}

/// Every selection, however many are made in a row, returns the index of a
/// candidate whose weight is nonzero: a candidate of weight 0 never appears.
pub proof fn lemma_chosen_are_candidates(s: SelectorState, k: nat)
    requires
        s.valid(),
        s.has_candidate(),
    ensures
        outputs(s, k).len() == k,
        forall|j: int|
            0 <= j < k ==> 0 <= #[trigger] outputs(s, k)[j] < s.len() && s.weights[outputs(s, k)[j]] != 0,
    decreases k,
{
    if k > 0 {
        lemma_next(s);
        let t = next(s).1;
        lemma_chosen_are_candidates(t, (k - 1) as nat);
        assert forall|j: int| 0 <= j < k implies 0 <= #[trigger] outputs(s, k)[j] < s.len()
            && s.weights[outputs(s, k)[j]] != 0 by {
            if j > 0 {
                assert(outputs(s, k)[j] == outputs(t, (k - 1) as nat)[j - 1]);
            }
        }
    }
}

/// One cycle from a fresh selector is `sum_shares(ws, len)` selections long.
/// Within it each candidate of weight `w > 0` is returned `w + 1` times and
/// each of weight 0 never; after it the same sequence starts over.
pub proof fn lemma_cycle_counts(ws: Seq<int>)
    requires
        forall|i: int| 0 <= i < ws.len() ==> 0 <= #[trigger] ws[i],
        exists|i: int| 0 <= i < ws.len() && #[trigger] ws[i] != 0,
    ensures
        ({
            let s = initial(ws);
            let c = sum_shares(ws, ws.len() as int);
            &&& 0 <= c
            &&& forall|i: int| 0 <= i < ws.len() ==> count(#[trigger] outputs(s, c as nat), i) == share(ws[i])
            &&& forall|k: nat| #[trigger] outputs(s, (c + k) as nat) == outputs(s, c as nat) + outputs(s, k)
        }),
{
    let s = initial(ws);
    let m = seq_max(ws);
    lemma_seq_max(ws);
    assert(s.valid());
    assert(s.has_candidate());
    lemma_cycle_run(s);
    let picks = cycle_picks(ws, m, 0);
    assert forall|i: int| 0 <= i < ws.len() implies count(picks, i) == share(#[trigger] ws[i]) by {
        lemma_count_cycle_picks(ws, m, 0, i);
    }
    lemma_cycle_picks_range(ws, m, 0);
    lemma_len_is_count_sum(picks, ws.len() as int);
    lemma_sum_shares_counts(ws, picks, ws.len() as int);
    let c = picks.len();
    assert forall|k: nat| #[trigger] outputs(s, (c + k) as nat) == outputs(s, c) + outputs(s, k) by {
        lemma_outputs_split(s, c, k);
        assert(restarted(s) == s);
        lemma_same_future(after(s, c), s, k);
    }
}

/// Moving a selector back to the start of its cycle, fresh or after any
/// number of selections, leaves it exactly as it was built, so the same
/// sequence of choices follows.
pub proof fn lemma_restart_realigns(ws: Seq<int>, k: nat)
    ensures
        restarted(initial(ws)) == initial(ws),
        restarted(after(initial(ws), k)) == initial(ws),
{
    lemma_after_keeps(initial(ws), k);
}

proof fn lemma_after_keeps(s: SelectorState, k: nat)
    ensures
        after(s, k).weights == s.weights,
        after(s, k).max_weight == s.max_weight,
    decreases k,
{
    if k > 0 {
        lemma_after_keeps(next(s).1, (k - 1) as nat);
    }
}

} // verus!
