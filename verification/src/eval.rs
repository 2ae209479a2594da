use vstd::prelude::*;
use crate::cards::{Card, card_val_id, card_val_rank};

verus! {

/// How many cards of a hand carry the given value rank.
pub open spec fn spec_count_val(hand: Seq<Card>, v: int) -> int
    decreases hand.len(),
{
    if hand.len() == 0 {
        0
    } else {
        spec_count_val(hand.drop_last(), v) + if card_val_id(hand.last().value) == v {
            1int
        } else {
            0int
        }
    }
}

pub proof fn lemma_count_val_bounds(hand: Seq<Card>, v: int)
    ensures
        0 <= spec_count_val(hand, v) <= hand.len(),
    decreases hand.len(),
{
    if hand.len() > 0 {
        lemma_count_val_bounds(hand.drop_last(), v);
    }
}

/// The best (count, rank) pair over value ranks `0..=v`: the highest card
/// count, and among equal counts the lowest rank, scanned rank by rank with
/// a strictly-greater count replacing the champion.
pub open spec fn spec_naive_fold(hand: Seq<Card>, v: int) -> (int, int)
    decreases v + 1,
{
    if v <= 0 {
        (spec_count_val(hand, 0), 0)
    } else {
        let (n, i) = spec_naive_fold(hand, v - 1);
        let c = spec_count_val(hand, v);
        if c > n {
            (c, v)
        } else {
            (n, i)
        }
    }
}

/// The integer score the naive evaluator assigns to a hand: the product of
/// the winning rank and its card count.
pub open spec fn spec_naive_score(hand: Seq<Card>) -> int {
    spec_naive_fold(hand, 12).1 * spec_naive_fold(hand, 12).0
}

/// Showdown evaluator: assigns a hand an integer score, higher is better,
/// equal scores tie exactly. The spec member pins the score down as a pure
/// function of the cards.
pub trait Eval: Sized {
    spec fn score_spec(&self, hand: Seq<Card>) -> int;

    fn score(&self, hand: &Vec<Card>) -> (r: u64)
        requires
            hand@.len() <= u32::MAX,
        ensures
            r == self.score_spec(hand@),
            r >= 0,
    ;
}

/// Naive evaluator for Kuhn- and Leduc-sized games: the score is the rank
/// of the most frequent card value, weighted by how often it occurs; the
/// lowest such rank wins ties between counts.
#[derive(Clone)]
pub struct EvalNaive {}

impl Eval for EvalNaive {
    open spec fn score_spec(&self, hand: Seq<Card>) -> int {
        spec_naive_score(hand)
    }

    #[verifier::loop_isolation(false)]
    fn score(&self, hand: &Vec<Card>) -> (r: u64) {
        let mut counts: [u32; 13] = [0, 0, 0, 0, 0, 0, 0, 0, 0, 0, 0, 0, 0];
        let mut i: usize = 0;
        while i < hand.len()
            invariant
                i <= hand@.len(),
                forall|v: int|
                    0 <= v < 13 ==> counts[v] == spec_count_val(hand@.take(i as int), v),
            decreases hand@.len() - i,
        {
            proof {
                assert(forall|v: int|
                    0 <= v < 13 ==> spec_count_val(hand@.take(i as int), v)
                        <= hand@.take(i as int).len()) by {
                    assert forall|v: int| 0 <= v < 13 implies spec_count_val(
                        hand@.take(i as int),
                        v,
                    ) <= hand@.take(i as int).len() by {
                        lemma_count_val_bounds(hand@.take(i as int), v);
                    }
                }
                assert(hand@.take(i + 1).drop_last() =~= hand@.take(i as int));
                assert(hand@.take(i + 1).last() == hand@[i as int]);
            }
            let rank = card_val_rank(hand[i].value) as usize;
            counts[rank] = counts[rank] + 1;
            i += 1;
        }
        proof {
            assert(hand@.take(hand@.len() as int) =~= hand@);
        }

        let mut n: u32 = 0;
        let mut best: usize = 0;
        let mut v: usize = 0;
        // The rank 0 entry seeds the champion, as the fold does.
        n = counts[0];
        best = 0;
        v = 1;
        while v < 13
            invariant
                1 <= v <= 13,
                (n as int, best as int) == spec_naive_fold(hand@, v - 1),
                best < 13,
            decreases 13 - v,
        {
            if counts[v] > n {
                n = counts[v];
                best = v;
            }
            v += 1;
        }
        assert((best as int) * (n as int) <= 12 * (u32::MAX as int)) by (nonlinear_arith)
            requires
                best <= 12 && 0 <= n <= u32::MAX,
        ;
        (best as u64) * (n as u64)
    }
}

} // verus!
