use vstd::prelude::*;

use std::cmp::Ordering;

use crate::card::Card;
use crate::error::PokerError;
use crate::evaluate::{evaluate_hand, hand_key, valid_hand};
use crate::hand_rank::{
    lemma_lex_at_most_then_less, lemma_lex_reverse, lemma_lex_same, lex_order, HandRank,
};

verus! {

/// `w` indexes a best hand of `hands`, the first of them where several
/// rank equal.
pub open spec fn is_first_best(hands: Seq<Vec<Card>>, w: int) -> bool {
    &&& 0 <= w < hands.len()
    &&& forall|j: int|
        0 <= j < hands.len() ==> lex_order(hand_key(#[trigger] hands[j]@), hand_key(hands[w]@))
            != Ordering::Greater
    &&& forall|j: int|
        0 <= j < w ==> lex_order(hand_key(#[trigger] hands[j]@), hand_key(hands[w]@))
            == Ordering::Less
}

/// The index of the best of the hands. Where several hands rank equal at
/// the top, the lowest index among them wins; ties are not reported
/// otherwise. No hands at all is an error.
pub fn determine_winner(hands: &[Vec<Card>]) -> (r: Result<usize, PokerError>)
    requires
        forall|i: int| 0 <= i < hands@.len() ==> valid_hand(#[trigger] hands@[i]@),
    ensures
        hands@.len() == 0 ==> r == Err::<usize, PokerError>(PokerError::EmptyInput),
        hands@.len() > 0 ==> r.is_ok() && is_first_best(hands@, r.unwrap() as int),
{
    if hands.len() == 0 {
        return Err(PokerError::EmptyInput);
    }
    let mut best: usize = 0;
    let mut best_rank: HandRank = evaluate_hand(hands[0].as_slice());
    let mut i: usize = 1;
    proof {
        lemma_lex_same(best_rank.key(), 0);
        assert(hands@.take(1)[0] == hands@[0]);
    }
    while i < hands.len()
        invariant
            forall|k: int| 0 <= k < hands@.len() ==> valid_hand(#[trigger] hands@[k]@),
            1 <= i <= hands@.len(),
            best < i,
            best_rank.key() == hand_key(hands@[best as int]@),
            is_first_best(hands@.take(i as int), best as int),
        decreases hands@.len() - i,
    {
        let rank = evaluate_hand(hands[i].as_slice());
        let ghost prev = best as int;
        if let Ordering::Greater = rank.compare(&best_rank) {
            proof {
                lemma_lex_reverse(rank.key(), best_rank.key(), 0);
                assert forall|j: int| 0 <= j < i implies lex_order(
                    hand_key(#[trigger] hands@[j]@),
                    hand_key(hands@[i as int]@),
                ) == Ordering::Less by {
                    assert(hands@.take(i as int)[j] == hands@[j]);
                    lemma_lex_at_most_then_less(
                        hand_key(hands@[j]@),
                        hand_key(hands@[prev]@),
                        hand_key(hands@[i as int]@),
                    );
                }
            }
            best = i;
            best_rank = rank;
        }
        proof {
            assert forall|j: int| 0 <= j < i + 1 implies lex_order(
                hand_key(#[trigger] hands@.take(i + 1)[j]@),
                hand_key(hands@.take(i + 1)[best as int]@),
            ) != Ordering::Greater by {
                assert(hands@.take(i + 1)[j] == hands@[j]);
                assert(hands@.take(i + 1)[best as int] == hands@[best as int]);
                if best == i {
                    lemma_lex_same(rank.key(), 0);
                } else if j < i {
                    assert(hands@.take(i as int)[j] == hands@[j]);
                    assert(hands@.take(i as int)[best as int] == hands@[best as int]);
                }
            }
            assert forall|j: int| 0 <= j < best implies lex_order(
                hand_key(#[trigger] hands@.take(i + 1)[j]@),
                hand_key(hands@.take(i + 1)[best as int]@),
            ) == Ordering::Less by {
                assert(hands@.take(i + 1)[j] == hands@[j]);
                assert(hands@.take(i + 1)[best as int] == hands@[best as int]);
                if best != i {
                    assert(hands@.take(i as int)[j] == hands@[j]);
                    assert(hands@.take(i as int)[best as int] == hands@[best as int]);
                }
            }
        }
        i = i + 1;
    }
    proof {
        assert(hands@.take(i as int) =~= hands@);
    }
    Ok(best)
}

} // verus!
