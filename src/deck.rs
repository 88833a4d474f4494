use vstd::prelude::*;

use crate::card::{Card, Rank, Suit};
use crate::error::PokerError;

verus! {

/// Spades, Hearts, Diamonds, Clubs: 0 to 3.
pub open spec fn suit_index(s: Suit) -> int {
    match s {
        Suit::Spades => 0,
        Suit::Hearts => 1,
        Suit::Diamonds => 2,
        Suit::Clubs => 3,
    }
}

/// A card's place in the canonical deck: suit by suit, Two to Ace.
pub open spec fn card_index(c: Card) -> int {
    13 * suit_index(c.suit) + c.rank.spec_value() - 2
}

/// A deck in canonical order: the 52 well-formed cards, each at its place.
pub open spec fn is_canonical_deck(deck: Seq<Card>) -> bool {
    &&& deck.len() == 52
    &&& forall|i: int| 0 <= i < 52 ==> (#[trigger] deck[i]).wf() && card_index(deck[i]) == i
}

/// Well-formed cards at the same place are the same card.
proof fn lemma_card_index_injective(a: Card, b: Card)
    requires
        a.wf(),
        b.wf(),
        card_index(a) == card_index(b),
    ensures
        a == b,
{
}

/// The canonical deck holds 52 cards, no card twice, and every
/// well-formed card.
pub proof fn lemma_canonical_deck_complete(deck: Seq<Card>)
    requires
        is_canonical_deck(deck),
    ensures
        deck.len() == 52,
        deck.no_duplicates(),
        forall|c: Card| c.wf() ==> #[trigger] deck.contains(c),
{
    assert forall|c: Card| c.wf() implies #[trigger] deck.contains(c) by {
        let i = card_index(c);
        assert(0 <= i < 52);
        lemma_card_index_injective(c, deck[i]);
    }
}

fn suit_at(i: usize) -> (s: Suit)
    requires
        i < 4,
    ensures
        suit_index(s) == i,
{
    if i == 0 {
        Suit::Spades
    } else if i == 1 {
        Suit::Hearts
    } else if i == 2 {
        Suit::Diamonds
    } else {
        Suit::Clubs
    }
}

/// The 52 cards of a standard deck, suit by suit (Spades, Hearts,
/// Diamonds, Clubs), each suit from Two to Ace.
pub fn generate_deck() -> (deck: Vec<Card>)
    ensures
        is_canonical_deck(deck@),
        deck@.no_duplicates(),
        forall|c: Card| c.wf() ==> #[trigger] deck@.contains(c),
{
    let mut deck: Vec<Card> = Vec::new();
    let mut si: usize = 0;
    while si < 4
        invariant
            si <= 4,
            deck@.len() == 13 * si,
            forall|k: int| 0 <= k < deck@.len() ==> (#[trigger] deck@[k]).wf() && card_index(deck@[k]) == k,
        decreases 4 - si,
    {
        let suit = suit_at(si);
        let mut v: u8 = 2;
        while v <= 14
            invariant
                si < 4,
                suit_index(suit) == si,
                2 <= v <= 15,
                deck@.len() == 13 * si + v - 2,
                forall|k: int| 0 <= k < deck@.len() ==> (#[trigger] deck@[k]).wf() && card_index(deck@[k]) == k,
            decreases 15 - v,
        {
            deck.push(Card::new(suit, Rank::from_value(v)));
            v = v + 1;
        }
        si = si + 1;
    }
    proof {
        lemma_canonical_deck_complete(deck@);
    }
    deck
}

/// Where the `j`-th card of hand `h` comes from when `num_hands` hands are
/// dealt round-robin off the top (the end) of a deck of `len` cards.
pub open spec fn deal_position(len: int, num_hands: int, h: int, j: int) -> int {
    len - 1 - (j * num_hands + h)
}

/// `hands` and `after` are what dealing `cards_per_hand` cards to each of
/// `num_hands` hands, one card at a time round-robin off the top of
/// `before`, hands out and leaves.
pub open spec fn dealt_from(
    before: Seq<Card>,
    after: Seq<Card>,
    hands: Seq<Vec<Card>>,
    cards_per_hand: int,
    num_hands: int,
) -> bool {
    &&& cards_per_hand * num_hands <= before.len()
    &&& after == before.take(before.len() - cards_per_hand * num_hands)
    &&& hands.len() == num_hands
    &&& forall|h: int| 0 <= h < num_hands ==> (#[trigger] hands[h])@.len() == cards_per_hand
    &&& forall|h: int, j: int|
        0 <= h < num_hands && 0 <= j < cards_per_hand ==> #[trigger] hands[h]@[j]
            == before[deal_position(before.len() as int, num_hands, h, j)]
}

/// No card is dealt twice, and none of the dealt cards stays in the deck.
pub open spec fn dealt_apart(after: Seq<Card>, hands: Seq<Vec<Card>>) -> bool {
    &&& forall|h1: int, j1: int, h2: int, j2: int|
        0 <= h1 < hands.len() && 0 <= j1 < hands[h1]@.len() && 0 <= h2 < hands.len() && 0 <= j2
            < hands[h2]@.len() && (h1 != h2 || j1 != j2) ==> #[trigger] hands[h1]@[j1]
            != #[trigger] hands[h2]@[j2]
    &&& forall|h: int, j: int|
        0 <= h < hands.len() && 0 <= j < hands[h]@.len() ==> !after.contains(#[trigger] hands[h]@[j])
}

proof fn lemma_position_bounds(cards_per_hand: int, num_hands: int, h: int, j: int)
    requires
        0 <= h < num_hands,
        0 <= j < cards_per_hand,
    ensures
        0 <= j * num_hands + h < cards_per_hand * num_hands,
{
    assert(0 <= j * num_hands) by (nonlinear_arith)
        requires
            0 <= j,
            0 <= num_hands,
    ;
    assert(j * num_hands + num_hands <= cards_per_hand * num_hands) by (nonlinear_arith)
        requires
            j + 1 <= cards_per_hand,
            0 <= num_hands,
    ;
}

proof fn lemma_position_injective(num_hands: int, h1: int, j1: int, h2: int, j2: int)
    requires
        0 <= h1 < num_hands,
        0 <= h2 < num_hands,
        0 <= j1,
        0 <= j2,
        j1 * num_hands + h1 == j2 * num_hands + h2,
    ensures
        h1 == h2,
        j1 == j2,
{
    if j1 < j2 {
        assert(j1 * num_hands + num_hands <= j2 * num_hands) by (nonlinear_arith)
            requires
                j1 + 1 <= j2,
                0 <= num_hands,
        ;
    } else if j2 < j1 {
        assert(j2 * num_hands + num_hands <= j1 * num_hands) by (nonlinear_arith)
            requires
                j2 + 1 <= j1,
                0 <= num_hands,
        ;
    }
}

/// Cards dealt from distinct places of a deck without duplicates are
/// distinct, and differ from the cards left.
pub proof fn lemma_deal_keeps_cards_apart(
    before: Seq<Card>,
    after: Seq<Card>,
    hands: Seq<Vec<Card>>,
    cards_per_hand: int,
    num_hands: int,
)
    requires
        before.no_duplicates(),
        dealt_from(before, after, hands, cards_per_hand, num_hands),
    ensures
        dealt_apart(after, hands),
{
    let len = before.len() as int;
    assert forall|h1: int, j1: int, h2: int, j2: int|
        0 <= h1 < hands.len() && 0 <= j1 < hands[h1]@.len() && 0 <= h2 < hands.len() && 0 <= j2
            < hands[h2]@.len() && (h1 != h2 || j1 != j2) implies #[trigger] hands[h1]@[j1]
            != #[trigger] hands[h2]@[j2] by {
        lemma_position_bounds(cards_per_hand, num_hands, h1, j1);
        lemma_position_bounds(cards_per_hand, num_hands, h2, j2);
        if j1 * num_hands + h1 == j2 * num_hands + h2 {
            lemma_position_injective(num_hands, h1, j1, h2, j2);
        }
    }
    assert forall|h: int, j: int|
        0 <= h < hands.len() && 0 <= j < hands[h]@.len() implies !after.contains(
        #[trigger] hands[h]@[j],
    ) by {
        lemma_position_bounds(cards_per_hand, num_hands, h, j);
        if after.contains(hands[h]@[j]) {
            let k = choose|k: int| 0 <= k < after.len() && after[k] == hands[h]@[j];
            assert(before[k] == before[deal_position(len, num_hands, h, j)]);
        }
    }
}

/// Deals `cards_per_hand` cards to each of `num_hands` hands, one card at a
/// time round-robin off the top (the end) of the deck, and removes them from
/// it. Asking for more cards than the deck holds is an error, and leaves
/// the deck as it was.
pub fn deal_from_top(deck: &mut Vec<Card>, cards_per_hand: usize, num_hands: usize) -> (r: Result<
    Vec<Vec<Card>>,
    PokerError,
>)
    ensures
        cards_per_hand * num_hands > old(deck)@.len() ==> r == Err::<Vec<Vec<Card>>, PokerError>(
            PokerError::InsufficientCards {
                cards_per_hand,
                num_hands,
                available: old(deck)@.len() as usize,
            },
        ) && final(deck)@ == old(deck)@,
        cards_per_hand * num_hands <= old(deck)@.len() ==> r.is_ok() && dealt_from(
            old(deck)@,
            final(deck)@,
            r.unwrap()@,
            cards_per_hand as int,
            num_hands as int,
        ),
{
    let len = deck.len();
    let fits = match cards_per_hand.checked_mul(num_hands) {
        Some(t) => t <= len,
        None => false,
    };
    if !fits {
        return Err(PokerError::InsufficientCards { cards_per_hand, num_hands, available: len });
    }
    let total = cards_per_hand * num_hands;
    let mut hands: Vec<Vec<Card>> = Vec::new();
    let mut h: usize = 0;
    while h < num_hands
        invariant
            total == cards_per_hand * num_hands,
            total <= len,
            len == deck@.len(),
            h <= num_hands,
            hands@.len() == h,
            forall|k: int| 0 <= k < h ==> (#[trigger] hands@[k])@.len() == cards_per_hand,
            forall|k: int, j: int|
                0 <= k < h && 0 <= j < cards_per_hand ==> #[trigger] hands@[k]@[j]
                    == deck@[deal_position(len as int, num_hands as int, k, j)],
        decreases num_hands - h,
    {
        let mut hand: Vec<Card> = Vec::new();
        let mut j: usize = 0;
        while j < cards_per_hand
            invariant
                total == cards_per_hand * num_hands,
                total <= len,
                len == deck@.len(),
                h < num_hands,
                j <= cards_per_hand,
                hand@.len() == j,
                forall|i: int|
                    0 <= i < j ==> #[trigger] hand@[i] == deck@[deal_position(
                        len as int,
                        num_hands as int,
                        h as int,
                        i,
                    )],
            decreases cards_per_hand - j,
        {
            proof {
                lemma_position_bounds(cards_per_hand as int, num_hands as int, h as int, j as int);
                assert(j * num_hands + h < total);
            }
            let step = j * num_hands + h;
            hand.push(deck[len - 1 - step]);
            j = j + 1;
        }
        hands.push(hand);
        h = h + 1;
    }
    deck.truncate(len - total);
    Ok(hands)
}

/// Relies on `rand::seq::SliceRandom::shuffle`, driven by `rand::thread_rng`:
/// it only swaps entries of the slice, so the cards come back in some order,
/// each as often as before.
#[verifier::external_body]
fn shuffle_cards(deck: &mut Vec<Card>)
    ensures
        final(deck)@.len() == old(deck)@.len(),
        final(deck)@.to_multiset() == old(deck)@.to_multiset(),
{
    rand::seq::SliceRandom::shuffle(deck.as_mut_slice(), &mut rand::thread_rng());
}

/// Shuffles the deck at random, then deals `cards_per_hand` cards to each of
/// `num_hands` hands round-robin off its top and removes them from it.
/// Asking for more cards than the deck holds is an error, and leaves the
/// deck as it was, unshuffled. From a deck without duplicates, no card is
/// dealt twice and none that was dealt stays in the deck.
pub fn deal_hands(deck: &mut Vec<Card>, cards_per_hand: usize, num_hands: usize) -> (r: Result<
    Vec<Vec<Card>>,
    PokerError,
>)
    ensures
        cards_per_hand * num_hands > old(deck)@.len() ==> r == Err::<Vec<Vec<Card>>, PokerError>(
            PokerError::InsufficientCards {
                cards_per_hand,
                num_hands,
                available: old(deck)@.len() as usize,
            },
        ) && final(deck)@ == old(deck)@,
        cards_per_hand * num_hands <= old(deck)@.len() ==> r.is_ok() && exists|shuffled: Seq<Card>|
            #![trigger shuffled.to_multiset()]
            shuffled.len() == old(deck)@.len() && shuffled.to_multiset() == old(deck)@.to_multiset()
                && dealt_from(
                shuffled,
                final(deck)@,
                r.unwrap()@,
                cards_per_hand as int,
                num_hands as int,
            ),
        r.is_ok() && old(deck)@.no_duplicates() ==> dealt_apart(final(deck)@, r.unwrap()@),
{
    let fits = match cards_per_hand.checked_mul(num_hands) {
        Some(t) => t <= deck.len(),
        None => false,
    };
    if !fits {
        return Err(
            PokerError::InsufficientCards { cards_per_hand, num_hands, available: deck.len() },
        );
    }
    let ghost before = deck@;
    shuffle_cards(deck);
    let ghost shuffled = deck@;
    let r = deal_from_top(deck, cards_per_hand, num_hands);
    proof {
        if before.no_duplicates() {
            before.lemma_multiset_has_no_duplicates();
            shuffled.lemma_multiset_has_no_duplicates_conv();
            lemma_deal_keeps_cards_apart(
                shuffled,
                deck@,
                r.unwrap()@,
                cards_per_hand as int,
                num_hands as int,
            );
        }
    }
    r
}

} // verus!
