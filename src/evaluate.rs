use vstd::prelude::*;
use vstd::relations::{sorted_by, total_ordering};
use vstd::seq_lib::{group_to_multiset_ensures, lemma_sorted_unique, to_multiset_insert};
use vstd::multiset::{group_multiset_axioms, Multiset};

use crate::card::{rank_value, Card, Rank, Suit};
use crate::hand_rank::{lemma_compare_equal, rank_values, widen, HandRank};

verus! {

/// The values of the hand's ranks, in the hand's order.
pub open spec fn hand_values(cards: Seq<Card>) -> Seq<int> {
    cards.map_values(|c: Card| c.rank.spec_value())
}

/// Highest first.
pub open spec fn descending() -> spec_fn(int, int) -> bool {
    |x: int, y: int| x >= y
}

/// The values of the hand's ranks, highest first.
pub open spec fn sorted_values(cards: Seq<Card>) -> Seq<int> {
    hand_values(cards).sort_by(descending())
}

/// How often each rank value occurs in the hand.
pub open spec fn value_counts(cards: Seq<Card>) -> Multiset<int> {
    hand_values(cards).to_multiset()
}

/// How many cards of the hand have a rank of value `v`.
pub open spec fn rank_count(cards: Seq<Card>, v: int) -> nat {
    value_counts(cards).count(v)
}

/// Some value occurs exactly `n` times in `m`.
pub open spec fn has_count(m: Multiset<int>, n: nat) -> bool {
    exists|v: int| m.count(v) == n
}

/// Some rank occurs exactly `n` times in the hand.
pub open spec fn has_group(cards: Seq<Card>, n: nat) -> bool {
    has_count(value_counts(cards), n)
}

/// Two different values occur exactly twice each in `m`.
pub open spec fn has_two_twos(m: Multiset<int>) -> bool {
    exists|a: int, b: int| a != b && m.count(a) == 2 && m.count(b) == 2
}

/// Two different ranks occur exactly twice each.
pub open spec fn has_two_pairs(cards: Seq<Card>) -> bool {
    has_two_twos(value_counts(cards))
}

/// All cards share the first card's suit.
pub open spec fn is_flush(cards: Seq<Card>) -> bool {
    forall|i: int| 0 <= i < cards.len() ==> #[trigger] cards[i].suit == cards[0].suit
}

/// Ace, Five, Four, Three, Two: the straight in which the Ace plays low.
pub open spec fn is_wheel(s: Seq<int>) -> bool {
    s == seq![14int, 5, 4, 3, 2]
}

/// Five distinct ranks in a run, or Ace-2-3-4-5.
pub open spec fn is_straight(cards: Seq<Card>) -> bool {
    let s = sorted_values(cards);
    &&& s[0] > s[1] > s[2] > s[3] > s[4]
    &&& (s[0] - s[4] == 4 || is_wheel(s))
}

/// The top of the straight; Five where the Ace plays low.
pub open spec fn straight_high(cards: Seq<Card>) -> int {
    let s = sorted_values(cards);
    if is_wheel(s) {
        5
    } else {
        s[0]
    }
}

/// The category of a five-card hand, the first that applies of:
/// four of a kind, full house, royal flush (a flush whose straight runs
/// from Ten to Ace), straight flush, three of a kind, two pairs, one pair,
/// flush, straight, high card.
pub open spec fn category_of(cards: Seq<Card>) -> int {
    if has_group(cards, 4) {
        7
    } else if has_group(cards, 3) && has_group(cards, 2) {
        6
    } else if is_flush(cards) && is_straight(cards) && straight_high(cards) == 14 {
        9
    } else if is_flush(cards) && is_straight(cards) {
        8
    } else if has_group(cards, 3) {
        3
    } else if has_two_pairs(cards) {
        2
    } else if has_group(cards, 2) {
        1
    } else if is_flush(cards) {
        5
    } else if is_straight(cards) {
        4
    } else {
        0
    }
}

/// A value that occurs exactly `n` times in `m`.
pub open spec fn value_with_count_in(m: Multiset<int>, n: nat) -> int {
    choose|v: int| m.count(v) == n
}

/// The highest of the values that occur exactly twice in `m`.
pub open spec fn highest_two(m: Multiset<int>) -> int {
    choose|v: int| m.count(v) == 2 && forall|w: int| m.count(w) == 2 ==> w <= v
}

/// A value other than `highest_two(m)` that occurs exactly twice in `m`.
pub open spec fn other_two(m: Multiset<int>) -> int {
    choose|v: int| m.count(v) == 2 && v != highest_two(m)
}

/// The value of a rank that occurs exactly `n` times.
pub open spec fn group_value(cards: Seq<Card>, n: nat) -> int {
    value_with_count_in(value_counts(cards), n)
}

/// The higher of the ranks that occur exactly twice.
pub open spec fn high_pair(cards: Seq<Card>) -> int {
    highest_two(value_counts(cards))
}

/// The other rank that occurs exactly twice.
pub open spec fn low_pair(cards: Seq<Card>) -> int {
    other_two(value_counts(cards))
}

/// The tie-break values that go with the hand's category.
pub open spec fn payload_of(cards: Seq<Card>) -> Seq<int> {
    let c = category_of(cards);
    if c == 0 || c == 5 {
        sorted_values(cards)
    } else if c == 1 {
        seq![group_value(cards, 2)]
    } else if c == 2 {
        seq![high_pair(cards), low_pair(cards)]
    } else if c == 3 {
        seq![group_value(cards, 3)]
    } else if c == 4 || c == 8 {
        seq![straight_high(cards)]
    } else if c == 6 {
        seq![group_value(cards, 3), group_value(cards, 2)]
    } else if c == 7 {
        seq![group_value(cards, 4)]
    } else {
        seq![]
    }
}

/// The sort key of the hand's classification.
pub open spec fn hand_key(cards: Seq<Card>) -> Seq<int> {
    seq![category_of(cards)] + payload_of(cards)
}

/// A hand that `evaluate_hand` accepts: five cards of well-formed ranks.
pub open spec fn valid_hand(cards: Seq<Card>) -> bool {
    cards.len() == 5 && forall|i: int| 0 <= i < 5 ==> (#[trigger] cards[i]).wf()
}

proof fn lemma_descending_total()
    ensures
        total_ordering(descending()),
{
}

/// The values of the hand's ranks, highest first.
fn sorted_rank_values(hand: &[Card]) -> (sv: Vec<u8>)
    requires
        valid_hand(hand@),
    ensures
        widen(sv@) == sorted_values(hand@),
        sv@.len() == 5,
        forall|j: int| 0 <= j < 5 ==> 2 <= #[trigger] sv@[j] <= 14,
{
    let mut sv: Vec<u8> = Vec::new();
    let mut i: usize = 0;
    assert(widen(sv@) =~= hand_values(hand@.take(0)));
    while i < hand.len()
        invariant
            valid_hand(hand@),
            i <= 5,
            sv@.len() == i,
            widen(sv@).to_multiset() == hand_values(hand@.take(i as int)).to_multiset(),
            sorted_by(widen(sv@), descending()),
            forall|j: int| 0 <= j < sv@.len() ==> 2 <= #[trigger] sv@[j] <= 14,
        decreases 5 - i,
    {
        let v = rank_value(&hand[i].rank);
        let mut p: usize = 0;
        while p < sv.len() && sv[p] >= v
            invariant
                p <= sv@.len(),
                forall|j: int| 0 <= j < p ==> #[trigger] sv@[j] >= v,
            decreases sv@.len() - p,
        {
            p = p + 1;
        }
        let ghost prev = widen(sv@);
        sv.insert(p, v);
        proof {
            broadcast use group_to_multiset_ensures;

            assert(widen(sv@) =~= prev.insert(p as int, v as int));
            to_multiset_insert(prev, p as int, v as int);
            assert(hand@.take(i + 1) =~= hand@.take(i as int).push(hand@[i as int]));
            assert(hand_values(hand@.take(i + 1)) =~= hand_values(hand@.take(i as int)).push(
                v as int,
            ));
            assert forall|j: int| p <= j < prev.len() implies prev[j] < v by {
                assert(descending()(prev[p as int], prev[j]));
            }
            assert forall|a: int, b: int| 0 <= a < b < sv@.len() implies #[trigger] descending()(
                widen(sv@)[a],
                widen(sv@)[b],
            ) by {
                if b < p {
                    assert(descending()(prev[a], prev[b]));
                } else if a > p {
                    assert(descending()(prev[a - 1], prev[b - 1]));
                } else if a < p && b > p {
                    assert(descending()(prev[a], prev[b - 1]));
                }
            }
        }
        i = i + 1;
    }
    proof {
        assert(hand@.take(5) =~= hand@);
        lemma_descending_total();
        hand_values(hand@).lemma_sort_by_ensures(descending());
        lemma_sorted_unique(widen(sv@), sorted_values(hand@), descending());
    }
    sv
}

/// How many of the first five entries of `s` equal `x`.
pub open spec fn occurrences5<A>(s: Seq<A>, x: A) -> int {
    (if s[0] == x { 1int } else { 0int }) + (if s[1] == x { 1int } else { 0int }) + (if s[2] == x {
        1int
    } else {
        0int
    }) + (if s[3] == x { 1int } else { 0int }) + (if s[4] == x { 1int } else { 0int })
}

/// The ranks of a five-card hand, counted on its sorted values.
proof fn lemma_rank_counts(cards: Seq<Card>)
    requires
        cards.len() == 5,
    ensures
        sorted_values(cards).len() == 5,
        sorted_by(sorted_values(cards), descending()),
        forall|v: int| #[trigger] value_counts(cards).count(v) == occurrences5(sorted_values(cards), v),
{
    broadcast use group_to_multiset_ensures, group_multiset_axioms;

    lemma_descending_total();
    hand_values(cards).lemma_sort_by_ensures(descending());
    let s = sorted_values(cards);
    assert(hand_values(cards).len() == 5);
    assert(hand_values(cards).to_multiset().len() == 5);
    assert(s.to_multiset().len() == 5);
    assert(s.len() == 5);
    let e = Seq::<int>::empty();
    assert(e.to_multiset() =~= Multiset::empty());
    assert(s =~= e.push(s[0]).push(s[1]).push(s[2]).push(s[3]).push(s[4]));
}

/// How many of the five values equal `v`.
fn count_value(sv: &Vec<u8>, v: u8) -> (c: u8)
    requires
        sv@.len() == 5,
    ensures
        c as int == occurrences5(widen(sv@), v as int),
        c <= 5,
{
    let mut c: u8 = 0;
    if sv[0] == v {
        c = c + 1;
    }
    if sv[1] == v {
        c = c + 1;
    }
    if sv[2] == v {
        c = c + 1;
    }
    if sv[3] == v {
        c = c + 1;
    }
    if sv[4] == v {
        c = c + 1;
    }
    c
}

/// `r` is the highest of the five values other than `other` that occur
/// exactly `n` times, or `None` if there is no such value.
pub open spec fn count_search(sv: Seq<u8>, n: int, other: u8, r: Option<u8>) -> bool {
    match r {
        Some(v) => {
            &&& occurrences5(widen(sv), v as int) == n
            &&& v != other
            &&& exists|i: int| 0 <= i < 5 && sv[i] == v
            &&& forall|j: int|
                0 <= j < 5 && occurrences5(widen(sv), #[trigger] sv[j] as int) == n && sv[j] != other
                    ==> sv[j] <= v
        },
        None => forall|j: int|
            0 <= j < 5 ==> occurrences5(widen(sv), #[trigger] sv[j] as int) != n || sv[j] == other,
    }
}

/// The highest of the five values other than `other` that occurs exactly
/// `n` times among them.
fn value_with_count(sv: &Vec<u8>, n: u8, other: u8) -> (r: Option<u8>)
    requires
        sv@.len() == 5,
        sorted_by(widen(sv@), descending()),
    ensures
        count_search(sv@, n as int, other, r),
{
    let mut i: usize = 0;
    while i < 5
        invariant
            sv@.len() == 5,
            sorted_by(widen(sv@), descending()),
            i <= 5,
            forall|j: int|
                0 <= j < i ==> occurrences5(widen(sv@), #[trigger] sv@[j] as int) != n || sv@[j] == other,
        decreases 5 - i,
    {
        let v = sv[i];
        if v != other && count_value(sv, v) == n {
            proof {
                assert forall|j: int|
                    0 <= j < 5 && occurrences5(widen(sv@), sv@[j] as int) == n && sv@[j] != other
                        implies sv@[j] <= v by {
                    if j > i {
                        assert(descending()(widen(sv@)[i as int], widen(sv@)[j]));
                    }
                }
            }
            return Some(v);
        }
        i = i + 1;
    }
    None
}

/// The well-formed ranks of the given values, in order.
fn ranks_of_values(sv: &Vec<u8>) -> (rs: Vec<Rank>)
    requires
        forall|j: int| 0 <= j < sv@.len() ==> 2 <= #[trigger] sv@[j] <= 14,
    ensures
        rank_values(rs@) == widen(sv@),
        forall|j: int| 0 <= j < rs@.len() ==> (#[trigger] rs@[j]).wf(),
{
    let mut rs: Vec<Rank> = Vec::new();
    let mut i: usize = 0;
    while i < sv.len()
        invariant
            i <= sv@.len(),
            forall|j: int| 0 <= j < sv@.len() ==> 2 <= #[trigger] sv@[j] <= 14,
            rank_values(rs@) =~= widen(sv@.take(i as int)),
            forall|j: int| 0 <= j < rs@.len() ==> (#[trigger] rs@[j]).wf(),
        decreases sv@.len() - i,
    {
        let ghost prev = rs@;
        let r = Rank::from_value(sv[i]);
        rs.push(r);
        assert(rank_values(rs@) =~= rank_values(prev).push(r.spec_value()));
        assert(sv@.take(i + 1) =~= sv@.take(i as int).push(sv@[i as int]));
        i = i + 1;
        assert(rank_values(rs@) =~= widen(sv@.take(i as int)));
    }
    assert(sv@.take(i as int) =~= sv@);
    rs
}

/// What the search for a value of count `n` finds tells whether the hand
/// has a rank that occurs `n` times.
proof fn lemma_group_search(cards: Seq<Card>, sv: Seq<u8>, n: nat, r: Option<u8>)
    requires
        cards.len() == 5,
        sv.len() == 5,
        n > 0,
        widen(sv) == sorted_values(cards),
        forall|v: int| #[trigger] value_counts(cards).count(v) == occurrences5(sorted_values(cards), v),
        forall|j: int| 0 <= j < 5 ==> #[trigger] sv[j] != 0,
        count_search(sv, n as int, 0, r),
    ensures
        has_group(cards, n) == r.is_some(),
        r.is_some() ==> group_value(cards, n) == r.unwrap() as int || n <= 2,
{
    let s = widen(sv);
    assert(forall|j: int| 0 <= j < 5 ==> s[j] == sv[j] as int);
    if has_group(cards, n) {
        let v = choose|v: int| value_counts(cards).count(v) == n;
        assert(occurrences5(s, v) == n);
        let k: int = if s[0] == v { 0 } else if s[1] == v { 1 } else if s[2] == v { 2 } else if s[3]
            == v { 3 } else { 4 };
        assert(sv[k] as int == v);
        assert(occurrences5(s, sv[k] as int) == n);
    }
    if r.is_some() {
        let w = r.unwrap();
        assert(rank_count(cards, w as int) == n);
        if n > 2 {
            let v = group_value(cards, n);
            assert(occurrences5(s, v) == n);
        }
    }
}

/// What the searches for a first and a second value of count two tell of
/// the hand's pairs.
proof fn lemma_pair_search(cards: Seq<Card>, sv: Seq<u8>, pair: Option<u8>, second: Option<u8>)
    requires
        cards.len() == 5,
        sv.len() == 5,
        widen(sv) == sorted_values(cards),
        forall|v: int| #[trigger] value_counts(cards).count(v) == occurrences5(sorted_values(cards), v),
        forall|j: int| 0 <= j < 5 ==> #[trigger] sv[j] != 0,
        count_search(sv, 2, 0, pair),
        pair.is_none() ==> second.is_none(),
        pair.is_some() ==> count_search(sv, 2, pair.unwrap(), second),
    ensures
        has_two_pairs(cards) == second.is_some(),
        second.is_some() ==> high_pair(cards) == pair.unwrap() as int && low_pair(cards)
            == second.unwrap() as int,
        pair.is_some() && second.is_none() ==> group_value(cards, 2) == pair.unwrap() as int,
{
    let s = widen(sv);
    assert(forall|j: int| 0 <= j < 5 ==> s[j] == sv[j] as int);
    assert forall|v: int| occurrences5(s, v) > 0 implies exists|k: int| 0 <= k < 5 && #[trigger] sv[k] as int == v by {
        let k: int = if s[0] == v { 0 } else if s[1] == v { 1 } else if s[2] == v { 2 } else if s[3]
            == v { 3 } else { 4 };
        assert(sv[k] as int == v);
    }
    if has_two_pairs(cards) {
        let (a, b) = choose|a: int, b: int|
            a != b && value_counts(cards).count(a) == 2 && value_counts(cards).count(b) == 2;
        assert(occurrences5(s, a) == 2 && occurrences5(s, b) == 2);
        let ka = choose|k: int| 0 <= k < 5 && #[trigger] sv[k] as int == a;
        let kb = choose|k: int| 0 <= k < 5 && #[trigger] sv[k] as int == b;
        assert(occurrences5(s, sv[ka] as int) == 2);
        assert(occurrences5(s, sv[kb] as int) == 2);
        assert(pair.is_some());
    }
    if pair.is_some() {
        let p = pair.unwrap();
        assert(rank_count(cards, p as int) == 2);
        if let Some(q) = second {
            assert(rank_count(cards, q as int) == 2);
            assert(has_two_pairs(cards));
            assert forall|w: int| rank_count(cards, w) == 2 implies w <= p by {
                let k = choose|k: int| 0 <= k < 5 && #[trigger] sv[k] as int == w;
                assert(occurrences5(s, sv[k] as int) == 2);
            }
            let h = high_pair(cards);
            assert(rank_count(cards, h) == 2 && forall|w: int| rank_count(cards, w) == 2 ==> w <= h);
            assert(h == p as int);
            let l = low_pair(cards);
            assert(rank_count(cards, l) == 2 && l != h);
            assert(occurrences5(s, l) == 2);
            let kl = choose|k: int| 0 <= k < 5 && #[trigger] sv[k] as int == l;
            assert(occurrences5(s, sv[kl] as int) == 2);
            assert(l <= q as int);
            assert(occurrences5(s, p as int) == 2 && occurrences5(s, q as int) == 2);
            assert(l == q as int);
        } else {
            let g = group_value(cards, 2);
            assert(rank_count(cards, g) == 2);
            assert(occurrences5(s, g) == 2);
            let kg = choose|k: int| 0 <= k < 5 && #[trigger] sv[k] as int == g;
            assert(occurrences5(s, sv[kg] as int) == 2);
        }
    }
}

/// Classifies a five-card hand into its poker category, with the ranks
/// that break ties within the category. The order of the cards does not
/// matter, and cards need not be distinct.
pub fn evaluate_hand(hand: &[Card]) -> (r: HandRank)
    requires
        valid_hand(hand@),
    ensures
        r.wf(),
        r.key() == hand_key(hand@),
        r.category() == category_of(hand@),
{
    let sv = sorted_rank_values(hand);
    let ghost cards = hand@;
    let ghost s = widen(sv@);
    proof {
        lemma_rank_counts(cards);
    }
    let four = value_with_count(&sv, 4, 0);
    let three = value_with_count(&sv, 3, 0);
    let pair = value_with_count(&sv, 2, 0);
    let second_pair = match pair {
        Some(p) => value_with_count(&sv, 2, p),
        None => None,
    };
    let flush = hand[1].suit == hand[0].suit && hand[2].suit == hand[0].suit && hand[3].suit
        == hand[0].suit && hand[4].suit == hand[0].suit;
    let wheel = sv[0] == 14 && sv[1] == 5 && sv[2] == 4 && sv[3] == 3 && sv[4] == 2;
    let straight = sv[0] > sv[1] && sv[1] > sv[2] && sv[2] > sv[3] && sv[3] > sv[4] && (sv[0]
        - sv[4] == 4 || wheel);
    let high: u8 = if wheel {
        5
    } else {
        sv[0]
    };
    proof {
        assert(s == sorted_values(cards));
        assert(wheel <==> is_wheel(s)) by {
            if is_wheel(s) {
                assert(s[0] == 14 && s[1] == 5 && s[2] == 4 && s[3] == 3 && s[4] == 2);
            }
            if wheel {
                assert(s =~= seq![14int, 5, 4, 3, 2]);
            }
        }
        assert(straight == is_straight(cards));
        assert(high == straight_high(cards));
        assert(flush == is_flush(cards)) by {
            if flush {
                assert forall|i: int| 0 <= i < cards.len() implies #[trigger] cards[i].suit
                    == cards[0].suit by {
                    assert(0 <= i < 5);
                }
            }
        }
        assert(forall|j: int| 0 <= j < 5 ==> s[j] == sv@[j] as int);
        assert(forall|j: int| 0 <= j < 5 ==> sv@[j] != 0);
        lemma_group_search(cards, sv@, 4, four);
        lemma_group_search(cards, sv@, 3, three);
        lemma_group_search(cards, sv@, 2, pair);
        lemma_pair_search(cards, sv@, pair, second_pair);
    }
    if let Some(q) = four {
        HandRank::FourOfAKind(Rank::from_value(q))
    } else if three.is_some() && pair.is_some() {
        let t = three.unwrap();
        let p = pair.unwrap();
        HandRank::FullHouse(Rank::from_value(t), Rank::from_value(p))
    } else if flush && straight && high == 14 {
        HandRank::RoyalFlush
    } else if flush && straight {
        HandRank::StraightFlush(Rank::from_value(high))
    } else if let Some(t) = three {
        HandRank::ThreeOfAKind(Rank::from_value(t))
    } else if let Some(q) = second_pair {
        let p = pair.unwrap();
        HandRank::TwoPair(Rank::from_value(p), Rank::from_value(q))
    } else if let Some(p) = pair {
        HandRank::OnePair(Rank::from_value(p))
    } else if flush {
        HandRank::Flush(ranks_of_values(&sv))
    } else if straight {
        HandRank::Straight(Rank::from_value(high))
    } else {
        HandRank::HighCard(ranks_of_values(&sv))
    }
}

/// Every five-card hand falls into exactly one category, one of the ten
/// from high card (0) to royal flush (9), and any two classifications that
/// meet the contract of `evaluate_hand` for the same hand have that
/// category and rank equal.
pub proof fn lemma_classification_unique(cards: Seq<Card>, a: HandRank, b: HandRank)
    requires
        valid_hand(cards),
        a.key() == hand_key(cards),
        b.key() == hand_key(cards),
    ensures
        0 <= category_of(cards) <= 9,
        a.category() == category_of(cards),
        a.category() == b.category(),
        a.spec_compare(&b) == std::cmp::Ordering::Equal,
{
    assert(a.key()[0] == a.category());
    assert(b.key()[0] == b.category());
    lemma_compare_equal(a, b);
}

proof fn lemma_multiset_of_five<A>(s: Seq<A>)
    requires
        s.len() == 5,
    ensures
        forall|x: A| #[trigger] s.to_multiset().count(x) == occurrences5(s, x),
{
    broadcast use group_to_multiset_ensures, group_multiset_axioms;

    let e = Seq::<A>::empty();
    assert(e.to_multiset() =~= Multiset::empty());
    assert(s =~= e.push(s[0]).push(s[1]).push(s[2]).push(s[3]).push(s[4]));
}

/// A well-formed card has the rank `r` exactly when it is one of the four
/// cards of that rank.
proof fn lemma_card_of_rank(c: Card, r: Rank)
    requires
        c.wf(),
        r.wf(),
    ensures
        (if c.rank.spec_value() == r.spec_value() { 1int } else { 0int }) == (if c == (Card {
            suit: Suit::Spades,
            rank: r,
        }) { 1int } else { 0int }) + (if c == (Card { suit: Suit::Hearts, rank: r }) {
            1int
        } else {
            0int
        }) + (if c == (Card { suit: Suit::Diamonds, rank: r }) { 1int } else { 0int }) + (if c
            == (Card { suit: Suit::Clubs, rank: r }) { 1int } else { 0int }),
{
}

/// Counting a rank value in a hand counts the four cards of that rank.
proof fn lemma_value_count_by_suit(c: Seq<Card>, v: int)
    requires
        valid_hand(c),
        2 <= v <= 14,
    ensures
        occurrences5(hand_values(c), v) == occurrences5(
            c,
            Card { suit: Suit::Spades, rank: Rank::spec_from_value(v) },
        ) + occurrences5(c, Card { suit: Suit::Hearts, rank: Rank::spec_from_value(v) })
            + occurrences5(c, Card { suit: Suit::Diamonds, rank: Rank::spec_from_value(v) })
            + occurrences5(c, Card { suit: Suit::Clubs, rank: Rank::spec_from_value(v) }),
{
    let h = hand_values(c);
    let r = Rank::spec_from_value(v);
    assert(r.wf() && r.spec_value() == v);
    assert(c[0].wf() && c[1].wf() && c[2].wf() && c[3].wf() && c[4].wf());
    assert(h[0] == c[0].rank.spec_value() && h[1] == c[1].rank.spec_value() && h[2]
        == c[2].rank.spec_value() && h[3] == c[3].rank.spec_value() && h[4]
        == c[4].rank.spec_value());
    lemma_card_of_rank(c[0], r);
    lemma_card_of_rank(c[1], r);
    lemma_card_of_rank(c[2], r);
    lemma_card_of_rank(c[3], r);
    lemma_card_of_rank(c[4], r);
}

/// A rank value outside `2..=14` occurs in no hand of well-formed cards.
proof fn lemma_value_count_outside(c: Seq<Card>, v: int)
    requires
        valid_hand(c),
        !(2 <= v <= 14),
    ensures
        occurrences5(hand_values(c), v) == 0,
{
    let h = hand_values(c);
    assert(c[0].wf() && c[1].wf() && c[2].wf() && c[3].wf() && c[4].wf());
    assert(h[0] == c[0].rank.spec_value() && h[1] == c[1].rank.spec_value() && h[2]
        == c[2].rank.spec_value() && h[3] == c[3].rank.spec_value() && h[4]
        == c[4].rank.spec_value());
}

proof fn lemma_flush_agrees(c1: Seq<Card>, c2: Seq<Card>)
    requires
        c1.len() == 5,
        c2.len() == 5,
        is_flush(c1),
        forall|x: Card| occurrences5(c1, x) == occurrences5(c2, x),
    ensures
        is_flush(c2),
{
    assert(occurrences5(c1, c2[0]) == occurrences5(c2, c2[0]));
    assert forall|i: int| 0 <= i < c2.len() implies #[trigger] c2[i].suit == c2[0].suit by {
        assert(occurrences5(c1, c2[i]) == occurrences5(c2, c2[i]));
    }
}

/// The order in which a hand's cards come does not matter: two hands that
/// hold the same cards, each as often, classify alike.
pub proof fn lemma_order_irrelevant(c1: Seq<Card>, c2: Seq<Card>)
    requires
        valid_hand(c1),
        valid_hand(c2),
        c1.to_multiset() == c2.to_multiset(),
    ensures
        hand_key(c1) == hand_key(c2),
{
    lemma_multiset_of_five(c1);
    lemma_multiset_of_five(c2);
    let v1 = hand_values(c1);
    let v2 = hand_values(c2);
    lemma_multiset_of_five(v1);
    lemma_multiset_of_five(v2);
    assert forall|x: Card| occurrences5(c1, x) == occurrences5(c2, x) by {
        assert(c1.to_multiset().count(x) == occurrences5(c1, x));
        assert(c2.to_multiset().count(x) == occurrences5(c2, x));
    }
    assert forall|v: int| v1.to_multiset().count(v) == v2.to_multiset().count(v) by {
        if 2 <= v <= 14 {
            lemma_value_count_by_suit(c1, v);
            lemma_value_count_by_suit(c2, v);
            let r = Rank::spec_from_value(v);
            assert(occurrences5(c1, Card { suit: Suit::Spades, rank: r }) == occurrences5(
                c2,
                Card { suit: Suit::Spades, rank: r },
            ));
            assert(occurrences5(c1, Card { suit: Suit::Hearts, rank: r }) == occurrences5(
                c2,
                Card { suit: Suit::Hearts, rank: r },
            ));
            assert(occurrences5(c1, Card { suit: Suit::Diamonds, rank: r }) == occurrences5(
                c2,
                Card { suit: Suit::Diamonds, rank: r },
            ));
            assert(occurrences5(c1, Card { suit: Suit::Clubs, rank: r }) == occurrences5(
                c2,
                Card { suit: Suit::Clubs, rank: r },
            ));
        } else {
            lemma_value_count_outside(c1, v);
            lemma_value_count_outside(c2, v);
        }
    }
    assert(v1.to_multiset() =~= v2.to_multiset());
    lemma_descending_total();
    v1.lemma_sort_by_ensures(descending());
    v2.lemma_sort_by_ensures(descending());
    lemma_sorted_unique(v1.sort_by(descending()), v2.sort_by(descending()), descending());
    if is_flush(c1) {
        lemma_flush_agrees(c1, c2);
    }
    if is_flush(c2) {
        lemma_flush_agrees(c2, c1);
    }
}

} // verus!
