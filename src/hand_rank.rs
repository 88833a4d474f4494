use vstd::prelude::*;

use std::cmp::Ordering;

use crate::card::{rank_value, Rank};

verus! {

/// A classified hand: its poker category, with the ranks that break a tie
/// against another hand of the same category.
#[derive(Debug)]
pub enum HandRank {
    /// All five ranks, highest first.
    HighCard(Vec<Rank>),
    /// The paired rank.
    OnePair(Rank),
    /// The higher pair's rank, then the lower pair's.
    TwoPair(Rank, Rank),
    /// The tripled rank.
    ThreeOfAKind(Rank),
    /// The highest rank of the straight (Five for Ace-2-3-4-5).
    Straight(Rank),
    /// All five ranks, highest first.
    Flush(Vec<Rank>),
    /// The tripled rank, then the paired rank.
    FullHouse(Rank, Rank),
    /// The rank held four times.
    FourOfAKind(Rank),
    /// The highest rank of the straight (Five for Ace-2-3-4-5).
    StraightFlush(Rank),
    /// Ten, Jack, Queen, King and Ace of one suit.
    RoyalFlush,
}

/// The values of the ranks, in order.
pub open spec fn rank_values(rs: Seq<Rank>) -> Seq<int> {
    rs.map_values(|r: Rank| r.spec_value())
}

/// Lexicographic order of `a` and `b` from position `i` on; a proper
/// prefix comes first.
pub open spec fn lex_from(a: Seq<int>, b: Seq<int>, i: int) -> Ordering
    decreases a.len() - i,
{
    if i >= a.len() {
        if i >= b.len() {
            Ordering::Equal
        } else {
            Ordering::Less
        }
    } else if i >= b.len() {
        Ordering::Greater
    } else if a[i] < b[i] {
        Ordering::Less
    } else if a[i] > b[i] {
        Ordering::Greater
    } else {
        lex_from(a, b, i + 1)
    }
}

/// Lexicographic order of `a` and `b`.
pub open spec fn lex_order(a: Seq<int>, b: Seq<int>) -> Ordering {
    lex_from(a, b, 0)
}

/// The outcome of comparing the other way round.
pub open spec fn reversed(o: Ordering) -> Ordering {
    match o {
        Ordering::Less => Ordering::Greater,
        Ordering::Equal => Ordering::Equal,
        Ordering::Greater => Ordering::Less,
    }
}

impl HandRank {
    /// The category's place from worst (HighCard, 0) to best (RoyalFlush, 9).
    pub open spec fn category(&self) -> int {
        match self {
            HandRank::HighCard(_) => 0,
            HandRank::OnePair(_) => 1,
            HandRank::TwoPair(_, _) => 2,
            HandRank::ThreeOfAKind(_) => 3,
            HandRank::Straight(_) => 4,
            HandRank::Flush(_) => 5,
            HandRank::FullHouse(_, _) => 6,
            HandRank::FourOfAKind(_) => 7,
            HandRank::StraightFlush(_) => 8,
            HandRank::RoyalFlush => 9,
        }
    }

    /// The values of the tie-break ranks, in the order they are compared.
    pub open spec fn payload(&self) -> Seq<int> {
        match self {
            HandRank::HighCard(v) => rank_values(v@),
            HandRank::OnePair(r) => seq![r.spec_value()],
            HandRank::TwoPair(a, b) => seq![a.spec_value(), b.spec_value()],
            HandRank::ThreeOfAKind(r) => seq![r.spec_value()],
            HandRank::Straight(r) => seq![r.spec_value()],
            HandRank::Flush(v) => rank_values(v@),
            HandRank::FullHouse(a, b) => seq![a.spec_value(), b.spec_value()],
            HandRank::FourOfAKind(r) => seq![r.spec_value()],
            HandRank::StraightFlush(r) => seq![r.spec_value()],
            HandRank::RoyalFlush => seq![],
        }
    }

    /// The sort key: the category first, then the tie-break values.
    pub open spec fn key(&self) -> Seq<int> {
        seq![self.category()] + self.payload()
    }

    /// Every rank it holds is well formed.
    pub open spec fn wf(&self) -> bool {
        match self {
            HandRank::HighCard(v) => forall|i: int| 0 <= i < v@.len() ==> (#[trigger] v@[i]).wf(),
            HandRank::OnePair(r) => r.wf(),
            HandRank::TwoPair(a, b) => a.wf() && b.wf(),
            HandRank::ThreeOfAKind(r) => r.wf(),
            HandRank::Straight(r) => r.wf(),
            HandRank::Flush(v) => forall|i: int| 0 <= i < v@.len() ==> (#[trigger] v@[i]).wf(),
            HandRank::FullHouse(a, b) => a.wf() && b.wf(),
            HandRank::FourOfAKind(r) => r.wf(),
            HandRank::StraightFlush(r) => r.wf(),
            HandRank::RoyalFlush => true,
        }
    }

    /// How the two compare: by category first, then by the tie-break ranks
    /// in order.
    pub open spec fn spec_compare(&self, other: &HandRank) -> Ordering {
        lex_order(self.key(), other.key())
    }
}

/// Comparing the other way round reverses the outcome.
pub proof fn lemma_lex_reverse(a: Seq<int>, b: Seq<int>, i: int)
    requires
        0 <= i,
    ensures
        lex_from(b, a, i) == reversed(lex_from(a, b, i)),
    decreases a.len() - i,
{
    if i < a.len() && i < b.len() && a[i] == b[i] {
        lemma_lex_reverse(a, b, i + 1);
    }
}

/// Being lexicographically below is transitive.
pub proof fn lemma_lex_less_transitive(a: Seq<int>, b: Seq<int>, c: Seq<int>, i: int)
    requires
        0 <= i,
        lex_from(a, b, i) == Ordering::Less,
        lex_from(b, c, i) == Ordering::Less,
    ensures
        lex_from(a, c, i) == Ordering::Less,
    decreases a.len() - i,
{
    if i < a.len() && i < b.len() && i < c.len() && a[i] == b[i] && b[i] == c[i] {
        lemma_lex_less_transitive(a, b, c, i + 1);
    }
}

/// Sequences that compare equal from `i` on agree from `i` on.
pub proof fn lemma_lex_equal(a: Seq<int>, b: Seq<int>, i: int)
    requires
        0 <= i <= a.len(),
        i <= b.len(),
        lex_from(a, b, i) == Ordering::Equal,
    ensures
        a.len() == b.len(),
        a.subrange(i, a.len() as int) =~= b.subrange(i, b.len() as int),
    decreases a.len() - i,
{
    if i < a.len() {
        lemma_lex_equal(a, b, i + 1);
        assert(a.subrange(i, a.len() as int) =~= seq![a[i]] + a.subrange(i + 1, a.len() as int));
        assert(b.subrange(i, b.len() as int) =~= seq![b[i]] + b.subrange(i + 1, b.len() as int));
    }
}

/// A sequence compares equal to itself.
pub proof fn lemma_lex_same(a: Seq<int>, i: int)
    requires
        0 <= i,
    ensures
        lex_from(a, a, i) == Ordering::Equal,
    decreases a.len() - i,
{
    if i < a.len() {
        lemma_lex_same(a, i + 1);
    }
}

/// A key no greater than a second, which is below a third, is below the third.
pub proof fn lemma_lex_at_most_then_less(a: Seq<int>, b: Seq<int>, c: Seq<int>)
    requires
        lex_order(a, b) != Ordering::Greater,
        lex_order(b, c) == Ordering::Less,
    ensures
        lex_order(a, c) == Ordering::Less,
{
    if lex_order(a, b) == Ordering::Equal {
        if a.len() == 0 {
            assert(b.len() == 0);
        } else {
            lemma_lex_equal(a, b, 0);
            assert(a =~= a.subrange(0, a.len() as int));
            assert(b =~= b.subrange(0, b.len() as int));
        }
    } else {
        lemma_lex_less_transitive(a, b, c, 0);
    }
}

/// Comparing two classified hands the other way round reverses the
/// outcome, and a hand ranks equal to itself.
pub proof fn lemma_compare_antisymmetric(a: HandRank, b: HandRank)
    ensures
        b.spec_compare(&a) == reversed(a.spec_compare(&b)),
        a.spec_compare(&a) == Ordering::Equal,
{
    lemma_lex_reverse(a.key(), b.key(), 0);
    lemma_lex_same(a.key(), 0);
}

/// The order over classified hands is transitive: if `a` ranks below `b`
/// and `b` below `c`, then `a` ranks below `c`.
pub proof fn lemma_compare_transitive(a: HandRank, b: HandRank, c: HandRank)
    requires
        a.spec_compare(&b) == Ordering::Less,
        b.spec_compare(&c) == Ordering::Less,
    ensures
        a.spec_compare(&c) == Ordering::Less,
{
    lemma_lex_less_transitive(a.key(), b.key(), c.key(), 0);
}

/// Two classified hands rank equal exactly when they have the same
/// category and the same tie-break ranks.
pub proof fn lemma_compare_equal(a: HandRank, b: HandRank)
    ensures
        a.spec_compare(&b) == Ordering::Equal <==> a.key() == b.key(),
{
    if a.spec_compare(&b) == Ordering::Equal {
        lemma_lex_equal(a.key(), b.key(), 0);
        assert(a.key() =~= a.key().subrange(0, a.key().len() as int));
        assert(b.key() =~= b.key().subrange(0, b.key().len() as int));
    }
    if a.key() == b.key() {
        lemma_lex_same(a.key(), 0);
    }
}

/// The category decides alone between hands of different categories,
/// whatever their tie-break ranks: a better category always ranks higher.
pub proof fn lemma_category_decides(a: HandRank, b: HandRank)
    requires
        a.category() > b.category(),
    ensures
        a.spec_compare(&b) == Ordering::Greater,
        b.spec_compare(&a) == Ordering::Less,
{
    assert(a.key()[0] == a.category());
    assert(b.key()[0] == b.category());
}

/// The bytes as integers.
pub open spec fn widen(v: Seq<u8>) -> Seq<int> {
    v.map_values(|x: u8| x as int)
}

/// Appends the values of `rs` to `out`.
fn push_values(out: &mut Vec<u8>, rs: &Vec<Rank>)
    ensures
        widen(final(out)@) == widen(old(out)@) + rank_values(rs@),
{
    let ghost start = out@;
    let mut i: usize = 0;
    while i < rs.len()
        invariant
            i <= rs@.len(),
            widen(out@) == widen(start) + rank_values(rs@.take(i as int)),
        decreases rs@.len() - i,
    {
        let v = rank_value(&rs[i]);
        let ghost prev = out@;
        out.push(v);
        assert(widen(out@) =~= widen(prev).push(v as int));
        i = i + 1;
        assert(rs@.take(i as int) =~= rs@.take(i - 1).push(rs@[i - 1]));
        assert(rank_values(rs@.take(i as int)) =~= rank_values(rs@.take(i - 1)).push(
            rs@[i - 1].spec_value(),
        ));
        assert(widen(out@) =~= widen(start) + rank_values(rs@.take(i as int)));
    }
    assert(rs@.take(i as int) =~= rs@);
}

/// Orders `a` against `b` lexicographically.
fn lex_compare(a: &Vec<u8>, b: &Vec<u8>) -> (o: Ordering)
    ensures
        o == lex_order(widen(a@), widen(b@)),
{
    let ghost (wa, wb) = (widen(a@), widen(b@));
    let mut i: usize = 0;
    while i < a.len() && i < b.len()
        invariant
            i <= a@.len(),
            i <= b@.len(),
            wa == widen(a@),
            wb == widen(b@),
            lex_from(wa, wb, 0) == lex_from(wa, wb, i as int),
        decreases a@.len() - i,
    {
        assert(wa[i as int] == a@[i as int] as int && wb[i as int] == b@[i as int] as int);
        if a[i] < b[i] {
            return Ordering::Less;
        } else if a[i] > b[i] {
            return Ordering::Greater;
        }
        i = i + 1;
    }
    if i < a.len() {
        Ordering::Greater
    } else if i < b.len() {
        Ordering::Less
    } else {
        Ordering::Equal
    }
}

impl HandRank {
    /// The category's place from worst (HighCard, 0) to best (RoyalFlush, 9).
    pub fn category_index(&self) -> (c: u8)
        ensures
            c as int == self.category(),
    {
        match self {
            HandRank::HighCard(_) => 0,
            HandRank::OnePair(_) => 1,
            HandRank::TwoPair(_, _) => 2,
            HandRank::ThreeOfAKind(_) => 3,
            HandRank::Straight(_) => 4,
            HandRank::Flush(_) => 5,
            HandRank::FullHouse(_, _) => 6,
            HandRank::FourOfAKind(_) => 7,
            HandRank::StraightFlush(_) => 8,
            HandRank::RoyalFlush => 9,
        }
    }

    /// The sort key as bytes: the category, then the tie-break values.
    pub fn key_values(&self) -> (k: Vec<u8>)
        ensures
            widen(k@) == self.key(),
    {
        let mut k: Vec<u8> = Vec::new();
        k.push(self.category_index());
        match self {
            HandRank::HighCard(v) => push_values(&mut k, v),
            HandRank::Flush(v) => push_values(&mut k, v),
            HandRank::OnePair(r) => k.push(rank_value(r)),
            HandRank::ThreeOfAKind(r) => k.push(rank_value(r)),
            HandRank::Straight(r) => k.push(rank_value(r)),
            HandRank::FourOfAKind(r) => k.push(rank_value(r)),
            HandRank::StraightFlush(r) => k.push(rank_value(r)),
            HandRank::TwoPair(a, b) => {
                k.push(rank_value(a));
                k.push(rank_value(b));
            },
            HandRank::FullHouse(a, b) => {
                k.push(rank_value(a));
                k.push(rank_value(b));
            },
            HandRank::RoyalFlush => {},
        }
        assert(widen(k@) =~= self.key());
        k
    }

    /// Compares two classified hands: by category first, then by the
    /// tie-break ranks in order.
    pub fn compare(&self, other: &HandRank) -> (o: Ordering)
        ensures
            o == self.spec_compare(other),
    {
        let a = self.key_values();
        let b = other.key_values();
        lex_compare(&a, &b)
    }
}

/// Two classified hands are equal when they rank equal: the same category
/// and the same tie-break ranks.
impl PartialEq for HandRank {
    fn eq(&self, other: &HandRank) -> (r: bool) {
        proof {
            lemma_compare_equal(*self, *other);
        }
        match self.compare(other) {
            Ordering::Equal => true,
            _ => false,
        }
    }
}

impl vstd::std_specs::cmp::PartialEqSpecImpl for HandRank {
    open spec fn obeys_eq_spec() -> bool {
        true
    }

    open spec fn eq_spec(&self, other: &HandRank) -> bool {
        self.key() == other.key()
    }
}

} // verus!
