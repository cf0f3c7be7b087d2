//! A seat's hand: how many cards of each rank it holds.

use vstd::prelude::*;

use crate::card::{card_at, card_index, card_value, Card};
use crate::sums::{lemma_sum_element, lemma_sum_update, sum};

verus! {

/// The cards a seat holds, as a count for each rank.
#[derive(Copy, Clone, PartialEq, Eq, Hash, Debug)]
pub struct Hand {
    hand: [u8; 14],
}

impl View for Hand {
    type V = Seq<int>;

    /// The count of each rank, by rank index.
    closed spec fn view(&self) -> Seq<int> {
        self.hand@.map_values(|x: u8| x as int)
    }
}

/// The points that the cards of a hand count for: each card its rank's value.
pub open spec fn hand_points(counts: Seq<int>) -> int {
    sum(Seq::new(counts.len(), |i: int| counts[i] * card_value(card_at(i))))
}

impl Hand {
    /// Fourteen counts, each of which fits a byte.
    pub proof fn lemma_view(&self)
        ensures
            self@.len() == 14,
            forall|i: int| 0 <= i < 14 ==> 0 <= #[trigger] self@[i] <= 255,
    {
    }

    /// How many cards of rank `c` the hand holds.
    pub open spec fn count(&self, c: Card) -> int {
        self@[card_index(c)]
    }

    /// How many cards the hand holds.
    pub open spec fn size(&self) -> int {
        sum(self@)
    }

    pub fn new() -> (r: Hand)
        ensures
            r@ == Seq::new(14, |i: int| 0int),
            r.size() == 0,
    {
        let r = Hand { hand: [0; 14] };
        assert(r@ =~= Seq::new(14, |i: int| 0int));
        proof {
            lemma_sum_zero(14);
        }
        r
    }

    pub fn get(&self, card: Card) -> (r: u8)
        ensures
            r == self.count(card),
    {
        self.hand[card.get_index()]
    }

    pub fn add(&mut self, card: Card, count: u8)
        requires
            old(self).count(card) + count <= 255,
        ensures
            final(self)@ == old(self)@.update(card_index(card), old(self).count(card) + count),
            final(self).size() == old(self).size() + count,
    {
        proof {
            self.lemma_view();
            lemma_sum_update(self@, card_index(card), self.count(card) + count);
        }
        let i = card.get_index();
        self.hand[i] = self.hand[i] + count;
        assert(self@ =~= old(self)@.update(card_index(card), old(self).count(card) + count));
    }

    /// Takes `count` cards of rank `card` out of the hand, which must hold them.
    pub fn remove(&mut self, card: Card, count: u8)
        requires
            count <= old(self).count(card),
        ensures
            final(self)@ == old(self)@.update(card_index(card), old(self).count(card) - count),
            final(self).size() == old(self).size() - count,
    {
        proof {
            self.lemma_view();
            lemma_sum_update(self@, card_index(card), self.count(card) - count);
        }
        let i = card.get_index();
        self.hand[i] = self.hand[i] - count;
        assert(self@ =~= old(self)@.update(card_index(card), old(self).count(card) - count));
    }

    pub fn is_empty(&self) -> (r: bool)
        ensures
            r == (self.size() == 0),
            r == (forall|i: int| 0 <= i < 14 ==> #[trigger] self@[i] == 0),
    {
        proof {
            self.lemma_view();
        }
        let mut i: usize = 0;
        while i < 14
            invariant
                i <= 14,
                forall|j: int| 0 <= j < i ==> #[trigger] self@[j] == 0,
            decreases 14 - i,
        {
            if self.hand[i] > 0 {
                proof {
                    lemma_sum_element(self@, i as int);
                }
                return false;
            }
            i += 1;
        }
        proof {
            assert(self@ =~= Seq::new(14, |i: int| 0int));
            lemma_sum_zero(14);
        }
        true
    }

    /// The points of the cards held.
    pub fn get_score(&self) -> (r: u32)
        ensures
            r == hand_points(self@),
            r <= 178500,
    {
        proof {
            self.lemma_view();
        }
        let ghost terms = Seq::new(14, |i: int| self@[i] * card_value(card_at(i)));
        let mut score: u32 = 0;
        let mut i: usize = 0;
        while i < 14
            invariant
                i <= 14,
                terms.len() == 14,
                forall|j: int| 0 <= j < 14 ==> #[trigger] terms[j] == self@[j] * card_value(card_at(j)),
                forall|j: int| 0 <= j < 14 ==> 0 <= #[trigger] self@[j] <= 255,
                score == sum(terms.take(i as int)),
                score <= 12750 * i,
            decreases 14 - i,
        {
            let c = Card::from_index(i);
            let v = c.get_value();
            assert(terms.take(i + 1).drop_last() =~= terms.take(i as int));
            assert(self.hand[i as int] == self@[i as int]);
            assert(self@[i as int] * card_value(c) <= 12750) by (nonlinear_arith)
                requires
                    0 <= self@[i as int] <= 255,
                    0 <= card_value(c) <= 50,
            ;
            score = score + (self.hand[i] as u32) * (v as u32);
            i += 1;
        }
        assert(terms.take(14) =~= terms);
        score
    }

    pub fn get_hand_size(&self) -> (r: u16)
        ensures
            r == self.size(),
    {
        proof {
            self.lemma_view();
        }
        let mut size: u16 = 0;
        let mut i: usize = 0;
        while i < 14
            invariant
                i <= 14,
                self@.len() == 14,
                forall|j: int| 0 <= j < 14 ==> 0 <= #[trigger] self@[j] <= 255,
                size == sum(self@.take(i as int)),
                size <= 255 * i,
            decreases 14 - i,
        {
            assert(self@.take(i + 1).drop_last() =~= self@.take(i as int));
            assert(self.hand[i as int] == self@[i as int]);
            size = size + self.hand[i] as u16;
            i += 1;
        }
        assert(self@.take(14) =~= self@);
        size
    }
}

/// A sequence of zeros sums to zero.
proof fn lemma_sum_zero(n: nat)
    ensures
        sum(Seq::new(n, |i: int| 0int)) == 0,
    decreases n,
{
    if n > 0 {
        assert(Seq::new(n, |i: int| 0int).drop_last() =~= Seq::new((n - 1) as nat, |i: int| 0int));
        lemma_sum_zero((n - 1) as nat);
    }
}

} // verus!
