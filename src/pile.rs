//! Sequences of cards: counting ranks in them, the deck, and the draw pile.

use rand::seq::SliceRandom;
use vstd::prelude::*;

use crate::card::{card_at, card_index, lemma_card_index_bijective, Card};

verus! {

/// How many cards of rank `c` a sequence holds.
pub open spec fn count_of(s: Seq<Card>, c: Card) -> int
    decreases s.len(),
{
    if s.len() == 0 {
        0
    } else {
        count_of(s.drop_last(), c) + if s.last() == c {
            1int
        } else {
            0int
        }
    }
}

/// How many cards of a rank one deck holds: two jokers, two threes and
/// four of every other rank.
pub open spec fn deck_copies(c: Card) -> int {
    if c == Card::Joker || c == Card::Three {
        2
    } else {
        4
    }
}

/// Whether `s` holds exactly the cards of `decks` decks.
pub open spec fn is_deck(s: Seq<Card>, decks: int) -> bool {
    forall|c: Card| #[trigger] count_of(s, c) == decks * deck_copies(c)
}

pub proof fn lemma_count_push(s: Seq<Card>, a: Card, c: Card)
    ensures
        count_of(s.push(a), c) == count_of(s, c) + if a == c {
            1int
        } else {
            0int
        },
{
    assert(s.push(a).drop_last() =~= s);
}

pub proof fn lemma_count_nonneg(s: Seq<Card>, c: Card)
    ensures
        0 <= count_of(s, c) <= s.len(),
    decreases s.len(),
{
    if s.len() > 0 {
        lemma_count_nonneg(s.drop_last(), c);
    }
}

pub proof fn lemma_count_empty(c: Card)
    ensures
        count_of(Seq::<Card>::empty(), c) == 0,
{
}

/// Counts add over concatenation.
pub proof fn lemma_count_concat(s: Seq<Card>, t: Seq<Card>, c: Card)
    ensures
        count_of(s + t, c) == count_of(s, c) + count_of(t, c),
    decreases t.len(),
{
    if t.len() == 0 {
        assert(s + t =~= s);
    } else {
        assert((s + t).drop_last() =~= s + t.drop_last());
        lemma_count_concat(s, t.drop_last(), c);
    }
}

/// Whether `cards` holds exactly the cards of `decks` decks, in any order.
pub fn is_standard_deck(cards: &Vec<Card>, decks: u8) -> (r: bool)
    ensures
        r == is_deck(cards@, decks as int),
{
    proof {
        lemma_card_index_bijective();
    }
    let mut counts: [usize; 14] = [0; 14];
    let mut k: usize = 0;
    while k < cards.len()
        invariant
            k <= cards@.len(),
            forall|j: int| 0 <= j < 14 ==> #[trigger] counts@[j] == count_of(cards@.take(k as int), card_at(j)),
            forall|j: int| 0 <= j < 14 ==> #[trigger] counts@[j] <= k,
        decreases cards@.len() - k,
    {
        let c = cards[k];
        assert(cards@.take(k + 1) =~= cards@.take(k as int).push(c));
        proof {
            assert forall|j: int| 0 <= j < 14 implies count_of(cards@.take(k + 1), card_at(j))
                == count_of(cards@.take(k as int), card_at(j)) + if c == card_at(j) {
                1int
            } else {
                0int
            } by {
                lemma_count_push(cards@.take(k as int), c, card_at(j));
            }
        }
        let i = c.get_index();
        counts[i] = counts[i] + 1;
        k += 1;
    }
    assert(cards@.take(k as int) =~= cards@);
    let mut i: usize = 0;
    while i < 14
        invariant
            i <= 14,
            k == cards@.len(),
            forall|j: int| 0 <= j < 14 ==> #[trigger] counts@[j] == count_of(cards@, card_at(j)),
            forall|j: int| 0 <= j < i ==> count_of(cards@, #[trigger] card_at(j)) == decks * deck_copies(card_at(j)),
        decreases 14 - i,
    {
        let c = Card::from_index(i);
        let copies: usize = if i == 0 || i == 2 {
            2
        } else {
            4
        };
        if counts[i] != (decks as usize) * copies {
            return false;
        }
        i += 1;
    }
    proof {
        assert forall|c: Card| #[trigger] count_of(cards@, c) == decks * deck_copies(c) by {
            assert(card_at(card_index(c)) == c);
        }
    }
    true
}

/// The cards not yet dealt or drawn; the last card is the top.
#[derive(Clone, PartialEq, Eq, Hash, Debug)]
pub struct DrawPile {
    cards: Vec<Card>,
}

impl View for DrawPile {
    type V = Seq<Card>;

    closed spec fn view(&self) -> Seq<Card> {
        self.cards@
    }
}

impl DrawPile {
    /// The cards of `decks` decks, unshuffled.
    pub fn new(decks: u8) -> (r: DrawPile)
        ensures
            is_deck(r@, decks as int),
            r@.len() == 52 * decks,
    {
        proof {
            lemma_card_index_bijective();
        }
        let mut cards: Vec<Card> = Vec::new();
        let mut d: u8 = 0;
        while d < decks
            invariant
                d <= decks,
                cards@.len() == 52 * d,
                forall|c: Card| #[trigger] count_of(cards@, c) == d * deck_copies(c),
            decreases decks - d,
        {
            proof {
                lemma_card_index_bijective();
            }
            let mut i: usize = 0;
            while i < 14
                invariant
                    i <= 14,
                    d < decks,
                    forall|c: Card| #[trigger] count_of(cards@, c) == d * deck_copies(c) + if card_index(c) < i {
                        deck_copies(c)
                    } else {
                        0
                    },
                    cards@.len() == 52 * d + (if i == 0 { 0int } else if i <= 2 { 2 + 4 * (i - 1) } else { 4 * i - 4 }),
                decreases 14 - i,
            {
                let card = Card::from_index(i);
                let copies: usize = if i == 0 || i == 2 {
                    2
                } else {
                    4
                };
                let mut k: usize = 0;
                while k < copies
                    invariant
                        i < 14,
                        k <= copies,
                        copies == deck_copies(card),
                        card == card_at(i as int),
                        forall|c: Card| #[trigger] count_of(cards@, c) == d * deck_copies(c) + (if card_index(c) < i {
                            deck_copies(c)
                        } else {
                            0
                        }) + if c == card {
                            k as int
                        } else {
                            0
                        },
                        cards@.len() == 52 * d + (if i == 0 { 0int } else if i <= 2 { 2 + 4 * (i - 1) } else { 4 * i - 4 }) + k,
                    decreases copies - k,
                {
                    proof {
                        assert forall|c: Card| #[trigger] count_of(cards@.push(card), c) == count_of(cards@, c) + if card == c {
                            1int
                        } else {
                            0int
                        } by {
                            lemma_count_push(cards@, card, c);
                        }
                    }
                    cards.push(card);
                    k += 1;
                }
                i += 1;
            }
            proof {
                lemma_card_index_bijective();
                assert forall|c: Card| #[trigger] count_of(cards@, c) == (d + 1) * deck_copies(c) by {
                    assert((d + 1) * deck_copies(c) == d * deck_copies(c) + deck_copies(c))
                        by (nonlinear_arith);
                }
            }
            d += 1;
        }
        DrawPile { cards }
    }

    /// A pile that holds `cards`, the last of them on top.
    pub fn from_cards(cards: Vec<Card>) -> (r: DrawPile)
        ensures
            r@ == cards@,
    {
        DrawPile { cards }
    }

    /// Puts the cards in a random order.
    ///
    /// Relies on rand's `SliceRandom::shuffle`, which only swaps cards: the
    /// result holds the same cards, each rank as often as before.
    #[verifier::external_body]
    pub(crate) fn shuffle(&mut self)
        ensures
            final(self)@.len() == old(self)@.len(),
            forall|c: Card| #[trigger] count_of(final(self)@, c) == count_of(old(self)@, c),
    {
        let mut rng = rand::thread_rng();
        self.cards.as_mut_slice().shuffle(&mut rng);
    }

    /// Takes the top card, if there is one.
    pub fn draw(&mut self) -> (r: Option<Card>)
        ensures
            old(self)@.len() == 0 ==> r is None && final(self)@ == old(self)@,
            old(self)@.len() > 0 ==> r == Some(old(self)@.last()) && final(self)@
                == old(self)@.drop_last(),
    {
        self.cards.pop()
    }

    pub fn is_empty(&self) -> (r: bool)
        ensures
            r == (self@.len() == 0),
    {
        self.cards.len() == 0
    }

    /// The cards, the top last.
    pub fn cards(&self) -> (r: &Vec<Card>)
        ensures
            r@ == self@,
    {
        &self.cards
    }

    pub fn len(&self) -> (r: usize)
        ensures
            r == self@.len(),
    {
        self.cards.len()
    }
}

} // verus!
