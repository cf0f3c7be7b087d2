//! A team's melds: at most one per rank, shared by all the team's seats.

use vstd::prelude::*;

use crate::card::{card_at, card_index, card_value, Card};
use crate::sums::{lemma_sum_bounds, sum};

verus! {

/// One meld: its rank, and how many jokers, twos and natural cards it holds.
#[derive(Copy, Clone, PartialEq, Eq, Structural, Hash, Debug)]
pub struct BoardStack {
    pub card_type: Card,
    pub jokers: u8,
    pub twos: u8,
    pub card_count: u8,
}

/// How many cards a meld holds.
pub open spec fn stack_total(s: BoardStack) -> int {
    s.jokers + s.twos + s.card_count
}

/// A canasta is a meld of seven cards or more.
pub open spec fn stack_is_canasta(s: BoardStack) -> bool {
    stack_total(s) >= 7
}

/// A dirty meld holds a wild card.
pub open spec fn stack_is_dirty(s: BoardStack) -> bool {
    s.jokers > 0 || s.twos > 0
}

/// The face value of a meld's cards, bonus aside.
pub open spec fn stack_score(s: BoardStack) -> int {
    50 * s.jokers + 20 * s.twos + card_value(s.card_type) * s.card_count
}

/// What a meld counts for on the board: its cards' values, plus 500 for a
/// clean canasta or 300 for a dirty one.
pub open spec fn meld_points(s: BoardStack) -> int {
    stack_score(s) + if stack_is_canasta(s) {
        if stack_is_dirty(s) {
            300int
        } else {
            500int
        }
    } else {
        0int
    }
}

/// A measure of a slot: its value when occupied, else nothing.
pub open spec fn of_slot(o: Option<BoardStack>, f: spec_fn(BoardStack) -> int) -> int {
    match o {
        Some(s) => f(s),
        None => 0,
    }
}

pub open spec fn slot_points(o: Option<BoardStack>) -> int {
    of_slot(o, |s: BoardStack| meld_points(s))
}

pub open spec fn slot_canasta(o: Option<BoardStack>) -> int {
    of_slot(o, |s: BoardStack| if stack_is_canasta(s) { 1int } else { 0int })
}

pub open spec fn slot_jokers(o: Option<BoardStack>) -> int {
    of_slot(o, |s: BoardStack| s.jokers as int)
}

pub open spec fn slot_twos(o: Option<BoardStack>) -> int {
    of_slot(o, |s: BoardStack| s.twos as int)
}

pub open spec fn slot_naturals(o: Option<BoardStack>) -> int {
    of_slot(o, |s: BoardStack| s.card_count as int)
}

/// The number of canastas among the slots.
pub open spec fn canasta_count(piles: Seq<Option<BoardStack>>) -> int {
    sum(piles.map_values(|o: Option<BoardStack>| slot_canasta(o)))
}

/// The points of the slots, with 100 more for the team that went out.
pub open spec fn board_points(piles: Seq<Option<BoardStack>>, went_out: bool) -> int {
    (if went_out { 100int } else { 0int }) + sum(piles.map_values(|o: Option<BoardStack>| slot_points(o)))
}

/// How many cards of rank `c` lie on the slots: the naturals of its own meld,
/// and for a joker or a two those placed as wild cards on every meld.
pub open spec fn board_rank_count(piles: Seq<Option<BoardStack>>, c: Card) -> int {
    slot_naturals(piles[card_index(c)])
        + if c == Card::Joker {
            sum(piles.map_values(|o: Option<BoardStack>| slot_jokers(o)))
        } else {
            0int
        }
        + if c == Card::Two {
            sum(piles.map_values(|o: Option<BoardStack>| slot_twos(o)))
        } else {
            0int
        }
}

/// The meld that adding jokers, twos and naturals to a slot of rank `c` leaves.
pub open spec fn grown(o: Option<BoardStack>, c: Card, dj: int, dt: int, dn: int) -> BoardStack {
    match o {
        Some(s) => BoardStack {
            card_type: c,
            jokers: (s.jokers + dj) as u8,
            twos: (s.twos + dt) as u8,
            card_count: (s.card_count + dn) as u8,
        },
        None => BoardStack { card_type: c, jokers: dj as u8, twos: dt as u8, card_count: dn as u8 },
    }
}

/// A clean canasta of seven naturals counts its cards and 500; with a joker
/// in place of one natural it counts six naturals, the joker's 50 and 300.
pub proof fn lemma_canasta_scoring(c: Card)
    ensures
        meld_points(BoardStack { card_type: c, jokers: 0, twos: 0, card_count: 7 }) == card_value(c)
            * 7 + 500,
        meld_points(BoardStack { card_type: c, jokers: 1, twos: 0, card_count: 6 }) == card_value(c)
            * 6 + 50 + 300,
{
}

impl BoardStack {
    pub fn new(card_type: Card, jokers: u8, twos: u8, card_count: u8) -> (r: BoardStack)
        ensures
            r == (BoardStack { card_type, jokers, twos, card_count }),
    {
        BoardStack { card_type, jokers, twos, card_count }
    }

    pub fn get_score(&self) -> (r: u16)
        ensures
            r == stack_score(*self),
    {
        let v = self.card_type.get_value();
        assert((self.card_count as u16) * v <= 12750) by (nonlinear_arith)
            requires
                self.card_count <= 255,
                v <= 50,
        ;
        (self.jokers as u16) * 50 + (self.twos as u16) * 20 + (self.card_count as u16) * v
    }

    pub fn is_canasta(&self) -> (r: bool)
        ensures
            r == stack_is_canasta(*self),
    {
        self.get_total_count() >= 7
    }

    pub fn is_dirty(&self) -> (r: bool)
        ensures
            r == stack_is_dirty(*self),
    {
        self.jokers > 0 || self.twos > 0
    }

    pub fn get_total_count(&self) -> (r: u16)
        ensures
            r == stack_total(*self),
    {
        self.jokers as u16 + self.twos as u16 + self.card_count as u16
    }
}

/// A team's melds, one slot per rank index.
#[derive(Copy, Clone, PartialEq, Eq, Hash, Debug)]
pub struct Board {
    piles: [Option<BoardStack>; 14],
    down: bool,
    went_out: bool,
}

impl Board {
    /// The fourteen slots, by rank index.
    pub closed spec fn slots(&self) -> Seq<Option<BoardStack>> {
        self.piles@
    }

    /// Whether the team has placed a meld.
    pub closed spec fn down(&self) -> bool {
        self.down
    }

    /// Whether the team ended the hand.
    pub closed spec fn went_out(&self) -> bool {
        self.went_out
    }

    /// Each occupied slot holds a meld of its own rank.
    pub open spec fn wf(&self) -> bool {
        &&& self.slots().len() == 14
        &&& forall|i: int|
            0 <= i < 14 && (#[trigger] self.slots()[i]) is Some ==> self.slots()[i]->0.card_type
                == card_at(i)
    }

    pub open spec fn num_canastas(&self) -> int {
        canasta_count(self.slots())
    }

    pub open spec fn points(&self) -> int {
        board_points(self.slots(), self.went_out())
    }

    pub open spec fn meld(&self, c: Card) -> Option<BoardStack> {
        self.slots()[card_index(c)]
    }

    pub fn new() -> (r: Board)
        ensures
            r.wf(),
            r.slots() == Seq::new(14, |i: int| None::<BoardStack>),
            !r.down(),
            !r.went_out(),
            r.points() == 0,
            r.num_canastas() == 0,
    {
        let r = Board { piles: [None; 14], down: false, went_out: false };
        assert(r.slots() =~= Seq::new(14, |i: int| None::<BoardStack>));
        proof {
            lemma_sum_bounds(r.slots().map_values(|o: Option<BoardStack>| slot_points(o)), 0, 0);
            lemma_sum_bounds(r.slots().map_values(|o: Option<BoardStack>| slot_canasta(o)), 0, 0);
        }
        r
    }

    /// The points the board counts for: every meld with its canasta bonus,
    /// and 100 if the team went out.
    pub fn get_score(&self) -> (r: u32)
        ensures
            r == self.points(),
    {
        let ghost terms = self.slots().map_values(|o: Option<BoardStack>| slot_points(o));
        let mut score: u32 = if self.went_out {
            100
        } else {
            0
        };
        let mut i: usize = 0;
        while i < 14
            invariant
                i <= 14,
                terms == self.slots().map_values(|o: Option<BoardStack>| slot_points(o)),
                self.slots().len() == 14,
                score == (if self.went_out() { 100int } else { 0int }) + sum(terms.take(i as int)),
                score <= 100 + 31200 * i,
            decreases 14 - i,
        {
            assert(terms.take(i + 1).drop_last() =~= terms.take(i as int));
            assert(self.piles[i as int] == self.slots()[i as int]);
            if let Some(stack) = self.piles[i] {
                let base = stack.get_score();
                let bonus: u32 = if stack.is_canasta() {
                    if stack.is_dirty() {
                        300
                    } else {
                        500
                    }
                } else {
                    0
                };
                score = score + base as u32 + bonus;
            }
            i += 1;
        }
        assert(terms.take(14) =~= terms);
        score
    }

    pub fn get(&self, card: Card) -> (r: Option<BoardStack>)
        ensures
            r == self.meld(card),
    {
        self.piles[card.get_index()]
    }

    pub fn is_down(&self) -> (r: bool)
        ensures
            r == self.down(),
    {
        self.down
    }

    pub fn has_gone_out(&self) -> (r: bool)
        ensures
            r == self.went_out(),
    {
        self.went_out
    }

    /// Records that the team ended the hand.
    pub fn set_went_out(&mut self)
        ensures
            final(self).slots() == old(self).slots(),
            final(self).down() == old(self).down(),
            final(self).went_out(),
    {
        self.went_out = true;
    }

    /// Adds `count` natural cards to the meld of rank `card`, starting it if
    /// there is none, and marks the team down.
    pub fn place_card(&mut self, card: Card, count: u8)
        requires
            slot_naturals(old(self).meld(card)) + count <= 255,
        ensures
            final(self).slots() == old(self).slots().update(
                card_index(card),
                Some(grown(old(self).meld(card), card, 0, 0, count as int)),
            ),
            final(self).down(),
            final(self).went_out() == old(self).went_out(),
    {
        self.down = true;
        let i = card.get_index();
        match self.piles[i] {
            Some(pile) => {
                self.piles[i] = Some(
                    BoardStack {
                        card_type: card,
                        jokers: pile.jokers,
                        twos: pile.twos,
                        card_count: pile.card_count + count,
                    },
                );
            },
            None => {
                self.piles[i] = Some(
                    BoardStack { card_type: card, jokers: 0, twos: 0, card_count: count },
                );
            },
        }
        assert(self.slots() =~= old(self).slots().update(
            card_index(card),
            Some(grown(old(self).meld(card), card, 0, 0, count as int)),
        ));
    }

    /// Adds a joker to the meld of rank `card`.
    pub fn place_joker(&mut self, card: Card)
        requires
            slot_jokers(old(self).meld(card)) < 255,
        ensures
            final(self).slots() == old(self).slots().update(
                card_index(card),
                Some(grown(old(self).meld(card), card, 1, 0, 0)),
            ),
            final(self).down() == old(self).down(),
            final(self).went_out() == old(self).went_out(),
    {
        let i = card.get_index();
        match self.piles[i] {
            Some(pile) => {
                self.piles[i] = Some(
                    BoardStack {
                        card_type: card,
                        jokers: pile.jokers + 1,
                        twos: pile.twos,
                        card_count: pile.card_count,
                    },
                );
            },
            None => {
                self.piles[i] = Some(
                    BoardStack { card_type: card, jokers: 1, twos: 0, card_count: 0 },
                );
            },
        }
        assert(self.slots() =~= old(self).slots().update(
            card_index(card),
            Some(grown(old(self).meld(card), card, 1, 0, 0)),
        ));
    }

    /// Adds a two to the meld of rank `card`.
    pub fn place_two(&mut self, card: Card)
        requires
            slot_twos(old(self).meld(card)) < 255,
        ensures
            final(self).slots() == old(self).slots().update(
                card_index(card),
                Some(grown(old(self).meld(card), card, 0, 1, 0)),
            ),
            final(self).down() == old(self).down(),
            final(self).went_out() == old(self).went_out(),
    {
        let i = card.get_index();
        match self.piles[i] {
            Some(pile) => {
                self.piles[i] = Some(
                    BoardStack {
                        card_type: card,
                        jokers: pile.jokers,
                        twos: pile.twos + 1,
                        card_count: pile.card_count,
                    },
                );
            },
            None => {
                self.piles[i] = Some(
                    BoardStack { card_type: card, jokers: 0, twos: 1, card_count: 0 },
                );
            },
        }
        assert(self.slots() =~= old(self).slots().update(
            card_index(card),
            Some(grown(old(self).meld(card), card, 0, 1, 0)),
        ));
    }

    /// How many melds are canastas.
    pub fn get_num_canastas(&self) -> (r: u8)
        ensures
            r == self.num_canastas(),
    {
        let ghost terms = self.slots().map_values(|o: Option<BoardStack>| slot_canasta(o));
        let mut count: u8 = 0;
        let mut i: usize = 0;
        while i < 14
            invariant
                i <= 14,
                terms == self.slots().map_values(|o: Option<BoardStack>| slot_canasta(o)),
                self.slots().len() == 14,
                count == sum(terms.take(i as int)),
                count <= i,
            decreases 14 - i,
        {
            assert(terms.take(i + 1).drop_last() =~= terms.take(i as int));
            assert(self.piles[i as int] == self.slots()[i as int]);
            if let Some(stack) = self.piles[i] {
                if stack.is_canasta() {
                    count = count + 1;
                }
            }
            i += 1;
        }
        assert(terms.take(14) =~= terms);
        count
    }
}

} // verus!
