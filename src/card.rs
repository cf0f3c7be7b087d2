//! Card ranks, their scoring values and their dense indices.

use vstd::prelude::*;

verus! {

/// One of the fourteen ranks. Suits play no part in this game.
#[derive(Copy, Clone, PartialEq, Eq, Structural, Hash, Debug)]
pub enum Card {
    Joker,
    Two,
    Three,
    Four,
    Five,
    Six,
    Seven,
    Eight,
    Nine,
    Ten,
    Jack,
    Queen,
    King,
    Ace,
}

/// The dense index of a rank, from 0 (joker) to 13 (ace).
pub open spec fn card_index(c: Card) -> int {
    match c {
        Card::Joker => 0,
        Card::Two => 1,
        Card::Three => 2,
        Card::Four => 3,
        Card::Five => 4,
        Card::Six => 5,
        Card::Seven => 6,
        Card::Eight => 7,
        Card::Nine => 8,
        Card::Ten => 9,
        Card::Jack => 10,
        Card::Queen => 11,
        Card::King => 12,
        Card::Ace => 13,
    }
}

/// The rank at a dense index; meaningful for indices 0 to 13.
pub open spec fn card_at(i: int) -> Card {
    if i <= 0 {
        Card::Joker
    } else if i == 1 {
        Card::Two
    } else if i == 2 {
        Card::Three
    } else if i == 3 {
        Card::Four
    } else if i == 4 {
        Card::Five
    } else if i == 5 {
        Card::Six
    } else if i == 6 {
        Card::Seven
    } else if i == 7 {
        Card::Eight
    } else if i == 8 {
        Card::Nine
    } else if i == 9 {
        Card::Ten
    } else if i == 10 {
        Card::Jack
    } else if i == 11 {
        Card::Queen
    } else if i == 12 {
        Card::King
    } else {
        Card::Ace
    }
}

/// The point value of a rank.
pub open spec fn card_value(c: Card) -> int {
    match c {
        Card::Joker => 50,
        Card::Two => 20,
        Card::Ace => 20,
        Card::Three | Card::Four | Card::Five | Card::Six | Card::Seven => 5,
        _ => 10,
    }
}

/// Jokers and twos stand in for any rank on a meld.
pub open spec fn is_wild(c: Card) -> bool {
    c == Card::Joker || c == Card::Two
}

/// The short label of a rank.
pub open spec fn card_label(c: Card) -> Seq<char> {
    match c {
        Card::Joker => seq!['J'],
        Card::Two => seq!['2'],
        Card::Three => seq!['3'],
        Card::Four => seq!['4'],
        Card::Five => seq!['5'],
        Card::Six => seq!['6'],
        Card::Seven => seq!['7'],
        Card::Eight => seq!['8'],
        Card::Nine => seq!['9'],
        Card::Ten => seq!['1', '0'],
        Card::Jack => seq!['J'],
        Card::Queen => seq!['Q'],
        Card::King => seq!['K'],
        Card::Ace => seq!['A'],
    }
}

/// The full name of a rank.
pub open spec fn card_name(c: Card) -> Seq<char> {
    match c {
        Card::Joker => seq!['J', 'o', 'k', 'e', 'r'],
        Card::Two => seq!['T', 'w', 'o'],
        Card::Three => seq!['T', 'h', 'r', 'e', 'e'],
        Card::Four => seq!['F', 'o', 'u', 'r'],
        Card::Five => seq!['F', 'i', 'v', 'e'],
        Card::Six => seq!['S', 'i', 'x'],
        Card::Seven => seq!['S', 'e', 'v', 'e', 'n'],
        Card::Eight => seq!['E', 'i', 'g', 'h', 't'],
        Card::Nine => seq!['N', 'i', 'n', 'e'],
        Card::Ten => seq!['T', 'e', 'n'],
        Card::Jack => seq!['J', 'a', 'c', 'k'],
        Card::Queen => seq!['Q', 'u', 'e', 'e', 'n'],
        Card::King => seq!['K', 'i', 'n', 'g'],
        Card::Ace => seq!['A', 'c', 'e'],
    }
}

/// The index and the rank at it are inverse to each other.
pub proof fn lemma_card_index_bijective()
    ensures
        forall|c: Card| 0 <= #[trigger] card_index(c) < 14 && card_at(card_index(c)) == c,
        forall|i: int| 0 <= i < 14 ==> card_index(#[trigger] card_at(i)) == i,
{
}

impl Card {
    /// The short label of the rank (a joker and a jack both read "J").
    pub fn to_string(&self) -> (r: &'static str)
        ensures
            r@ == card_label(*self),
    {
        match self {
            Card::Joker => {
                proof {
                    reveal_strlit("J");
                }
                "J"
            },
            Card::Two => {
                proof {
                    reveal_strlit("2");
                }
                "2"
            },
            Card::Three => {
                proof {
                    reveal_strlit("3");
                }
                "3"
            },
            Card::Four => {
                proof {
                    reveal_strlit("4");
                }
                "4"
            },
            Card::Five => {
                proof {
                    reveal_strlit("5");
                }
                "5"
            },
            Card::Six => {
                proof {
                    reveal_strlit("6");
                }
                "6"
            },
            Card::Seven => {
                proof {
                    reveal_strlit("7");
                }
                "7"
            },
            Card::Eight => {
                proof {
                    reveal_strlit("8");
                }
                "8"
            },
            Card::Nine => {
                proof {
                    reveal_strlit("9");
                }
                "9"
            },
            Card::Ten => {
                proof {
                    reveal_strlit("10");
                }
                "10"
            },
            Card::Jack => {
                proof {
                    reveal_strlit("J");
                }
                "J"
            },
            Card::Queen => {
                proof {
                    reveal_strlit("Q");
                }
                "Q"
            },
            Card::King => {
                proof {
                    reveal_strlit("K");
                }
                "K"
            },
            Card::Ace => {
                proof {
                    reveal_strlit("A");
                }
                "A"
            },
        }
    }

    pub fn get_index(&self) -> (r: usize)
        ensures
            r == card_index(*self),
            r < 14,
    {
        match self {
            Card::Joker => 0,
            Card::Two => 1,
            Card::Three => 2,
            Card::Four => 3,
            Card::Five => 4,
            Card::Six => 5,
            Card::Seven => 6,
            Card::Eight => 7,
            Card::Nine => 8,
            Card::Ten => 9,
            Card::Jack => 10,
            Card::Queen => 11,
            Card::King => 12,
            Card::Ace => 13,
        }
    }

    pub fn from_index(i: usize) -> (r: Card)
        requires
            i < 14,
        ensures
            r == card_at(i as int),
            card_index(r) == i,
    {
        match i {
            0 => Card::Joker,
            1 => Card::Two,
            2 => Card::Three,
            3 => Card::Four,
            4 => Card::Five,
            5 => Card::Six,
            6 => Card::Seven,
            7 => Card::Eight,
            8 => Card::Nine,
            9 => Card::Ten,
            10 => Card::Jack,
            11 => Card::Queen,
            12 => Card::King,
            _ => Card::Ace,
        }
    }

    pub fn get_value(&self) -> (r: u16)
        ensures
            r == card_value(*self),
    {
        match self {
            Card::Joker => 50,
            Card::Two => 20,
            Card::Three => 5,
            Card::Four => 5,
            Card::Five => 5,
            Card::Six => 5,
            Card::Seven => 5,
            Card::Eight => 10,
            Card::Nine => 10,
            Card::Ten => 10,
            Card::Jack => 10,
            Card::Queen => 10,
            Card::King => 10,
            Card::Ace => 20,
        }
    }

    /// The full name of the rank.
    pub fn name(&self) -> (r: &'static str)
        ensures
            r@ == card_name(*self),
    {
        match self {
            Card::Joker => {
                proof {
                    reveal_strlit("Joker");
                }
                "Joker"
            },
            Card::Two => {
                proof {
                    reveal_strlit("Two");
                }
                "Two"
            },
            Card::Three => {
                proof {
                    reveal_strlit("Three");
                }
                "Three"
            },
            Card::Four => {
                proof {
                    reveal_strlit("Four");
                }
                "Four"
            },
            Card::Five => {
                proof {
                    reveal_strlit("Five");
                }
                "Five"
            },
            Card::Six => {
                proof {
                    reveal_strlit("Six");
                }
                "Six"
            },
            Card::Seven => {
                proof {
                    reveal_strlit("Seven");
                }
                "Seven"
            },
            Card::Eight => {
                proof {
                    reveal_strlit("Eight");
                }
                "Eight"
            },
            Card::Nine => {
                proof {
                    reveal_strlit("Nine");
                }
                "Nine"
            },
            Card::Ten => {
                proof {
                    reveal_strlit("Ten");
                }
                "Ten"
            },
            Card::Jack => {
                proof {
                    reveal_strlit("Jack");
                }
                "Jack"
            },
            Card::Queen => {
                proof {
                    reveal_strlit("Queen");
                }
                "Queen"
            },
            Card::King => {
                proof {
                    reveal_strlit("King");
                }
                "King"
            },
            Card::Ace => {
                proof {
                    reveal_strlit("Ace");
                }
                "Ace"
            },
        }
    }

    /// The label used when a board or a hand is listed.
    pub fn get_simple_string(&self) -> (r: &'static str)
        ensures
            r@ == card_label(*self),
    {
        self.to_string()
    }

    /// All fourteen ranks in index order.
    pub fn iterator() -> (r: Vec<Card>)
        ensures
            r@.len() == 14,
            forall|i: int| 0 <= i < 14 ==> #[trigger] r@[i] == card_at(i),
    {
        let mut r: Vec<Card> = Vec::new();
        let mut i: usize = 0;
        while i < 14
            invariant
                i <= 14,
                r@.len() == i,
                forall|j: int| 0 <= j < i ==> #[trigger] r@[j] == card_at(j),
            decreases 14 - i,
        {
            r.push(Card::from_index(i));
            i += 1;
        }
        r
    }

    pub fn is_wild(&self) -> (r: bool)
        ensures
            r == is_wild(*self),
    {
        match self {
            Card::Joker | Card::Two => true,
            _ => false,
        }
    }
}

/// The two wild ranks.
#[derive(Copy, Clone, PartialEq, Eq, Structural, Hash, Debug)]
pub enum WildCardSubset {
    Joker,
    Two,
}

/// The ranks that may be melded, four through ace.
#[derive(Copy, Clone, PartialEq, Eq, Structural, Hash, Debug)]
pub enum PlayableCardSubset {
    Four,
    Five,
    Six,
    Seven,
    Eight,
    Nine,
    Ten,
    Jack,
    Queen,
    King,
    Ace,
}

/// The rank that a meldable rank stands for.
pub open spec fn playable_card(p: PlayableCardSubset) -> Card {
    match p {
        PlayableCardSubset::Four => Card::Four,
        PlayableCardSubset::Five => Card::Five,
        PlayableCardSubset::Six => Card::Six,
        PlayableCardSubset::Seven => Card::Seven,
        PlayableCardSubset::Eight => Card::Eight,
        PlayableCardSubset::Nine => Card::Nine,
        PlayableCardSubset::Ten => Card::Ten,
        PlayableCardSubset::Jack => Card::Jack,
        PlayableCardSubset::Queen => Card::Queen,
        PlayableCardSubset::King => Card::King,
        PlayableCardSubset::Ace => Card::Ace,
    }
}

/// The rank that a wild rank stands for.
pub open spec fn wild_card(w: WildCardSubset) -> Card {
    match w {
        WildCardSubset::Joker => Card::Joker,
        WildCardSubset::Two => Card::Two,
    }
}

/// The meldable rank at position `i` (0 for four, 10 for ace).
pub open spec fn playable_at(i: int) -> PlayableCardSubset {
    if i <= 0 {
        PlayableCardSubset::Four
    } else if i == 1 {
        PlayableCardSubset::Five
    } else if i == 2 {
        PlayableCardSubset::Six
    } else if i == 3 {
        PlayableCardSubset::Seven
    } else if i == 4 {
        PlayableCardSubset::Eight
    } else if i == 5 {
        PlayableCardSubset::Nine
    } else if i == 6 {
        PlayableCardSubset::Ten
    } else if i == 7 {
        PlayableCardSubset::Jack
    } else if i == 8 {
        PlayableCardSubset::Queen
    } else if i == 9 {
        PlayableCardSubset::King
    } else {
        PlayableCardSubset::Ace
    }
}

impl From<PlayableCardSubset> for Card {
    fn from(card_subset: PlayableCardSubset) -> (r: Card) {
        match card_subset {
            PlayableCardSubset::Four => Card::Four,
            PlayableCardSubset::Five => Card::Five,
            PlayableCardSubset::Six => Card::Six,
            PlayableCardSubset::Seven => Card::Seven,
            PlayableCardSubset::Eight => Card::Eight,
            PlayableCardSubset::Nine => Card::Nine,
            PlayableCardSubset::Ten => Card::Ten,
            PlayableCardSubset::Jack => Card::Jack,
            PlayableCardSubset::Queen => Card::Queen,
            PlayableCardSubset::King => Card::King,
            PlayableCardSubset::Ace => Card::Ace,
        }
    }
}

impl vstd::std_specs::convert::FromSpecImpl<PlayableCardSubset> for Card {
    open spec fn obeys_from_spec() -> bool {
        true
    }

    open spec fn from_spec(v: PlayableCardSubset) -> Card {
        playable_card(v)
    }
}

impl From<WildCardSubset> for Card {
    fn from(wild_card_subset: WildCardSubset) -> (r: Card) {
        match wild_card_subset {
            WildCardSubset::Joker => Card::Joker,
            WildCardSubset::Two => Card::Two,
        }
    }
}

impl vstd::std_specs::convert::FromSpecImpl<WildCardSubset> for Card {
    open spec fn obeys_from_spec() -> bool {
        true
    }

    open spec fn from_spec(v: WildCardSubset) -> Card {
        wild_card(v)
    }
}

/// The position of a meldable rank among the eleven, four first.
pub open spec fn playable_position(p: PlayableCardSubset) -> int {
    card_index(playable_card(p)) - 3
}

impl PlayableCardSubset {
    pub fn position(&self) -> (r: usize)
        ensures
            r == playable_position(*self),
            r < 11,
            playable_at(r as int) == *self,
    {
        match self {
            PlayableCardSubset::Four => 0,
            PlayableCardSubset::Five => 1,
            PlayableCardSubset::Six => 2,
            PlayableCardSubset::Seven => 3,
            PlayableCardSubset::Eight => 4,
            PlayableCardSubset::Nine => 5,
            PlayableCardSubset::Ten => 6,
            PlayableCardSubset::Jack => 7,
            PlayableCardSubset::Queen => 8,
            PlayableCardSubset::King => 9,
            PlayableCardSubset::Ace => 10,
        }
    }

    pub fn at_position(i: usize) -> (r: PlayableCardSubset)
        requires
            i < 11,
        ensures
            r == playable_at(i as int),
            playable_position(r) == i,
    {
        match i {
            0 => PlayableCardSubset::Four,
            1 => PlayableCardSubset::Five,
            2 => PlayableCardSubset::Six,
            3 => PlayableCardSubset::Seven,
            4 => PlayableCardSubset::Eight,
            5 => PlayableCardSubset::Nine,
            6 => PlayableCardSubset::Ten,
            7 => PlayableCardSubset::Jack,
            8 => PlayableCardSubset::Queen,
            9 => PlayableCardSubset::King,
            _ => PlayableCardSubset::Ace,
        }
    }

    /// The eleven meldable ranks, four first.
    pub fn iterator() -> (r: Vec<PlayableCardSubset>)
        ensures
            r@.len() == 11,
            forall|i: int| 0 <= i < 11 ==> #[trigger] r@[i] == playable_at(i),
    {
        let r: Vec<PlayableCardSubset> = vec![
            PlayableCardSubset::Four,
            PlayableCardSubset::Five,
            PlayableCardSubset::Six,
            PlayableCardSubset::Seven,
            PlayableCardSubset::Eight,
            PlayableCardSubset::Nine,
            PlayableCardSubset::Ten,
            PlayableCardSubset::Jack,
            PlayableCardSubset::Queen,
            PlayableCardSubset::King,
            PlayableCardSubset::Ace,
        ];
        r
    }
}

} // verus!
