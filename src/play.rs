//! The actions a seat can take, and their fixed enumerations.

use vstd::prelude::*;

use crate::card::{card_at, card_index, playable_at, playable_position, Card, PlayableCardSubset};

verus! {

/// One action of the seat whose turn it is.
#[derive(Copy, Clone, PartialEq, Eq, Structural, Hash, Debug)]
pub enum Play {
    Discard(Card),
    Draw,
    PickupPile,
    PlaceWild(PlayableCardSubset),
    Play(PlayableCardSubset),
    GoOut,
}

/// The action at position `i` of [`Play::iterator`]: the fourteen discards,
/// going out, the pickup, the eleven plays, the eleven wild placements, the draw.
pub open spec fn play_at(i: int) -> Play {
    if i < 14 {
        Play::Discard(card_at(i))
    } else if i == 14 {
        Play::GoOut
    } else if i == 15 {
        Play::PickupPile
    } else if i < 27 {
        Play::Play(playable_at(i - 16))
    } else if i < 38 {
        Play::PlaceWild(playable_at(i - 27))
    } else {
        Play::Draw
    }
}

/// The dense index of an action in the action encoding: the fourteen
/// discards, the draw, the pickup, going out, the eleven wild placements,
/// the eleven plays.
pub open spec fn action_index(p: Play) -> int {
    match p {
        Play::Discard(c) => card_index(c),
        Play::Draw => 14,
        Play::PickupPile => 15,
        Play::GoOut => 16,
        Play::PlaceWild(q) => 17 + playable_position(q),
        Play::Play(q) => 28 + playable_position(q),
    }
}

/// The action with a given dense index.
pub open spec fn action_at(i: int) -> Play {
    if i < 14 {
        Play::Discard(card_at(i))
    } else if i == 14 {
        Play::Draw
    } else if i == 15 {
        Play::PickupPile
    } else if i == 16 {
        Play::GoOut
    } else if i < 28 {
        Play::PlaceWild(playable_at(i - 17))
    } else {
        Play::Play(playable_at(i - 28))
    }
}

/// The number of distinct actions.
pub const ACTION_COUNT: usize = 39;

impl Play {
    /// Every action once, in a fixed order.
    pub fn iterator() -> (r: Vec<Play>)
        ensures
            r@.len() == 39,
            forall|i: int| 0 <= i < 39 ==> #[trigger] r@[i] == play_at(i),
    {
        let mut r: Vec<Play> = Vec::new();
        let mut i: usize = 0;
        while i < 39
            invariant
                i <= 39,
                r@.len() == i,
                forall|j: int| 0 <= j < i ==> #[trigger] r@[j] == play_at(j),
            decreases 39 - i,
        {
            let p = if i < 14 {
                Play::Discard(Card::from_index(i))
            } else if i == 14 {
                Play::GoOut
            } else if i == 15 {
                Play::PickupPile
            } else if i < 27 {
                Play::Play(PlayableCardSubset::at_position(i - 16))
            } else if i < 38 {
                Play::PlaceWild(PlayableCardSubset::at_position(i - 27))
            } else {
                Play::Draw
            };
            r.push(p);
            i += 1;
        }
        r
    }
}

/// An action as handed to and from a policy.
#[derive(Copy, Clone, PartialEq, Eq, Structural, Hash, Debug)]
pub struct Action {
    pub play: Play,
}

impl Action {
    /// The dense index of this action, below [`ACTION_COUNT`].
    pub fn index(&self) -> (r: usize)
        ensures
            r == action_index(self.play),
            r < 39,
            action_at(r as int) == self.play,
    {
        match self.play {
            Play::Discard(c) => c.get_index(),
            Play::Draw => 14,
            Play::PickupPile => 15,
            Play::GoOut => 16,
            Play::PlaceWild(q) => 17 + q.position(),
            Play::Play(q) => 28 + q.position(),
        }
    }

    /// The action with dense index `i`.
    pub fn from_index(i: usize) -> (r: Action)
        requires
            i < 39,
        ensures
            r.play == action_at(i as int),
            action_index(r.play) == i,
    {
        let play = if i < 14 {
            Play::Discard(Card::from_index(i))
        } else if i == 14 {
            Play::Draw
        } else if i == 15 {
            Play::PickupPile
        } else if i == 16 {
            Play::GoOut
        } else if i < 28 {
            Play::PlaceWild(PlayableCardSubset::at_position(i - 17))
        } else {
            Play::Play(PlayableCardSubset::at_position(i - 28))
        };
        Action { play }
    }
}

} // verus!
