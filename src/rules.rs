//! The rules of the game over a mathematical model of its state: which
//! actions are legal, and what each action leaves behind.

use vstd::prelude::*;

use crate::board::{
    board_points, board_rank_count, canasta_count, grown, slot_jokers, slot_twos, stack_total,
    BoardStack,
};
use crate::hand::hand_points;
use crate::card::{card_at, card_index, is_wild, playable_card, Card};
use crate::pile::{count_of, deck_copies};
use crate::play::Play;
use crate::sums::{lemma_sum_element, lemma_sum_nonneg, sum};

verus! {

/// A team's melds as the rules see them.
pub struct TeamView {
    /// One slot per rank index.
    pub slots: Seq<Option<BoardStack>>,
    pub down: bool,
    pub went_out: bool,
}

/// The whole state of a game as the rules see it.
pub struct GameView {
    /// The draw pile; its last card is the top.
    pub draw: Seq<Card>,
    /// The discard pile; its last card is the top.
    pub discard: Seq<Card>,
    /// For each seat, its count of each rank.
    pub hands: Seq<Seq<int>>,
    /// For each observing seat and each seat, the net count of each rank that
    /// seat gained since the observer last acted.
    pub knowledge: Seq<Seq<Seq<int>>>,
    /// One board per team; seat `s` plays for team `s % teams`.
    pub boards: Seq<TeamView>,
    pub teams: int,
    pub per_team: int,
    pub decks: int,
    pub finished: bool,
    pub frozen: bool,
    /// Whether the seat on turn has drawn or picked up this turn.
    pub drawn: bool,
    /// The seat on turn.
    pub turn: int,
    pub total_turns: int,
}

pub open spec fn seats(v: GameView) -> int {
    v.teams * v.per_team
}

pub open spec fn cur_hand(v: GameView) -> Seq<int> {
    v.hands[v.turn]
}

pub open spec fn cur_team(v: GameView) -> int {
    v.turn % v.teams
}

pub open spec fn cur_board(v: GameView) -> TeamView {
    v.boards[cur_team(v)]
}

/// How many cards of rank `c` the seat on turn holds.
pub open spec fn held(v: GameView, c: Card) -> int {
    cur_hand(v)[card_index(c)]
}

/// How many cards the seat on turn holds.
pub open spec fn hand_size(v: GameView) -> int {
    sum(cur_hand(v))
}

/// How many wild cards the seat on turn holds.
pub open spec fn wilds_held(v: GameView) -> int {
    held(v, Card::Joker) + held(v, Card::Two)
}

/// How many canastas the team on turn has.
pub open spec fn canastas(v: GameView) -> int {
    canasta_count(cur_board(v).slots)
}

/// The team's meld of rank `c`, if any.
pub open spec fn meld_of(v: GameView, c: Card) -> Option<BoardStack> {
    cur_board(v).slots[card_index(c)]
}

/// The wild card a seat spends: a joker while it holds one, else a two.
pub open spec fn wild_choice(h: Seq<int>) -> Card {
    if h[card_index(Card::Joker)] > 0 {
        Card::Joker
    } else {
        Card::Two
    }
}

/// Whether a meld of rank `c` has six cards that one more card makes a
/// canasta, while the team has exactly one canasta.
pub open spec fn completes_second_canasta(v: GameView, c: Card) -> bool {
    canastas(v) == 1 && meld_of(v, c) is Some && stack_total(meld_of(v, c)->0) == 6
}

/// Whether a meld could take one more wild card without wild cards
/// outnumbering its naturals less one.
pub open spec fn takes_wild(s: BoardStack) -> bool {
    s.twos + s.jokers + 1 <= s.card_count
}

/// Picking up the discard pile, before drawing: onto the team's meld of the
/// top card's rank while the pile is not frozen; or, when the pile is large
/// enough for the hand, with a natural pair of the top card (a natural, not
/// a wild card or a three), and while the pile is open and the team down
/// also holding a wild card.
pub open spec fn pickup_legal(v: GameView) -> bool {
    let n = v.discard.len();
    let top = v.discard.last();
    let h = hand_size(v);
    &&& n > 0
    &&& !v.drawn
    &&& {
        ||| (meld_of(v, top) is Some && h + n - 1 >= 2 && !v.frozen)
        ||| {
            &&& !(h <= 3 && n == 1)
            &&& !(h <= 2 && n == 2)
            &&& !is_wild(top) && top != Card::Three
            &&& if v.frozen || !cur_board(v).down {
                held(v, top) >= 2
            } else {
                wilds_held(v) >= 1 && held(v, top) >= 2
            }
        }
    }
}

/// Adding a wild card to the team's meld of rank `c`, after drawing; with
/// two cards or fewer and under two canastas only to make the second
/// canasta out of a meld of six.
pub open spec fn place_wild_legal(v: GameView, c: Card) -> bool {
    &&& v.drawn
    &&& if hand_size(v) <= 2 && canastas(v) < 2 {
        &&& completes_second_canasta(v, c)
        &&& hand_size(v) == 2
        &&& wilds_held(v) >= 1
        &&& takes_wild(meld_of(v, c)->0)
    } else {
        &&& meld_of(v, c) is Some
        &&& wilds_held(v) >= 1
        &&& takes_wild(meld_of(v, c)->0)
    }
}

/// Playing rank `c`: extending the team's meld of it, or starting one with
/// three naturals, or two and a wild card, when the hand left after those
/// three cards holds at least five (four once the team has two canastas).
pub open spec fn play_legal(v: GameView, c: Card) -> bool {
    let h = hand_size(v);
    &&& held(v, c) != 0
    &&& v.drawn
    &&& h != 1
    &&& !(h == 2 && canastas(v) < 2 && !completes_second_canasta(v, c))
    &&& (meld_of(v, c) is Some || ((held(v, c) >= 3 || (held(v, c) == 2 && wilds_held(v) >= 1))
        && (h - 3 >= 5 || (h - 3 >= 4 && canastas(v) >= 2))))
}

/// Going out, after drawing, with two canastas: the hand holds one card
/// besides its threes, and no threes or three or more of them.
pub open spec fn go_out_legal(v: GameView) -> bool {
    let threes = held(v, Card::Three);
    &&& v.drawn
    &&& canastas(v) >= 2
    &&& hand_size(v) - threes == 1
    &&& (threes >= 3 || threes == 0)
}

/// Whether the seat on turn may take action `p`.
pub open spec fn legal(v: GameView, p: Play) -> bool {
    match p {
        Play::GoOut => go_out_legal(v),
        Play::PickupPile => pickup_legal(v),
        Play::PlaceWild(q) => place_wild_legal(v, playable_card(q)),
        Play::Draw => !v.drawn,
        Play::Discard(c) => v.drawn && held(v, c) > 0 && (canastas(v) >= 2 || hand_size(v) > 1),
        Play::Play(q) => play_legal(v, playable_card(q)),
    }
}

/// Whether an action ends the turn.
pub open spec fn ends_turn(p: Play) -> bool {
    p is Discard || p is GoOut
}

/// The index of the first rank from `i` on that a hand holds exactly once, or 14.
pub open spec fn first_single(h: Seq<int>, i: int) -> int
    decreases 14 - i,
{
    if i >= 14 {
        14
    } else if h[i] == 1 {
        i
    } else {
        first_single(h, i + 1)
    }
}

/// A hand with `d` added to the count of rank `c`.
pub open spec fn moved(h: Seq<int>, c: Card, d: int) -> Seq<int> {
    h.update(card_index(c), h[card_index(c)] + d)
}

/// A hand that took in the cards of a pile.
pub open spec fn with_pile(h: Seq<int>, pile: Seq<Card>) -> Seq<int> {
    Seq::new(h.len(), |r: int| h[r] + count_of(pile, card_at(r)))
}

/// A team board with one slot replaced, now down.
pub open spec fn placed(b: TeamView, c: Card, s: BoardStack) -> TeamView {
    TeamView { slots: b.slots.update(card_index(c), Some(s)), down: true, went_out: b.went_out }
}

/// A meld grown by one wild card `w`.
pub open spec fn grown_wild(o: Option<BoardStack>, c: Card, w: Card) -> BoardStack {
    if w == Card::Joker {
        grown(o, c, 1, 0, 0)
    } else {
        grown(o, c, 0, 1, 0)
    }
}

/// The state with the seat on turn holding `h` and its team's board `b`.
pub open spec fn with_seat(v: GameView, h: Seq<int>, b: TeamView) -> GameView {
    GameView {
        hands: v.hands.update(v.turn, h),
        boards: v.boards.update(cur_team(v), b),
        ..v
    }
}

/// The turn passed on to the next seat.
pub open spec fn next_turn(v: GameView) -> GameView {
    GameView {
        turn: (v.turn + 1) % seats(v),
        total_turns: v.total_turns + 1,
        drawn: false,
        ..v
    }
}

/// What the action itself does, before others learn of it.
pub open spec fn act(v: GameView, p: Play) -> GameView {
    let h = cur_hand(v);
    let b = cur_board(v);
    match p {
        Play::Draw => {
            let top = v.draw.last();
            GameView { draw: v.draw.drop_last(), drawn: true, ..with_seat(v, moved(h, top, 1), b) }
        },
        Play::Discard(c) => {
            let w = with_seat(v, moved(h, c, -1), b);
            GameView {
                discard: v.discard.push(c),
                frozen: v.frozen || is_wild(c),
                finished: v.finished || v.draw.len() == 0,
                ..next_turn(w)
            }
        },
        Play::GoOut => {
            let c = card_at(first_single(h, 0));
            let threes = h[card_index(Card::Three)];
            let h2 = moved(moved(h, c, -1), Card::Three, -threes);
            let b2 = TeamView { went_out: true, ..b };
            let w = with_seat(v, h2, b2);
            GameView {
                discard: v.discard.push(c) + Seq::new(threes as nat, |i: int| Card::Three),
                frozen: v.frozen || is_wild(c),
                finished: true,
                ..next_turn(w)
            }
        },
        Play::PickupPile => {
            let top = v.discard.last();
            let wc = wild_choice(h);
            let slot = b.slots[card_index(top)];
            let (h1, b1) = if slot is None || v.frozen {
                if h[card_index(top)] >= 2 {
                    (moved(h, top, -2), placed(b, top, grown(slot, top, 0, 0, 3)))
                } else {
                    (
                        moved(moved(h, top, -1), wc, -1),
                        placed(b, top, grown_wild(Some(grown(slot, top, 0, 0, 2)), top, wc)),
                    )
                }
            } else {
                (h, placed(b, top, grown(slot, top, 0, 0, 1)))
            };
            let h2 = moved(with_pile(h1, v.discard), top, -1);
            GameView {
                discard: Seq::empty(),
                frozen: false,
                drawn: true,
                ..with_seat(v, h2, b1)
            }
        },
        Play::PlaceWild(q) => {
            let c = playable_card(q);
            let wc = wild_choice(h);
            let slot = b.slots[card_index(c)];
            with_seat(v, moved(h, wc, -1), TeamView {
                slots: b.slots.update(card_index(c), Some(grown_wild(slot, c, wc))),
                ..b
            })
        },
        Play::Play(q) => {
            let c = playable_card(q);
            let slot = b.slots[card_index(c)];
            if slot is Some {
                with_seat(v, moved(h, c, -1), placed(b, c, grown(slot, c, 0, 0, 1)))
            } else if h[card_index(c)] >= 3 {
                with_seat(v, moved(h, c, -3), placed(b, c, grown(slot, c, 0, 0, 3)))
            } else {
                let wc = if h[card_index(Card::Joker)] >= 1 {
                    Card::Joker
                } else {
                    Card::Two
                };
                with_seat(
                    v,
                    moved(moved(h, wc, -1), c, -2),
                    placed(b, c, grown(Some(grown_wild(slot, c, wc)), c, 0, 0, 2)),
                )
            }
        },
    }
}

/// Every other seat learns how the hand of seat `s` changed from `before`
/// to `after`; seat `s` itself starts counting afresh.
pub open spec fn learn(k: Seq<Seq<Seq<int>>>, s: int, before: Seq<int>, after: Seq<int>) -> Seq<
    Seq<Seq<int>>,
> {
    Seq::new(
        k.len(),
        |o: int|
            if o == s {
                Seq::new(k.len(), |a: int| Seq::new(14, |r: int| 0int))
            } else {
                k[o].update(s, Seq::new(14, |r: int| k[o][s][r] + after[r] - before[r]))
            },
    )
}

/// The state after the seat on turn takes action `p`: the action, what the
/// others learn of it, and the end of the game if the seat's hand is empty.
pub open spec fn step(v: GameView, p: Play) -> GameView {
    let s = v.turn;
    let t = cur_team(v);
    let a = act(v, p);
    let w = GameView { knowledge: learn(v.knowledge, s, v.hands[s], a.hands[s]), ..a };
    if sum(a.hands[s]) == 0 {
        GameView {
            finished: true,
            boards: w.boards.update(t, TeamView { went_out: true, ..w.boards[t] }),
            ..w
        }
    } else {
        w
    }
}

/// How many cards of rank `c` the game holds in all: both piles, every hand
/// and every board.
pub open spec fn cards_in_play(v: GameView, c: Card) -> int {
    count_of(v.draw, c) + count_of(v.discard, c) + in_hands(v.hands, c) + on_boards(v.boards, c)
}

/// How many cards of each rank the game holds in all.
pub open spec fn total_of(decks: int, c: Card) -> int {
    decks * deck_copies(c)
}

/// The shape of a state: team and seat counts, table sizes, the seat on turn,
/// melds only of meldable ranks and each in its own slot.
pub open spec fn shape_ok(v: GameView) -> bool {
    &&& 1 <= v.teams
    &&& 1 <= v.per_team
    &&& seats(v) <= 255
    &&& 1 <= v.decks <= 31
    &&& 0 <= v.turn < seats(v)
    &&& v.hands.len() == seats(v)
    &&& v.knowledge.len() == seats(v)
    &&& v.boards.len() == v.teams
    &&& forall|s: int| 0 <= s < seats(v) ==> (#[trigger] v.hands[s]).len() == 14
    &&& forall|s: int, r: int| 0 <= s < seats(v) && 0 <= r < 14 ==> 0 <= #[trigger] v.hands[s][r]
    &&& forall|o: int| 0 <= o < seats(v) ==> (#[trigger] v.knowledge[o]).len() == seats(v)
    &&& forall|o: int, a: int|
        0 <= o < seats(v) && 0 <= a < seats(v) ==> (#[trigger] v.knowledge[o][a]).len() == 14
    &&& forall|t: int| 0 <= t < v.teams ==> (#[trigger] v.boards[t]).slots.len() == 14
    &&& forall|t: int, i: int|
        0 <= t < v.teams && 0 <= i < 14 && (#[trigger] v.boards[t].slots[i]) is Some ==> {
            &&& v.boards[t].slots[i]->0.card_type == card_at(i)
            &&& i >= 3
        }
}

/// What every state that play can reach satisfies: its shape; every card of
/// the decks is in exactly one place; each seat's knowledge of another is
/// the net change of that seat's hand since a moment at which its counts
/// were within the deck; and the turn counter has room for the turns left.
pub open spec fn valid(v: GameView) -> bool {
    &&& shape_ok(v)
    &&& forall|c: Card| #[trigger] cards_in_play(v, c) == total_of(v.decks, c)
    &&& forall|o: int, a: int, r: int|
        0 <= o < seats(v) && 0 <= a < seats(v) && 0 <= r < 14 ==> {
            &&& #[trigger] v.knowledge[o][a][r] <= v.hands[a][r]
            &&& v.hands[a][r] - v.knowledge[o][a][r] <= total_of(v.decks, card_at(r))
        }
    &&& 0 <= v.total_turns
    &&& v.total_turns + progress(v) <= 312 * v.decks
}

/// The hand that a run of cards makes.
pub open spec fn hand_of_cards(s: Seq<Card>) -> Seq<int> {
    Seq::new(14, |r: int| count_of(s, card_at(r)))
}

/// The cards that seat `i` is dealt: dealing takes `hand_size` cards from
/// the top (the end) of the deck for each seat in turn.
pub open spec fn dealt(cards: Seq<Card>, hand_size: int, i: int) -> Seq<Card> {
    cards.subrange(cards.len() - (i + 1) * hand_size, cards.len() - i * hand_size)
}

/// A board with no meld.
pub open spec fn empty_team() -> TeamView {
    TeamView { slots: Seq::new(14, |i: int| None::<BoardStack>), down: false, went_out: false }
}

pub open spec fn zero_rows(n: int) -> Seq<Seq<int>> {
    Seq::new(n as nat, |a: int| Seq::new(14, |r: int| 0int))
}

/// Whether a game of these dimensions can be dealt: at least one team of at
/// least one seat, at most 255 seats, one to 31 decks (so that a seat's
/// knowledge of a rank, within four cards a deck either way, fits a byte),
/// and enough cards for every hand and the first discard.
pub open spec fn deal_ok(teams: int, per_team: int, decks: int, hand_size: int) -> bool {
    &&& 1 <= teams
    &&& 1 <= per_team
    &&& teams * per_team <= 255
    &&& 1 <= decks <= 31
    &&& teams * per_team * hand_size + 1 <= 52 * decks
}

/// Whether a dealt game can be played out: every hand gets a card, and a
/// card is left to draw.
pub open spec fn deal_live(teams: int, per_team: int, decks: int, hand_size: int) -> bool {
    hand_size >= 1 && teams * per_team * hand_size + 1 < 52 * decks
}

/// The game dealt from `cards`: each seat's hand in turn from the top, then
/// one card turned up to start the discard pile, frozen if it is wild.
pub open spec fn dealt_view(teams: int, per_team: int, decks: int, hand_size: int, cards: Seq<Card>) -> GameView {
    let n = teams * per_team;
    let up = cards.len() - n * hand_size - 1;
    GameView {
        draw: cards.take(up),
        discard: seq![cards[up]],
        hands: Seq::new(n as nat, |i: int| hand_of_cards(dealt(cards, hand_size, i))),
        knowledge: Seq::new(n as nat, |o: int| zero_rows(n)),
        boards: Seq::new(teams as nat, |t: int| empty_team()),
        teams,
        per_team,
        decks,
        finished: false,
        frozen: is_wild(cards[up]),
        drawn: false,
        turn: 0,
        total_turns: 0,
    }
}

/// How many cards of rank `c` the hands hold together.
pub open spec fn in_hands(hands: Seq<Seq<int>>, c: Card) -> int {
    sum(hands.map_values(|h: Seq<int>| h[card_index(c)]))
}

/// How many cards of rank `c` the boards hold together.
pub open spec fn on_boards(boards: Seq<TeamView>, c: Card) -> int {
    sum(boards.map_values(|b: TeamView| board_rank_count(b.slots, c)))
}

/// A board holds no negative count of a rank.
pub proof fn lemma_board_count_nonneg(slots: Seq<Option<BoardStack>>, c: Card)
    requires
        slots.len() == 14,
    ensures
        0 <= board_rank_count(slots, c),
{
    lemma_sum_nonneg(slots.map_values(|o: Option<BoardStack>| slot_jokers(o)));
    lemma_sum_nonneg(slots.map_values(|o: Option<BoardStack>| slot_twos(o)));
}

/// Boards together hold no negative count of a rank.
pub proof fn lemma_on_boards_nonneg(boards: Seq<TeamView>, c: Card)
    requires
        forall|t: int| 0 <= t < boards.len() ==> (#[trigger] boards[t]).slots.len() == 14,
    ensures
        0 <= on_boards(boards, c),
{
    let m = boards.map_values(|b: TeamView| board_rank_count(b.slots, c));
    assert forall|t: int| 0 <= t < m.len() implies 0 <= #[trigger] m[t] by {
        lemma_board_count_nonneg(boards[t].slots, c);
    }
    lemma_sum_nonneg(m);
}

/// In a valid state no seat holds more cards of a rank than the decks have.
pub proof fn lemma_hand_within_deck(v: GameView, s: int, r: int)
    requires
        shape_ok(v),
        forall|c: Card| #[trigger] cards_in_play(v, c) == total_of(v.decks, c),
        0 <= s < seats(v),
        0 <= r < 14,
    ensures
        0 <= v.hands[s][r] <= total_of(v.decks, card_at(r)),
{
    let c = card_at(r);
    assert(card_index(c) == r);
    let m = v.hands.map_values(|h: Seq<int>| h[card_index(c)]);
    assert forall|k: int| 0 <= k < m.len() implies 0 <= #[trigger] m[k] by {
        assert(0 <= v.hands[k][r]);
    }
    lemma_sum_element(m, s);
    lemma_on_boards_nonneg(v.boards, c);
    crate::pile::lemma_count_nonneg(v.draw, c);
    crate::pile::lemma_count_nonneg(v.discard, c);
    assert(cards_in_play(v, c) == total_of(v.decks, c));
}

/// The points that team `t`'s seats hold in their hands.
pub open spec fn team_penalty(v: GameView, t: int) -> int {
    sum(
        Seq::new(
            seats(v) as nat,
            |s: int|
                if s % v.teams == t {
                    hand_points(v.hands[s])
                } else {
                    0int
                },
        ),
    )
}

/// A team's score: its board's points less the points its seats still hold.
pub open spec fn team_score(v: GameView, t: int) -> int {
    board_points(v.boards[t].slots, v.boards[t].went_out) - team_penalty(v, t)
}

/// The scores by seat: each seat scores what its team scores.
pub open spec fn seat_scores(v: GameView) -> Seq<int> {
    Seq::new(seats(v) as nat, |s: int| team_score(v, s % v.teams))
}

/// A state in which play can go on: unless the game is over, every hand
/// holds a card, the seat on turn has a card to draw until it has drawn, and
/// after drawing it holds two cards or its team has two canastas.
pub open spec fn live(v: GameView) -> bool {
    !v.finished ==> {
        &&& forall|s: int| 0 <= s < seats(v) ==> sum(#[trigger] v.hands[s]) >= 1
        &&& !v.drawn ==> v.draw.len() > 0
        &&& v.drawn ==> (hand_size(v) >= 2 || canastas(v) >= 2)
    }
}

/// How much work is left before the game must end: every draw, every card
/// that a hand or the discard pile holds, and the draw of the turn.
pub open spec fn progress(v: GameView) -> int {
    3 * (2 * v.draw.len() + sum(v.hands.map_values(|h: Seq<int>| sum(h))) + v.discard.len())
        + if v.drawn {
        1int
    } else {
        0int
    }
}

} // verus!
