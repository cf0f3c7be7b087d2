//! The game engine: seats, piles, boards and turn order, with the legality
//! check and the execution of actions.

use vstd::prelude::*;

use crate::board::{
    board_rank_count, grown, slot_jokers, slot_naturals, slot_twos, Board, BoardStack,
};
use crate::card::{
    card_at, card_index, is_wild, lemma_card_index_bijective, Card, PlayableCardSubset,
};
use crate::hand::Hand;
use crate::pile::{
    count_of, deck_copies, is_deck, is_standard_deck, lemma_count_concat, lemma_count_push,
    DrawPile,
};
use crate::play::Play;
use crate::rules::{
    deal_live, live,
    act, canastas, cur_board, cur_hand, cur_team, ends_turn, first_single, held, legal, moved,
    progress, seats, seat_scores, team_score, shape_ok, step, total_of, valid, GameView, TeamView,
    zero_rows, with_pile, grown_wild, hand_of_cards, dealt, empty_team, deal_ok, dealt_view, learn,
    in_hands, on_boards, lemma_hand_within_deck, cards_in_play,
};
use crate::invariants::{
    lemma_act, lemma_first_single_skip, lemma_go_out_card, lemma_hand_and_discard,
    lemma_count_prefix, lemma_progress_nonneg, lemma_penalty_bound, lemma_board_points_bound,
    lemma_slot_within_deck, lemma_step_valid, lemma_turn_facts, lemma_top_counted,
};
use crate::sums::{lemma_sum_bounds, lemma_sum_element, sum};

verus! {

/// Whose turn it is, and how many turns have ended.
#[derive(Copy, Clone, PartialEq, Eq, Hash, Debug)]
pub struct TurnCounter {
    turn: u8,
    players_count: u8,
    total_turns: u16,
}

impl TurnCounter {
    pub closed spec fn seat(&self) -> int {
        self.turn as int
    }

    pub closed spec fn seat_count(&self) -> int {
        self.players_count as int
    }

    pub closed spec fn turns(&self) -> int {
        self.total_turns as int
    }

    pub fn total_turns(&self) -> (r: u16)
        ensures
            r == self.turns(),
    {
        self.total_turns
    }

    pub fn new(players_count: u8) -> (r: TurnCounter)
        requires
            players_count > 0,
        ensures
            r.seat() == 0,
            r.seat_count() == players_count,
            r.turns() == 0,
    {
        TurnCounter { turn: 0, players_count, total_turns: 0 }
    }

    /// The seat on turn.
    pub fn get(&self) -> (r: u8)
        ensures
            r == self.seat(),
    {
        self.turn
    }

    /// Passes the turn to the next seat and counts the turn that ended.
    pub fn add(&mut self)
        requires
            old(self).seat() < old(self).seat_count(),
            old(self).turns() < 65535,
        ensures
            final(self).seat() == (old(self).seat() + 1) % old(self).seat_count(),
            final(self).seat_count() == old(self).seat_count(),
            final(self).turns() == old(self).turns() + 1,
    {
        proof {
            let n = self.players_count as int;
            let t = self.turn as int;
            if t + 1 == n {
                vstd::arithmetic::div_mod::lemma_mod_self_0(n);
            } else {
                vstd::arithmetic::div_mod::lemma_small_mod((t + 1) as nat, n as nat);
            }
        }
        self.turn = if self.turn + 1 == self.players_count {
            0
        } else {
            self.turn + 1
        };
        self.total_turns = self.total_turns + 1;
    }
}

/// A seat: its hand, and what it has seen of every seat's hand change.
#[derive(Clone, PartialEq, Eq, Hash, Debug)]
pub struct Player {
    hand: Hand,
    knowledge: Vec<[i8; 14]>,
}

/// One row of knowledge, as integers.
pub open spec fn row_view(row: [i8; 14]) -> Seq<int> {
    Seq::new(14, |r: int| row@[r] as int)
}

/// Rows of knowledge, as integers.
pub open spec fn rows_view(rows: Seq<[i8; 14]>) -> Seq<Seq<int>> {
    Seq::new(rows.len(), |a: int| row_view(rows[a]))
}

impl Player {
    /// The seat's count of each rank.
    pub closed spec fn hand_view(&self) -> Seq<int> {
        self.hand@
    }

    /// For each seat, the net count of each rank it gained since this seat
    /// last acted.
    pub closed spec fn knowledge_view(&self) -> Seq<Seq<int>> {
        rows_view(self.knowledge@)
    }

    pub fn hand(&self) -> (r: Hand)
        ensures
            r@ == self.hand_view(),
    {
        self.hand
    }

    pub fn new(players_count: u8) -> (r: Player)
        ensures
            r.hand_view() == Seq::new(14, |i: int| 0int),
            r.knowledge_view() == zero_rows(players_count as int),
    {
        Player { hand: Hand::new(), knowledge: zero_knowledge(players_count) }
    }
}

fn zero_knowledge(n: u8) -> (r: Vec<[i8; 14]>)
    ensures
        rows_view(r@) == zero_rows(n as int),
{
    let mut r: Vec<[i8; 14]> = Vec::new();
    let mut i: u8 = 0;
    while i < n
        invariant
            i <= n,
            r@.len() == i,
            rows_view(r@) == zero_rows(i as int),
        decreases n - i,
    {
        let row: [i8; 14] = [0; 14];
        assert(row_view(row) =~= Seq::new(14, |r: int| 0int));
        let ghost before = r@;
        r.push(row);
        proof {
            let n1 = i as int + 1;
            assert(before.len() == i);
            assert(r@.len() == n1);
            assert forall|j: int| 0 <= j < n1 implies #[trigger] rows_view(r@)[j] == zero_rows(
                n1,
            )[j] by {
                assert(r@[j] == before.push(row)[j]);
                if j < i {
                    assert(rows_view(before)[j] == zero_rows(i as int)[j]);
                }
            }
            assert(rows_view(r@) =~= zero_rows(n1));
        }
        i += 1;
    }
    r
}

/// A game in progress.
#[derive(Clone, PartialEq, Eq, Hash, Debug)]
pub struct Game {
    draw_pile: DrawPile,
    discard_pile: Vec<Card>,
    players: Vec<Player>,
    boards: Vec<Board>,
    players_per_team: u8,
    teams_count: u8,
    decks: u8,
    finished: bool,
    frozen: bool,
    turn: TurnCounter,
    curr_player_drawn: bool,
}

pub open spec fn team_view(b: Board) -> TeamView {
    TeamView { slots: b.slots(), down: b.down(), went_out: b.went_out() }
}

impl View for Game {
    type V = GameView;

    closed spec fn view(&self) -> GameView {
        GameView {
            draw: self.draw_pile@,
            discard: self.discard_pile@,
            hands: self.players@.map_values(|p: Player| p.hand_view()),
            knowledge: self.players@.map_values(|p: Player| p.knowledge_view()),
            boards: self.boards@.map_values(|b: Board| team_view(b)),
            teams: self.teams_count as int,
            per_team: self.players_per_team as int,
            decks: self.decks as int,
            finished: self.finished,
            frozen: self.frozen,
            drawn: self.curr_player_drawn,
            turn: self.turn.seat(),
            total_turns: self.turn.turns(),
        }
    }
}

/// A run of cards with one more card before it holds that card more.
proof fn lemma_hand_of_prepend(c: Card, seg: Seq<Card>)
    ensures
        hand_of_cards(seq![c] + seg) == hand_of_cards(seg).update(
            card_index(c),
            hand_of_cards(seg)[card_index(c)] + 1,
        ),
{
    lemma_card_index_bijective();
    assert(seq![c] =~= Seq::<Card>::empty().push(c));
    assert forall|x: Card| count_of(seq![c] + seg, x) == count_of(seg, x) + if c == x {
        1int
    } else {
        0int
    } by {
        lemma_count_concat(seq![c], seg, x);
        lemma_count_push(Seq::<Card>::empty(), c, x);
    }
    assert(hand_of_cards(seq![c] + seg) =~= hand_of_cards(seg).update(
        card_index(c),
        hand_of_cards(seg)[card_index(c)] + 1,
    ));
}

/// The rank that a hand holds exactly once, first in rank order.
fn single_card(hand: &Hand) -> (r: Card)
    requires
        first_single(hand@, 0) < 14,
    ensures
        r == card_at(first_single(hand@, 0)),
{
    let mut i: usize = 0;
    while i < 14
        invariant
            i <= 14,
            first_single(hand@, 0) == first_single(hand@, i as int),
            first_single(hand@, 0) < 14,
        decreases 14 - i,
    {
        let c = Card::from_index(i);
        if hand.get(c) == 1 {
            return c;
        }
        proof {
            lemma_first_single_skip(hand@, i as int);
        }
        i += 1;
    }
    // not reached: the search would have found the rank before the end
    Card::Ace
}

/// The count of a rank in the hands of some players.
pub open spec fn hands_count(players: Seq<Player>, c: Card) -> int {
    in_hands(players.map_values(|p: Player| p.hand_view()), c)
}

proof fn lemma_hands_count_push(players: Seq<Player>, p: Player, c: Card)
    ensures
        hands_count(players.push(p), c) == hands_count(players, c) + p.hand_view()[card_index(c)],
{
    let f = |p: Player| p.hand_view();
    let g = |h: Seq<int>| h[card_index(c)];
    assert(players.push(p).map_values(f).map_values(g).drop_last() =~= players.map_values(f).map_values(g));
}

impl Game {
    /// The state is one that play can reach.
    pub closed spec fn wf(&self) -> bool {
        &&& valid(self@)
        &&& self.tables_ok()
    }

    /// The tables agree with the game's dimensions.
    pub closed spec fn tables_ok(&self) -> bool {
        &&& self.players@.len() == seats(self@)
        &&& self.boards@.len() == self.teams_count
        &&& self.turn.seat_count() == seats(self@)
        &&& forall|t: int| 0 <= t < self.teams_count ==> (#[trigger] self.boards@[t]).wf()
    }

    proof fn lemma_view_facts(&self)
        requires
            self.tables_ok(),
            shape_ok(self@),
        ensures
            forall|s: int| 0 <= s < seats(self@) ==> #[trigger] self@.hands[s] == self.players@[s].hand@,
            forall|t: int|
                0 <= t < self@.teams ==> #[trigger] self@.boards[t] == team_view(self.boards@[t]),
            cur_hand(self@) == self.players@[self@.turn].hand@,
            cur_board(self@) == team_view(self.boards@[cur_team(self@)]),
            0 <= cur_team(self@) < self@.teams,
    {
        let v = self@;
        assert(0 <= cur_team(v) < v.teams) by (nonlinear_arith)
            requires
                v.teams >= 1,
                v.turn >= 0,
                cur_team(v) == v.turn % v.teams,
        ;
    }

    /// Deals a game from `pile`, whose last card is the top.
    fn deal(teams_count: u8, players_per_team: u8, decks: u8, hand_size: u8, pile: DrawPile) -> (r: Game)
        requires
            deal_ok(teams_count as int, players_per_team as int, decks as int, hand_size as int),
            is_deck(pile@, decks as int),
            pile@.len() == 52 * decks,
        ensures
            r.wf(),
            deal_live(teams_count as int, players_per_team as int, decks as int, hand_size as int)
                ==> live(r@),
            r@ == dealt_view(
                teams_count as int,
                players_per_team as int,
                decks as int,
                hand_size as int,
                pile@,
            ),
    {
        let ghost cards = pile@;
        let ghost len = cards.len() as int;
        let ghost hs = hand_size as int;
        proof {
            assert(teams_count * players_per_team * hs == (teams_count * players_per_team) * hs
                && teams_count * players_per_team >= 1) by (nonlinear_arith)
                requires teams_count >= 1, players_per_team >= 1;
        }
        let n: u8 = teams_count * players_per_team;
        let mut draw_pile = pile;
        let mut boards: Vec<Board> = Vec::new();
        let mut t: u8 = 0;
        while t < teams_count
            invariant
                t <= teams_count,
                boards@.len() == t,
                forall|k: int| 0 <= k < t ==> (#[trigger] boards@[k]).wf() && team_view(boards@[k]) == empty_team(),
            decreases teams_count - t,
        {
            let b = Board::new();
            assert(team_view(b) == empty_team());
            boards.push(b);
            t += 1;
        }
        let mut players: Vec<Player> = Vec::new();
        let mut i: u8 = 0;
        while i < n
            invariant
                i <= n,
                n == teams_count * players_per_team,
                deal_ok(teams_count as int, players_per_team as int, decks as int, hs),
                len == 52 * decks,
                cards.len() == len,
                hs == hand_size,
                n * hs + 1 <= len,
                n >= 1,
                is_deck(cards, decks as int),
                players@.len() == i,
                draw_pile@ == cards.take(len - i * hs),
                forall|k: int| 0 <= k < i ==> {
                    &&& (#[trigger] players@[k]).hand_view() == hand_of_cards(dealt(cards, hs, k))
                    &&& players@[k].knowledge_view() == zero_rows(n as int)
                    &&& sum(players@[k].hand_view()) == hs
                },
                forall|c: Card| count_of(draw_pile@, c) + #[trigger] hands_count(players@, c) == count_of(cards, c),
            decreases n - i,
        {
            let mut player = Player::new(n);
            proof {
                assert(i * hs + hs <= n * hs) by (nonlinear_arith)
                    requires i < n, hs >= 0;
                assert(player.hand_view() =~= hand_of_cards(cards.subrange(len - i * hs, len - i * hs)));
                assert(sum(Seq::new(14, |k: int| 0int)) == 0) by {
                    lemma_sum_bounds(Seq::new(14, |k: int| 0int), 0, 0);
                }
                assert(i * hs + hs <= n * hs) by (nonlinear_arith)
                    requires i < n, hs >= 0;
            }
            let mut j: u8 = 0;
            while j < hand_size
                invariant
                    j <= hand_size,
                    i < n,
                    n == teams_count * players_per_team,
                    deal_ok(teams_count as int, players_per_team as int, decks as int, hs),
                    i * hs + hs <= n * hs,
                    len == 52 * decks,
                    cards.len() == len,
                    hs == hand_size,
                    players@.len() == i,
                    draw_pile@ == cards.take(len - i * hs - j),
                    player.hand_view() == hand_of_cards(cards.subrange(len - i * hs - j, len - i * hs)),
                    sum(player.hand_view()) == j,
                    player.knowledge_view() == zero_rows(n as int),
                    forall|c: Card| count_of(draw_pile@, c) + hands_count(players@, c)
                        + #[trigger] player.hand_view()[card_index(c)] == count_of(cards, c),
                decreases hand_size - j,
            {
                let ghost before = draw_pile@;
                let c = draw_pile.draw().unwrap();
                proof {
                    let lo = len - i * hs - j;
                    assert(c == cards[lo - 1]);
                    assert(cards.subrange(lo - 1, len - i * hs) =~= seq![c] + cards.subrange(lo, len - i * hs));
                    lemma_hand_of_prepend(c, cards.subrange(lo, len - i * hs));
                    player.hand.lemma_view();
                    lemma_sum_element(player.hand@, card_index(c));
                    assert(before =~= draw_pile@.push(c));
                    assert forall|x: Card| count_of(before, x) == count_of(draw_pile@, x) + if c == x {
                        1int
                    } else {
                        0int
                    } by {
                        lemma_count_push(draw_pile@, c, x);
                    }
                }
                player.hand.add(c, 1);
                j += 1;
            }
            proof {
                assert(dealt(cards, hs, i as int) == cards.subrange(len - i * hs - hs, len - i * hs)) by {
                    assert(len - (i + 1) * hs == len - i * hs - hs) by (nonlinear_arith);
                }
                assert forall|c: Card| count_of(draw_pile@, c) + #[trigger] hands_count(players@.push(player), c) == count_of(cards, c) by {
                    lemma_hands_count_push(players@, player, c);
                }
                assert(len - (i + 1) * hs == len - i * hs - hs) by (nonlinear_arith);
            }
            players.push(player);
            i += 1;
        }
        proof {
            assert(n * hs + 1 <= len);
        }
        let ghost before = draw_pile@;
        let up_card = draw_pile.draw().unwrap();
        let mut discard_pile: Vec<Card> = Vec::new();
        discard_pile.push(up_card);
        let frozen = up_card.is_wild();
        let g = Game {
            draw_pile,
            discard_pile,
            players,
            boards,
            players_per_team,
            teams_count,
            decks,
            finished: false,
            frozen,
            turn: TurnCounter::new(n),
            curr_player_drawn: false,
        };
        proof {
            let v = g@;
            let d = dealt_view(teams_count as int, players_per_team as int, decks as int, hs, cards);
            assert(v.draw =~= d.draw);
            assert(v.discard =~= d.discard);
            assert(v.hands =~= d.hands);
            assert(v.knowledge =~= d.knowledge);
            assert(v.boards =~= d.boards);
            assert(v == d);
            let zero_board = Seq::new(14, |k: int| None::<BoardStack>);
            assert forall|c: Card| #[trigger] cards_in_play(v, c) == total_of(v.decks, c) by {
                assert(count_of(cards, c) == decks * crate::pile::deck_copies(c));
                assert(in_hands(v.hands, c) == hands_count(g.players@, c));
                assert(count_of(before, c) + hands_count(g.players@, c) == count_of(cards, c));
                lemma_count_push(v.draw, up_card, c);
                assert(before =~= v.draw.push(up_card));
                assert(seq![up_card] =~= Seq::<Card>::empty().push(up_card));
                lemma_count_push(Seq::<Card>::empty(), up_card, c);
                let m = v.boards.map_values(|b: TeamView| crate::board::board_rank_count(b.slots, c));
                assert forall|k: int| 0 <= k < m.len() implies #[trigger] m[k] == 0 by {
                    lemma_sum_bounds(zero_board.map_values(|o: Option<BoardStack>| crate::board::slot_jokers(o)), 0, 0);
                    lemma_sum_bounds(zero_board.map_values(|o: Option<BoardStack>| crate::board::slot_twos(o)), 0, 0);
                    assert(v.boards[k].slots =~= zero_board);
                }
                lemma_sum_bounds(m, 0, 0);
                assert(on_boards(v.boards, c) == 0);
                assert(count_of(v.discard, c) == if up_card == c { 1int } else { 0int });
            }
            assert(seats(v) == n);
            assert forall|k: int, r: int| 0 <= k < seats(v) && 0 <= r < 14 implies 0 <= #[trigger] v.hands[k][r] <= 255 by {
                g.players@[k].hand.lemma_view();
            }
            assert forall|k: int| 0 <= k < v.teams implies (#[trigger] g.boards@[k]).wf() by {}
            assert(shape_ok(v));
            assert forall|o: int, a: int, r: int|
                0 <= o < seats(v) && 0 <= a < seats(v) && 0 <= r < 14 implies {
                    &&& #[trigger] v.knowledge[o][a][r] <= v.hands[a][r]
                    &&& v.hands[a][r] - v.knowledge[o][a][r] <= total_of(v.decks, card_at(r))
                } by {
                lemma_hand_within_deck(v, a, r);
            }
            let sizes = v.hands.map_values(|h: Seq<int>| sum(h));
            lemma_sum_bounds(sizes, hs, hs);
            assert(n * hs == teams_count * players_per_team * hs);
            assert(3 * (2 * (len - n * hs - 1) + n * hs + 1) <= 312 * decks);
        }
        g
    }

    /// A new game: `decks` decks shuffled, `hand_size` cards dealt to each of
    /// the `teams_count * players_per_team` seats, and one card turned up to
    /// start the discard pile.
    pub fn new(teams_count: u8, players_per_team: u8, decks: u8, hand_size: u8) -> (r: Game)
        requires
            deal_ok(teams_count as int, players_per_team as int, decks as int, hand_size as int),
        ensures
            r.wf(),
            exists|cards: Seq<Card>|
                is_deck(cards, decks as int) && cards.len() == 52 * decks && r@ == dealt_view(
                    teams_count as int,
                    players_per_team as int,
                    decks as int,
                    hand_size as int,
                    cards,
                ),
            deal_live(teams_count as int, players_per_team as int, decks as int, hand_size as int)
                ==> live(r@),
    {
        let mut draw_pile = DrawPile::new(decks);
        draw_pile.shuffle();
        Game::deal(teams_count, players_per_team, decks, hand_size, draw_pile)
    }

    /// A game dealt from `cards` as they lie, the last card on top; `None`
    /// unless the dimensions can be dealt and `cards` are exactly the cards of
    /// `decks` decks.
    pub fn from_deck(
        teams_count: u8,
        players_per_team: u8,
        decks: u8,
        hand_size: u8,
        cards: Vec<Card>,
    ) -> (r: Option<Game>)
        ensures
            r is Some <==> deal_ok(
                teams_count as int,
                players_per_team as int,
                decks as int,
                hand_size as int,
            ) && is_deck(cards@, decks as int) && cards@.len() == 52 * decks,
            r matches Some(g) ==> g.wf() && g@ == dealt_view(
                teams_count as int,
                players_per_team as int,
                decks as int,
                hand_size as int,
                cards@,
            ),
            r matches Some(g) ==> (deal_live(
                teams_count as int,
                players_per_team as int,
                decks as int,
                hand_size as int,
            ) ==> live(g@)),
    {
        proof {
            assert(teams_count as u32 * players_per_team as u32 <= 65025) by (nonlinear_arith)
                requires teams_count <= 255, players_per_team <= 255;
        }
        let seats_total: u32 = teams_count as u32 * players_per_team as u32;
        proof {
            assert(seats_total <= 255 ==> seats_total * (hand_size as u32) <= 65025) by (nonlinear_arith)
                requires hand_size <= 255;
        }
        if teams_count == 0 || players_per_team == 0 || seats_total > 255 || decks == 0 || decks > 31 || seats_total * (hand_size as u32) + 1 > 52 * (decks as u32) {
            return None;
        }
        if cards.len() != 52 * (decks as usize) || !is_standard_deck(&cards, decks) {
            return None;
        }
        Some(Game::deal(teams_count, players_per_team, decks, hand_size, DrawPile::from_cards(cards)))
    }

    /// Gives the seat `s` on turn the hand `hand` and its team `t` the board `board`.
    fn set_seat(&mut self, s: usize, t: usize, hand: Hand, board: Board)
        requires
            old(self).tables_ok(),
            s == old(self)@.turn,
            s < seats(old(self)@),
            t == cur_team(old(self)@),
            0 <= t < old(self)@.teams,
            board.wf(),
        ensures
            final(self).tables_ok(),
            final(self)@ == (GameView {
                hands: old(self)@.hands.update(s as int, hand@),
                boards: old(self)@.boards.update(t as int, team_view(board)),
                ..old(self)@
            }),
    {
        let ghost v = self@;
        self.players[s].hand = hand;
        self.boards[t] = board;
        proof {
            assert forall|k: int| 0 <= k < seats(v) implies #[trigger] self.players@[k].knowledge_view() == v.knowledge[k] by {
                assert(self.players@[k].knowledge == old(self).players@[k].knowledge);
            }
            assert(self@.hands =~= v.hands.update(s as int, hand@));
            assert(self@.knowledge =~= v.knowledge);
            assert(self@.boards =~= v.boards.update(t as int, team_view(board)));
        }
    }

    /// Takes the top card of the draw pile, which must not be empty.
    fn draw(&mut self) -> (r: Card)
        requires
            old(self)@.draw.len() > 0,
        ensures
            r == old(self)@.draw.last(),
            final(self)@ == (GameView { draw: old(self)@.draw.drop_last(), ..old(self)@ }),
            final(self).tables_ok() == old(self).tables_ok(),
    {
        let c = self.draw_pile.draw();
        c.unwrap()
    }

    fn act_draw(&mut self)
        requires
            old(self).wf(),
            !old(self)@.drawn,
            old(self)@.draw.len() > 0,
        ensures
            final(self).tables_ok(),
            final(self)@ == act(old(self)@, Play::Draw),
    {
        let ghost v = self@;
        proof {
            self.lemma_view_facts();
            lemma_turn_facts(v);
        }
        let s = self.turn.get() as usize;
        let t = s % (self.teams_count as usize);
        let mut hand = self.players[s].hand;
        let board = self.boards[t];
        let c = self.draw();
        proof {
            lemma_hand_within_deck(v, s as int, card_index(c));
        }
        hand.add(c, 1);
        self.curr_player_drawn = true;
        self.set_seat(s, t, hand, board);
        proof {
            assert(hand@ =~= moved(cur_hand(v), c, 1));
        }
    }

    fn act_discard(&mut self, card: Card)
        requires
            old(self).wf(),
            legal(old(self)@, Play::Discard(card)),
        ensures
            final(self).tables_ok(),
            final(self)@ == act(old(self)@, Play::Discard(card)),
    {
        let ghost v = self@;
        proof {
            self.lemma_view_facts();
            lemma_turn_facts(v);
        }
        let s = self.turn.get() as usize;
        let t = s % (self.teams_count as usize);
        let mut hand = self.players[s].hand;
        let board = self.boards[t];
        proof {
            lemma_progress_nonneg(v);
        }
        hand.remove(card, 1);
        self.set_seat(s, t, hand, board);
        self.discard_pile.push(card);
        self.curr_player_drawn = false;
        self.turn.add();
        if card.is_wild() {
            self.frozen = true;
        }
        if self.draw_pile.is_empty() {
            self.finished = true;
        }
        proof {
            assert(hand@ =~= moved(cur_hand(v), card, -1));
        }
    }

    fn act_go_out(&mut self)
        requires
            old(self).wf(),
            legal(old(self)@, Play::GoOut),
        ensures
            final(self).tables_ok(),
            final(self)@ == act(old(self)@, Play::GoOut),
    {
        let ghost v = self@;
        proof {
            self.lemma_view_facts();
            lemma_turn_facts(v);
            lemma_go_out_card(v);
            lemma_progress_nonneg(v);
            lemma_card_index_bijective();
        }
        let s = self.turn.get() as usize;
        let t = s % (self.teams_count as usize);
        let mut hand = self.players[s].hand;
        let mut board = self.boards[t];
        let card = single_card(&hand);
        hand.remove(card, 1);
        let threes = hand.get(Card::Three);
        hand.remove(Card::Three, threes);
        board.set_went_out();
        self.set_seat(s, t, hand, board);
        let mut run: Vec<Card> = Vec::new();
        let mut k: u8 = 0;
        while k < threes
            invariant
                k <= threes,
                run@ == Seq::new(k as nat, |i: int| Card::Three),
            decreases threes - k,
        {
            run.push(Card::Three);
            k += 1;
            assert(run@ =~= Seq::new(k as nat, |i: int| Card::Three));
        }
        self.discard_pile.push(card);
        self.discard_pile.append(&mut run);
        self.curr_player_drawn = false;
        self.turn.add();
        if card.is_wild() {
            self.frozen = true;
        }
        self.finished = true;
        proof {
            let h = cur_hand(v);
            assert(threes == h[card_index(Card::Three)]);
            assert(hand@ =~= moved(moved(h, card, -1), Card::Three, -threes));
            assert(team_view(board) == TeamView { went_out: true, ..cur_board(v) });
        }
    }

    fn act_pickup(&mut self)
        requires
            old(self).wf(),
            legal(old(self)@, Play::PickupPile),
        ensures
            final(self).tables_ok(),
            final(self)@ == act(old(self)@, Play::PickupPile),
    {
        let ghost v = self@;
        proof {
            self.lemma_view_facts();
            lemma_turn_facts(v);
            lemma_card_index_bijective();
        }
        let s = self.turn.get() as usize;
        let t = s % (self.teams_count as usize);
        let mut hand = self.players[s].hand;
        let mut board = self.boards[t];
        let n = self.discard_pile.len();
        let top = self.discard_pile[n - 1];
        let wild = if hand.get(Card::Joker) > 0 {
            Card::Joker
        } else {
            Card::Two
        };
        proof {
            lemma_slot_within_deck(v, t as int, card_index(top));
            lemma_top_counted(v.discard);
            assert forall|r: int| 0 <= r < 14 implies #[trigger] hand@[r] + count_of(v.discard, card_at(r)) <= 124 by {
                lemma_hand_and_discard(v, r);
            }
        }
        if board.get(top).is_none() || self.frozen {
            if hand.get(top) >= 2 {
                hand.remove(top, 2);
                board.place_card(top, 3);
            } else {
                hand.remove(top, 1);
                hand.remove(wild, 1);
                board.place_card(top, 2);
                if wild == Card::Joker {
                    board.place_joker(top);
                } else {
                    board.place_two(top);
                }
            }
        } else {
            board.place_card(top, 1);
        }
        let ghost h1 = hand@;
        proof {
            assert(with_pile(h1, v.discard.take(0)) =~= h1);
            hand.lemma_view();
        }
        let mut k: usize = 0;
        while k < n
            invariant
                k <= n,
                n == self.discard_pile@.len(),
                self.discard_pile@ == v.discard,
                h1.len() == 14,
                hand@ == with_pile(h1, v.discard.take(k as int)),
                forall|r: int| 0 <= r < 14 ==> #[trigger] h1[r] + count_of(v.discard, card_at(r)) <= 124,
                forall|r: int| 0 <= r < 14 ==> 0 <= #[trigger] h1[r],
            decreases n - k,
        {
            let c = self.discard_pile[k];
            proof {
                lemma_card_index_bijective();
                assert(v.discard.take(k + 1) =~= v.discard.take(k as int).push(c));
                lemma_count_prefix(v.discard, k + 1, c);
                lemma_count_push(v.discard.take(k as int), c, c);
                assert(card_at(card_index(c)) == c);
            }
            hand.add(c, 1);
            proof {
                assert forall|r: int| 0 <= r < 14 implies #[trigger] hand@[r] == with_pile(h1, v.discard.take(k + 1))[r] by {
                    lemma_count_push(v.discard.take(k as int), c, card_at(r));
                }
                assert(hand@ =~= with_pile(h1, v.discard.take(k + 1)));
            }
            k += 1;
        }
        proof {
            assert(v.discard.take(n as int) =~= v.discard);
            lemma_count_push(v.discard.drop_last(), top, top);
            assert(v.discard.drop_last().push(top) =~= v.discard);
            crate::pile::lemma_count_nonneg(v.discard.drop_last(), top);
        }
        hand.remove(top, 1);
        self.set_seat(s, t, hand, board);
        self.frozen = false;
        self.curr_player_drawn = true;
        self.discard_pile = Vec::new();
        proof {
            let h = cur_hand(v);
            let slot = cur_board(v).slots[card_index(top)];
            if slot is None || v.frozen {
                assert(h[card_index(top)] >= 2);
                assert(h1 =~= moved(h, top, -2));
            } else {
                assert(h1 =~= h);
            }
            assert(hand@ =~= moved(with_pile(h1, v.discard), top, -1));
            assert(self@.discard =~= Seq::<Card>::empty());
        }
    }

    fn act_place_wild(&mut self, subset: PlayableCardSubset)
        requires
            old(self).wf(),
            legal(old(self)@, Play::PlaceWild(subset)),
        ensures
            final(self).tables_ok(),
            final(self)@ == act(old(self)@, Play::PlaceWild(subset)),
    {
        let ghost v = self@;
        proof {
            self.lemma_view_facts();
            lemma_turn_facts(v);
            lemma_card_index_bijective();
        }
        let s = self.turn.get() as usize;
        let t = s % (self.teams_count as usize);
        let mut hand = self.players[s].hand;
        let mut board = self.boards[t];
        let card = Card::from(subset);
        let wild = if hand.get(Card::Joker) > 0 {
            Card::Joker
        } else {
            Card::Two
        };
        proof {
            lemma_slot_within_deck(v, t as int, card_index(card));
        }
        hand.remove(wild, 1);
        if wild == Card::Joker {
            board.place_joker(card);
        } else {
            board.place_two(card);
        }
        self.set_seat(s, t, hand, board);
        proof {
            assert(hand@ =~= moved(cur_hand(v), wild, -1));
        }
    }

    fn act_play(&mut self, subset: PlayableCardSubset)
        requires
            old(self).wf(),
            legal(old(self)@, Play::Play(subset)),
        ensures
            final(self).tables_ok(),
            final(self)@ == act(old(self)@, Play::Play(subset)),
    {
        let ghost v = self@;
        proof {
            self.lemma_view_facts();
            lemma_turn_facts(v);
            lemma_card_index_bijective();
        }
        let s = self.turn.get() as usize;
        let t = s % (self.teams_count as usize);
        let mut hand = self.players[s].hand;
        let mut board = self.boards[t];
        let card = Card::from(subset);
        proof {
            lemma_slot_within_deck(v, t as int, card_index(card));
        }
        let ghost b = cur_board(v);
        let ghost i = card_index(card);
        let ghost slot = b.slots[i];
        if board.get(card).is_some() {
            board.place_card(card, 1);
            hand.remove(card, 1);
            proof {
                assert(hand@ =~= moved(cur_hand(v), card, -1));
            }
        } else if hand.get(card) >= 3 {
            hand.remove(card, 3);
            board.place_card(card, 3);
            proof {
                assert(hand@ =~= moved(cur_hand(v), card, -3));
            }
        } else if hand.get(Card::Joker) >= 1 {
            hand.remove(Card::Joker, 1);
            board.place_joker(card);
            hand.remove(card, 2);
            board.place_card(card, 2);
            proof {
                assert(hand@ =~= moved(moved(cur_hand(v), Card::Joker, -1), card, -2));
                assert(board.slots() =~= b.slots.update(i, Some(grown(Some(grown_wild(slot, card, Card::Joker)), card, 0, 0, 2))));
            }
        } else {
            hand.remove(Card::Two, 1);
            board.place_two(card);
            hand.remove(card, 2);
            board.place_card(card, 2);
            proof {
                assert(hand@ =~= moved(moved(cur_hand(v), Card::Two, -1), card, -2));
                assert(board.slots() =~= b.slots.update(i, Some(grown(Some(grown_wild(slot, card, Card::Two)), card, 0, 0, 2))));
            }
        }
        self.set_seat(s, t, hand, board);
    }

    /// Every other seat learns how the hand of seat `s` changed from `before`
    /// to `after`; seat `s` starts counting afresh.
    fn learn_update(&mut self, s: usize, before: Hand, after: Hand)
        requires
            old(self).tables_ok(),
            shape_ok(old(self)@),
            s < seats(old(self)@),
            forall|o: int, r: int|
                0 <= o < seats(old(self)@) && o != s && 0 <= r < 14 ==> -128 <= #[trigger] old(
                    self,
                )@.knowledge[o][s as int][r] + after@[r] - before@[r] <= 127,
        ensures
            final(self).tables_ok(),
            final(self)@ == (GameView {
                knowledge: learn(old(self)@.knowledge, s as int, before@, after@),
                ..old(self)@
            }),
    {
        let ghost v = self@;
        let ghost target = learn(v.knowledge, s as int, before@, after@);
        let n = self.players.len();
        proof {
            before.lemma_view();
            after.lemma_view();
        }
        let mut o: usize = 0;
        while o < n
            invariant
                o <= n,
                n == seats(v),
                s < n,
                shape_ok(v),
                self.tables_ok(),
                v.knowledge.len() == n,
                before@.len() == 14,
                after@.len() == 14,
                target == learn(v.knowledge, s as int, before@, after@),
                self@ == (GameView { knowledge: self@.knowledge, ..v }),
                self@.knowledge.len() == n,
                forall|j: int| 0 <= j < o ==> #[trigger] self@.knowledge[j] == target[j],
                forall|j: int| o <= j < n ==> #[trigger] self@.knowledge[j] == v.knowledge[j],
                forall|j: int, r: int|
                    0 <= j < n && j != s && 0 <= r < 14 ==> -128 <= #[trigger] v.knowledge[j][s as int][r]
                        + after@[r] - before@[r] <= 127,
            decreases n - o,
        {
            let ghost cur = self@;
            let ghost ps = self.players@;
            if o == s {
                let zeros = zero_knowledge(n as u8);
                self.players[o].knowledge = zeros;
                proof {
                    assert(target[o as int] =~= zero_rows(n as int));
                }
            } else {
                assert(self@.knowledge[o as int] == rows_view(self.players@[o as int].knowledge@));
                assert(self.players@[o as int].knowledge@.len() == n);
                let mut row: [i8; 14] = self.players[o].knowledge[s];
                let ghost orig = row_view(row);
                proof {
                    assert(orig == v.knowledge[o as int][s as int]);
                }
                let mut r: usize = 0;
                while r < 14
                    invariant
                        r <= 14,
                        orig.len() == 14,
                        before@.len() == 14,
                        after@.len() == 14,
                        forall|k: int| 0 <= k < 14 ==> -128 <= #[trigger] orig[k] + after@[k] - before@[k] <= 127,
                        forall|k: int| 0 <= k < r ==> #[trigger] row@[k] == orig[k] + after@[k] - before@[k],
                        forall|k: int| r <= k < 14 ==> #[trigger] row@[k] == orig[k],
                    decreases 14 - r,
                {
                    let c = Card::from_index(r);
                    let d: i16 = after.get(c) as i16 - before.get(c) as i16;
                    row[r] = (row[r] as i16 + d) as i8;
                    r += 1;
                }
                self.players[o].knowledge[s] = row;
                proof {
                    assert(row_view(row) =~= Seq::new(14, |k: int| orig[k] + after@[k] - before@[k]));
                    assert(rows_view(self.players@[o as int].knowledge@) =~= target[o as int]);
                }
            }
            proof {
                assert(self.players@[o as int].hand == ps[o as int].hand);
                assert forall|j: int| 0 <= j < n implies #[trigger] self@.hands[j] == v.hands[j] by {
                    if j != o {
                        assert(self.players@[j] == ps[j]);
                    }
                    assert(cur.hands[j] == ps[j].hand_view());
                }
                assert(self@.hands =~= v.hands);
                assert(self@.boards =~= v.boards);
                assert forall|j: int| 0 <= j < n && j != o implies #[trigger] self@.knowledge[j] == cur.knowledge[j] by {
                    assert(self.players@[j] == ps[j]);
                }
                assert(self@.knowledge[o as int] == target[o as int]);
            }
            o += 1;
        }
        proof {
            assert(self@.knowledge =~= target);
        }
    }

    /// Takes action `play` for the seat on turn. The action must be legal, the
    /// game not over, and a draw needs a card to draw: anything else is a
    /// fault of the caller, not a move of the game.
    pub fn execute_play(&mut self, play: Play)
        requires
            old(self).wf(),
            !old(self)@.finished,
            legal(old(self)@, play),
            play is Draw ==> old(self)@.draw.len() > 0,
        ensures
            final(self).wf(),
            final(self)@ == step(old(self)@, play),
            progress(final(self)@) < progress(old(self)@),
            final(self)@.total_turns == old(self)@.total_turns + if ends_turn(play) {
                1int
            } else {
                0int
            },
            play matches Play::Discard(c) ==> final(self)@.frozen == (old(self)@.frozen || is_wild(c)),
            play is PickupPile ==> !final(self)@.frozen,
            play is Discard && old(self)@.draw.len() == 0 ==> final(self)@.finished,
            play is GoOut ==> final(self)@.finished && final(self)@.boards[cur_team(old(self)@)].went_out,
            final(self)@.teams == old(self)@.teams,
            final(self)@.per_team == old(self)@.per_team,
            final(self)@.decks == old(self)@.decks,
            final(self)@.draw.len() <= old(self)@.draw.len(),
            final(self)@.draw == old(self)@.draw.take(final(self)@.draw.len() as int),
    {
        let ghost v = self@;
        proof {
            lemma_step_valid(v, play);
            lemma_act(v, play);
            self.lemma_view_facts();
            lemma_turn_facts(v);
        }
        let s = self.turn.get() as usize;
        let t = s % (self.teams_count as usize);
        let before = self.players[s].hand;
        match play {
            Play::Draw => self.act_draw(),
            Play::Discard(card) => self.act_discard(card),
            Play::GoOut => self.act_go_out(),
            Play::PickupPile => self.act_pickup(),
            Play::PlaceWild(subset) => self.act_place_wild(subset),
            Play::Play(subset) => self.act_play(subset),
        }
        let ghost a = self@;
        proof {
            self.lemma_view_facts();
        }
        let after = self.players[s].hand;
        proof {
            let w = step(v, play);
            assert forall|o: int, r: int|
                0 <= o < seats(v) && o != s && 0 <= r < 14 implies -128 <= #[trigger] a.knowledge[o][s as int][r]
                    + after@[r] - before@[r] <= 127 by {
                lemma_hand_within_deck(w, s as int, r);
                assert(w.knowledge[o][s as int][r] == a.knowledge[o][s as int][r] + after@[r] - before@[r]);
                assert(total_of(v.decks, card_at(r)) <= 124);
            }
        }
        proof {
            let w = step(v, play);
            assert(w.draw =~= v.draw.take(w.draw.len() as int));
        }
        self.learn_update(s, before, after);
        if after.is_empty() {
            self.finished = true;
            self.boards[t].set_went_out();
            proof {
                assert(self@.boards =~= step(v, play).boards);
            }
        }
    }

    /// The score of each seat: what its team's board counts for, less the
    /// points that the team's seats still hold.
    pub fn get_scores(&self) -> (r: Vec<i16>)
        requires
            self.wf(),
        ensures
            r@.len() == seats(self@),
            forall|s: int| 0 <= s < seats(self@) ==> #[trigger] r@[s] == seat_scores(self@)[s],
    {
        let ghost v = self@;
        proof {
            self.lemma_view_facts();
            lemma_turn_facts(v);
        }
        let teams = self.teams_count as usize;
        let n = self.players.len();
        let mut team_scores: Vec<i32> = Vec::new();
        let mut t: usize = 0;
        while t < teams
            invariant
                t <= teams,
                teams == v.teams,
                n == seats(v),
                self.wf(),
                v == self@,
                team_scores@.len() == t,
                forall|k: int| 0 <= k < t ==> #[trigger] team_scores@[k] == team_score(v, k),
            decreases teams - t,
        {
            let ghost p = Seq::new(
                n as nat,
                |s: int|
                    if s % v.teams == t {
                        crate::hand::hand_points(v.hands[s])
                    } else {
                        0int
                    },
            );
            let mut penalty: i32 = 0;
            let mut s: usize = 0;
            while s < n
                invariant
                    s <= n,
                    t < teams,
                    teams == v.teams,
                    n == seats(v),
                    self.wf(),
                    v == self@,
                    p.len() == n,
                    forall|k: int| 0 <= k < n ==> #[trigger] p[k] == if k % v.teams == t {
                        crate::hand::hand_points(v.hands[k])
                    } else {
                        0int
                    },
                    penalty == sum(p.take(s as int)),
                    0 <= penalty <= 178500 * s,
                decreases n - s,
            {
                proof {
                    assert(p.take(s + 1).drop_last() =~= p.take(s as int));
                    self.lemma_view_facts();
                }
                if s % teams == t {
                    let points = self.players[s].hand.get_score();
                    penalty = penalty + points as i32;
                }
                s += 1;
            }
            proof {
                assert(p.take(n as int) =~= p);
                lemma_penalty_bound(v, t as int);
                lemma_board_points_bound(v, t as int);
                self.lemma_view_facts();
            }
            let board_points = self.boards[t].get_score();
            team_scores.push(board_points as i32 - penalty);
            t += 1;
        }
        proof {
            assert forall|k: int| 0 <= k < teams implies -18290 <= #[trigger] team_score(v, k) <= 23580 by {
                lemma_penalty_bound(v, k);
                lemma_board_points_bound(v, k);
            }
        }
        let mut scores: Vec<i16> = Vec::new();
        let mut s: usize = 0;
        while s < n
            invariant
                s <= n,
                teams == v.teams,
                teams >= 1,
                n == seats(v),
                team_scores@.len() == teams,
                forall|k: int| 0 <= k < teams ==> #[trigger] team_scores@[k] == team_score(v, k),
                forall|k: int| 0 <= k < teams ==> -18290 <= #[trigger] team_score(v, k) <= 23580,
                scores@.len() == s,
                forall|k: int| 0 <= k < s ==> #[trigger] scores@[k] == seat_scores(v)[k],
            decreases n - s,
        {
            proof {
                vstd::arithmetic::div_mod::lemma_mod_pos_bound(s as int, teams as int);
            }
            scores.push(team_scores[s % teams] as i16);
            s += 1;
        }
        scores
    }

    /// A state that play reaches is valid under the rules.
    pub proof fn lemma_valid(&self)
        requires
            self.wf(),
        ensures
            valid(self@),
    {
    }

    /// Every card of the decks is in exactly one place: the draw pile, the
    /// discard pile, a hand or a board. Play only reaches states of which
    /// this holds: the constructors make one, and every action keeps it.
    pub proof fn lemma_conservation(&self)
        requires
            self.wf(),
        ensures
            forall|c: Card| #[trigger] cards_in_play(self@, c) == total_of(self@.decks, c),
    {
    }

    /// No hand and no meld ever holds a negative count, nor more of a rank
    /// than the decks have.
    pub proof fn lemma_counts_in_range(&self)
        requires
            self.wf(),
        ensures
            forall|s: int, r: int|
                0 <= s < seats(self@) && 0 <= r < 14 ==> 0 <= #[trigger] self@.hands[s][r]
                    <= total_of(self@.decks, card_at(r)),
            forall|t: int, i: int|
                0 <= t < self@.teams && 0 <= i < 14 ==> {
                    &&& 0 <= slot_jokers(#[trigger] self@.boards[t].slots[i]) <= total_of(self@.decks, Card::Joker)
                    &&& 0 <= slot_twos(self@.boards[t].slots[i]) <= total_of(self@.decks, Card::Two)
                    &&& 0 <= slot_naturals(self@.boards[t].slots[i]) <= total_of(self@.decks, card_at(i))
                },
    {
        let v = self@;
        assert forall|s: int, r: int| 0 <= s < seats(v) && 0 <= r < 14 implies 0 <= #[trigger] v.hands[s][r]
            <= total_of(v.decks, card_at(r)) by {
            lemma_hand_within_deck(v, s, r);
        }
        assert forall|t: int, i: int| 0 <= t < v.teams && 0 <= i < 14 implies {
            &&& 0 <= slot_jokers(#[trigger] v.boards[t].slots[i]) <= total_of(v.decks, Card::Joker)
            &&& 0 <= slot_twos(v.boards[t].slots[i]) <= total_of(v.decks, Card::Two)
            &&& 0 <= slot_naturals(v.boards[t].slots[i]) <= total_of(v.decks, card_at(i))
        } by {
            lemma_slot_within_deck(v, t, i);
        }
    }

    /// The seat on turn.
    pub fn get_curr_player(&self) -> (r: &Player)
        requires
            self.wf(),
        ensures
            r.hand_view() == cur_hand(self@),
            r.knowledge_view() == self@.knowledge[self@.turn],
    {
        proof {
            self.lemma_view_facts();
        }
        &self.players[self.turn.get() as usize]
    }

    /// How many seats play.
    pub fn seat_count(&self) -> (r: usize)
        requires
            self.wf(),
        ensures
            r == seats(self@),
    {
        self.players.len()
    }

    pub fn teams_count(&self) -> (r: u8)
        ensures
            r == self@.teams,
    {
        self.teams_count
    }

    pub fn players_per_team(&self) -> (r: u8)
        ensures
            r == self@.per_team,
    {
        self.players_per_team
    }

    /// The hand of seat `seat`.
    pub fn hand(&self, seat: usize) -> (r: Hand)
        requires
            self.wf(),
            seat < seats(self@),
        ensures
            r@ == self@.hands[seat as int],
    {
        proof {
            self.lemma_view_facts();
        }
        self.players[seat].hand
    }

    /// The board of team `team`.
    pub fn board(&self, team: usize) -> (r: Board)
        requires
            self.wf(),
            team < self@.teams,
        ensures
            team_view(r) == self@.boards[team as int],
    {
        proof {
            self.lemma_view_facts();
        }
        self.boards[team]
    }

    /// What seat `observer` has seen of seat `seat`'s hand change, rank `card`.
    pub fn knowledge(&self, observer: usize, seat: usize, card: Card) -> (r: i8)
        requires
            self.wf(),
            observer < seats(self@),
            seat < seats(self@),
        ensures
            r == self@.knowledge[observer as int][seat as int][card_index(card)],
    {
        proof {
            self.lemma_view_facts();
            assert(self@.knowledge[observer as int] == rows_view(self.players@[observer as int].knowledge@));
        }
        let row = self.players[observer].knowledge[seat];
        row[card.get_index()]
    }

    pub fn draw_pile(&self) -> (r: &DrawPile)
        ensures
            r@ == self@.draw,
    {
        &self.draw_pile
    }

    pub fn discard_pile(&self) -> (r: &Vec<Card>)
        ensures
            r@ == self@.discard,
    {
        &self.discard_pile
    }

    pub fn is_frozen(&self) -> (r: bool)
        ensures
            r == self@.frozen,
    {
        self.frozen
    }

    /// Whether the seat on turn has drawn or picked up this turn.
    pub fn has_drawn(&self) -> (r: bool)
        ensures
            r == self@.drawn,
    {
        self.curr_player_drawn
    }

    pub fn get_total_turns(&self) -> (r: u16)
        ensures
            r == self@.total_turns,
    {
        self.turn.total_turns()
    }

    /// Whether the game has ended.
    pub fn is_finished(&self) -> (r: bool)
        ensures
            r == self@.finished,
    {
        self.finished
    }

    /// The turn counter.
    pub fn turn(&self) -> (r: TurnCounter)
        ensures
            r.seat() == self@.turn,
            r.turns() == self@.total_turns,
    {
        self.turn
    }

    /// Whether the seat on turn may take action `play`.
    pub fn check_legal(&self, play: Play) -> (r: bool)
        requires
            self.wf(),
        ensures
            r == legal(self@, play),
    {
        proof {
            self.lemma_view_facts();
        }
        let s = self.turn.get() as usize;
        let hand: Hand = self.players[s].hand;
        let hand_size: u16 = hand.get_hand_size();
        let board: Board = self.boards[s % (self.teams_count as usize)];
        let canastas: u8 = board.get_num_canastas();
        let wilds: u16 = hand.get(Card::Joker) as u16 + hand.get(Card::Two) as u16;
        proof {
            hand.lemma_view();
            lemma_card_index_bijective();
        }
        match play {
            Play::GoOut => {
                let threes = hand.get(Card::Three);
                proof {
                    lemma_sum_element(hand@, 2);
                }
                self.curr_player_drawn && canastas >= 2 && hand_size - threes as u16 == 1 && (
                threes >= 3 || threes == 0)
            },
            Play::PickupPile => {
                let n = self.discard_pile.len();
                if n == 0 {
                    return false;
                }
                if self.curr_player_drawn {
                    return false;
                }
                let top = self.discard_pile[n - 1];
                let enough = if n >= 3 {
                    true
                } else {
                    hand_size as usize + n - 1 >= 2
                };
                if board.get(top).is_some() && enough && !self.frozen {
                    return true;
                }
                if hand_size <= 3 && n == 1 {
                    return false;
                }
                if hand_size <= 2 && n == 2 {
                    return false;
                }
                if top.is_wild() || top == Card::Three {
                    return false;
                }
                if self.frozen || !board.is_down() {
                    return hand.get(top) >= 2;
                }
                wilds >= 1 && hand.get(top) >= 2
            },
            Play::PlaceWild(subset_card) => {
                let card = Card::from(subset_card);
                if !self.curr_player_drawn {
                    return false;
                }
                if hand_size <= 2 && canastas < 2 {
                    if canastas == 1 {
                        if let Some(stack) = board.get(card) {
                            if stack.get_total_count() == 6 {
                                return hand_size == 2 && wilds >= 1 && stack.twos as u16
                                    + stack.jokers as u16 + 1 <= stack.card_count as u16;
                            }
                        }
                    }
                    return false;
                }
                if let Some(stack) = board.get(card) {
                    if wilds >= 1 {
                        return stack.twos as u16 + stack.jokers as u16 + 1
                            <= stack.card_count as u16;
                    }
                }
                false
            },
            Play::Draw => !self.curr_player_drawn,
            Play::Discard(card) => {
                if !self.curr_player_drawn {
                    return false;
                }
                if hand.get(card) == 0 {
                    return false;
                }
                canastas >= 2 || hand_size > 1
            },
            Play::Play(subset_card) => {
                let card = Card::from(subset_card);
                let held = hand.get(card);
                let meld = board.get(card);
                let completes = canastas == 1 && match meld {
                    Some(stack) => stack.get_total_count() == 6,
                    None => false,
                };
                if held == 0 || !self.curr_player_drawn || hand_size == 1 || (hand_size == 2
                    && canastas < 2 && !completes) {
                    return false;
                }
                if meld.is_some() {
                    return true;
                }
                if held >= 3 || (held == 2 && wilds >= 1) {
                    return hand_size >= 8 || (hand_size >= 7 && canastas >= 2);
                }
                false
            },
        }
    }
}

} // verus!
