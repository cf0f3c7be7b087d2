//! Proofs that every legal action keeps a game state valid and brings the
//! game closer to its end.

use vstd::prelude::*;

use crate::board::{
    canasta_count, slot_canasta, stack_total,
    board_points, slot_points, board_rank_count, grown, slot_jokers, slot_naturals, slot_twos,
    BoardStack,
};
use crate::hand::hand_points;
use crate::card::{
    card_value, card_at, card_index, lemma_card_index_bijective, playable_card, Card,
    PlayableCardSubset,
};
use crate::pile::{count_of, lemma_count_nonneg, lemma_count_push};
use crate::play::Play;
use crate::random_play::can_take;
use crate::rules::{
    live, canastas, hand_size,
    act, cards_in_play, cur_board, cur_hand, cur_team, ends_turn, first_single, go_out_legal,
    grown_wild, hand_of_cards, held, in_hands, learn, legal, lemma_board_count_nonneg,
    lemma_hand_within_deck, lemma_on_boards_nonneg, moved, on_boards, pickup_legal, placed,
    place_wild_legal, play_legal, progress, seats, shape_ok, step, total_of, valid, wild_choice,
    with_pile, GameView, TeamView, team_penalty,
};
use crate::sums::{
    lemma_sum_add, lemma_sum_bounds, lemma_sum_element, lemma_sum_map_update, lemma_sum_nonneg,
    lemma_sum_update, lemma_sum_mono, lemma_sum_scale, lemma_sum_14, sum,
};

verus! {

/// `1` if `b` holds, else `0`.
pub open spec fn ind(b: bool) -> int {
    if b {
        1
    } else {
        0
    }
}

pub proof fn lemma_moved(h: Seq<int>, x: Card, d: int)
    requires
        h.len() == 14,
    ensures
        sum(moved(h, x, d)) == sum(h) + d,
        moved(h, x, d).len() == 14,
        forall|c: Card| #[trigger] moved(h, x, d)[card_index(c)] == h[card_index(c)] + ind(c == x) * d,
{
    lemma_card_index_bijective();
    lemma_sum_update(h, card_index(x), h[card_index(x)] + d);
    assert forall|c: Card| #[trigger] moved(h, x, d)[card_index(c)] == h[card_index(c)] + ind(c == x) * d by {
        if c != x {
            assert(card_index(c) != card_index(x)) by {
                assert(card_at(card_index(c)) == c);
            }
        }
    }
}

/// The hand that a run of cards makes holds as many cards as the run.
pub proof fn lemma_hand_of_cards_size(s: Seq<Card>)
    ensures
        sum(hand_of_cards(s)) == s.len(),
        hand_of_cards(s).len() == 14,
    decreases s.len(),
{
    lemma_card_index_bijective();
    if s.len() == 0 {
        lemma_sum_bounds(hand_of_cards(s), 0, 0);
    } else {
        let a = s.last();
        let t = s.drop_last();
        assert(t.push(a) =~= s);
        lemma_hand_of_cards_size(t);
        assert forall|c: Card| count_of(s, c) == count_of(t, c) + ind(a == c) by {
            lemma_count_push(t, a, c);
        }
        assert(hand_of_cards(s) =~= hand_of_cards(t).update(
            card_index(a),
            hand_of_cards(t)[card_index(a)] + 1,
        ));
        lemma_sum_update(hand_of_cards(t), card_index(a), hand_of_cards(t)[card_index(a)] + 1);
    }
}

/// Taking in a pile adds its cards, rank by rank.
pub proof fn lemma_with_pile(h: Seq<int>, pile: Seq<Card>)
    requires
        h.len() == 14,
    ensures
        sum(with_pile(h, pile)) == sum(h) + pile.len(),
        with_pile(h, pile).len() == 14,
        forall|c: Card| #[trigger] with_pile(h, pile)[card_index(c)] == h[card_index(c)] + count_of(pile, c),
{
    lemma_card_index_bijective();
    lemma_hand_of_cards_size(pile);
    lemma_sum_add(h, hand_of_cards(pile), with_pile(h, pile));
    assert forall|c: Card| #[trigger] with_pile(h, pile)[card_index(c)] == h[card_index(c)] + count_of(pile, c) by {
        assert(card_at(card_index(c)) == c);
    }
}

/// A run of threes holds only threes.
pub proof fn lemma_count_threes(n: nat, c: Card)
    ensures
        count_of(Seq::new(n, |i: int| Card::Three), c) == ind(c == Card::Three) * n,
    decreases n,
{
    if n > 0 {
        let s = Seq::new(n, |i: int| Card::Three);
        assert(s.drop_last() =~= Seq::new((n - 1) as nat, |i: int| Card::Three));
        lemma_count_threes((n - 1) as nat, c);
        if c == Card::Three {
            assert(ind(c == Card::Three) * n == n);
            assert(ind(c == Card::Three) * (n - 1) == n - 1);
        } else {
            assert(ind(c == Card::Three) * n == 0);
            assert(ind(c == Card::Three) * (n - 1) == 0);
        }
    }
}

/// Growing one meld changes the board's count of each rank by what was added.
pub proof fn lemma_grown_delta(slots: Seq<Option<BoardStack>>, c0: Card, dj: int, dt: int, dn: int, c: Card)
    requires
        slots.len() == 14,
        0 <= dj,
        0 <= dt,
        0 <= dn,
        slot_jokers(slots[card_index(c0)]) + dj <= 255,
        slot_twos(slots[card_index(c0)]) + dt <= 255,
        slot_naturals(slots[card_index(c0)]) + dn <= 255,
    ensures
        board_rank_count(slots.update(card_index(c0), Some(grown(slots[card_index(c0)], c0, dj, dt, dn))), c)
            == board_rank_count(slots, c) + ind(c == c0) * dn + ind(c == Card::Joker) * dj + ind(
            c == Card::Two,
        ) * dt,
{
    lemma_card_index_bijective();
    let i = card_index(c0);
    let o = slots[i];
    let n = Some(grown(o, c0, dj, dt, dn));
    let s2 = slots.update(i, n);
    lemma_sum_map_update(slots, i, n, |o: Option<BoardStack>| slot_jokers(o));
    lemma_sum_map_update(slots, i, n, |o: Option<BoardStack>| slot_twos(o));
    assert(slot_jokers(n) == slot_jokers(o) + dj);
    assert(slot_twos(n) == slot_twos(o) + dt);
    assert(slot_naturals(n) == slot_naturals(o) + dn);
    if c != c0 {
        assert(card_index(c) != card_index(c0)) by {
            assert(card_at(card_index(c)) == c);
        }
        assert(s2[card_index(c)] == slots[card_index(c)]);
    } else {
        assert(s2[card_index(c)] == n);
    }
    let j1 = sum(slots.map_values(|o: Option<BoardStack>| slot_jokers(o)));
    let j2 = sum(s2.map_values(|o: Option<BoardStack>| slot_jokers(o)));
    let t1 = sum(slots.map_values(|o: Option<BoardStack>| slot_twos(o)));
    let t2 = sum(s2.map_values(|o: Option<BoardStack>| slot_twos(o)));
    assert(j2 == j1 + dj);
    assert(t2 == t1 + dt);
}

/// Replacing a seat's hand changes the count of a rank in all hands by the difference.
pub proof fn lemma_in_hands_update(hands: Seq<Seq<int>>, s: int, h: Seq<int>, c: Card)
    requires
        0 <= s < hands.len(),
    ensures
        in_hands(hands.update(s, h), c) == in_hands(hands, c) - hands[s][card_index(c)] + h[card_index(c)],
{
    lemma_sum_map_update(hands, s, h, |h: Seq<int>| h[card_index(c)]);
}

/// Replacing a team's board changes the count of a rank on all boards by the difference.
pub proof fn lemma_on_boards_update(boards: Seq<TeamView>, t: int, b: TeamView, c: Card)
    requires
        0 <= t < boards.len(),
    ensures
        on_boards(boards.update(t, b), c) == on_boards(boards, c) - board_rank_count(boards[t].slots, c)
            + board_rank_count(b.slots, c),
{
    lemma_sum_map_update(boards, t, b, |b: TeamView| board_rank_count(b.slots, c));
}

/// Replacing a seat's hand changes the cards held in all hands by the difference.
pub proof fn lemma_sizes_update(hands: Seq<Seq<int>>, s: int, h: Seq<int>)
    requires
        0 <= s < hands.len(),
    ensures
        sum(hands.update(s, h).map_values(|h: Seq<int>| sum(h))) == sum(hands.map_values(|h: Seq<int>| sum(h)))
            - sum(hands[s]) + sum(h),
{
    lemma_sum_map_update(hands, s, h, |h: Seq<int>| sum(h));
}

/// In a state whose cards are all accounted for, every meld's counts are
/// within the decks.
pub proof fn lemma_slot_within_deck(v: GameView, t: int, i: int)
    requires
        shape_ok(v),
        forall|c: Card| #[trigger] cards_in_play(v, c) == total_of(v.decks, c),
        0 <= t < v.teams,
        0 <= i < 14,
    ensures
        slot_jokers(v.boards[t].slots[i]) <= total_of(v.decks, Card::Joker),
        slot_twos(v.boards[t].slots[i]) <= total_of(v.decks, Card::Two),
        slot_naturals(v.boards[t].slots[i]) <= total_of(v.decks, card_at(i)),
{
    lemma_card_index_bijective();
    let slots = v.boards[t].slots;
    assert forall|c: Card| board_rank_count(slots, c) <= total_of(v.decks, c) by {
        let m = v.boards.map_values(|b: TeamView| board_rank_count(b.slots, c));
        assert forall|k: int| 0 <= k < m.len() implies 0 <= #[trigger] m[k] by {
            lemma_board_count_nonneg(v.boards[k].slots, c);
        }
        lemma_sum_element(m, t);
        let hm = v.hands.map_values(|h: Seq<int>| h[card_index(c)]);
        assert forall|k: int| 0 <= k < hm.len() implies 0 <= #[trigger] hm[k] by {
            assert(0 <= v.hands[k][card_index(c)]);
        }
        lemma_sum_nonneg(hm);
        lemma_count_nonneg(v.draw, c);
        lemma_count_nonneg(v.discard, c);
        assert(cards_in_play(v, c) == total_of(v.decks, c));
    }
    let js = slots.map_values(|o: Option<BoardStack>| slot_jokers(o));
    let ts = slots.map_values(|o: Option<BoardStack>| slot_twos(o));
    assert forall|k: int| 0 <= k < 14 implies 0 <= #[trigger] js[k] && 0 <= ts[k] by {}
    lemma_sum_element(js, i);
    lemma_sum_element(ts, i);
    lemma_sum_nonneg(js);
    lemma_sum_nonneg(ts);
    assert(board_rank_count(slots, Card::Joker) <= total_of(v.decks, Card::Joker));
    assert(board_rank_count(slots, Card::Two) <= total_of(v.decks, Card::Two));
    assert(board_rank_count(slots, card_at(i)) <= total_of(v.decks, card_at(i)));
    assert(card_index(card_at(i)) == i);
}

/// Every card of the decks is in exactly one place.
pub open spec fn accounted(v: GameView) -> bool {
    forall|c: Card| #[trigger] cards_in_play(v, c) == total_of(v.decks, c)
}

/// The count of rank `c` is kept when what the piles, the seat's hand and its
/// team's board gain of it adds up to nothing.
pub proof fn lemma_account(
    v: GameView,
    a: GameView,
    h2: Seq<int>,
    b2: TeamView,
    c: Card,
    dd: int,
    dx: int,
    dh: int,
    db: int,
)
    requires
        shape_ok(v),
        0 <= cur_team(v) < v.teams,
        a.hands == v.hands.update(v.turn, h2),
        a.boards == v.boards.update(cur_team(v), b2),
        count_of(a.draw, c) == count_of(v.draw, c) + dd,
        count_of(a.discard, c) == count_of(v.discard, c) + dx,
        h2[card_index(c)] == cur_hand(v)[card_index(c)] + dh,
        board_rank_count(b2.slots, c) == board_rank_count(cur_board(v).slots, c) + db,
        dd + dx + dh + db == 0,
    ensures
        cards_in_play(a, c) == cards_in_play(v, c),
{
    lemma_in_hands_update(v.hands, v.turn, h2, c);
    lemma_on_boards_update(v.boards, cur_team(v), b2, c);
}

/// Facts about the seat on turn and its team in a valid state.
pub proof fn lemma_turn_facts(v: GameView)
    requires
        shape_ok(v),
    ensures
        0 <= cur_team(v) < v.teams,
        0 <= (v.turn + 1) % seats(v) < seats(v),
        cur_hand(v).len() == 14,
        cur_board(v).slots.len() == 14,
        seats(v) >= 1,
{
    vstd::arithmetic::div_mod::lemma_mod_pos_bound(v.turn, v.teams);
    assert(seats(v) >= 1) by (nonlinear_arith)
        requires v.teams >= 1, v.per_team >= 1, seats(v) == v.teams * v.per_team;
    vstd::arithmetic::div_mod::lemma_mod_pos_bound(v.turn + 1, seats(v));
}

/// A state that differs from a valid one in the seat's hand, the team's board,
/// the piles and the flags keeps the shape when the new hand and board are
/// well formed.
pub proof fn lemma_shape_kept(v: GameView, a: GameView, h2: Seq<int>, b2: TeamView)
    requires
        shape_ok(v),
        0 <= cur_team(v) < v.teams,
        a.hands == v.hands.update(v.turn, h2),
        a.boards == v.boards.update(cur_team(v), b2),
        a.knowledge == v.knowledge,
        a.teams == v.teams,
        a.per_team == v.per_team,
        a.decks == v.decks,
        0 <= a.turn < seats(v),
        h2.len() == 14,
        forall|r: int| 0 <= r < 14 ==> 0 <= #[trigger] h2[r],
        b2.slots.len() == 14,
        forall|i: int|
            0 <= i < 14 && (#[trigger] b2.slots[i]) is Some ==> {
                &&& b2.slots[i]->0.card_type == card_at(i)
                &&& i >= 3
            },
    ensures
        shape_ok(a),
{
}

/// The one card besides threes that a seat going out holds.
pub proof fn lemma_go_out_card(v: GameView)
    requires
        shape_ok(v),
        go_out_legal(v),
    ensures
        0 <= first_single(cur_hand(v), 0) < 14,
        first_single(cur_hand(v), 0) != 2,
        cur_hand(v)[first_single(cur_hand(v), 0)] == 1,
        forall|r: int|
            0 <= r < 14 && r != 2 && r != first_single(cur_hand(v), 0) ==> #[trigger] cur_hand(v)[r]
                == 0,
{
    lemma_turn_facts(v);
    let h = cur_hand(v);
    let h0 = h.update(2, 0);
    lemma_sum_update(h, 2, 0);
    assert(sum(h0) == 1);
    assert forall|k: int| 0 <= k < 14 implies 0 <= #[trigger] h0[k] by {}
    assert forall|k: int| 0 <= k < 14 implies #[trigger] h0[k] <= 1 by {
        lemma_sum_element(h0, k);
    }
    assert(exists|j: int| 0 <= j < 14 && h0[j] == 1) by {
        if !(exists|j: int| 0 <= j < 14 && h0[j] == 1) {
            assert forall|k: int| 0 <= k < 14 implies #[trigger] h0[k] <= 0 by {
                assert(h0[k] != 1);
            }
            lemma_sum_bounds(h0, 0, 0);
        }
    }
    let j = choose|j: int| 0 <= j < 14 && h0[j] == 1;
    assert forall|r: int| 0 <= r < 14 && r != j implies #[trigger] h0[r] == 0 by {
        if h0[r] != 0 {
            lemma_sum_update(h0, r, 0);
            lemma_sum_element(h0.update(r, 0), j);
        }
    }
    assert(h[2] == held(v, Card::Three));
    assert forall|k: int| 0 <= k < j implies #[trigger] h[k] != 1 by {
        if k != 2 {
            assert(h0[k] == 0);
        }
    }
    lemma_first_single(h, 0, j);
    assert forall|r: int|
        0 <= r < 14 && r != 2 && r != first_single(cur_hand(v), 0) implies #[trigger] cur_hand(v)[r]
            == 0 by {
        assert(h0[r] == 0);
    }
}

pub proof fn lemma_first_single(h: Seq<int>, i: int, j: int)
    requires
        0 <= i <= j < 14,
        h.len() == 14,
        h[j] == 1,
        forall|k: int| i <= k < j ==> #[trigger] h[k] != 1,
    ensures
        first_single(h, i) == j,
    decreases j - i,
{
    if i < j {
        lemma_first_single(h, i + 1, j);
    }
}

/// The first single of a hand is found at or after any index before it.
pub proof fn lemma_first_single_skip(h: Seq<int>, i: int)
    requires
        0 <= i < 14,
        h[i] != 1,
    ensures
        first_single(h, i) == first_single(h, i + 1),
{
}

/// A seat holds no more of a rank, together with the discard pile's cards of
/// it, than the decks have.
pub proof fn lemma_hand_and_discard(v: GameView, r: int)
    requires
        shape_ok(v),
        accounted(v),
        0 <= r < 14,
    ensures
        cur_hand(v)[r] + count_of(v.discard, card_at(r)) <= total_of(v.decks, card_at(r)),
        0 <= count_of(v.discard, card_at(r)),
{
    lemma_turn_facts(v);
    let c = card_at(r);
    assert(card_index(c) == r);
    let m = v.hands.map_values(|h: Seq<int>| h[card_index(c)]);
    assert forall|k: int| 0 <= k < m.len() implies 0 <= #[trigger] m[k] by {
        assert(0 <= v.hands[k][r]);
    }
    lemma_sum_element(m, v.turn);
    lemma_on_boards_nonneg(v.boards, c);
    lemma_count_nonneg(v.draw, c);
    lemma_count_nonneg(v.discard, c);
    assert(cards_in_play(v, c) == total_of(v.decks, c));
}

/// A prefix of a run holds no more of a rank than the run.
pub proof fn lemma_count_prefix(s: Seq<Card>, k: int, c: Card)
    requires
        0 <= k <= s.len(),
    ensures
        0 <= count_of(s.take(k), c) <= count_of(s, c),
{
    assert(s =~= s.take(k) + s.skip(k));
    crate::pile::lemma_count_concat(s.take(k), s.skip(k), c);
    lemma_count_nonneg(s.skip(k), c);
    lemma_count_nonneg(s.take(k), c);
}

/// The work left is never negative.
pub proof fn lemma_progress_nonneg(v: GameView)
    requires
        shape_ok(v),
    ensures
        0 <= progress(v),
{
    let m = v.hands.map_values(|h: Seq<int>| sum(h));
    assert forall|k: int| 0 <= k < m.len() implies 0 <= #[trigger] m[k] by {
        lemma_sum_nonneg(v.hands[k]);
    }
    lemma_sum_nonneg(m);
}

/// A hand's points are at most fifty for each card.
pub proof fn lemma_hand_points_bound(h: Seq<int>)
    requires
        h.len() == 14,
        forall|r: int| 0 <= r < 14 ==> 0 <= #[trigger] h[r],
    ensures
        0 <= hand_points(h) <= 50 * sum(h),
{
    let terms = Seq::new(14, |i: int| h[i] * card_value(card_at(i)));
    let tops = Seq::new(14, |i: int| 50 * h[i]);
    assert forall|i: int| 0 <= i < 14 implies 0 <= #[trigger] terms[i] <= tops[i] by {
        let x = h[i];
        let y = card_value(card_at(i));
        assert(0 <= x * y <= 50 * x) by (nonlinear_arith)
            requires 0 <= x, 0 <= y <= 50;
    }
    lemma_sum_mono(terms, tops);
    lemma_sum_nonneg(terms);
    lemma_sum_scale(h, 50);
    assert(hand_points(h) == sum(terms));
}

/// The points of the cards in a column of hands, rank by rank.
pub open spec fn points_by_rank(hands: Seq<Seq<int>>) -> Seq<int> {
    Seq::new(14, |r: int| sum(hands.map_values(|h: Seq<int>| h[r])) * card_value(card_at(r)))
}

/// The points that all hands hold, counted seat by seat or rank by rank.
pub proof fn lemma_points_by_rank(hands: Seq<Seq<int>>)
    requires
        forall|s: int| 0 <= s < hands.len() ==> (#[trigger] hands[s]).len() == 14,
    ensures
        sum(hands.map_values(|h: Seq<int>| hand_points(h))) == sum(points_by_rank(hands)),
    decreases hands.len(),
{
    if hands.len() == 0 {
        assert forall|r: int| 0 <= r < 14 implies #[trigger] points_by_rank(hands)[r] == 0 by {
            assert(hands.map_values(|h: Seq<int>| h[r]) =~= Seq::<int>::empty());
        }
        lemma_sum_bounds(points_by_rank(hands), 0, 0);
    } else {
        let init = hands.drop_last();
        let last = hands.last();
        lemma_points_by_rank(init);
        assert(hands.map_values(|h: Seq<int>| hand_points(h)).drop_last() =~= init.map_values(
            |h: Seq<int>| hand_points(h),
        ));
        let lt = Seq::new(14, |i: int| last[i] * card_value(card_at(i)));
        assert forall|r: int| 0 <= r < 14 implies #[trigger] points_by_rank(hands)[r] == points_by_rank(
            init,
        )[r] + lt[r] by {
            assert(hands.map_values(|h: Seq<int>| h[r]).drop_last() =~= init.map_values(
                |h: Seq<int>| h[r],
            ));
            let a = sum(init.map_values(|h: Seq<int>| h[r]));
            let x = last[r];
            let w = card_value(card_at(r));
            assert((a + x) * w == a * w + x * w) by (nonlinear_arith);
        }
        lemma_sum_add(points_by_rank(init), lt, points_by_rank(hands));
    }
}

/// The boards hold no more of a rank than the decks have.
pub proof fn lemma_board_within_deck(v: GameView, t: int, c: Card)
    requires
        shape_ok(v),
        accounted(v),
        0 <= t < v.teams,
    ensures
        0 <= board_rank_count(v.boards[t].slots, c) <= total_of(v.decks, c),
{
    let m = v.boards.map_values(|b: TeamView| board_rank_count(b.slots, c));
    assert forall|k: int| 0 <= k < m.len() implies 0 <= #[trigger] m[k] by {
        lemma_board_count_nonneg(v.boards[k].slots, c);
    }
    lemma_sum_element(m, t);
    let hm = v.hands.map_values(|h: Seq<int>| h[card_index(c)]);
    assert forall|k: int| 0 <= k < hm.len() implies 0 <= #[trigger] hm[k] by {
        lemma_card_index_bijective();
        assert(0 <= v.hands[k][card_index(c)]);
    }
    lemma_sum_nonneg(hm);
    lemma_count_nonneg(v.draw, c);
    lemma_count_nonneg(v.discard, c);
    assert(cards_in_play(v, c) == total_of(v.decks, c));
}

/// A team's seats hold at most 590 points a deck in their hands: every card
/// of the decks held, each at its rank's value.
pub proof fn lemma_penalty_bound(v: GameView, t: int)
    requires
        valid(v),
    ensures
        0 <= team_penalty(v, t) <= 590 * v.decks,
        team_penalty(v, t) <= 18290,
{
    lemma_card_index_bijective();
    let n = seats(v);
    let p = Seq::new(n as nat, |s: int| if s % v.teams == t { hand_points(v.hands[s]) } else { 0int });
    let hp = v.hands.map_values(|h: Seq<int>| hand_points(h));
    assert forall|s: int| 0 <= s < n implies 0 <= #[trigger] p[s] <= hp[s] by {
        lemma_hand_points_bound(v.hands[s]);
    }
    lemma_sum_mono(p, hp);
    lemma_sum_nonneg(p);
    lemma_points_by_rank(v.hands);
    let pr = points_by_rank(v.hands);
    let tops = Seq::new(14, |r: int| total_of(v.decks, card_at(r)) * card_value(card_at(r)));
    assert forall|r: int| 0 <= r < 14 implies #[trigger] pr[r] <= tops[r] by {
        let c = card_at(r);
        assert(v.hands.map_values(|h: Seq<int>| h[r]) =~= v.hands.map_values(
            |h: Seq<int>| h[card_index(c)],
        ));
        lemma_on_boards_nonneg(v.boards, c);
        lemma_count_nonneg(v.draw, c);
        lemma_count_nonneg(v.discard, c);
        assert(cards_in_play(v, c) == total_of(v.decks, c));
        let col = in_hands(v.hands, c);
        let w = card_value(c);
        let tot = total_of(v.decks, c);
        assert(col * w <= tot * w) by (nonlinear_arith)
            requires col <= tot, w >= 0;
    }
    lemma_sum_mono(pr, tops);
    lemma_sum_14(tops);
}

/// A board counts for at most 580 points a deck and 5600 more: every
/// natural, joker and two of the decks on it, a canasta bonus for every
/// meldable rank, and going out.
pub proof fn lemma_board_points_bound(v: GameView, t: int)
    requires
        valid(v),
        0 <= t < v.teams,
    ensures
        0 <= board_points(v.boards[t].slots, v.boards[t].went_out) <= 580 * v.decks + 5600,
        board_points(v.boards[t].slots, v.boards[t].went_out) <= 23580,
{
    lemma_card_index_bijective();
    let d = v.decks;
    let slots = v.boards[t].slots;
    let m = slots.map_values(|o: Option<BoardStack>| slot_points(o));
    let js = slots.map_values(|o: Option<BoardStack>| slot_jokers(o));
    let ts = slots.map_values(|o: Option<BoardStack>| slot_twos(o));
    let c = Seq::new(
        14,
        |i: int|
            if i >= 3 {
                4 * d * card_value(card_at(i)) + 500
            } else {
                0int
            },
    );
    let j50 = Seq::new(js.len(), |i: int| 50 * js[i]);
    let t20 = Seq::new(ts.len(), |i: int| 20 * ts[i]);
    let wild = Seq::new(14, |i: int| j50[i] + t20[i]);
    let b = Seq::new(14, |i: int| c[i] + wild[i]);
    assert forall|i: int| 0 <= i < 14 implies 0 <= #[trigger] m[i] <= b[i] by {
        lemma_slot_within_deck(v, t, i);
        if let Some(st) = slots[i] {
            let x = st.card_count as int;
            let y = card_value(st.card_type);
            assert(st.card_type == card_at(i));
            assert(0 <= x * y <= 4 * d * y) by (nonlinear_arith)
                requires 0 <= x <= 4 * d, 0 <= y;
        }
    }
    lemma_sum_mono(m, b);
    lemma_sum_nonneg(m);
    lemma_sum_scale(js, 50);
    lemma_sum_scale(ts, 20);
    lemma_sum_add(j50, t20, wild);
    lemma_sum_add(c, wild, b);
    lemma_sum_14(c);
    lemma_board_within_deck(v, t, Card::Joker);
    lemma_board_within_deck(v, t, Card::Two);
    lemma_sum_nonneg(js);
    lemma_sum_nonneg(ts);
}

/// The card on top of a pile is in it.
pub proof fn lemma_top_counted(s: Seq<Card>)
    requires
        s.len() > 0,
    ensures
        count_of(s, s.last()) >= 1,
{
    lemma_count_nonneg(s.drop_last(), s.last());
}

/// What an action keeps: the shape, every card in its place, the other seats'
/// hands and the other teams' boards; it brings the game closer to its end
/// and counts a turn exactly when it ends one.
pub open spec fn act_ok(v: GameView, a: GameView, p: Play) -> bool {
    &&& shape_ok(a)
    &&& accounted(a)
    &&& progress(a) < progress(v)
    &&& a.total_turns == v.total_turns + ind(ends_turn(p))
    &&& a.knowledge == v.knowledge
    &&& a.hands == v.hands.update(v.turn, a.hands[v.turn])
    &&& a.boards == v.boards.update(cur_team(v), a.boards[cur_team(v)])
    &&& a.teams == v.teams
    &&& a.per_team == v.per_team
    &&& a.decks == v.decks
}

proof fn lemma_act_draw(v: GameView)
    requires
        valid(v),
        !v.drawn,
        v.draw.len() > 0,
    ensures
        act_ok(v, act(v, Play::Draw), Play::Draw),
{
    lemma_turn_facts(v);
    let a = act(v, Play::Draw);
    let h = cur_hand(v);
    let b = cur_board(v);
    let top = v.draw.last();
    let h2 = moved(h, top, 1);
    lemma_moved(h, top, 1);
    assert(a.boards == v.boards.update(cur_team(v), b));
    assert(v.boards.update(cur_team(v), b) =~= v.boards);
    lemma_shape_kept(v, a, h2, b);
    assert(v.draw.drop_last().push(top) =~= v.draw);
    assert forall|c: Card| #[trigger] cards_in_play(a, c) == total_of(a.decks, c) by {
        lemma_count_push(v.draw.drop_last(), top, c);
        lemma_account(v, a, h2, b, c, -ind(top == c), 0, ind(c == top), 0);
    }
    lemma_sizes_update(v.hands, v.turn, h2);
    assert(a.hands[v.turn] == h2);
}

proof fn lemma_act_discard(v: GameView, c0: Card)
    requires
        valid(v),
        legal(v, Play::Discard(c0)),
    ensures
        act_ok(v, act(v, Play::Discard(c0)), Play::Discard(c0)),
{
    lemma_turn_facts(v);
    let p = Play::Discard(c0);
    let a = act(v, p);
    let h = cur_hand(v);
    let b = cur_board(v);
    let h2 = moved(h, c0, -1);
    lemma_moved(h, c0, -1);
    assert(v.boards.update(cur_team(v), b) =~= v.boards);
    lemma_shape_kept(v, a, h2, b);
    assert forall|c: Card| #[trigger] cards_in_play(a, c) == total_of(a.decks, c) by {
        lemma_count_push(v.discard, c0, c);
        lemma_account(v, a, h2, b, c, 0, ind(c0 == c), -ind(c == c0), 0);
    }
    lemma_sizes_update(v.hands, v.turn, h2);
    assert(a.hands[v.turn] == h2);
}

proof fn lemma_act_go_out(v: GameView)
    requires
        valid(v),
        go_out_legal(v),
    ensures
        act_ok(v, act(v, Play::GoOut), Play::GoOut),
{
    lemma_turn_facts(v);
    lemma_card_index_bijective();
    lemma_go_out_card(v);
    let a = act(v, Play::GoOut);
    let h = cur_hand(v);
    let b = cur_board(v);
    let c1 = card_at(first_single(h, 0));
    let threes = h[card_index(Card::Three)];
    let h1 = moved(h, c1, -1);
    let h2 = moved(h1, Card::Three, -threes);
    let b2 = TeamView { went_out: true, ..b };
    lemma_moved(h, c1, -1);
    lemma_moved(h1, Card::Three, -threes);
    assert(c1 != Card::Three);
    lemma_shape_kept(v, a, h2, b2);
    let run = Seq::new(threes as nat, |i: int| Card::Three);
    assert forall|c: Card| #[trigger] cards_in_play(a, c) == total_of(a.decks, c) by {
        lemma_count_push(v.discard, c1, c);
        lemma_count_threes(threes as nat, c);
        crate::pile::lemma_count_concat(v.discard.push(c1), run, c);
        lemma_account(
            v,
            a,
            h2,
            b2,
            c,
            0,
            ind(c1 == c) + ind(c == Card::Three) * threes,
            -ind(c == c1) - ind(c == Card::Three) * threes,
            0,
        );
    }
    lemma_sizes_update(v.hands, v.turn, h2);
    assert(a.hands[v.turn] == h2);
}

proof fn lemma_act_pickup(v: GameView)
    requires
        valid(v),
        pickup_legal(v),
    ensures
        act_ok(v, act(v, Play::PickupPile), Play::PickupPile),
{
    lemma_turn_facts(v);
    lemma_card_index_bijective();
    let a = act(v, Play::PickupPile);
    let h = cur_hand(v);
    let b = cur_board(v);
    let top = v.discard.last();
    let i = card_index(top);
    let slot = b.slots[i];
    lemma_top_counted(v.discard);
    lemma_slot_within_deck(v, cur_team(v), i);
    let cheap = !(slot is None || v.frozen);
    let h1 = if cheap {
        h
    } else {
        moved(h, top, -2)
    };
    let dn: int = if cheap {
        1
    } else {
        3
    };
    let b1 = placed(b, top, grown(slot, top, 0, 0, dn));
    let hp = with_pile(h1, v.discard);
    let h2 = moved(hp, top, -1);
    lemma_moved(h, top, -2);
    lemma_with_pile(h1, v.discard);
    lemma_moved(hp, top, -1);
    assert(a.hands == v.hands.update(v.turn, h2));
    assert(a.boards == v.boards.update(cur_team(v), b1));
    assert(i >= 3);
    assert(!cheap ==> h[i] >= 2);
    assert forall|r: int| 0 <= r < 14 implies 0 <= #[trigger] h2[r] by {
        let c = card_at(r);
        assert(card_index(c) == r);
        lemma_count_nonneg(v.discard, c);
        assert(h2[card_index(c)] == hp[card_index(c)] - ind(c == top));
        assert(hp[card_index(c)] == h1[card_index(c)] + count_of(v.discard, c));
    }
    lemma_shape_kept(v, a, h2, b1);
    assert forall|c: Card| #[trigger] cards_in_play(a, c) == total_of(a.decks, c) by {
        lemma_grown_delta(b.slots, top, 0, 0, dn, c);
        crate::pile::lemma_count_empty(c);
        lemma_account(
            v,
            a,
            h2,
            b1,
            c,
            0,
            -count_of(v.discard, c),
            count_of(v.discard, c) - ind(c == top) * dn,
            ind(c == top) * dn,
        );
    }
    lemma_sizes_update(v.hands, v.turn, h2);
}

/// A meld grown by one wild card is grown by one joker or one two.
proof fn lemma_grown_wild(o: Option<BoardStack>, c: Card, w: Card)
    requires
        w == Card::Joker || w == Card::Two,
    ensures
        grown_wild(o, c, w) == grown(o, c, ind(w == Card::Joker), ind(w == Card::Two), 0),
{
}

proof fn lemma_act_place_wild(v: GameView, q: PlayableCardSubset)
    requires
        valid(v),
        place_wild_legal(v, playable_card(q)),
    ensures
        act_ok(v, act(v, Play::PlaceWild(q)), Play::PlaceWild(q)),
{
    lemma_turn_facts(v);
    lemma_card_index_bijective();
    let p = Play::PlaceWild(q);
    let a = act(v, p);
    let h = cur_hand(v);
    let b = cur_board(v);
    let c0 = playable_card(q);
    let i = card_index(c0);
    let wc = wild_choice(h);
    let slot = b.slots[i];
    let dj = ind(wc == Card::Joker);
    let dt = ind(wc == Card::Two);
    lemma_grown_wild(slot, c0, wc);
    lemma_slot_within_deck(v, cur_team(v), i);
    let h2 = moved(h, wc, -1);
    let b2 = TeamView { slots: b.slots.update(i, Some(grown(slot, c0, dj, dt, 0))), ..b };
    lemma_moved(h, wc, -1);
    assert(a.hands == v.hands.update(v.turn, h2));
    assert(a.boards == v.boards.update(cur_team(v), b2));
    assert(h[card_index(wc)] >= 1);
    assert forall|r: int| 0 <= r < 14 implies 0 <= #[trigger] h2[r] by {
        let c = card_at(r);
        assert(card_index(c) == r);
    }
    lemma_shape_kept(v, a, h2, b2);
    assert forall|c: Card| #[trigger] cards_in_play(a, c) == total_of(a.decks, c) by {
        lemma_grown_delta(b.slots, c0, dj, dt, 0, c);
        lemma_account(v, a, h2, b2, c, 0, 0, -ind(c == wc), ind(c == wc));
    }
    lemma_sizes_update(v.hands, v.turn, h2);
}

proof fn lemma_act_play(v: GameView, q: PlayableCardSubset)
    requires
        valid(v),
        play_legal(v, playable_card(q)),
    ensures
        act_ok(v, act(v, Play::Play(q)), Play::Play(q)),
{
    lemma_turn_facts(v);
    lemma_card_index_bijective();
    let p = Play::Play(q);
    let a = act(v, p);
    let h = cur_hand(v);
    let b = cur_board(v);
    let c0 = playable_card(q);
    let i = card_index(c0);
    let slot = b.slots[i];
    lemma_slot_within_deck(v, cur_team(v), i);
    let wc = if h[card_index(Card::Joker)] >= 1 {
        Card::Joker
    } else {
        Card::Two
    };
    let extend = slot is Some;
    let three = !extend && h[i] >= 3;
    let dj = if extend || three {
        0
    } else {
        ind(wc == Card::Joker)
    };
    let dt = if extend || three {
        0
    } else {
        ind(wc == Card::Two)
    };
    let dn = if extend {
        1int
    } else if three {
        3
    } else {
        2
    };
    let hw = if extend || three {
        h
    } else {
        moved(h, wc, -1)
    };
    let h2 = moved(hw, c0, -dn);
    let b2 = placed(b, c0, grown(slot, c0, dj, dt, dn));
    lemma_moved(h, wc, -1);
    lemma_moved(hw, c0, -dn);
    lemma_grown_wild(slot, c0, wc);
    if extend {
        assert(a.hands == v.hands.update(v.turn, h2));
        assert(a.boards == v.boards.update(cur_team(v), b2));
    } else if three {
        assert(a.hands == v.hands.update(v.turn, h2));
        assert(a.boards == v.boards.update(cur_team(v), b2));
    } else {
        assert(h[i] == 2);
        assert(h[card_index(wc)] >= 1);
        assert(a.hands == v.hands.update(v.turn, h2));
        assert(grown(Some(grown_wild(slot, c0, wc)), c0, 0, 0, 2) == grown(slot, c0, dj, dt, dn));
        assert(a.boards == v.boards.update(cur_team(v), b2));
    }
    assert forall|r: int| 0 <= r < 14 implies 0 <= #[trigger] h2[r] by {
        let c = card_at(r);
        assert(card_index(c) == r);
    }
    lemma_shape_kept(v, a, h2, b2);
    assert forall|c: Card| #[trigger] cards_in_play(a, c) == total_of(a.decks, c) by {
        lemma_grown_delta(b.slots, c0, dj, dt, dn, c);
        lemma_account(
            v,
            a,
            h2,
            b2,
            c,
            0,
            0,
            -ind(c == c0) * dn - ind(c == Card::Joker) * dj - ind(c == Card::Two) * dt,
            ind(c == c0) * dn + ind(c == Card::Joker) * dj + ind(c == Card::Two) * dt,
        );
    }
    lemma_sizes_update(v.hands, v.turn, h2);
}

pub proof fn lemma_act(v: GameView, p: Play)
    requires
        valid(v),
        legal(v, p),
        p is Draw ==> v.draw.len() > 0,
    ensures
        act_ok(v, act(v, p), p),
{
    match p {
        Play::Draw => lemma_act_draw(v),
        Play::Discard(c) => lemma_act_discard(v, c),
        Play::GoOut => lemma_act_go_out(v),
        Play::PickupPile => lemma_act_pickup(v),
        Play::PlaceWild(q) => lemma_act_place_wild(v, q),
        Play::Play(q) => lemma_act_play(v, q),
    }
}

/// A legal action moves cards but neither makes nor loses one: every rank
/// counts as many cards in play after it as before.
pub proof fn lemma_conservation_kept(v: GameView, p: Play)
    requires
        valid(v),
        legal(v, p),
        p is Draw ==> v.draw.len() > 0,
    ensures
        forall|c: Card| #[trigger] cards_in_play(step(v, p), c) == cards_in_play(v, c),
{
    lemma_step_valid(v, p);
}

/// A legal action keeps a state valid, brings the game closer to its end,
/// and counts a turn exactly when it ends one.
pub proof fn lemma_step_valid(v: GameView, p: Play)
    requires
        valid(v),
        legal(v, p),
        p is Draw ==> v.draw.len() > 0,
    ensures
        valid(step(v, p)),
        progress(step(v, p)) < progress(v),
        step(v, p).total_turns == v.total_turns + ind(ends_turn(p)),
        step(v, p).teams == v.teams,
        step(v, p).per_team == v.per_team,
        step(v, p).decks == v.decks,
{
    lemma_turn_facts(v);
    lemma_act(v, p);
    let s = v.turn;
    let t = cur_team(v);
    let a = act(v, p);
    let k2 = learn(v.knowledge, s, v.hands[s], a.hands[s]);
    let w = GameView { knowledge: k2, ..a };
    let n = seats(v);
    assert(shape_ok(w)) by {
        assert forall|o: int, x: int| 0 <= o < n && 0 <= x < n implies (#[trigger] k2[o][x]).len() == 14 by {}
    }
    assert forall|c: Card| #[trigger] cards_in_play(w, c) == total_of(w.decks, c) by {
        assert(cards_in_play(w, c) == cards_in_play(a, c));
    }
    assert forall|o: int, x: int, r: int| 0 <= o < n && 0 <= x < n && 0 <= r < 14 implies {
        &&& #[trigger] w.knowledge[o][x][r] <= w.hands[x][r]
        &&& w.hands[x][r] - w.knowledge[o][x][r] <= total_of(w.decks, card_at(r))
    } by {
        lemma_hand_within_deck(w, x, r);
        if o != s && x != s {
            assert(w.hands[x] == v.hands[x]);
        }
    }
    if sum(a.hands[s]) == 0 {
        let b2 = TeamView { went_out: true, ..w.boards[t] };
        let z = GameView { finished: true, boards: w.boards.update(t, b2), ..w };
        assert(z == step(v, p));
        assert(shape_ok(z));
        assert forall|c: Card| #[trigger] cards_in_play(z, c) == total_of(z.decks, c) by {
            lemma_on_boards_update(w.boards, t, b2, c);
            assert(cards_in_play(w, c) == total_of(w.decks, c));
        }
        assert(progress(z) == progress(a));
    } else {
        assert(w == step(v, p));
        assert(progress(w) == progress(a));
    }
}

/// Growing a meld never loses a canasta, and a meld of six that grows by
/// one becomes one.
pub proof fn lemma_canastas_grow(slots: Seq<Option<BoardStack>>, c0: Card, dj: int, dt: int, dn: int)
    requires
        slots.len() == 14,
        0 <= dj,
        0 <= dt,
        0 <= dn,
        slot_jokers(slots[card_index(c0)]) + dj <= 255,
        slot_twos(slots[card_index(c0)]) + dt <= 255,
        slot_naturals(slots[card_index(c0)]) + dn <= 255,
    ensures
        canasta_count(slots.update(card_index(c0), Some(grown(slots[card_index(c0)], c0, dj, dt, dn))))
            >= canasta_count(slots),
        slots[card_index(c0)] is Some && stack_total(slots[card_index(c0)]->0) == 6 && dj + dt + dn
            == 1 ==> canasta_count(
            slots.update(card_index(c0), Some(grown(slots[card_index(c0)], c0, dj, dt, dn))),
        ) == canasta_count(slots) + 1,
{
    let i = card_index(c0);
    let n = Some(grown(slots[i], c0, dj, dt, dn));
    lemma_sum_map_update(slots, i, n, |o: Option<BoardStack>| slot_canasta(o));
}

/// Play can go on from a live state that is not over: the seat on turn can
/// draw, or else discard a card it holds.
pub proof fn lemma_some_play(v: GameView)
    requires
        valid(v),
        live(v),
        !v.finished,
    ensures
        exists|p: Play| can_take(v, p),
{
    lemma_turn_facts(v);
    lemma_card_index_bijective();
    if !v.drawn {
        assert(can_take(v, Play::Draw));
    } else {
        let h = cur_hand(v);
        assert(sum(h) >= 1);
        assert(exists|r: int| 0 <= r < 14 && h[r] >= 1) by {
            if !(exists|r: int| 0 <= r < 14 && h[r] >= 1) {
                assert forall|r: int| 0 <= r < 14 implies #[trigger] h[r] <= 0 by {
                    assert(!(h[r] >= 1));
                }
                lemma_sum_bounds(h, 0, 0);
            }
        }
        let r = choose|r: int| 0 <= r < 14 && h[r] >= 1;
        let c = card_at(r);
        assert(card_index(c) == r);
        assert(can_take(v, Play::Discard(c)));
    }
}

/// A legal action from a live state leaves a live state.
pub proof fn lemma_step_live(v: GameView, p: Play)
    requires
        valid(v),
        live(v),
        can_take(v, p),
    ensures
        live(step(v, p)),
{
    lemma_turn_facts(v);
    lemma_card_index_bijective();
    lemma_act(v, p);
    let a = act(v, p);
    let w = step(v, p);
    let s = v.turn;
    let t = cur_team(v);
    let h = cur_hand(v);
    let b = cur_board(v);
    if !w.finished {
        assert(sum(a.hands[s]) != 0);
        assert(w.hands == a.hands);
        assert forall|k: int| 0 <= k < seats(w) implies sum(#[trigger] w.hands[k]) >= 1 by {
            if k != s {
                assert(w.hands[k] == v.hands[k]);
            } else {
                lemma_sum_nonneg(a.hands[s]);
            }
        }
        assert(w.boards[t].slots == a.boards[t].slots);
        if !ends_turn(p) {
            assert(w.turn == s);
            assert(cur_hand(w) == a.hands[s]);
            assert(cur_team(w) == t);
            assert(canastas(w) == canasta_count(a.boards[t].slots));
        }
        match p {
            Play::Draw => {
                lemma_moved(h, v.draw.last(), 1);
                assert(hand_size(w) >= 2);
            },
            Play::PickupPile => {
                let top = v.discard.last();
                let i = card_index(top);
                let slot = b.slots[i];
                lemma_slot_within_deck(v, t, i);
                lemma_top_counted(v.discard);
                let cheap = !(slot is None || v.frozen);
                let h1 = if cheap {
                    h
                } else {
                    moved(h, top, -2)
                };
                lemma_moved(h, top, -2);
                lemma_with_pile(h1, v.discard);
                lemma_moved(with_pile(h1, v.discard), top, -1);
                assert(a.hands[s] == moved(with_pile(h1, v.discard), top, -1));
                lemma_sum_element(h, i);
                let n = v.discard.len() as int;
                assert(sum(a.hands[s]) == sum(h1) + n - 1);
                if cheap {
                    assert(sum(h1) == sum(h));
                } else {
                    assert(sum(h1) == sum(h) - 2);
                    assert(h[i] >= 2);
                }
                assert(hand_size(v) == sum(h));
                assert(hand_size(w) >= 2);
            },
            Play::PlaceWild(q) => {
                let c0 = playable_card(q);
                let i = card_index(c0);
                let wc = wild_choice(h);
                let slot = b.slots[i];
                lemma_slot_within_deck(v, t, i);
                lemma_moved(h, wc, -1);
                lemma_grown_wild(slot, c0, wc);
                lemma_canastas_grow(b.slots, c0, ind(wc == Card::Joker), ind(wc == Card::Two), 0);
                assert(a.boards[t].slots == b.slots.update(
                    i,
                    Some(grown(slot, c0, ind(wc == Card::Joker), ind(wc == Card::Two), 0)),
                ));
                lemma_sum_element(h, i);
                assert(hand_size(w) >= 2 || canastas(w) >= 2);
            },
            Play::Play(q) => {
                let c0 = playable_card(q);
                let i = card_index(c0);
                let slot = b.slots[i];
                lemma_slot_within_deck(v, t, i);
                lemma_sum_element(h, i);
                if slot is Some {
                    lemma_moved(h, c0, -1);
                    lemma_canastas_grow(b.slots, c0, 0, 0, 1);
                } else {
                    let wc = if h[card_index(Card::Joker)] >= 1 {
                        Card::Joker
                    } else {
                        Card::Two
                    };
                    lemma_moved(h, c0, -3);
                    lemma_moved(h, wc, -1);
                    lemma_moved(moved(h, wc, -1), c0, -2);
                    lemma_canastas_grow(b.slots, c0, 0, 0, 3);
                    lemma_grown_wild(slot, c0, wc);
                    lemma_canastas_grow(b.slots, c0, ind(wc == Card::Joker), ind(wc == Card::Two), 2);
                }
                assert(hand_size(w) >= 2 || canastas(w) >= 2);
            },
            _ => {},
        }
        assert(!w.drawn ==> w.draw.len() > 0);
        assert(w.turn == v.turn || !w.drawn);
        assert(w.drawn ==> (hand_size(w) >= 2 || canastas(w) >= 2));
    }
}

} // verus!
