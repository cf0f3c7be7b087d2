use canasta::card::{Card, PlayableCardSubset};
use canasta::game::Game;
use canasta::pile::DrawPile;
use canasta::play::{Action, Play};
use canasta::random_play::{play_random_game, possible_plays, random_play, run_random_game};
use canasta::state::GameState;

/// The cards of `decks` decks with `top` as the last ones, its last card on top.
fn stacked(decks: u8, top: &[Card]) -> Vec<Card> {
    let mut rest = DrawPile::new(decks).cards().clone();
    for c in top {
        let i = rest.iter().position(|x| x == c).expect("card available");
        rest.remove(i);
    }
    rest.extend_from_slice(top);
    rest
}

fn repeat(c: Card, n: usize) -> Vec<Card> {
    vec![c; n]
}

fn total_of(decks: u16, c: Card) -> u16 {
    if c == Card::Joker || c == Card::Three {
        2 * decks
    } else {
        4 * decks
    }
}

/// Counts rank `c` in both piles, every hand and every board.
fn in_play(g: &Game, c: Card) -> u16 {
    let mut n = g.draw_pile().cards().iter().filter(|x| **x == c).count() as u16;
    n += g.discard_pile().iter().filter(|x| **x == c).count() as u16;
    for s in 0..g.seat_count() {
        n += g.hand(s).get(c) as u16;
    }
    for t in 0..g.teams_count() as usize {
        let b = g.board(t);
        for r in Card::iterator() {
            if let Some(st) = b.get(r) {
                if r == c {
                    n += st.card_count as u16;
                }
                if c == Card::Joker {
                    n += st.jokers as u16;
                }
                if c == Card::Two {
                    n += st.twos as u16;
                }
            }
        }
    }
    n
}

fn play(g: &mut Game, p: Play) {
    assert!(g.check_legal(p), "{:?} should be legal", p);
    g.execute_play(p);
}

fn going_out_game() -> Game {
    let mut seat0 = repeat(Card::Four, 7);
    seat0.extend(repeat(Card::Five, 7));
    seat0.extend(repeat(Card::Three, 3));
    let mut seat1 = repeat(Card::Eight, 8);
    seat1.extend(repeat(Card::Nine, 8));
    seat1.push(Card::Ten);
    let mut top = vec![Card::Six, Card::Ten];
    top.extend(seat1);
    top.extend(seat0);
    Game::from_deck(2, 1, 2, 17, stacked(2, &top)).expect("a deck")
}

#[test]
fn deal_from_a_stacked_deck() {
    let g = going_out_game();
    assert_eq!(g.seat_count(), 2);
    assert_eq!(g.hand(0).get(Card::Four), 7);
    assert_eq!(g.hand(0).get(Card::Three), 3);
    assert_eq!(g.hand(1).get(Card::Eight), 8);
    assert_eq!(g.hand(1).get_hand_size(), 17);
    assert_eq!(g.discard_pile(), &vec![Card::Ten]);
    assert_eq!(g.draw_pile().len(), 104 - 35);
    assert!(!g.is_frozen());
    assert!(!g.has_drawn());
    assert_eq!(g.turn().get(), 0);
    assert_eq!(g.get_total_turns(), 0);
    assert!(!g.is_finished());
}

#[test]
fn going_out_with_threes() {
    let mut g = going_out_game();
    play(&mut g, Play::Draw);
    assert_eq!(g.hand(0).get(Card::Six), 1);
    for _ in 0..5 {
        play(&mut g, Play::Play(PlayableCardSubset::Four));
    }
    for _ in 0..5 {
        play(&mut g, Play::Play(PlayableCardSubset::Five));
    }
    assert_eq!(g.board(0).get_num_canastas(), 2);
    assert_eq!(g.hand(0).get_hand_size(), 4);
    assert!(g.check_legal(Play::GoOut));
    g.execute_play(Play::GoOut);
    assert!(g.is_finished());
    assert!(g.board(0).has_gone_out());
    assert!(!g.board(1).has_gone_out());
    assert!(g.hand(0).is_empty());
    assert_eq!(
        g.discard_pile(),
        &vec![Card::Ten, Card::Six, Card::Three, Card::Three, Card::Three]
    );
    assert_eq!(g.get_total_turns(), 1);
    let scores = g.get_scores();
    assert_eq!(scores.len(), 2);
    assert_eq!(scores[0], (35 + 500) * 2 + 100);
    assert_eq!(scores[1], -(8 * 10 + 8 * 10 + 10));
    for c in Card::iterator() {
        assert_eq!(in_play(&g, c), total_of(2, c));
    }
}

#[test]
fn going_out_needs_two_canastas() {
    let mut g = going_out_game();
    play(&mut g, Play::Draw);
    assert!(!g.check_legal(Play::GoOut));
    assert!(!g.check_legal(Play::Draw));
    assert!(!g.check_legal(Play::PickupPile));
    assert!(!g.check_legal(Play::PlaceWild(PlayableCardSubset::Four)));
    assert!(g.check_legal(Play::Play(PlayableCardSubset::Four)));
    assert!(!g.check_legal(Play::Play(PlayableCardSubset::Nine)));
}

fn exhausted_game() -> Game {
    let mut seat0 = Vec::new();
    for c in [Card::Ace, Card::King, Card::Queen, Card::Jack, Card::Eight, Card::Seven] {
        seat0.extend(repeat(c, 4));
    }
    seat0.push(Card::Joker);
    let mut seat1 = Vec::new();
    for c in [Card::Six, Card::Five, Card::Four, Card::Two] {
        seat1.extend(repeat(c, 4));
    }
    seat1.extend(repeat(Card::Three, 2));
    seat1.push(Card::Joker);
    seat1.extend(repeat(Card::Nine, 3));
    seat1.extend(repeat(Card::Ten, 3));
    let mut top = vec![Card::Nine, Card::Ten];
    top.extend(seat1);
    top.extend(seat0);
    Game::from_deck(2, 1, 1, 25, stacked(1, &top)).expect("a deck")
}

#[test]
fn discard_after_last_draw_ends_game() {
    let mut g = exhausted_game();
    assert_eq!(g.draw_pile().len(), 1);
    play(&mut g, Play::Draw);
    assert_eq!(g.draw_pile().len(), 0);
    assert!(!g.is_finished());
    play(&mut g, Play::Discard(Card::Ace));
    assert!(g.is_finished());
    assert!(!g.hand(0).is_empty());
    assert!(!g.hand(1).is_empty());
    assert!(!g.board(0).has_gone_out());
}

fn freeze_game() -> Game {
    let mut seat0 = vec![Card::Queen, Card::Queen, Card::Two];
    seat0.extend(repeat(Card::Four, 4));
    seat0.extend(repeat(Card::Five, 3));
    let mut seat1 = repeat(Card::Six, 4);
    seat1.extend(repeat(Card::Seven, 4));
    seat1.extend(repeat(Card::Eight, 2));
    let mut top = vec![Card::Queen, Card::Ace, Card::King];
    top.extend(seat1);
    top.extend(seat0);
    Game::from_deck(2, 1, 1, 10, stacked(1, &top)).expect("a deck")
}

#[test]
fn freeze_lifecycle() {
    let mut g = freeze_game();
    assert!(!g.is_frozen());
    play(&mut g, Play::Draw);
    play(&mut g, Play::Discard(Card::Two));
    assert!(g.is_frozen());
    play(&mut g, Play::Draw);
    play(&mut g, Play::Discard(Card::Queen));
    assert!(g.is_frozen());
    assert_eq!(g.discard_pile(), &vec![Card::King, Card::Two, Card::Queen]);
    play(&mut g, Play::PickupPile);
    assert!(!g.is_frozen());
    assert!(g.has_drawn());
    assert!(g.discard_pile().is_empty());
    let meld = g.board(0).get(Card::Queen).expect("a meld of queens");
    assert_eq!((meld.card_count, meld.jokers, meld.twos), (3, 0, 0));
    assert_eq!(g.hand(0).get(Card::Queen), 0);
    assert_eq!(g.hand(0).get(Card::King), 1);
    assert_eq!(g.hand(0).get(Card::Two), 1);
    assert_eq!(g.hand(0).get_hand_size(), 10);
    for c in Card::iterator() {
        assert_eq!(in_play(&g, c), total_of(1, c));
    }
}

#[test]
fn frozen_pile_needs_a_natural_pair() {
    let mut g = freeze_game();
    play(&mut g, Play::Draw);
    play(&mut g, Play::Discard(Card::Two));
    assert!(!g.check_legal(Play::PickupPile));
}

#[test]
fn turns_count_only_turn_ends() {
    let mut g = freeze_game();
    play(&mut g, Play::Draw);
    assert_eq!(g.get_total_turns(), 0);
    assert_eq!(g.turn().get(), 0);
    play(&mut g, Play::Discard(Card::Two));
    assert_eq!(g.get_total_turns(), 1);
    assert_eq!(g.turn().get(), 1);
    play(&mut g, Play::Draw);
    play(&mut g, Play::Discard(Card::Queen));
    assert_eq!(g.get_total_turns(), 2);
    assert_eq!(g.turn().get(), 0);
    play(&mut g, Play::PickupPile);
    play(&mut g, Play::Play(PlayableCardSubset::Four));
    assert_eq!(g.get_total_turns(), 2);
}

#[test]
fn seats_learn_of_each_other() {
    let mut g = freeze_game();
    play(&mut g, Play::Draw);
    assert_eq!(g.knowledge(1, 0, Card::Ace), 1);
    assert_eq!(g.knowledge(0, 0, Card::Ace), 0);
    play(&mut g, Play::Discard(Card::Two));
    assert_eq!(g.knowledge(1, 0, Card::Two), -1);
    play(&mut g, Play::Draw);
    assert_eq!(g.knowledge(0, 1, Card::Queen), 1);
    assert_eq!(g.knowledge(1, 0, Card::Ace), 0);
    play(&mut g, Play::Discard(Card::Queen));
    assert_eq!(g.knowledge(0, 1, Card::Queen), 0);
    play(&mut g, Play::PickupPile);
    assert_eq!(g.knowledge(1, 0, Card::Queen), -2);
    assert_eq!(g.knowledge(1, 0, Card::King), 1);
}

#[test]
fn discard_rules() {
    let mut g = freeze_game();
    assert!(!g.check_legal(Play::Discard(Card::Queen)));
    play(&mut g, Play::Draw);
    assert!(g.check_legal(Play::Discard(Card::Queen)));
    assert!(!g.check_legal(Play::Discard(Card::Nine)));
}

#[test]
fn dealing_refuses_bad_inputs() {
    let deck = DrawPile::new(1).cards().clone();
    assert!(Game::from_deck(2, 1, 1, 10, deck.clone()).is_some());
    assert!(Game::from_deck(0, 1, 1, 10, deck.clone()).is_none());
    assert!(Game::from_deck(2, 0, 1, 10, deck.clone()).is_none());
    assert!(Game::from_deck(2, 1, 2, 10, deck.clone()).is_none());
    assert!(Game::from_deck(2, 1, 1, 26, deck.clone()).is_none());
    assert!(Game::from_deck(2, 1, 1, 25, deck.clone()).is_some());
    let mut wrong = deck.clone();
    wrong[0] = Card::Ace;
    assert!(Game::from_deck(2, 1, 1, 10, wrong).is_none());
    let decks = |n: usize| {
        let mut v = Vec::new();
        for _ in 0..n {
            v.extend(deck.iter().copied());
        }
        v
    };
    assert!(Game::from_deck(2, 1, 5, 10, decks(5)).is_some());
    assert!(Game::from_deck(2, 1, 31, 10, decks(31)).is_some());
    assert!(Game::from_deck(2, 1, 32, 10, decks(32)).is_none());
}

#[test]
fn new_game_is_shuffled_and_dealt() {
    let g = Game::new(2, 2, 2, 11);
    assert_eq!(g.seat_count(), 4);
    for s in 0..4 {
        assert_eq!(g.hand(s).get_hand_size(), 11);
    }
    assert_eq!(g.draw_pile().len(), 104 - 45);
    for c in Card::iterator() {
        assert_eq!(in_play(&g, c), total_of(2, c));
    }
    let unshuffled = Game::from_deck(2, 2, 2, 11, DrawPile::new(2).cards().clone()).unwrap();
    let same = (0..4).all(|s| {
        Card::iterator().iter().all(|c| g.hand(s).get(*c) == unshuffled.hand(s).get(*c))
    });
    assert!(!same);
}

#[test]
fn scores_by_seat() {
    let g = Game::new(2, 2, 2, 11);
    let scores = g.get_scores();
    assert_eq!(scores.len(), 4);
    assert_eq!(scores[0], scores[2]);
    assert_eq!(scores[1], scores[3]);
    let team0 = g.hand(0).get_score() + g.hand(2).get_score();
    assert_eq!(scores[0] as i64, -(team0 as i64));
}

#[test]
fn random_game_runs_to_the_end() {
    let g = run_random_game(Game::new(2, 1, 2, 15));
    assert!(g.is_finished());
    for c in Card::iterator() {
        assert_eq!(in_play(&g, c), total_of(2, c));
    }
    let scores = g.get_scores();
    assert_eq!(scores.len(), 2);
    assert_eq!(play_random_game().len(), 2);
}

#[test]
fn random_play_is_possible() {
    let g = freeze_game();
    let plays = possible_plays(&g);
    assert_eq!(plays, vec![Play::PickupPile, Play::Draw].into_iter().filter(|p| g.check_legal(*p)).collect::<Vec<_>>());
    for _ in 0..10 {
        let p = random_play(&g).expect("an action");
        assert!(plays.contains(&p));
    }
}

#[test]
fn state_actions_and_reward() {
    let g = going_out_game();
    let state: GameState<1, 2> = GameState { game: g };
    let actions = state.actions();
    let expected: Vec<Action> = Play::iterator()
        .into_iter()
        .filter(|p| state.game.check_legal(*p))
        .map(|play| Action { play })
        .collect();
    assert_eq!(actions, expected);
    assert!(actions.contains(&Action { play: Play::Draw }));
    assert!(!actions.contains(&Action { play: Play::GoOut }));
    assert_eq!(state.reward(), 0);
    assert!(state.is_turn_of(0));
    assert!(!state.is_turn_of(1));
    let mut g = state.game.clone();
    play(&mut g, Play::Draw);
    for _ in 0..5 {
        play(&mut g, Play::Play(PlayableCardSubset::Four));
    }
    for _ in 0..5 {
        play(&mut g, Play::Play(PlayableCardSubset::Five));
    }
    play(&mut g, Play::GoOut);
    let done: GameState<1, 2> = GameState { game: g };
    assert_eq!(done.reward(), 1170 + 170);
    let legal: Vec<Action> = Play::iterator()
        .into_iter()
        .filter(|p| done.game.check_legal(*p))
        .map(|play| Action { play })
        .collect();
    assert_eq!(done.actions(), legal);
    assert!(possible_plays(&done.game).is_empty());
    assert!(done.is_turn_of(0) && done.is_turn_of(1));
}

fn meld_threshold_game(hand_size: u8) -> Game {
    let mut seat0 = repeat(Card::Nine, 3);
    seat0.extend([Card::Four, Card::Five, Card::Six, Card::Seven]);
    seat0.truncate(hand_size as usize);
    let mut seat1 = repeat(Card::Eight, 4);
    seat1.extend(repeat(Card::Jack, hand_size as usize - 4));
    let mut top = vec![Card::Ten, Card::King];
    top.extend(seat1);
    top.extend(seat0);
    Game::from_deck(2, 1, 1, hand_size, stacked(1, &top)).expect("a deck")
}

#[test]
fn new_meld_leaves_five_cards() {
    let mut g = meld_threshold_game(7);
    play(&mut g, Play::Draw);
    assert_eq!(g.hand(0).get_hand_size(), 8);
    assert!(g.check_legal(Play::Play(PlayableCardSubset::Nine)));
    let mut g = meld_threshold_game(6);
    play(&mut g, Play::Draw);
    assert_eq!(g.hand(0).get_hand_size(), 7);
    assert!(!g.check_legal(Play::Play(PlayableCardSubset::Nine)));
}
