use canasta::board::{Board, BoardStack};
use canasta::card::Card;
use canasta::hand::Hand;
use canasta::pile::{is_standard_deck, DrawPile};

#[test]
fn stack_scores() {
    let s = BoardStack::new(Card::Ace, 1, 2, 4);
    assert_eq!(s.get_score(), 50 + 40 + 80);
    assert_eq!(s.get_total_count(), 7);
    assert!(s.is_canasta());
    assert!(s.is_dirty());
    assert!(!BoardStack::new(Card::Four, 0, 0, 6).is_canasta());
}

#[test]
fn clean_canasta_scores_base_and_500() {
    let mut b = Board::new();
    b.place_card(Card::King, 7);
    assert_eq!(b.get_score(), 10 * 7 + 500);
    assert_eq!(b.get_num_canastas(), 1);
    assert!(b.is_down());
}

#[test]
fn dirty_canasta_scores_base_joker_and_300() {
    let mut b = Board::new();
    b.place_card(Card::King, 6);
    b.place_joker(Card::King);
    assert_eq!(b.get_score(), 10 * 6 + 50 + 300);
    let s = b.get(Card::King).unwrap();
    assert_eq!((s.jokers, s.twos, s.card_count), (1, 0, 6));
    assert_eq!(b.get_num_canastas(), 1);
}

#[test]
fn going_out_adds_100() {
    let mut b = Board::new();
    b.place_card(Card::Five, 3);
    b.place_two(Card::Five);
    assert_eq!(b.get_score(), 15 + 20);
    b.set_went_out();
    assert!(b.has_gone_out());
    assert_eq!(b.get_score(), 135);
    assert_eq!(b.get_num_canastas(), 0);
    assert!(b.get(Card::Six).is_none());
}

#[test]
fn hand_counts_and_points() {
    let mut h = Hand::new();
    assert!(h.is_empty());
    h.add(Card::Ace, 2);
    h.add(Card::Three, 3);
    h.add(Card::Joker, 1);
    assert_eq!(h.get(Card::Ace), 2);
    assert_eq!(h.get_hand_size(), 6);
    assert_eq!(h.get_score(), 40 + 15 + 50);
    h.remove(Card::Ace, 2);
    assert_eq!(h.get(Card::Ace), 0);
    assert_eq!(h.get_hand_size(), 4);
    assert!(!h.is_empty());
}

#[test]
fn deck_contents() {
    let pile = DrawPile::new(2);
    assert_eq!(pile.len(), 104);
    assert!(is_standard_deck(pile.cards(), 2));
    assert!(!is_standard_deck(pile.cards(), 1));
    let count = |c: Card| pile.cards().iter().filter(|x| **x == c).count();
    assert_eq!(count(Card::Joker), 4);
    assert_eq!(count(Card::Three), 4);
    assert_eq!(count(Card::Two), 8);
    assert_eq!(count(Card::Ace), 8);
    let mut short = pile.cards().clone();
    short.pop();
    assert!(!is_standard_deck(&short, 2));
}

#[test]
fn draw_takes_from_the_top() {
    let mut pile = DrawPile::from_cards(vec![Card::Four, Card::Nine]);
    assert_eq!(pile.draw(), Some(Card::Nine));
    assert_eq!(pile.draw(), Some(Card::Four));
    assert!(pile.is_empty());
    assert_eq!(pile.draw(), None);
}
