use canasta::card::{Card, PlayableCardSubset, WildCardSubset};
use canasta::play::{Action, Play, ACTION_COUNT};

#[test]
fn index_round_trip() {
    let all = Card::iterator();
    assert_eq!(all.len(), 14);
    for (i, c) in all.iter().enumerate() {
        assert_eq!(c.get_index(), i);
        assert_eq!(Card::from_index(i), *c);
    }
    assert_eq!(Card::Joker.get_index(), 0);
    assert_eq!(Card::Ace.get_index(), 13);
}

#[test]
fn rank_values() {
    assert_eq!(Card::Joker.get_value(), 50);
    assert_eq!(Card::Two.get_value(), 20);
    assert_eq!(Card::Three.get_value(), 5);
    assert_eq!(Card::Seven.get_value(), 5);
    assert_eq!(Card::Eight.get_value(), 10);
    assert_eq!(Card::King.get_value(), 10);
    assert_eq!(Card::Ace.get_value(), 20);
}

#[test]
fn labels_and_names() {
    assert_eq!(Card::Ten.to_string(), "10");
    assert_eq!(Card::Joker.to_string(), "J");
    assert_eq!(Card::Jack.get_simple_string(), "J");
    assert_eq!(Card::Queen.name(), "Queen");
}

#[test]
fn subsets_convert() {
    assert_eq!(Card::from(PlayableCardSubset::Four), Card::Four);
    assert_eq!(Card::from(PlayableCardSubset::Ace), Card::Ace);
    assert_eq!(Card::from(WildCardSubset::Two), Card::Two);
    assert_eq!(Card::from(WildCardSubset::Joker), Card::Joker);
    let playable = PlayableCardSubset::iterator();
    assert_eq!(playable.len(), 11);
    assert_eq!(playable[0], PlayableCardSubset::Four);
    assert_eq!(playable[10], PlayableCardSubset::Ace);
    assert!(Card::Two.is_wild() && Card::Joker.is_wild() && !Card::Three.is_wild());
}

#[test]
fn play_order_is_fixed() {
    let plays = Play::iterator();
    assert_eq!(plays.len(), 39);
    assert_eq!(plays[0], Play::Discard(Card::Joker));
    assert_eq!(plays[13], Play::Discard(Card::Ace));
    assert_eq!(plays[14], Play::GoOut);
    assert_eq!(plays[15], Play::PickupPile);
    assert_eq!(plays[16], Play::Play(PlayableCardSubset::Four));
    assert_eq!(plays[27], Play::PlaceWild(PlayableCardSubset::Four));
    assert_eq!(plays[38], Play::Draw);
    for i in 0..plays.len() {
        for j in 0..i {
            assert_ne!(plays[i], plays[j]);
        }
    }
}

#[test]
fn action_index_round_trip() {
    for i in 0..ACTION_COUNT {
        assert_eq!(Action::from_index(i).index(), i);
    }
    assert_eq!(Action { play: Play::Draw }.index(), 14);
    assert_eq!(Action { play: Play::PickupPile }.index(), 15);
    assert_eq!(Action { play: Play::GoOut }.index(), 16);
    assert_eq!(Action { play: Play::PlaceWild(PlayableCardSubset::Five) }.index(), 18);
    assert_eq!(Action { play: Play::Play(PlayableCardSubset::Ace) }.index(), 38);
    assert_eq!(Action::from_index(2).play, Play::Discard(Card::Three));
}
