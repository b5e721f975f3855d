use nertsio::cards::{full_deck, Card, CardInstance, Color, Rank, Suit};
use nertsio::stack::{Stack, StackOrder};

fn ci(suit: Suit, rank: u8, owner: u8) -> CardInstance {
    CardInstance { card: Card { suit, rank: Rank::new(rank) }, owner_id: owner }
}

#[test]
fn color_opposite_flips() {
    assert_eq!(Color::Red.opposite(), Color::Black);
    assert_eq!(Color::Black.opposite(), Color::Red);
    assert_eq!(Color::Red.opposite().opposite(), Color::Red);
}

#[test]
fn suit_colors() {
    assert_eq!(Suit::Spades.color(), Color::Black);
    assert_eq!(Suit::Clubs.color(), Color::Black);
    assert_eq!(Suit::Diamonds.color(), Color::Red);
    assert_eq!(Suit::Hearts.color(), Color::Red);
    assert_eq!(Suit::all(), vec![Suit::Spades, Suit::Diamonds, Suit::Clubs, Suit::Hearts]);
}

#[test]
fn rank_bounds() {
    assert!(Rank::try_new(0).is_none());
    assert_eq!(Rank::try_new(1).map(|r| r.value()), Some(1));
    assert_eq!(Rank::try_new(13).map(|r| r.value()), Some(13));
    assert!(Rank::try_new(14).is_none());
    assert!(Rank::try_new(255).is_none());
    assert_eq!(Rank::ace().value(), 1);
    assert_eq!(Rank::new(7).value(), 7);
}

#[test]
fn rank_steps() {
    assert!(Rank::ace().decrement().is_none());
    assert_eq!(Rank::ace().increment().map(|r| r.value()), Some(2));
    assert!(Rank::new(13).increment().is_none());
    assert_eq!(Rank::new(13).decrement().map(|r| r.value()), Some(12));
}

#[test]
fn rank_iter_is_one_to_twelve() {
    let values: Vec<u8> = Rank::iter().into_iter().map(|r| r.value()).collect();
    assert_eq!(values, (1..13).collect::<Vec<u8>>());
}

#[test]
fn full_deck_has_48_distinct_cards() {
    let deck = full_deck();
    assert_eq!(deck.len(), 48);
    assert_eq!(deck[0], Card { suit: Suit::Spades, rank: Rank::new(1) });
    assert_eq!(deck[11], Card { suit: Suit::Spades, rank: Rank::new(12) });
    assert_eq!(deck[12], Card { suit: Suit::Diamonds, rank: Rank::new(1) });
    assert_eq!(deck[47], Card { suit: Suit::Hearts, rank: Rank::new(12) });
    for i in 0..deck.len() {
        for j in (i + 1)..deck.len() {
            assert_ne!(deck[i], deck[j]);
        }
    }
}

#[test]
fn ordering_rules() {
    let six_spades = Card { suit: Suit::Spades, rank: Rank::new(6) };
    let five_hearts = Card { suit: Suit::Hearts, rank: Rank::new(5) };
    let five_clubs = Card { suit: Suit::Clubs, rank: Rank::new(5) };
    let seven_spades = Card { suit: Suit::Spades, rank: Rank::new(7) };
    assert!(StackOrder::AlternatingDown.allows(six_spades, five_hearts));
    assert!(!StackOrder::AlternatingDown.allows(six_spades, five_clubs));
    assert!(!StackOrder::AlternatingDown.allows(five_hearts, six_spades));
    assert!(StackOrder::SingleSuitUp.allows(six_spades, seven_spades));
    assert!(!StackOrder::SingleSuitUp.allows(six_spades, five_hearts));
    assert!(!StackOrder::SingleSuitUp.allows(five_hearts, six_spades));
    assert!(StackOrder::Any.allows(five_hearts, five_clubs));
}

#[test]
fn lake_stack_starts_with_ace_and_climbs() {
    let mut lake = Stack::new(StackOrder::SingleSuitUp, true);
    assert!(lake.last().is_none());
    assert!(!lake.can_add(ci(Suit::Hearts, 2, 0)));
    assert!(lake.try_add(ci(Suit::Hearts, 2, 0)).is_err());
    assert_eq!(lake.len(), 0);
    assert!(lake.try_add(ci(Suit::Hearts, 1, 0)).is_ok());
    assert!(lake.try_add(ci(Suit::Spades, 2, 1)).is_err());
    assert!(lake.try_add(ci(Suit::Hearts, 2, 1)).is_ok());
    assert_eq!(lake.len(), 2);
    assert_eq!(lake.last(), Some(&ci(Suit::Hearts, 2, 1)));
}

#[test]
fn from_one_and_unordered() {
    let s = Stack::from_one(StackOrder::AlternatingDown, false, ci(Suit::Clubs, 9, 2));
    assert_eq!(s.cards(), &[ci(Suit::Clubs, 9, 2)]);
    let list = vec![ci(Suit::Clubs, 9, 0), ci(Suit::Clubs, 3, 0), ci(Suit::Hearts, 13, 0)];
    let u = Stack::from_list_unordered(list.clone());
    assert_eq!(u.cards(), &list[..]);
    assert!(u.can_add(ci(Suit::Spades, 4, 1)));
}

#[test]
fn pop_and_pop_many() {
    let list = vec![ci(Suit::Clubs, 9, 0), ci(Suit::Hearts, 8, 0), ci(Suit::Spades, 7, 0), ci(Suit::Diamonds, 6, 0)];
    let mut s = Stack::from_list_unordered(list.clone());
    assert!(s.pop_many(5).is_none());
    assert_eq!(s.len(), 4);
    assert_eq!(s.pop_many(2), Some(vec![list[2], list[3]]));
    assert_eq!(s.cards(), &list[..2]);
    assert_eq!(s.pop(), Some(list[1]));
    assert_eq!(s.pop_many(1), Some(vec![list[0]]));
    assert_eq!(s.pop(), None);
    assert_eq!(s.pop_many(0), Some(vec![]));
}

#[test]
fn take_all_empties() {
    let list = vec![ci(Suit::Clubs, 9, 0), ci(Suit::Hearts, 8, 0)];
    let mut s = Stack::from_list_unordered(list.clone());
    assert_eq!(s.take_all(), list);
    assert_eq!(s.len(), 0);
    assert!(s.can_add(ci(Suit::Clubs, 2, 0)));
}

#[test]
fn can_add_all_checks_each_card() {
    let s = Stack::from_one(StackOrder::AlternatingDown, false, ci(Suit::Spades, 9, 0));
    assert!(s.can_add_all(&vec![ci(Suit::Hearts, 8, 0), ci(Suit::Clubs, 7, 0)]));
    assert!(!s.can_add_all(&vec![ci(Suit::Hearts, 8, 0), ci(Suit::Diamonds, 7, 0)]));
    assert!(s.can_add_all(&vec![]));
    assert!(s.can_add_all_after(0, &vec![ci(Suit::Hearts, 3, 0)]));
}
