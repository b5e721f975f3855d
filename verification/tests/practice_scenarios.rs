use nertsio::cards::{Card, CardInstance, Color, Rank, Suit};
use nertsio::hand::{HandAction, StackLocation};
use nertsio::player::PlayerStackLocation;
use nertsio::practice::{distribute_pile, PracticeSpec};
use nertsio::runs::{add_rank, take_card};

fn count_suit(cards: &[CardInstance], suit: Suit) -> usize {
    cards.iter().filter(|c| c.card.suit == suit).count()
}

#[test]
fn scenarios_and_labels() {
    let all = PracticeSpec::all();
    assert_eq!(all, vec![PracticeSpec::Invert, PracticeSpec::Distribute, PracticeSpec::Stack, PracticeSpec::Flip]);
    let labels: Vec<&str> = all.iter().map(|s| s.label()).collect();
    assert_eq!(labels, vec!["Invert", "Distribute", "Stack", "Flip"]);
}

#[test]
fn invert_deals_hearts_upside_down() {
    let hand = PracticeSpec::Invert.gen_hand();
    assert_eq!(hand.players().len(), 1);
    assert_eq!(hand.lake_stacks().len(), 1);
    let nerts = hand.players()[0].nerts_stack().cards();
    let ranks: Vec<u8> = nerts.iter().map(|c| c.card.rank.value()).collect();
    assert_eq!(ranks, (1..=12).rev().collect::<Vec<u8>>());
    assert!(nerts.iter().all(|c| c.card.suit == Suit::Hearts && c.owner_id == 0));
    assert!(!PracticeSpec::Invert.is_done(&hand));
}

#[test]
fn invert_is_done_once_the_pile_is_played() {
    let mut hand = PracticeSpec::Invert.gen_hand();
    let a = HandAction::Move {
        from: StackLocation::Player(0, PlayerStackLocation::Nerts),
        count: 1,
        to: StackLocation::Lake(0),
    };
    for played in 0..12usize {
        assert!(!PracticeSpec::Invert.is_done(&hand));
        assert!(hand.apply(0, a).is_ok());
        assert_eq!(hand.lake_stacks()[0].len(), played + 1);
    }
    assert!(PracticeSpec::Invert.is_done(&hand));
    let lake: Vec<u8> = hand.lake_stacks()[0].cards().iter().map(|c| c.card.rank.value()).collect();
    assert_eq!(lake, (1..=12).collect::<Vec<u8>>());
}

#[test]
fn distribute_pile_counts_down_per_suit() {
    let order = vec![Suit::Clubs, Suit::Hearts, Suit::Clubs, Suit::Clubs, Suit::Spades];
    let pile = distribute_pile(&order);
    let got: Vec<(Suit, u8)> = pile.iter().map(|c| (c.card.suit, c.card.rank.value())).collect();
    assert_eq!(
        got,
        vec![(Suit::Clubs, 13), (Suit::Hearts, 13), (Suit::Clubs, 12), (Suit::Clubs, 11), (Suit::Spades, 13)]
    );
    assert!(pile.iter().all(|c| c.owner_id == 0));
    assert!(distribute_pile(&vec![]).is_empty());
}

#[test]
fn distribute_deals_every_suit_from_the_king() {
    let hand = PracticeSpec::Distribute.gen_hand();
    assert_eq!(hand.lake_stacks().len(), 4);
    let nerts = hand.players()[0].nerts_stack().cards();
    assert_eq!(nerts.len(), 52);
    for suit in Suit::all() {
        let ranks: Vec<u8> = nerts.iter().filter(|c| c.card.suit == suit).map(|c| c.card.rank.value()).collect();
        assert_eq!(ranks, (1..=13).rev().collect::<Vec<u8>>());
    }
}

#[test]
fn stack_scenario_shape() {
    let hand = PracticeSpec::Stack.gen_hand();
    assert_eq!(hand.lake_stacks().len(), 0);
    let p = &hand.players()[0];
    assert_eq!(p.tableau_stacks().len(), 5);
    assert!(p.tableau_stacks().iter().all(|s| s.len() == 0));
    let nerts = p.nerts_stack().cards();
    assert_eq!(nerts.len(), 52);
    assert!(nerts.iter().all(|c| c.owner_id == 0));
    // The pile is cut from four runs from the king down in alternating
    // colors, one of each suit at every rank: every card of the deck, once.
    for r in 1..=13u8 {
        let of_rank: Vec<&CardInstance> = nerts.iter().filter(|c| c.card.rank == Rank::new(r)).collect();
        assert_eq!(of_rank.len(), 4);
        assert_eq!(of_rank.iter().filter(|c| c.card.suit.color() == Color::Red).count(), 2);
        for suit in Suit::all() {
            assert_eq!(of_rank.iter().filter(|c| c.card.suit == suit).count(), 1);
        }
    }
}

#[test]
fn flip_scenario_shape() {
    let hand = PracticeSpec::Flip.gen_hand();
    assert_eq!(hand.lake_stacks().len(), 8);
    let p0 = &hand.players()[0];
    let p1 = &hand.players()[1];
    assert_eq!(p0.stock_stack().len(), 48);
    for suit in Suit::all() {
        assert_eq!(count_suit(p0.stock_stack().cards(), suit), 12);
    }
    assert_eq!(p1.player_id(), 1);
    let aces = p1.stock_stack().cards();
    assert_eq!(aces.len(), 4);
    for suit in Suit::all() {
        assert_eq!(aces.iter().filter(|c| c.card == Card { suit, rank: Rank::ace() } && c.owner_id == 1).count(), 1);
    }
    assert!(!PracticeSpec::Flip.is_done(&hand));
}

#[test]
fn flip_is_done_when_stock_and_waste_are_empty() {
    let mut hand = PracticeSpec::Flip.gen_hand();
    // Flipping alone never empties both: the cards only cycle.
    for _ in 0..16 {
        assert!(hand.apply(0, HandAction::FlipStock).is_ok());
    }
    assert_eq!(hand.players()[0].stock_stack().len(), 0);
    assert_eq!(hand.players()[0].waste_stack().len(), 48);
    assert!(!PracticeSpec::Flip.is_done(&hand));
}

fn deal_back(hand: &nertsio::hand::HandState, budget: &mut u32) -> bool {
    let nerts = hand.players()[0].nerts_stack().len();
    if nerts == 0 {
        return true;
    }
    if *budget == 0 {
        return false;
    }
    *budget -= 1;
    for i in 0..5u8 {
        let mut placed = hand.clone();
        let put = HandAction::Move {
            from: StackLocation::Player(0, PlayerStackLocation::Nerts),
            count: 1,
            to: StackLocation::Player(0, PlayerStackLocation::Tableau(i)),
        };
        if placed.apply(0, put).is_err() {
            continue;
        }
        if deal_back(&placed, budget) {
            return true;
        }
        for j in 0..5u8 {
            let len = placed.players()[0].tableau_stacks()[j as usize].len();
            if j == i || len == 0 {
                continue;
            }
            let mut moved = placed.clone();
            let shift = HandAction::Move {
                from: StackLocation::Player(0, PlayerStackLocation::Tableau(j)),
                count: len as u8,
                to: StackLocation::Player(0, PlayerStackLocation::Tableau(i)),
            };
            if moved.apply(0, shift).is_ok() && deal_back(&moved, budget) {
                return true;
            }
        }
    }
    false
}

#[test]
fn stack_scenario_can_be_dealt_back() {
    for _ in 0..20 {
        let hand = PracticeSpec::Stack.gen_hand();
        let mut budget: u32 = 200_000;
        assert!(deal_back(&hand, &mut budget), "the stack pile could not be dealt back");
    }
}

#[test]
fn take_card_cuts_a_run() {
    let c = |suit: Suit, r: u8| CardInstance { card: Card { suit, rank: Rank::new(r) }, owner_id: 0 };
    // With fewer than five runs, the split draw picks the card.
    let mut runs = vec![vec![c(Suit::Spades, 13), c(Suit::Hearts, 12), c(Suit::Clubs, 11)], vec![c(Suit::Diamonds, 13)]];
    let card = take_card(&mut runs, 0, 1);
    assert_eq!(card, c(Suit::Hearts, 12));
    assert_eq!(runs, vec![vec![c(Suit::Spades, 13)], vec![c(Suit::Diamonds, 13)], vec![c(Suit::Clubs, 11)]]);
    // Taking the bottom card: the last run moves into its place.
    let card = take_card(&mut runs, 0, 0);
    assert_eq!(card, c(Suit::Spades, 13));
    assert_eq!(runs, vec![vec![c(Suit::Clubs, 11)], vec![c(Suit::Diamonds, 13)]]);
    // With five runs out, the top card is taken whatever the draw.
    let mut five = vec![
        vec![c(Suit::Spades, 13), c(Suit::Hearts, 12)],
        vec![c(Suit::Hearts, 13)],
        vec![c(Suit::Clubs, 13)],
        vec![c(Suit::Diamonds, 13)],
        vec![c(Suit::Spades, 5)],
    ];
    let card = take_card(&mut five, 0, 0);
    assert_eq!(card, c(Suit::Hearts, 12));
    assert_eq!(five.len(), 5);
    assert_eq!(five[0], vec![c(Suit::Spades, 13)]);
}

#[test]
fn add_rank_alternates_colors_by_the_flags() {
    let c = |suit: Suit, r: u8| CardInstance { card: Card { suit, rank: Rank::new(r) }, owner_id: 0 };
    let mut runs = vec![
        vec![c(Suit::Spades, 13)],
        vec![c(Suit::Hearts, 13)],
        vec![c(Suit::Clubs, 13)],
        vec![c(Suit::Diamonds, 13)],
    ];
    add_rank(&mut runs, 12, false, false);
    assert_eq!(runs[0], vec![c(Suit::Spades, 13), c(Suit::Diamonds, 12)]);
    assert_eq!(runs[1], vec![c(Suit::Hearts, 13), c(Suit::Clubs, 12)]);
    assert_eq!(runs[2], vec![c(Suit::Clubs, 13), c(Suit::Hearts, 12)]);
    assert_eq!(runs[3], vec![c(Suit::Diamonds, 13), c(Suit::Spades, 12)]);
}
