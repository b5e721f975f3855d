use nertsio::cards::{full_deck, Card, CardInstance, Rank, Suit};
use nertsio::hand::{HandAction, HandState, StackLocation};
use nertsio::player::{HandPlayerState, PlayerStackLocation};
use nertsio::stack::{Stack, StackOrder};

fn ci(suit: Suit, rank: u8, owner: u8) -> CardInstance {
    CardInstance { card: Card { suit, rank: Rank::new(rank) }, owner_id: owner }
}

fn any(cards: Vec<CardInstance>) -> Stack {
    Stack::from_list_unordered(cards)
}

fn empty_any() -> Stack {
    Stack::new(StackOrder::Any, false)
}

fn tableau(cards: Vec<CardInstance>) -> Stack {
    let mut s = Stack::new(StackOrder::AlternatingDown, false);
    for c in cards {
        s.try_add(c).unwrap();
    }
    s
}

fn lake() -> Stack {
    Stack::new(StackOrder::SingleSuitUp, true)
}

/// Player 0 (id 7): nerts pile topped by the ace of hearts, a stock of four,
/// two tableau stacks; player 1 (id 9): nerts pile topped by the ace of
/// spades; two empty lake stacks.
fn sample_hand() -> HandState {
    let p0 = HandPlayerState::raw(
        7,
        any(vec![ci(Suit::Clubs, 4, 0), ci(Suit::Hearts, 1, 0)]),
        any(vec![ci(Suit::Clubs, 2, 0), ci(Suit::Clubs, 3, 0), ci(Suit::Diamonds, 5, 0), ci(Suit::Spades, 6, 0)]),
        empty_any(),
        vec![
            tableau(vec![ci(Suit::Spades, 9, 0), ci(Suit::Hearts, 8, 0)]),
            tableau(vec![ci(Suit::Diamonds, 10, 0)]),
        ],
    );
    let p1 = HandPlayerState::raw(
        9,
        any(vec![ci(Suit::Spades, 1, 1)]),
        empty_any(),
        empty_any(),
        vec![tableau(vec![ci(Suit::Clubs, 12, 1)])],
    );
    HandState::raw(vec![p0, p1], vec![lake(), lake()])
}

fn mv(from: StackLocation, count: u8, to: StackLocation) -> HandAction {
    HandAction::Move { from, count, to }
}

fn own(p: u8, l: PlayerStackLocation) -> StackLocation {
    StackLocation::Player(p, l)
}

#[test]
fn generate_deals_every_player_a_full_deck() {
    let hand = HandState::generate(vec![5, 9, 2]);
    assert_eq!(hand.players().len(), 3);
    assert_eq!(hand.lake_stacks().len(), 12);
    for s in hand.lake_stacks() {
        assert_eq!(s.len(), 0);
        assert!(s.can_add(ci(Suit::Clubs, 1, 0)));
        assert!(!s.can_add(ci(Suit::Clubs, 2, 0)));
    }
    let deck = full_deck();
    for (idx, p) in hand.players().iter().enumerate() {
        assert_eq!(p.player_id(), [5u8, 9, 2][idx]);
        assert_eq!(p.nerts_stack().len(), 13);
        assert_eq!(p.stock_stack().len(), 31);
        assert_eq!(p.waste_stack().len(), 0);
        assert_eq!(p.tableau_stacks().len(), 4);
        let mut all: Vec<CardInstance> = Vec::new();
        all.extend_from_slice(p.nerts_stack().cards());
        all.extend_from_slice(p.stock_stack().cards());
        for t in p.tableau_stacks() {
            assert_eq!(t.len(), 1);
            all.extend_from_slice(t.cards());
        }
        assert_eq!(all.len(), 48);
        for c in &all {
            assert_eq!(c.owner_id as usize, idx);
        }
        for card in &deck {
            assert_eq!(all.iter().filter(|c| c.card == *card).count(), 1);
        }
    }
}

#[test]
fn generate_shuffles_the_deck() {
    let hand = HandState::generate(vec![1]);
    let p = &hand.players()[0];
    let deck = full_deck();
    let sorted_top: Vec<Card> = deck[35..].to_vec();
    let nerts: Vec<Card> = p.nerts_stack().cards().iter().map(|c| c.card).collect();
    assert_ne!(nerts, sorted_top);
}

#[test]
fn generate_with_no_players() {
    let hand = HandState::generate(vec![]);
    assert_eq!(hand.players().len(), 0);
    assert_eq!(hand.lake_stacks().len(), 0);
}

#[test]
fn player_index_finds_first_match() {
    let hand = sample_hand();
    assert_eq!(hand.player_index(7), Some(0));
    assert_eq!(hand.player_index(9), Some(1));
    assert_eq!(hand.player_index(8), None);
}

#[test]
fn stack_at_looks_up_locations() {
    let hand = sample_hand();
    assert_eq!(hand.stack_at(StackLocation::Lake(1)).map(|s| s.len()), Some(0));
    assert!(hand.stack_at(StackLocation::Lake(2)).is_none());
    assert_eq!(hand.stack_at(own(0, PlayerStackLocation::Tableau(0))).map(|s| s.len()), Some(2));
    assert!(hand.stack_at(own(0, PlayerStackLocation::Tableau(2))).is_none());
    assert_eq!(hand.stack_at(own(1, PlayerStackLocation::Nerts)).map(|s| s.len()), Some(1));
    assert!(hand.stack_at(own(2, PlayerStackLocation::Nerts)).is_none());
}

#[test]
fn flip_then_return_restores_the_stock() {
    let stock = vec![ci(Suit::Clubs, 2, 0), ci(Suit::Clubs, 3, 0), ci(Suit::Diamonds, 5, 0), ci(Suit::Spades, 6, 0)];
    let mut p = HandPlayerState::raw(3, empty_any(), any(stock.clone()), empty_any(), vec![]);
    p.flip_stock();
    assert_eq!(p.stock_stack().cards(), &stock[..1]);
    assert_eq!(p.waste_stack().cards(), &[stock[3], stock[2], stock[1]]);
    p.flip_stock();
    assert_eq!(p.stock_stack().len(), 0);
    assert_eq!(p.waste_stack().cards(), &[stock[3], stock[2], stock[1], stock[0]]);
    p.flip_stock();
    assert_eq!(p.stock_stack().len(), 0);
    assert_eq!(p.waste_stack().len(), 4);
    p.return_stock();
    assert_eq!(p.stock_stack().cards(), &stock[..]);
    assert_eq!(p.waste_stack().len(), 0);
}

#[test]
fn return_puts_waste_under_nothing_but_existing_stock() {
    let mut p = HandPlayerState::raw(
        3,
        empty_any(),
        any(vec![ci(Suit::Clubs, 2, 0)]),
        any(vec![ci(Suit::Hearts, 4, 0), ci(Suit::Hearts, 5, 0)]),
        vec![],
    );
    p.return_stock();
    assert_eq!(p.stock_stack().cards(), &[ci(Suit::Clubs, 2, 0), ci(Suit::Hearts, 5, 0), ci(Suit::Hearts, 4, 0)]);
}

#[test]
fn mut_stack_at_edits_in_place() {
    let mut p = HandPlayerState::raw(3, empty_any(), empty_any(), empty_any(), vec![tableau(vec![])]);
    assert!(p.mut_stack_at(PlayerStackLocation::Tableau(1)).is_none());
    p.mut_stack_at(PlayerStackLocation::Tableau(0)).unwrap().try_add(ci(Suit::Hearts, 13, 0)).unwrap();
    assert_eq!(p.tableau_stacks()[0].cards(), &[ci(Suit::Hearts, 13, 0)]);
}

#[test]
fn deal_splits_the_pile() {
    let cards: Vec<CardInstance> = (1..=12).map(|r| ci(Suit::Spades, r, 4)).chain((1..=4).map(|r| ci(Suit::Hearts, r, 4))).collect();
    let p = HandPlayerState::deal(2, cards.clone(), 2);
    assert_eq!(p.nerts_stack().cards(), &cards[3..]);
    assert_eq!(p.tableau_stacks()[0].cards(), &[cards[2]]);
    assert_eq!(p.tableau_stacks()[1].cards(), &[cards[1]]);
    assert_eq!(p.stock_stack().cards(), &cards[..1]);
    assert_eq!(p.waste_stack().len(), 0);
}

#[test]
fn flip_and_return_through_apply() {
    let mut hand = sample_hand();
    assert!(hand.apply(0, HandAction::FlipStock).is_ok());
    let p = &hand.players()[0];
    assert_eq!(p.stock_stack().len(), 1);
    assert_eq!(p.waste_stack().cards(), &[ci(Suit::Spades, 6, 0), ci(Suit::Diamonds, 5, 0), ci(Suit::Clubs, 3, 0)]);
    assert!(hand.apply(0, HandAction::ReturnStock).is_ok());
    assert_eq!(hand.players()[0].stock_stack().len(), 4);
    assert_eq!(hand.players()[0].waste_stack().len(), 0);
}

#[test]
fn nerts_ace_goes_to_the_lake() {
    let mut hand = sample_hand();
    let action = mv(own(0, PlayerStackLocation::Nerts), 1, StackLocation::Lake(1));
    assert!(hand.apply_is_defined(0, action));
    assert!(hand.apply(0, action).is_ok());
    assert_eq!(hand.lake_stacks()[1].cards(), &[ci(Suit::Hearts, 1, 0)]);
    assert_eq!(hand.players()[0].nerts_stack().cards(), &[ci(Suit::Clubs, 4, 0)]);
}

#[test]
fn tableau_run_moves_onto_tableau() {
    let mut hand = sample_hand();
    // 9 of spades and 8 of hearts onto the 10 of diamonds.
    let action = mv(own(0, PlayerStackLocation::Tableau(0)), 2, own(0, PlayerStackLocation::Tableau(1)));
    assert!(hand.apply(0, action).is_ok());
    let p = &hand.players()[0];
    assert_eq!(p.tableau_stacks()[0].len(), 0);
    assert_eq!(
        p.tableau_stacks()[1].cards(),
        &[ci(Suit::Diamonds, 10, 0), ci(Suit::Spades, 9, 0), ci(Suit::Hearts, 8, 0)]
    );
}

#[test]
fn rejected_moves_leave_the_hand_alone() {
    let mut hand = sample_hand();
    let refused = [
        // Someone else's stack.
        mv(own(1, PlayerStackLocation::Nerts), 1, StackLocation::Lake(0)),
        // From the stock.
        mv(own(0, PlayerStackLocation::Stock), 1, StackLocation::Lake(0)),
        // More than one card off the nerts pile.
        mv(own(0, PlayerStackLocation::Nerts), 2, own(0, PlayerStackLocation::Tableau(0))),
        // Onto another player's tableau.
        mv(own(0, PlayerStackLocation::Tableau(0)), 1, own(1, PlayerStackLocation::Tableau(0))),
        // Onto one's own nerts pile or waste.
        mv(own(0, PlayerStackLocation::Tableau(0)), 1, own(0, PlayerStackLocation::Nerts)),
        mv(own(0, PlayerStackLocation::Tableau(0)), 1, own(0, PlayerStackLocation::Waste)),
        // From the lake.
        mv(StackLocation::Lake(0), 1, StackLocation::Lake(1)),
        // A card the lake does not take.
        mv(own(0, PlayerStackLocation::Tableau(1)), 1, StackLocation::Lake(0)),
        // A card the tableau does not take.
        mv(own(0, PlayerStackLocation::Tableau(1)), 1, own(0, PlayerStackLocation::Tableau(0))),
        // A stack that does not exist.
        mv(own(0, PlayerStackLocation::Tableau(5)), 1, StackLocation::Lake(0)),
        mv(own(0, PlayerStackLocation::Nerts), 1, StackLocation::Lake(9)),
    ];
    for action in refused {
        assert!(hand.apply_is_defined(0, action));
        assert!(hand.apply(0, action).is_err());
    }
    assert_eq!(hand.players()[0].nerts_stack().len(), 2);
    assert_eq!(hand.players()[0].tableau_stacks()[0].len(), 2);
    assert_eq!(hand.players()[0].tableau_stacks()[1].len(), 1);
    assert_eq!(hand.lake_stacks()[0].len(), 0);
    assert_eq!(hand.lake_stacks()[1].len(), 0);
}

#[test]
fn apply_is_defined_rules_out_panicking_inputs() {
    let hand = sample_hand();
    // No card, or more cards than the stack holds.
    assert!(!hand.apply_is_defined(0, mv(own(0, PlayerStackLocation::Tableau(0)), 0, StackLocation::Lake(0))));
    assert!(!hand.apply_is_defined(0, mv(own(0, PlayerStackLocation::Tableau(0)), 3, StackLocation::Lake(0))));
    // A player index past the end.
    assert!(!hand.apply_is_defined(2, HandAction::FlipStock));
    assert!(!hand.apply_is_defined(2, HandAction::ReturnStock));
    assert!(!hand.apply_is_defined(2, mv(own(2, PlayerStackLocation::Nerts), 1, StackLocation::Lake(0))));
    // ...unless the move is refused before the index is used.
    assert!(hand.apply_is_defined(2, mv(own(0, PlayerStackLocation::Nerts), 1, StackLocation::Lake(0))));
    assert!(hand.apply_is_defined(0, HandAction::FlipStock));
    assert!(hand.apply_is_defined(1, HandAction::ReturnStock));
}

#[test]
fn apply_keeps_every_card() {
    let mut hand = sample_hand();
    let count = |h: &HandState| -> usize {
        let mut n = 0;
        for p in h.players() {
            n += p.nerts_stack().len() + p.stock_stack().len() + p.waste_stack().len();
            n += p.tableau_stacks().iter().map(|s| s.len()).sum::<usize>();
        }
        n + h.lake_stacks().iter().map(|s| s.len()).sum::<usize>()
    };
    let before = count(&hand);
    let actions = [
        HandAction::FlipStock,
        mv(own(0, PlayerStackLocation::Nerts), 1, StackLocation::Lake(0)),
        mv(own(0, PlayerStackLocation::Waste), 1, own(0, PlayerStackLocation::Tableau(0))),
        HandAction::ReturnStock,
    ];
    for a in actions {
        if hand.apply_is_defined(0, a) {
            let _ = hand.apply(0, a);
        }
        assert_eq!(count(&hand), before);
    }
}
