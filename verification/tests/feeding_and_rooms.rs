use nertsio::cards::{Card, CardInstance, Rank, Suit};
use nertsio::feeder::{plan_feeding, should_feed, FeedDecision};
use nertsio::hand::{HandAction, HandState, StackLocation};
use nertsio::player::{HandPlayerState, PlayerStackLocation};
use nertsio::practice::PracticeSpec;
use nertsio::room::{KickOutcome, LeaveOutcome, ReadyOutcome, Room};
use nertsio::server::Standing;
use nertsio::stack::{Stack, StackOrder};

fn ci(suit: Suit, rank: u8, owner: u8) -> CardInstance {
    CardInstance { card: Card { suit, rank: Rank::new(rank) }, owner_id: owner }
}

fn card(suit: Suit, rank: u8) -> Card {
    Card { suit, rank: Rank::new(rank) }
}

fn lake(cards: Vec<CardInstance>) -> Stack {
    let mut s = Stack::new(StackOrder::SingleSuitUp, true);
    for c in cards {
        s.try_add(c).unwrap();
    }
    s
}

fn flip_hand(learner_stock: Vec<CardInstance>, feeder_stock: Vec<CardInstance>, lakes: Vec<Stack>) -> HandState {
    let empty = || Stack::new(StackOrder::Any, false);
    HandState::raw(
        vec![
            HandPlayerState::raw(0, empty(), Stack::from_list_unordered(learner_stock), empty(), vec![]),
            HandPlayerState::raw(1, empty(), Stack::from_list_unordered(feeder_stock), empty(), vec![]),
        ],
        lakes,
    )
}

#[test]
fn feeder_summons_an_ace_the_learner_can_follow() {
    let learner: Vec<CardInstance> = (2..=7).map(|r| ci(Suit::Clubs, r, 0)).collect();
    let aces = vec![ci(Suit::Spades, 1, 1), ci(Suit::Hearts, 1, 1), ci(Suit::Diamonds, 1, 1), ci(Suit::Clubs, 1, 1)];
    let mut hand = flip_hand(learner, aces, (0..8).map(|_| lake(vec![])).collect());
    assert!(should_feed(&hand));
    // The learner can reach the 5 and the 2 of clubs: the ace of clubs goes
    // on the fourth lake stack, the fourth one handed an ace.
    let decision = plan_feeding(&hand);
    assert_eq!(decision, FeedDecision::Summon { lake: 3, card: card(Suit::Clubs, 1) });
    hand.summon_to_waste(1, card(Suit::Clubs, 1));
    let feeder = &hand.players()[1];
    assert_eq!(feeder.stock_stack().len(), 3);
    assert_eq!(feeder.waste_stack().cards(), &[ci(Suit::Clubs, 1, 1)]);
    let play = HandAction::Move {
        from: StackLocation::Player(1, PlayerStackLocation::Waste),
        count: 1,
        to: StackLocation::Lake(3),
    };
    assert!(hand.apply(1, play).is_ok());
    assert_eq!(hand.lake_stacks()[3].cards(), &[ci(Suit::Clubs, 1, 1)]);
}

#[test]
fn feeder_takes_cards_back_to_fit_a_learner_card() {
    // The learner can only reach the 2 of hearts; the lake stack of hearts
    // is up to the 3, so the feeder takes the 3 and the 2 back.
    let learner = vec![ci(Suit::Hearts, 2, 0), ci(Suit::Spades, 5, 0), ci(Suit::Spades, 6, 0)];
    let hearts = lake(vec![ci(Suit::Hearts, 1, 1), ci(Suit::Hearts, 2, 1), ci(Suit::Hearts, 3, 1)]);
    let mut hand = flip_hand(learner, vec![], vec![hearts, lake(vec![])]);
    assert!(should_feed(&hand));
    assert_eq!(plan_feeding(&hand), FeedDecision::Retract { lake: 0, count: 2 });
    hand.retract_to_stock(StackLocation::Lake(0), 2, 1);
    assert_eq!(hand.lake_stacks()[0].cards(), &[ci(Suit::Hearts, 1, 1)]);
    assert_eq!(hand.players()[1].stock_stack().cards(), &[ci(Suit::Hearts, 2, 1), ci(Suit::Hearts, 3, 1)]);
}

#[test]
fn feeder_rests_while_the_learner_has_plays() {
    // Flipping three at a time reaches the ace of hearts, then the ace of
    // spades: two plays, nothing to do.
    let learner = vec![
        ci(Suit::Spades, 1, 0),
        ci(Suit::Clubs, 9, 0),
        ci(Suit::Clubs, 10, 0),
        ci(Suit::Hearts, 1, 0),
        ci(Suit::Spades, 5, 0),
        ci(Suit::Spades, 6, 0),
    ];
    let hand = flip_hand(learner, vec![ci(Suit::Clubs, 1, 1)], vec![lake(vec![]), lake(vec![])]);
    assert!(!should_feed(&hand));
    assert_eq!(plan_feeding(&hand), FeedDecision::Nothing);
}

#[test]
fn retract_of_more_than_a_stack_holds_changes_nothing() {
    let mut hand = flip_hand(vec![], vec![], vec![lake(vec![ci(Suit::Hearts, 1, 1)])]);
    hand.retract_to_stock(StackLocation::Lake(0), 2, 1);
    assert_eq!(hand.lake_stacks()[0].len(), 1);
    assert_eq!(hand.players()[1].stock_stack().len(), 0);
}

#[test]
fn feeder_decisions_on_the_flip_scenario_fit_the_lake() {
    let hand = PracticeSpec::Flip.gen_hand();
    match plan_feeding(&hand) {
        FeedDecision::Summon { lake, card } => {
            assert!(hand.lake_stacks()[lake as usize].can_add(CardInstance { card, owner_id: 1 }));
        }
        FeedDecision::Retract { lake, count } => {
            assert!((count as usize) <= hand.lake_stacks()[lake as usize].len());
        }
        FeedDecision::Nothing => {}
    }
}

#[test]
fn room_join_and_master() {
    let mut room = Room::new();
    room.join(7, true);
    assert_eq!(room.master, None);
    room.join(3, false);
    room.join(5, false);
    assert_eq!(room.master, Some(3));
    assert_eq!(
        room.standings,
        vec![
            Standing { player_id: 7, score: 0, ready: true, is_bot: true },
            Standing { player_id: 3, score: 0, ready: false, is_bot: false },
            Standing { player_id: 5, score: 0, ready: false, is_bot: false },
        ]
    );
    assert_eq!(room.position(5), Some(2));
    assert_eq!(room.position(9), None);
    assert!(room.is_master(3));
    assert!(!room.is_master(5));
    assert!(room.may_force_start(3));
    assert!(!room.may_force_start(5));
}

#[test]
fn room_ready_starts_a_hand() {
    let mut room = Room::new();
    room.join(3, false);
    room.join(5, false);
    assert_eq!(room.update_ready(3, true), ReadyOutcome { announce: true, start_hand: false });
    assert_eq!(room.update_ready(3, true), ReadyOutcome { announce: false, start_hand: false });
    assert_eq!(room.update_ready(5, true), ReadyOutcome { announce: true, start_hand: true });
    room.hand_running = true;
    assert_eq!(room.update_ready(5, false), ReadyOutcome { announce: false, start_hand: false });
    assert!(room.standings[1].ready);
    assert!(!room.may_force_start(3));
}

#[test]
fn room_kick_and_leave() {
    let mut room = Room::new();
    assert!(room.abandoned());
    room.join(8, true);
    assert!(room.abandoned());
    room.join(3, false);
    assert!(!room.abandoned());
    room.join(5, false);
    assert_eq!(room.kick(5, 8), KickOutcome::Ignored);
    assert_eq!(room.kick(3, 9), KickOutcome::Ignored);
    assert_eq!(room.kick(3, 5), KickOutcome::Disconnect);
    assert_eq!(room.standings.len(), 3);
    assert_eq!(room.kick(3, 8), KickOutcome::BotRemoved);
    assert_eq!(room.standings[0].player_id, 3);
    assert_eq!(room.standings.len(), 2);
    // The master leaves: the first player left takes over; a hand starts
    // if everybody left is ready.
    room.update_ready(5, true);
    assert_eq!(room.leave(3), LeaveOutcome { new_master: Some(5), start_hand: true });
    assert_eq!(room.master, Some(5));
    assert_eq!(room.leave(5), LeaveOutcome { new_master: None, start_hand: false });
    assert_eq!(room.master, None);
    assert!(room.standings.is_empty());
}
