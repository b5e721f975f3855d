use nertsio::bot::{plan_bot_move, BotPlan};
use nertsio::cards::{Card, CardInstance, Rank, Suit};
use nertsio::client::{choose_drop, held_cards_present, held_still_fits, predict_hand, stock_action, suit_callout, face_up_cards, DropOutcome};
use nertsio::hand::{HandAction, HandState, StackLocation};
use nertsio::player::{HandPlayerState, PlayerStackLocation};
use nertsio::stack::{Stack, StackOrder};

fn ci(suit: Suit, rank: u8) -> CardInstance {
    CardInstance { card: Card { suit, rank: Rank::new(rank) }, owner_id: 0 }
}

fn any(cards: Vec<CardInstance>) -> Stack {
    Stack::from_list_unordered(cards)
}

fn tableau(cards: Vec<CardInstance>) -> Stack {
    let mut s = Stack::new(StackOrder::AlternatingDown, false);
    for c in cards {
        s.try_add(c).unwrap();
    }
    s
}

fn lake(cards: Vec<CardInstance>) -> Stack {
    let mut s = Stack::new(StackOrder::SingleSuitUp, true);
    for c in cards {
        s.try_add(c).unwrap();
    }
    s
}

fn one_player(nerts: Vec<CardInstance>, stock: Vec<CardInstance>, waste: Vec<CardInstance>, t: Vec<Stack>, lakes: Vec<Stack>) -> HandState {
    HandState::raw(vec![HandPlayerState::raw(4, any(nerts), any(stock), any(waste), t)], lakes)
}

/// The same lake preference for every source of a player with `tableau`
/// tableau stacks.
fn orders(order: Vec<u16>, tableau: usize) -> Vec<Vec<u16>> {
    vec![order; tableau + 2]
}

fn mv(from: PlayerStackLocation, count: u8, to: StackLocation) -> BotPlan {
    BotPlan::Action(HandAction::Move { from: StackLocation::Player(0, from), count, to })
}

#[test]
fn bot_calls_nerts_with_an_empty_pile() {
    let hand = one_player(vec![], vec![ci(Suit::Clubs, 2)], vec![], vec![], vec![lake(vec![])]);
    assert_eq!(plan_bot_move(&hand, 0, &orders(vec![0], 0)), Some(BotPlan::CallNerts));
}

#[test]
fn bot_plays_to_its_preferred_lake_stack() {
    let hand = one_player(vec![ci(Suit::Clubs, 5), ci(Suit::Hearts, 1)], vec![], vec![], vec![], vec![lake(vec![]), lake(vec![])]);
    assert_eq!(plan_bot_move(&hand, 0, &orders(vec![1, 0], 0)), Some(mv(PlayerStackLocation::Nerts, 1, StackLocation::Lake(1))));
    assert_eq!(plan_bot_move(&hand, 0, &orders(vec![0, 1], 0)), Some(mv(PlayerStackLocation::Nerts, 1, StackLocation::Lake(0))));
    // Lake stacks left out of the order are not used.
    let fallback = plan_bot_move(&hand, 0, &vec![]);
    // Each source may prefer its own lake stacks.
    assert_eq!(
        plan_bot_move(&hand, 0, &vec![vec![1], vec![0]]),
        Some(mv(PlayerStackLocation::Nerts, 1, StackLocation::Lake(1)))
    );
    assert_eq!(fallback, None);
}

#[test]
fn bot_moves_a_whole_tableau_stack_onto_another() {
    let hand = one_player(
        vec![ci(Suit::Clubs, 4)],
        vec![],
        vec![],
        vec![
            tableau(vec![ci(Suit::Spades, 9), ci(Suit::Hearts, 8)]),
            tableau(vec![ci(Suit::Diamonds, 10)]),
        ],
        vec![lake(vec![])],
    );
    assert_eq!(
        plan_bot_move(&hand, 0, &orders(vec![0], 2)),
        Some(mv(PlayerStackLocation::Tableau(0), 2, StackLocation::Player(0, PlayerStackLocation::Tableau(1))))
    );
}

#[test]
fn bot_puts_the_nerts_card_on_an_empty_tableau_stack() {
    let hand = one_player(vec![ci(Suit::Clubs, 4)], vec![], vec![], vec![tableau(vec![ci(Suit::Diamonds, 10)]), tableau(vec![])], vec![]);
    assert_eq!(
        plan_bot_move(&hand, 0, &vec![]),
        Some(mv(PlayerStackLocation::Nerts, 1, StackLocation::Player(0, PlayerStackLocation::Tableau(1))))
    );
}

#[test]
fn bot_moves_the_waste_card_toward_its_nerts_card() {
    // The 7 of hearts fits on the 8 of clubs and would take the 6 of spades,
    // the nerts card; the 7 of diamonds would too but comes later.
    let hand = one_player(
        vec![ci(Suit::Spades, 6)],
        vec![],
        vec![ci(Suit::Hearts, 7)],
        vec![tableau(vec![ci(Suit::Clubs, 12)]), tableau(vec![ci(Suit::Clubs, 8)])],
        vec![],
    );
    assert_eq!(
        plan_bot_move(&hand, 0, &vec![]),
        Some(mv(PlayerStackLocation::Waste, 1, StackLocation::Player(0, PlayerStackLocation::Tableau(1))))
    );
}

#[test]
fn bot_flips_then_returns_the_stock() {
    let flip = one_player(vec![ci(Suit::Spades, 6)], vec![ci(Suit::Clubs, 2)], vec![], vec![], vec![]);
    assert_eq!(plan_bot_move(&flip, 0, &vec![]), Some(BotPlan::Action(HandAction::FlipStock)));
    let ret = one_player(vec![ci(Suit::Spades, 6)], vec![], vec![ci(Suit::Clubs, 2)], vec![], vec![]);
    assert_eq!(plan_bot_move(&ret, 0, &vec![]), Some(BotPlan::Action(HandAction::ReturnStock)));
    let stuck = one_player(vec![ci(Suit::Spades, 6)], vec![], vec![], vec![], vec![]);
    assert_eq!(plan_bot_move(&stuck, 0, &vec![]), None);
}

#[test]
fn bot_plans_on_a_dealt_hand_are_accepted() {
    let mut hand = HandState::generate(vec![1, 2]);
    for _ in 0..40 {
        match plan_bot_move(&hand, 0, &orders((0..8).collect(), 4)) {
            Some(BotPlan::Action(a)) => {
                assert!(hand.apply_is_defined(0, a));
                assert!(hand.apply(0, a).is_ok());
            }
            _ => break,
        }
    }
}

#[test]
fn stock_click() {
    let p = HandPlayerState::raw(1, any(vec![]), any(vec![ci(Suit::Clubs, 2)]), any(vec![]), vec![]);
    assert_eq!(stock_action(&p), HandAction::FlipStock);
    let p = HandPlayerState::raw(1, any(vec![]), any(vec![]), any(vec![ci(Suit::Clubs, 2)]), vec![]);
    assert_eq!(stock_action(&p), HandAction::ReturnStock);
}

#[test]
fn dropping_held_cards() {
    let hand = one_player(
        vec![ci(Suit::Hearts, 9)],
        vec![],
        vec![],
        vec![tableau(vec![ci(Suit::Clubs, 10)])],
        vec![lake(vec![])],
    );
    let tab = StackLocation::Player(0, PlayerStackLocation::Tableau(0));
    let nerts = StackLocation::Player(0, PlayerStackLocation::Nerts);
    assert_eq!(
        choose_drop(&hand, 0, PlayerStackLocation::Nerts, 1, &vec![StackLocation::Lake(0), tab]),
        DropOutcome::Play(HandAction::Move { from: nerts, count: 1, to: tab })
    );
    assert_eq!(choose_drop(&hand, 0, PlayerStackLocation::Nerts, 1, &vec![nerts, tab]), DropOutcome::PutBack);
    assert_eq!(choose_drop(&hand, 0, PlayerStackLocation::Nerts, 1, &vec![StackLocation::Lake(0)]), DropOutcome::Nothing);
    assert_eq!(choose_drop(&hand, 0, PlayerStackLocation::Nerts, 1, &vec![]), DropOutcome::Nothing);
}

#[test]
fn predicted_hand_skips_refused_actions() {
    let hand = one_player(
        vec![ci(Suit::Hearts, 1)],
        vec![ci(Suit::Clubs, 2), ci(Suit::Clubs, 3)],
        vec![],
        vec![],
        vec![lake(vec![])],
    );
    let pending = vec![
        HandAction::FlipStock,
        HandAction::Move {
            from: StackLocation::Player(0, PlayerStackLocation::Waste),
            count: 1,
            to: StackLocation::Lake(0),
        },
        HandAction::Move {
            from: StackLocation::Player(0, PlayerStackLocation::Nerts),
            count: 1,
            to: StackLocation::Lake(0),
        },
    ];
    let predicted = predict_hand(hand, 0, &pending);
    let p = &predicted.players()[0];
    assert_eq!(p.stock_stack().len(), 0);
    assert_eq!(p.waste_stack().cards(), &[ci(Suit::Clubs, 3), ci(Suit::Clubs, 2)]);
    assert_eq!(p.nerts_stack().len(), 0);
    assert_eq!(predicted.lake_stacks()[0].cards(), &[ci(Suit::Hearts, 1)]);
}

#[test]
fn held_cards_checks() {
    let p = HandPlayerState::raw(
        1,
        any(vec![]),
        any(vec![]),
        any(vec![]),
        vec![tableau(vec![ci(Suit::Spades, 9), ci(Suit::Hearts, 8)])],
    );
    let t0 = PlayerStackLocation::Tableau(0);
    let nine = Card { suit: Suit::Spades, rank: Rank::new(9) };
    let eight = Card { suit: Suit::Hearts, rank: Rank::new(8) };
    assert!(held_cards_present(&p, t0, 2, nine));
    assert!(held_cards_present(&p, t0, 1, eight));
    assert!(!held_cards_present(&p, t0, 1, nine));
    assert!(!held_cards_present(&p, t0, 3, nine));
    assert!(!held_cards_present(&p, PlayerStackLocation::Tableau(1), 1, nine));
    assert!(held_still_fits(&p, t0, 2));
    assert!(!held_still_fits(&p, t0, 3));
    assert!(!held_still_fits(&p, PlayerStackLocation::Tableau(4), 1));
}

#[test]
fn bot_prefers_the_last_lake_play_over_an_earlier_tableau_move() {
    // The nerts two of hearts could go on the three of spades, but the waste
    // ace of clubs can go to the lake: the lake play wins.
    let hand = one_player(
        vec![ci(Suit::Hearts, 2)],
        vec![],
        vec![ci(Suit::Clubs, 1)],
        vec![tableau(vec![ci(Suit::Spades, 3)])],
        vec![lake(vec![])],
    );
    assert_eq!(
        plan_bot_move(&hand, 0, &orders(vec![0], 1)),
        Some(mv(PlayerStackLocation::Waste, 1, StackLocation::Lake(0)))
    );
    // Two sources with lake plays: the later one (the waste) wins.
    let hand = one_player(
        vec![ci(Suit::Hearts, 1)],
        vec![],
        vec![ci(Suit::Clubs, 1)],
        vec![],
        vec![lake(vec![]), lake(vec![])],
    );
    assert_eq!(
        plan_bot_move(&hand, 0, &orders(vec![0, 1], 0)),
        Some(mv(PlayerStackLocation::Waste, 1, StackLocation::Lake(0)))
    );
    // Without any lake play, the first source's tableau move is made.
    let hand = one_player(
        vec![ci(Suit::Hearts, 2)],
        vec![],
        vec![ci(Suit::Clubs, 7)],
        vec![tableau(vec![ci(Suit::Spades, 3)])],
        vec![lake(vec![])],
    );
    assert_eq!(
        plan_bot_move(&hand, 0, &orders(vec![0], 1)),
        Some(mv(PlayerStackLocation::Nerts, 1, StackLocation::Player(0, PlayerStackLocation::Tableau(0))))
    );
}

#[test]
fn room_ready_updates_are_ignored_during_a_hand() {
    let mut room = nertsio::room::Room::new();
    room.join(1, false);
    room.hand_running = true;
    // Player 42 is not in the room; during a hand that is no error.
    let out = room.update_ready(42, true);
    assert!(!out.announce && !out.start_hand);
    assert_eq!(room.standings.len(), 1);
    assert!(!room.standings[0].ready);
}

#[test]
fn aces_on_the_lake_are_called_out() {
    let hand = one_player(vec![], vec![], vec![], vec![], vec![lake(vec![ci(Suit::Diamonds, 1)]), lake(vec![ci(Suit::Clubs, 1), ci(Suit::Clubs, 2)]), lake(vec![])]);
    let to = |l: u16| HandAction::Move { from: StackLocation::Player(0, PlayerStackLocation::Nerts), count: 1, to: StackLocation::Lake(l) };
    assert_eq!(suit_callout(&hand, to(0), true), Some(Suit::Diamonds));
    assert_eq!(suit_callout(&hand, to(0), false), None);
    assert_eq!(suit_callout(&hand, to(1), true), None);
    assert_eq!(suit_callout(&hand, to(2), true), None);
    assert_eq!(suit_callout(&hand, to(9), true), None);
    assert_eq!(suit_callout(&hand, HandAction::FlipStock, true), None);
    let tab = HandAction::Move {
        from: StackLocation::Player(0, PlayerStackLocation::Nerts),
        count: 1,
        to: StackLocation::Player(0, PlayerStackLocation::Tableau(0)),
    };
    assert_eq!(suit_callout(&hand, tab, true), None);
}

#[test]
fn face_up_cards_leave_out_held_ones() {
    let t0 = tableau(vec![ci(Suit::Spades, 9), ci(Suit::Hearts, 8), ci(Suit::Clubs, 7)]);
    let waste = vec![ci(Suit::Clubs, 1), ci(Suit::Hearts, 4), ci(Suit::Spades, 6), ci(Suit::Diamonds, 2), ci(Suit::Clubs, 10)];
    let p = HandPlayerState::raw(4, any(vec![ci(Suit::Hearts, 5), ci(Suit::Diamonds, 12)]), any(vec![ci(Suit::Clubs, 3)]), any(waste), vec![t0]);
    let tab = PlayerStackLocation::Tableau(0);
    assert_eq!(face_up_cards(&p, tab, None).len(), 3);
    assert_eq!(face_up_cards(&p, tab, Some((tab, 2))), vec![ci(Suit::Spades, 9)]);
    // Holding more than the stack has hides nothing.
    assert_eq!(face_up_cards(&p, tab, Some((tab, 5))).len(), 3);
    // Cards held from elsewhere do not matter.
    assert_eq!(face_up_cards(&p, tab, Some((PlayerStackLocation::Waste, 1))).len(), 3);
    assert_eq!(
        face_up_cards(&p, PlayerStackLocation::Waste, None),
        vec![ci(Suit::Spades, 6), ci(Suit::Diamonds, 2), ci(Suit::Clubs, 10)]
    );
    assert_eq!(
        face_up_cards(&p, PlayerStackLocation::Waste, Some((PlayerStackLocation::Waste, 1))),
        vec![ci(Suit::Spades, 6), ci(Suit::Diamonds, 2)]
    );
    assert_eq!(face_up_cards(&p, PlayerStackLocation::Nerts, None), vec![ci(Suit::Diamonds, 12)]);
    assert!(face_up_cards(&p, PlayerStackLocation::Nerts, Some((PlayerStackLocation::Nerts, 1))).is_empty());
    assert!(face_up_cards(&p, PlayerStackLocation::Stock, None).is_empty());
    assert!(face_up_cards(&p, PlayerStackLocation::Tableau(3), None).is_empty());
}
