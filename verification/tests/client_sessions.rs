use std::collections::BTreeMap;
use std::time::Duration;

use nertsio::cards::{Card, CardInstance, Rank, Suit};
use nertsio::client::holds_seat;
use nertsio::coordinator::{sample_public_games, PUBLIC_GAME_COUNT};
use nertsio::game::{GamePlayerState, GameState};
use nertsio::hand::{HandAction, HandState, StackLocation};
use nertsio::player::{HandPlayerState, PlayerStackLocation};
use nertsio::protocol::GameMessageS2C;
use nertsio::session::{ClientEvent, ClientGame};
use nertsio::stack::{Stack, StackOrder};

fn player(name: &str, ready: bool) -> GamePlayerState {
    GamePlayerState { name: name.to_owned(), ready }
}

fn small_hand() -> HandState {
    let any = |cards: Vec<CardInstance>| Stack::from_list_unordered(cards);
    let ace = CardInstance { card: Card { suit: Suit::Hearts, rank: Rank::new(1) }, owner_id: 0 };
    let two = CardInstance { card: Card { suit: Suit::Clubs, rank: Rank::new(2) }, owner_id: 1 };
    HandState::raw(
        vec![
            HandPlayerState::raw(7, any(vec![ace]), any(vec![]), any(vec![]), vec![]),
            HandPlayerState::raw(9, any(vec![two]), any(vec![two]), any(vec![]), vec![]),
        ],
        vec![Stack::new(StackOrder::SingleSuitUp, true)],
    )
}

fn session() -> ClientGame {
    let mut players = BTreeMap::new();
    players.insert(7, player("me", false));
    players.insert(9, player("you", true));
    ClientGame::joined(GameState { players, hand: None }, 7)
}

#[test]
fn players_come_and_go() {
    let mut c = session();
    assert_eq!(c.on_message(GameMessageS2C::PlayerJoin { id: 3, info: player("new", false) }), None);
    assert_eq!(c.game.players.len(), 3);
    assert_eq!(c.on_message(GameMessageS2C::PlayerUpdateReady { id: 3, value: true }), None);
    assert!(c.game.players[&3].ready);
    assert_eq!(c.game.players[&3].name, "new");
    assert_eq!(c.on_message(GameMessageS2C::PlayerLeave { id: 9 }), None);
    assert!(!c.game.players.contains_key(&9));
    assert_eq!(c.on_message(GameMessageS2C::NewMasterPlayer { player: 3 }), None);
    assert_eq!(c.master, Some(3));
}

#[test]
fn a_hand_from_start_to_end() {
    let mut c = session();
    assert_eq!(
        c.on_message(GameMessageS2C::HandInit { info: small_hand(), delay: Duration::from_secs(5) }),
        Some(ClientEvent::HandInit)
    );
    assert!(c.game.hand.is_some());
    assert_eq!(c.on_message(GameMessageS2C::HandStart), None);
    assert!(c.hand_started);
    assert_eq!(c.on_message(GameMessageS2C::HandStalled), None);
    assert!(c.stalled);
    assert_eq!(c.on_message(GameMessageS2C::HandStallCancel), None);
    assert!(!c.stalled);

    // My own move, played ahead of the server's confirmation.
    let play = HandAction::Move {
        from: StackLocation::Player(0, PlayerStackLocation::Nerts),
        count: 1,
        to: StackLocation::Lake(0),
    };
    c.pending = vec![HandAction::FlipStock, play, HandAction::ReturnStock];
    assert_eq!(
        c.on_message(GameMessageS2C::PlayerHandAction { player: 0, action: play }),
        Some(ClientEvent::PlayerHandAction(play))
    );
    assert_eq!(c.pending, vec![HandAction::ReturnStock]);
    assert_eq!(c.game.hand.as_ref().unwrap().lake_stacks()[0].len(), 1);

    // Someone else's move leaves my pending actions alone.
    assert_eq!(
        c.on_message(GameMessageS2C::PlayerHandAction { player: 1, action: HandAction::FlipStock }),
        Some(ClientEvent::PlayerHandAction(HandAction::FlipStock))
    );
    assert_eq!(c.pending, vec![HandAction::ReturnStock]);
    assert_eq!(c.game.hand.as_ref().unwrap().players()[1].waste_stack().len(), 1);

    assert_eq!(c.on_message(GameMessageS2C::NertsCalled { player: 0 }), Some(ClientEvent::NertsCalled));
    assert!(c.nerts_called);
    assert_eq!(c.on_message(GameMessageS2C::HandEnd { scores: vec![1, -2] }), Some(ClientEvent::HandEnd(vec![1, -2])));
    assert!(c.game.hand.is_none());
    assert!(c.game.players.values().all(|p| !p.ready));
    assert_eq!(c.game.players[&9].name, "you");
}

#[test]
fn a_confirmation_not_pending_clears_the_queue() {
    let mut c = session();
    c.on_message(GameMessageS2C::HandInit { info: small_hand(), delay: Duration::from_secs(1) });
    c.pending = vec![HandAction::ReturnStock];
    c.on_message(GameMessageS2C::PlayerHandAction { player: 0, action: HandAction::FlipStock });
    assert!(c.pending.is_empty());
}

#[test]
fn seats_are_found_by_id() {
    let hand = small_hand();
    assert!(holds_seat(&hand, 7, 0));
    assert!(!holds_seat(&hand, 7, 1));
    assert!(holds_seat(&hand, 9, 1));
    assert!(!holds_seat(&hand, 8, 0));
}

#[test]
fn public_games_are_sampled() {
    let few: Vec<u32> = vec![4, 5, 6];
    let mut got = sample_public_games(few.clone());
    got.sort();
    assert_eq!(got, few);
    let many: Vec<u32> = (0..40).collect();
    let got = sample_public_games(many);
    assert_eq!(got.len(), PUBLIC_GAME_COUNT);
    let mut seen = got.clone();
    seen.sort();
    seen.dedup();
    assert_eq!(seen.len(), PUBLIC_GAME_COUNT);
    assert!(got.iter().all(|g| *g < 40));
}

#[test]
fn joined_message_sets_my_player_id() {
    let mut c = session();
    c.pending.push(HandAction::FlipStock);
    let mut players = BTreeMap::new();
    players.insert(3, player("new me", false));
    let ev = c.on_message(GameMessageS2C::Joined { info: GameState { players, hand: None }, your_player_id: 3 });
    assert_eq!(ev, None);
    assert_eq!(c.my_player_id, 3);
    assert!(c.pending.is_empty());
    assert_eq!(c.game.players.len(), 1);
    assert!(c.game.players.contains_key(&3));
}

#[test]
fn queue_action_keeps_only_accepted_moves() {
    let mut pred = small_hand();
    let mut pending: Vec<HandAction> = Vec::new();
    let play = HandAction::Move {
        from: StackLocation::Player(0, PlayerStackLocation::Nerts),
        count: 1,
        to: StackLocation::Lake(0),
    };
    assert!(nertsio::client::queue_action(&mut pred, &mut pending, 0, play));
    assert_eq!(pending, vec![play]);
    assert_eq!(pred.lake_stacks()[0].len(), 1);
    assert_eq!(pred.players()[0].nerts_stack().len(), 0);
    // The two of clubs does not go on the ace of hearts: refused, nothing queued.
    let refused = HandAction::Move {
        from: StackLocation::Player(1, PlayerStackLocation::Nerts),
        count: 1,
        to: StackLocation::Lake(0),
    };
    assert!(!nertsio::client::queue_action(&mut pred, &mut pending, 1, refused));
    assert_eq!(pending, vec![play]);
    assert_eq!(pred.lake_stacks()[0].len(), 1);
}
