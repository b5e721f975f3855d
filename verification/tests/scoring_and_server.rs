use nertsio::cards::{Card, CardInstance, Rank, Suit};
use nertsio::hand::{HandAction, HandState, StackLocation};
use nertsio::player::{HandPlayerState, PlayerStackLocation};
use nertsio::protocol::{CLOSE_TOO_NEW, CLOSE_TOO_OLD, PROTOCOL_VERSION};
use nertsio::score::hand_scores;
use nertsio::server::{
    accepts_mouse_update, check_hello_versions, game_stats, nerts_call_index, open_public_games, reset_stall,
    settle_hand, should_start_hand, stall_tick, GameSummary, StallState, StallStep, Standing, MAX_PLAYERS,
    MIN_PROTOCOL_VERSION, STALL_SEND_COUNT, WIN_SCORE,
};
use nertsio::stack::{Stack, StackOrder};

fn ci(suit: Suit, rank: u8, owner: u8) -> CardInstance {
    CardInstance { card: Card { suit, rank: Rank::new(rank) }, owner_id: owner }
}

fn lake_with(cards: Vec<CardInstance>) -> Stack {
    let mut s = Stack::new(StackOrder::SingleSuitUp, true);
    for c in cards {
        s.try_add(c).unwrap();
    }
    s
}

fn player(id: u8, nerts: Vec<CardInstance>) -> HandPlayerState {
    HandPlayerState::raw(
        id,
        Stack::from_list_unordered(nerts),
        Stack::new(StackOrder::Any, false),
        Stack::new(StackOrder::Any, false),
        vec![],
    )
}

#[test]
fn fresh_hand_scores_minus_twenty_six() {
    let hand = HandState::generate(vec![3, 4]);
    assert_eq!(hand_scores(&hand), vec![-26, -26]);
}

#[test]
fn lake_cards_score_for_their_owner() {
    let hand = HandState::raw(
        vec![
            player(10, vec![]),
            player(11, vec![ci(Suit::Clubs, 9, 1), ci(Suit::Clubs, 10, 1), ci(Suit::Clubs, 11, 1)]),
        ],
        vec![
            lake_with(vec![ci(Suit::Hearts, 1, 0), ci(Suit::Hearts, 2, 1), ci(Suit::Hearts, 3, 0)]),
            lake_with(vec![ci(Suit::Spades, 1, 1)]),
        ],
    );
    assert_eq!(hand_scores(&hand), vec![2, 2 - 6]);
}

#[test]
fn scores_rise_as_cards_reach_the_lake() {
    let mut hand = HandState::raw(
        vec![player(10, vec![ci(Suit::Clubs, 2, 0), ci(Suit::Clubs, 1, 0)])],
        vec![Stack::new(StackOrder::SingleSuitUp, true)],
    );
    let mut last = hand_scores(&hand)[0];
    assert_eq!(last, -4);
    for _ in 0..2 {
        let a = HandAction::Move {
            from: StackLocation::Player(0, PlayerStackLocation::Nerts),
            count: 1,
            to: StackLocation::Lake(0),
        };
        assert!(hand.apply(0, a).is_ok());
        let now = hand_scores(&hand)[0];
        assert_eq!(now, last + 3);
        last = now;
    }
    assert_eq!(last, 2);
}

#[test]
fn hello_versions() {
    assert_eq!(check_hello_versions(PROTOCOL_VERSION, 0), Ok(()));
    assert_eq!(check_hello_versions(MIN_PROTOCOL_VERSION, MIN_PROTOCOL_VERSION), Ok(()));
    assert_eq!(check_hello_versions(MIN_PROTOCOL_VERSION - 1, 0), Err(CLOSE_TOO_OLD));
    assert_eq!(check_hello_versions(PROTOCOL_VERSION, PROTOCOL_VERSION + 1), Err(CLOSE_TOO_NEW));
    // A client that is too old and wants a newer server hears the latter.
    assert_eq!(check_hello_versions(0, u16::MAX), Err(CLOSE_TOO_NEW));
}

#[test]
fn hand_starts_when_everyone_is_ready() {
    assert!(should_start_hand(false, &vec![true, true]));
    assert!(!should_start_hand(false, &vec![true, false]));
    assert!(!should_start_hand(true, &vec![true, true]));
    assert!(!should_start_hand(false, &vec![]));
}

#[test]
fn mouse_updates_only_move_forward() {
    assert!(accepts_mouse_update(None, 0));
    assert!(accepts_mouse_update(Some(4), 5));
    assert!(!accepts_mouse_update(Some(5), 5));
    assert!(!accepts_mouse_update(Some(6), 5));
}

#[test]
fn nerts_may_be_called_with_an_empty_pile() {
    let hand = HandState::raw(vec![player(10, vec![ci(Suit::Clubs, 2, 0)]), player(11, vec![])], vec![]);
    assert_eq!(nerts_call_index(&hand, 11, false), Some(1));
    assert_eq!(nerts_call_index(&hand, 11, true), None);
    assert_eq!(nerts_call_index(&hand, 10, false), None);
    assert_eq!(nerts_call_index(&hand, 12, false), None);
}

fn standing(player_id: u8, score: i32, is_bot: bool) -> Standing {
    Standing { player_id, score, ready: true, is_bot }
}

#[test]
fn settling_adds_scores_and_unreadies_humans() {
    let mut standings = vec![standing(1, 10, false), standing(2, 5, true), standing(3, 7, false)];
    let res = settle_hand(&mut standings, &vec![2, 1], &vec![-4, 20]);
    assert!(!res.game_won);
    assert_eq!(res.bots_ready, vec![2]);
    assert_eq!(
        standings,
        vec![
            Standing { player_id: 1, score: 30, ready: false, is_bot: false },
            Standing { player_id: 2, score: 1, ready: true, is_bot: true },
            Standing { player_id: 3, score: 7, ready: false, is_bot: false },
        ]
    );
}

#[test]
fn reaching_the_win_score_resets_everyone() {
    let mut standings = vec![standing(1, WIN_SCORE - 3, false), standing(2, 50, true)];
    let res = settle_hand(&mut standings, &vec![1, 2], &vec![3, 1]);
    assert!(res.game_won);
    assert_eq!(res.bots_ready, vec![2]);
    assert_eq!(
        standings,
        vec![
            Standing { player_id: 1, score: 0, ready: false, is_bot: false },
            Standing { player_id: 2, score: 0, ready: true, is_bot: true },
        ]
    );
}

#[test]
fn absent_players_do_not_win_by_old_scores() {
    // Player 3 sat the hand out: their old total does not end the game.
    let mut standings = vec![standing(3, WIN_SCORE + 5, false), standing(4, 0, false)];
    let res = settle_hand(&mut standings, &vec![4], &vec![2]);
    assert!(!res.game_won);
    assert_eq!(standings[0].score, WIN_SCORE + 5);
    assert_eq!(standings[1].score, 2);
}

#[test]
fn stall_cycle() {
    let mut s = StallState { stalled_count: 0, sent_stall: false };
    for _ in 1..STALL_SEND_COUNT {
        assert_eq!(stall_tick(&mut s), StallStep::Wait);
    }
    assert_eq!(stall_tick(&mut s), StallStep::AnnounceStall);
    assert_eq!(s, StallState { stalled_count: STALL_SEND_COUNT, sent_stall: true });
    assert_eq!(stall_tick(&mut s), StallStep::Reshuffle);
    assert_eq!(s, StallState { stalled_count: 0, sent_stall: false });
}

#[test]
fn reset_reports_a_cancelled_stall() {
    let mut s = StallState { stalled_count: 3, sent_stall: false };
    assert!(!reset_stall(&mut s));
    assert_eq!(s, StallState { stalled_count: 0, sent_stall: false });
    let mut s = StallState { stalled_count: STALL_SEND_COUNT, sent_stall: true };
    assert!(reset_stall(&mut s));
    assert_eq!(s, StallState { stalled_count: 0, sent_stall: false });
}

fn game(game_id: u32, public: bool, player_count: usize, hand_running: bool) -> GameSummary {
    GameSummary { game_id, public, player_count, hand_running }
}

#[test]
fn public_listing_skips_private_and_full_games() {
    let games = vec![
        game(1, true, 2, false),
        game(2, false, 1, false),
        game(3, true, MAX_PLAYERS, false),
        game(4, true, MAX_PLAYERS - 1, true),
    ];
    let listed = open_public_games(&games);
    assert_eq!(listed.len(), 2);
    assert_eq!((listed[0].game_id, listed[0].players, listed[0].waiting), (1, 2, true));
    assert_eq!((listed[1].game_id, listed[1].players, listed[1].waiting), (4, 5, false));
}

#[test]
fn stats_count_games_and_players() {
    let games = vec![game(1, true, 2, false), game(2, false, 1, false), game(3, true, 6, true), game(5, false, 0, false)];
    let s = game_stats(&games);
    assert_eq!(
        (s.public_games, s.private_games, s.public_game_players, s.private_game_players),
        (2, 2, 8, 1)
    );
    let empty = game_stats(&vec![]);
    assert_eq!((empty.public_games, empty.private_games, empty.public_game_players, empty.private_game_players), (0, 0, 0, 0));
}
