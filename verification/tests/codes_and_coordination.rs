use nertsio::coordinator::{default_protocol_version, failed_pings, ping_slot, pick_server_for_new_game, sum_server_stats, NoAvailableServers, ServerOffer};
use nertsio::game_id::{pack_game_id, parse_full_game_id_str, to_full_game_id_str, unpack_game_id, InvalidGameCode};
use nertsio::metrics::HandMetrics;
use nertsio::protocol::{get_close_message, ServerStats, CLOSE_KICK, CLOSE_TOO_NEW, CLOSE_TOO_OLD, COORDINATOR_CHANNEL, PROTOCOL_VERSION};
use nertsio::settings::{default_name, Settings};

#[test]
fn close_messages() {
    assert_eq!(get_close_message(CLOSE_KICK), "Kicked");
    assert_eq!(get_close_message(CLOSE_TOO_OLD), "Version Too Old");
    assert_eq!(get_close_message(CLOSE_TOO_NEW), "Version Too New");
    assert_eq!(get_close_message(0), "Unknown Close Reason");
    assert_eq!(get_close_message(200), "Unknown Close Reason");
}

#[test]
fn protocol_constants() {
    assert_eq!(PROTOCOL_VERSION, 7);
    assert_eq!(COORDINATOR_CHANNEL, "gameserver_states");
    assert_eq!(default_protocol_version(), 3);
}

#[test]
fn pack_and_unpack() {
    assert_eq!(pack_game_id(1, 1), 257);
    assert_eq!(pack_game_id(255, u32::MAX), 0xff_ffff_ffff);
    assert_eq!(unpack_game_id(257), (1, 1));
    assert_eq!(unpack_game_id(0xff_ffff_ffff), (255, u32::MAX));
    // Bits above the game id are dropped.
    assert_eq!(unpack_game_id(0x1_0000_0000_0102), (2, 1));
    for (s, g) in [(0u8, 0u32), (7, 12345), (200, 4_000_000_000)] {
        assert_eq!(unpack_game_id(pack_game_id(s, g)), (s, g));
    }
}

#[test]
fn game_codes_are_base_36() {
    assert_eq!(to_full_game_id_str(1, 1), "75");
    assert_eq!(to_full_game_id_str(0, 1), "74");
    assert_eq!(to_full_game_id_str(35, 0), "Z");
    assert_eq!(to_full_game_id_str(0, 0), "0");
    assert_eq!(parse_full_game_id_str("75"), Ok((1, 1)));
    assert_eq!(parse_full_game_id_str("z"), Ok((35, 0)));
    assert_eq!(parse_full_game_id_str("Z"), Ok((35, 0)));
}

#[test]
fn game_codes_round_trip() {
    for (s, g) in [(0u8, 0u32), (3, 99), (255, u32::MAX), (17, 1 << 20)] {
        let text = to_full_game_id_str(s, g);
        assert_eq!(parse_full_game_id_str(&text), Ok((s, g)));
    }
}

#[test]
fn bad_game_codes_are_refused() {
    assert_eq!(parse_full_game_id_str(""), Err(InvalidGameCode));
    assert_eq!(parse_full_game_id_str("7-5"), Err(InvalidGameCode));
    assert_eq!(parse_full_game_id_str("!!"), Err(InvalidGameCode));
    // Too large for 64 bits.
    assert_eq!(parse_full_game_id_str("ZZZZZZZZZZZZZZZZ"), Err(InvalidGameCode));
}

#[test]
fn metrics_sides() {
    for (n, small, large) in [(0usize, 0usize, 0usize), (1, 0, 1), (2, 1, 1), (5, 2, 3), (6, 3, 3)] {
        let m = HandMetrics::new(n, 4, 4 * n, 13);
        assert_eq!(m.min_side_player_count(), small);
        assert_eq!(m.max_side_player_count(), large);
        assert_eq!(m.min_side_player_count() + m.max_side_player_count(), n);
        assert_eq!((m.players(), m.tableau_stacks(), m.lake_stacks(), m.nerts_pile_size()), (n, 4, 4 * n, 13));
    }
}

#[test]
fn default_settings() {
    assert_eq!(default_name(), "Nerter");
    let s = Settings::default();
    assert_eq!(s.name, "Nerter");
    assert!(!s.drag && !s.round_start_music && !s.suit_callouts && !s.nerts_callout);
}

fn offer(server_id: u8, protocol_version: u16, min_protocol_version: u16, region: Option<&str>) -> ServerOffer {
    ServerOffer { server_id, protocol_version, min_protocol_version, region: region.map(|r| r.to_owned()) }
}

#[test]
fn new_games_go_to_the_preferred_region() {
    let offers = vec![
        offer(1, 7, 4, Some("us")),
        offer(2, 7, 4, None),
        offer(3, 7, 4, Some("eu")),
        offer(4, 7, 4, Some("eu")),
    ];
    let regions = vec!["eu".to_owned(), "us".to_owned()];
    assert_eq!(pick_server_for_new_game(&offers, &regions, 7, 4), Ok(2));
    let regions = vec!["us".to_owned()];
    assert_eq!(pick_server_for_new_game(&offers, &regions, 7, 4), Ok(0));
    // With no preference the first compatible server wins.
    assert_eq!(pick_server_for_new_game(&offers, &vec![], 7, 4), Ok(0));
}

#[test]
fn incompatible_servers_are_skipped() {
    let offers = vec![
        offer(1, 5, 4, Some("eu")),
        offer(2, 9, 8, Some("eu")),
        offer(3, 7, 4, None),
    ];
    let regions = vec!["eu".to_owned()];
    // Server 1 speaks too old a protocol, server 2 needs a newer client.
    assert_eq!(pick_server_for_new_game(&offers, &regions, 7, 6), Ok(2));
    assert_eq!(pick_server_for_new_game(&offers, &regions, 3, 3), Err(NoAvailableServers));
    assert_eq!(pick_server_for_new_game(&vec![], &regions, 7, 4), Err(NoAvailableServers));
}

#[test]
fn server_stats_add_up() {
    let list = vec![
        ServerStats { public_games: 1, private_games: 2, public_game_players: 3, private_game_players: 4 },
        ServerStats { public_games: 10, private_games: 20, public_game_players: 30, private_game_players: 40 },
    ];
    let s = sum_server_stats(&list);
    assert_eq!((s.public_games, s.private_games, s.public_game_players, s.private_game_players), (11, 22, 33, 44));
    let z = sum_server_stats(&vec![]);
    assert_eq!((z.public_games, z.private_games, z.public_game_players, z.private_game_players), (0, 0, 0, 0));
}

#[test]
fn overseer_checks_servers_in_turn() {
    assert_eq!(ping_slot(0, 0), (None, 0));
    assert_eq!(ping_slot(0, 5), (None, 0));
    assert_eq!(ping_slot(3, 0), (Some(0), 1));
    assert_eq!(ping_slot(3, 2), (Some(2), 3));
    // Past the end the turn starts over.
    assert_eq!(ping_slot(3, 3), (Some(0), 1));
    assert_eq!(ping_slot(2, 7), (Some(0), 1));
}

#[test]
fn overseer_counts_failed_checks() {
    assert_eq!(failed_pings(&vec![]), 0);
    assert_eq!(failed_pings(&vec![Some(false), None, Some(true), Some(false)]), 2);
    assert_eq!(failed_pings(&vec![None, Some(true)]), 0);
}
