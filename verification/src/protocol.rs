//! The messages that clients, game servers and the coordinator exchange.

use vstd::prelude::*;
use std::time::Duration;
use crate::hand::{HandAction, HandState};
use crate::game::{GamePlayerState, GameState};

verus! {

/// The channel on which game servers publish their status.
pub const COORDINATOR_CHANNEL: &'static str = "gameserver_states";

pub const PROTOCOL_VERSION: u16 = 7;

/// Close codes a server sends when it ends a connection.
pub const CLOSE_KICK: u8 = 1;
pub const CLOSE_TOO_OLD: u8 = 2;
pub const CLOSE_TOO_NEW: u8 = 3;

/// The text shown for a close code.
pub open spec fn close_message(code: u8) -> Seq<char> {
    if code == CLOSE_KICK {
        "Kicked"@
    } else if code == CLOSE_TOO_OLD {
        "Version Too Old"@
    } else if code == CLOSE_TOO_NEW {
        "Version Too New"@
    } else {
        "Unknown Close Reason"@
    }
}

pub fn get_close_message(code: u8) -> (res: &'static str)
    ensures
        res@ == close_message(code),
{
    match code {
        CLOSE_KICK => "Kicked",
        CLOSE_TOO_OLD => "Version Too Old",
        CLOSE_TOO_NEW => "Version Too New",
        _ => "Unknown Close Reason",
    }
}

#[derive(Clone, Debug)]
pub enum MaintenanceMessageC2S {
    Hello {
        name: String,
        game_id: Option<u32>,
        new_game_public: Option<bool>,
        protocol_version: u16,
        min_protocol_version: u16,
    },
    Ping,
}

#[derive(Clone, Debug)]
pub enum MaintenanceMessageS2C {
    Hello,
    Pong,
}

#[derive(Clone, Debug)]
pub enum GameMessageC2S {
    UpdateSelfReady { value: bool },
    ForceStart,
    ApplyHandAction { action: HandAction },
    CallNerts,
    AddBot,
    KickPlayer { player: u8 },
}

#[derive(Debug)]
pub enum GameMessageS2C {
    Joined { info: GameState, your_player_id: u8 },
    PlayerJoin { id: u8, info: GamePlayerState },
    PlayerLeave { id: u8 },
    PlayerUpdateReady { id: u8, value: bool },
    HandInit { info: HandState, delay: Duration },
    PlayerHandAction { player: u8, action: HandAction },
    NertsCalled { player: u8 },
    HandEnd { scores: Vec<i32> },
    HandStalled,
    HandStallCancel,
    ServerHandAction { action: HandAction },
    GameEnd,
    NewMasterPlayer { player: u8 },
    HandStart,
}

#[derive(Clone, Debug)]
pub struct PublicGameInfo {
    pub game_id: u32,
    pub players: u8,
    pub waiting: bool,
}

#[derive(Clone, Debug)]
pub struct RespList<T> {
    pub items: Vec<T>,
}

#[derive(Clone, Copy, Debug)]
pub struct ServerStats {
    pub public_games: u32,
    pub private_games: u32,
    pub public_game_players: u32,
    pub private_game_players: u32,
}

} // verus!
