//! What every participant knows about a game: its players and the hand in
//! progress, if any.

use vstd::prelude::*;
use std::collections::BTreeMap;
use crate::hand::HandState;

verus! {

#[derive(Clone, Debug)]
pub struct GamePlayerState {
    pub name: String,
    pub ready: bool,
}

#[derive(Clone, Debug)]
pub struct GameState {
    pub players: BTreeMap<u8, GamePlayerState>,
    pub hand: Option<HandState>,
}

} // verus!
