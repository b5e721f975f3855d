//! Rules and state of a hand of Nerts: cards, stacks, player areas and the
//! shared lake, together with the small pieces of server and client logic
//! that decide what happens to them.

pub mod cards;
mod random;
pub mod stack;
pub mod player;
pub mod hand;
pub mod laws;
pub mod game;
pub mod protocol;
pub mod score;
pub mod game_id;
pub mod metrics;
pub mod settings;
pub mod server;
pub mod coordinator;
pub mod practice;
pub mod bot;
pub mod client;
pub mod session;
pub mod feeder;
pub mod room;
pub mod runs;

