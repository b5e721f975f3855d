//! What a game client keeps track of while in a game, and how each message
//! from the server changes it.

use vstd::prelude::*;
use crate::hand::HandAction;
use crate::game::{GamePlayerState, GameState};
use crate::protocol::GameMessageS2C;
use crate::client::{find_seat, holds_seat};
use crate::bot::{first_index, lemma_first_index_extend};

verus! {

broadcast use {vstd::laws_cmp::group_laws_cmp, vstd::std_specs::btree::group_btree_axioms};

/// What a client knows of the game it is in: the game, its own player id,
/// the actions it played that the server has not confirmed yet (oldest
/// first), whether the hand is announced as stalled, whether nerts was
/// called, whether the hand has started, and who leads the game.
pub struct ClientGame {
    pub game: GameState,
    pub my_player_id: u8,
    pub pending: Vec<HandAction>,
    pub stalled: bool,
    pub nerts_called: bool,
    pub hand_started: bool,
    pub master: Option<u8>,
}

/// What the client's views hear of a message.
#[derive(Clone, Debug, PartialEq, Eq)]
pub enum ClientEvent {
    HandInit,
    PlayerHandAction(HandAction),
    NertsCalled,
    HandEnd(Vec<i32>),
}

/// Pending action `k` is `action`.
pub open spec fn is_action(pending: Seq<HandAction>, action: HandAction) -> spec_fn(int) -> bool {
    |k: int| pending[k] == action
}

/// `pending` once the server confirms `action`: everything up to and
/// including its first occurrence is dropped (all of it if it is not there).
pub open spec fn confirmed(pending: Seq<HandAction>, action: HandAction) -> Seq<HandAction> {
    match first_index(pending.len() as int, is_action(pending, action)) {
        Some(k) => pending.subrange(k + 1, pending.len() as int),
        None => Seq::empty(),
    }
}

/// The players of a game with nobody ready.
pub open spec fn none_ready(players: Map<u8, GamePlayerState>) -> Map<u8, GamePlayerState> {
    Map::new(|k: u8| players.dom().contains(k), |k: u8| GamePlayerState { ready: false, ..players[k] })
}

/// Whether the client can take in `msg` (rather than fail on it, as the
/// client does on a message that does not fit what it knows).
pub open spec fn message_fits(c: ClientGame, msg: GameMessageS2C) -> bool {
    match msg {
        GameMessageS2C::PlayerUpdateReady { id, value } => c.game.players@.dom().contains(id),
        GameMessageS2C::PlayerHandAction { player, action } => match c.game.hand {
            Some(h) => h@.apply_defined(player, action) && h@.apply_outcome(player, action) is Some,
            None => false,
        },
        GameMessageS2C::NertsCalled { .. } | GameMessageS2C::HandEnd { .. } | GameMessageS2C::HandStalled
        | GameMessageS2C::HandStallCancel | GameMessageS2C::HandStart => c.game.hand is Some,
        _ => true,
    }
}

impl ClientGame {
    /// What the client knows right after joining.
    pub fn joined(game: GameState, my_player_id: u8) -> (res: ClientGame)
        ensures
            res.game == game,
            res.my_player_id == my_player_id,
            res.pending@ == Seq::<HandAction>::empty(),
            !res.stalled && !res.nerts_called && !res.hand_started,
            res.master is None,
    {
        ClientGame {
            game,
            my_player_id,
            pending: Vec::new(),
            stalled: false,
            nerts_called: false,
            hand_started: false,
            master: None,
        }
    }

    /// Takes in a message from the server.
    pub fn on_message(&mut self, msg: GameMessageS2C) -> (res: Option<ClientEvent>)
        requires
            message_fits(*old(self), msg),
        ensures
            final(self).my_player_id == match msg {
                GameMessageS2C::Joined { your_player_id, .. } => your_player_id,
                _ => old(self).my_player_id,
            },
            match msg {
                GameMessageS2C::Joined { info, your_player_id } => {
                    &&& final(self).game == info
                    &&& final(self).my_player_id == your_player_id
                    &&& final(self).pending@ == Seq::<HandAction>::empty()
                    &&& res is None
                },
                GameMessageS2C::PlayerJoin { id, info } => {
                    &&& final(self).game.players@ == old(self).game.players@.insert(id, info)
                    &&& final(self).game.hand == old(self).game.hand
                    &&& res is None
                },
                GameMessageS2C::PlayerLeave { id } => {
                    &&& final(self).game.players@ == old(self).game.players@.remove(id)
                    &&& final(self).game.hand == old(self).game.hand
                    &&& res is None
                },
                GameMessageS2C::PlayerUpdateReady { id, value } => {
                    &&& final(self).game.players@ == old(self).game.players@.insert(
                        id,
                        GamePlayerState { ready: value, ..old(self).game.players@[id] },
                    )
                    &&& final(self).game.hand == old(self).game.hand
                    &&& res is None
                },
                GameMessageS2C::HandInit { info, .. } => {
                    &&& final(self).game.players@ == old(self).game.players@
                    &&& final(self).game.hand == Some(info)
                    &&& final(self).pending@ == Seq::<HandAction>::empty()
                    &&& !final(self).stalled && !final(self).nerts_called && !final(self).hand_started
                    &&& res == Some(ClientEvent::HandInit)
                },
                GameMessageS2C::PlayerHandAction { player, action } => {
                    let h = old(self).game.hand.unwrap();
                    let mine = match find_seat(h@, old(self).my_player_id) {
                        Some(i) => i == player,
                        None => false,
                    };
                    &&& final(self).game.players@ == old(self).game.players@
                    &&& final(self).game.hand matches Some(h2) && h2@ == h@.apply_outcome(player, action).unwrap()
                    &&& final(self).pending@ == if mine {
                        confirmed(old(self).pending@, action)
                    } else {
                        old(self).pending@
                    }
                    &&& res == Some(ClientEvent::PlayerHandAction(action))
                },
                GameMessageS2C::NertsCalled { .. } => {
                    &&& final(self).game == old(self).game
                    &&& final(self).nerts_called
                    &&& res == Some(ClientEvent::NertsCalled)
                },
                GameMessageS2C::HandEnd { scores } => {
                    &&& final(self).game.players@ == none_ready(old(self).game.players@)
                    &&& final(self).game.hand is None
                    &&& res == Some(ClientEvent::HandEnd(scores))
                },
                GameMessageS2C::HandStalled => final(self).game == old(self).game && final(self).stalled && res is None,
                GameMessageS2C::HandStallCancel => final(self).game == old(self).game && !final(self).stalled && res is None,
                GameMessageS2C::NewMasterPlayer { player } => {
                    final(self).game == old(self).game && final(self).master == Some(player) && res is None
                },
                GameMessageS2C::HandStart => final(self).game == old(self).game && final(self).hand_started && res is None,
                _ => final(self).game == old(self).game && res is None,
            },
    {
        match msg {
            GameMessageS2C::Joined { info, your_player_id } => {
                self.game = info;
                self.my_player_id = your_player_id;
                self.pending = Vec::new();
                self.stalled = false;
                self.nerts_called = false;
                self.hand_started = false;
                None
            },
            GameMessageS2C::PlayerJoin { id, info } => {
                self.game.players.insert(id, info);
                None
            },
            GameMessageS2C::PlayerLeave { id } => {
                self.game.players.remove(&id);
                None
            },
            GameMessageS2C::PlayerUpdateReady { id, value } => {
                let p = self.game.players.remove(&id);
                match p {
                    Some(p) => {
                        self.game.players.insert(id, GamePlayerState { ready: value, ..p });
                    },
                    None => {},
                }
                None
            },
            GameMessageS2C::HandInit { info, delay: _ } => {
                self.game.hand = Some(info);
                self.pending = Vec::new();
                self.stalled = false;
                self.nerts_called = false;
                self.hand_started = false;
                Some(ClientEvent::HandInit)
            },
            GameMessageS2C::PlayerHandAction { player, action } => {
                let mut hand = self.game.hand.take().unwrap();
                let mine = holds_seat(&hand, self.my_player_id, player);
                if mine {
                    self.confirm(action);
                }
                let _ = hand.apply(player, action);
                self.game.hand = Some(hand);
                Some(ClientEvent::PlayerHandAction(action))
            },
            GameMessageS2C::NertsCalled { player: _ } => {
                self.nerts_called = true;
                Some(ClientEvent::NertsCalled)
            },
            GameMessageS2C::HandEnd { scores } => {
                self.game.hand = None;
                self.unready_all();
                Some(ClientEvent::HandEnd(scores))
            },
            GameMessageS2C::HandStalled => {
                self.stalled = true;
                None
            },
            GameMessageS2C::HandStallCancel => {
                self.stalled = false;
                None
            },
            GameMessageS2C::NewMasterPlayer { player } => {
                self.master = Some(player);
                None
            },
            GameMessageS2C::HandStart => {
                self.hand_started = true;
                None
            },
            _ => None,
        }
    }

    /// Drops the pending actions up to and including the first one equal to
    /// `action`.
    fn confirm(&mut self, action: HandAction)
        ensures
            final(self).pending@ == confirmed(old(self).pending@, action),
            final(self).game == old(self).game,
            final(self).my_player_id == old(self).my_player_id,
    {
        let ghost p = self.pending@;
        let ghost f = is_action(p, action);
        let mut k: usize = 0;
        while k < self.pending.len()
            invariant
                k <= p.len(),
                self.pending@ == p,
                p == old(self).pending@,
                self.game == old(self).game,
                self.my_player_id == old(self).my_player_id,
                f == is_action(p, action),
                first_index(k as int, f) is None,
            decreases p.len() - k,
        {
            if self.pending[k] == action {
                proof {
                    assert(f(k as int));
                    assert(first_index(k + 1, f) == Some(k as int));
                    lemma_first_index_extend(k + 1, p.len() as int, f);
                }
                let rest = self.pending.split_off(k + 1);
                self.pending = rest;
                return;
            }
            assert(!f(k as int));
            k = k + 1;
        }
        self.pending = Vec::new();
    }

    /// Marks every player as not ready.
    fn unready_all(&mut self)
        ensures
            final(self).game.players@ == none_ready(old(self).game.players@),
            final(self).game.hand == old(self).game.hand,
            final(self).my_player_id == old(self).my_player_id,
    {
        let ghost start = self.game.players@;
        let mut id: u8 = 0;
        loop
            invariant_except_break
                forall|x: u8| #[trigger] self.game.players@.contains_key(x) ==> self.game.players@[x] == if x < id {
                    GamePlayerState { ready: false, ..start[x] }
                } else {
                    start[x]
                },
            invariant
                self.game.hand == old(self).game.hand,
                self.my_player_id == old(self).my_player_id,
                self.game.players@.dom() == start.dom(),
            ensures
                forall|x: u8| #[trigger] self.game.players@.contains_key(x) ==> self.game.players@[x] == (GamePlayerState {
                    ready: false,
                    ..start[x]
                }),
            decreases 255 - id,
        {
            let p = self.game.players.remove(&id);
            match p {
                Some(p) => {
                    self.game.players.insert(id, GamePlayerState { ready: false, ..p });
                },
                None => {},
            }
            assert(self.game.players@.dom() =~= start.dom());
            if id == 255 {
                break;
            }
            id = id + 1;
        }
        assert(self.game.players@ =~= none_ready(start));
    }
}

} // verus!
