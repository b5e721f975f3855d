//! Decisions a game server takes: whether to let a client in, when to start
//! a hand, how a finished hand settles the game, when a stalled hand gets
//! reshuffled, which mouse updates to pass on, and what it tells the
//! coordinator about its games.

use vstd::prelude::*;
use crate::hand::HandState;
use crate::protocol::{CLOSE_TOO_NEW, CLOSE_TOO_OLD, PROTOCOL_VERSION, PublicGameInfo, ServerStats};

verus! {

/// The oldest client protocol a server still serves.
pub const MIN_PROTOCOL_VERSION: u16 = 4;

/// The total score that ends a game.
pub const WIN_SCORE: i32 = 100;

/// The most players a public game is listed with room for.
pub const MAX_PLAYERS: usize = 6;

/// How many idle checks pass before a hand is declared stalled.
pub const STALL_SEND_COUNT: u8 = 6;

/// The close code a server answers a client's hello with, if it cannot serve it.
pub open spec fn hello_refusal(protocol_version: u16, min_protocol_version: u16) -> Option<u8> {
    if PROTOCOL_VERSION < min_protocol_version {
        Some(CLOSE_TOO_NEW)
    } else if protocol_version < MIN_PROTOCOL_VERSION {
        Some(CLOSE_TOO_OLD)
    } else {
        None
    }
}

/// Checks the protocol versions a client announces: `Err` with the close code
/// to send where the client needs a newer server or is too old itself.
pub fn check_hello_versions(protocol_version: u16, min_protocol_version: u16) -> (res: Result<(), u8>)
    ensures
        match hello_refusal(protocol_version, min_protocol_version) {
            Some(code) => res == Err::<(), u8>(code),
            None => res is Ok,
        },
{
    if PROTOCOL_VERSION < min_protocol_version {
        Err(CLOSE_TOO_NEW)
    } else if protocol_version < MIN_PROTOCOL_VERSION {
        Err(CLOSE_TOO_OLD)
    } else {
        Ok(())
    }
}

/// A hand starts by itself when none is running, the game has players, and
/// every one of them is ready.
pub fn should_start_hand(hand_running: bool, ready: &Vec<bool>) -> (res: bool)
    ensures
        res == (!hand_running && ready@.len() > 0 && forall|i: int| 0 <= i < ready@.len() ==> ready@[i]),
{
    if hand_running || ready.len() == 0 {
        return false;
    }
    let mut i: usize = 0;
    while i < ready.len()
        invariant
            i <= ready@.len(),
            forall|j: int| 0 <= j < i ==> ready@[j],
        decreases ready@.len() - i,
    {
        if !ready[i] {
            return false;
        }
        i = i + 1;
    }
    true
}

/// Whether a mouse update with sequence number `seq` is newer than the last
/// one kept (if any), and so replaces it.
pub fn accepts_mouse_update(last_seq: Option<u32>, seq: u32) -> (res: bool)
    ensures
        res == match last_seq {
            Some(s) => s < seq,
            None => true,
        },
{
    match last_seq {
        Some(s) => s < seq,
        None => true,
    }
}

/// Whether player `player_id` may call nerts: nobody has yet in this hand,
/// the player takes part in it, and their nerts pile is empty. Gives the
/// player's index in the hand.
pub fn nerts_call_index(hand: &HandState, player_id: u8, already_called: bool) -> (res: Option<usize>)
    ensures
        match res {
            Some(i) => {
                &&& !already_called
                &&& i < hand@.players.len()
                &&& hand@.players[i as int].player_id == player_id
                &&& forall|k: int| 0 <= k < i ==> hand@.players[k].player_id != player_id
                &&& hand@.players[i as int].nerts.cards.len() == 0
            },
            None => already_called || forall|i: int|
                0 <= i < hand@.players.len() && hand@.players[i].player_id == player_id
                    && (forall|k: int| 0 <= k < i ==> hand@.players[k].player_id != player_id)
                    ==> hand@.players[i].nerts.cards.len() > 0,
        },
{
    if already_called {
        return None;
    }
    match hand.player_index(player_id) {
        None => None,
        Some(i) => {
            let players = hand.players();
            assert(players@[i as int]@ == hand@.players[i as int]);
            if players[i].nerts_stack().len() == 0 {
                Some(i)
            } else {
                proof {
                    assert forall|j: int|
                        0 <= j < hand@.players.len() && hand@.players[j].player_id == player_id
                            && (forall|k: int| 0 <= k < j ==> hand@.players[k].player_id != player_id)
                        implies hand@.players[j].nerts.cards.len() > 0 by {
                        if j < i {
                        } else if j > i {
                            assert(hand@.players[i as int].player_id == player_id);
                        }
                    }
                }
                None
            }
        },
    }
}

/// A player's standing in a game, as the server keeps it.
#[derive(Clone, Copy, Debug, PartialEq, Eq, Structural)]
pub struct Standing {
    pub player_id: u8,
    pub score: i32,
    pub ready: bool,
    pub is_bot: bool,
}

/// What settling a hand leads to.
#[derive(Clone, Debug)]
pub struct HandSettlement {
    /// Some player reached the winning score: every score was reset, the game is over.
    pub game_won: bool,
    /// The bots, which are ready again at once, in table order.
    pub bots_ready: Vec<u8>,
}

/// The index of the first standing of player `id`, if any.
pub open spec fn standing_index(standings: Seq<Standing>, id: u8) -> Option<int>
    decreases standings.len(),
{
    if standings.len() == 0 {
        None
    } else {
        match standing_index(standings.drop_last(), id) {
            Some(i) => Some(i),
            None => if standings.last().player_id == id {
                Some(standings.len() - 1)
            } else {
                None
            },
        }
    }
}

/// The index, in the hand, of the player with id `id`, if any.
pub open spec fn hand_index(ids: Seq<u8>, id: u8) -> Option<int> {
    if exists|i: int| 0 <= i < ids.len() && ids[i] == id {
        Some(choose|i: int| 0 <= i < ids.len() && ids[i] == id)
    } else {
        None
    }
}

/// No id occurs twice.
pub open spec fn distinct_ids(ids: Seq<u8>) -> bool {
    forall|i: int, j: int| 0 <= i < j < ids.len() ==> ids[i] != ids[j]
}

/// The score of standing `s` once the hand's score of the same player is added.
pub open spec fn settled_score(s: Standing, ids: Seq<u8>, scores: Seq<i32>) -> int {
    match hand_index(ids, s.player_id) {
        Some(i) => s.score + scores[i],
        None => s.score as int,
    }
}

/// Whether some player reaches the winning score with this hand.
pub open spec fn settlement_wins(standings: Seq<Standing>, ids: Seq<u8>, scores: Seq<i32>) -> bool {
    exists|j: int|
        0 <= j < standings.len() && hand_index(ids, standings[j].player_id) is Some
            && settled_score(standings[j], ids, scores) >= WIN_SCORE
}

/// A hand wins the game exactly when some player of the hand, bot or not,
/// reaches a total of at least `WIN_SCORE` once the hand's score is added.
pub proof fn lemma_reaching_win_score_wins(standings: Seq<Standing>, ids: Seq<u8>, scores: Seq<i32>)
    requires
        ids.len() == scores.len(),
        distinct_ids(ids),
    ensures
        settlement_wins(standings, ids, scores) <==> exists|j: int, i: int|
            0 <= j < standings.len() && 0 <= i < ids.len() && ids[i] == standings[j].player_id
                && #[trigger] standings[j].score + #[trigger] scores[i] >= WIN_SCORE,
{
    if settlement_wins(standings, ids, scores) {
        let j = choose|j: int|
            0 <= j < standings.len() && hand_index(ids, standings[j].player_id) is Some
                && settled_score(standings[j], ids, scores) >= WIN_SCORE;
        let i = hand_index(ids, standings[j].player_id).unwrap();
        assert(0 <= i < ids.len() && ids[i] == standings[j].player_id);
        assert(standings[j].score + scores[i] >= WIN_SCORE);
    }
    if exists|j: int, i: int|
        0 <= j < standings.len() && 0 <= i < ids.len() && ids[i] == standings[j].player_id
            && #[trigger] standings[j].score + #[trigger] scores[i] >= WIN_SCORE {
        let (j, i) = choose|j: int, i: int|
            0 <= j < standings.len() && 0 <= i < ids.len() && ids[i] == standings[j].player_id
                && #[trigger] standings[j].score + #[trigger] scores[i] >= WIN_SCORE;
        assert(exists|k: int| 0 <= k < ids.len() && ids[k] == standings[j].player_id);
        let k = hand_index(ids, standings[j].player_id).unwrap();
        assert(ids[k] == standings[j].player_id);
        if k != i {
            if k < i {
                assert(ids[k] != ids[i]);
            } else {
                assert(ids[i] != ids[k]);
            }
        }
        assert(settled_score(standings[j], ids, scores) >= WIN_SCORE);
    }
}

/// The ids of the bots among `standings`, in order.
pub open spec fn bot_ids(standings: Seq<Standing>) -> Seq<u8>
    decreases standings.len(),
{
    if standings.len() == 0 {
        Seq::empty()
    } else if standings.last().is_bot {
        bot_ids(standings.drop_last()).push(standings.last().player_id)
    } else {
        bot_ids(standings.drop_last())
    }
}

/// Adds a finished hand's scores to the game: each player of the hand (by
/// id, `ids[i]` scoring `scores[i]`) gets the score added to their total;
/// everyone stops being ready but the bots, who are ready again at once; and
/// if any total reached `WIN_SCORE`, the game is won and every total goes
/// back to zero.
pub fn settle_hand(standings: &mut Vec<Standing>, ids: &Vec<u8>, scores: &Vec<i32>) -> (res: HandSettlement)
    requires
        ids@.len() == scores@.len(),
        distinct_ids(ids@),
        distinct_ids(old(standings)@.map_values(|s: Standing| s.player_id)),
        forall|j: int| 0 <= j < old(standings)@.len() ==> i32::MIN <= #[trigger] settled_score(
            old(standings)@[j],
            ids@,
            scores@,
        ) <= i32::MAX,
    ensures
        res.game_won == settlement_wins(old(standings)@, ids@, scores@),
        res.bots_ready@ == bot_ids(old(standings)@),
        final(standings)@.len() == old(standings)@.len(),
        forall|j: int| 0 <= j < old(standings)@.len() ==> #[trigger] final(standings)@[j] == (Standing {
            player_id: old(standings)@[j].player_id,
            score: if res.game_won { 0 } else { settled_score(old(standings)@[j], ids@, scores@) as i32 },
            ready: old(standings)@[j].is_bot,
            is_bot: old(standings)@[j].is_bot,
        }),
{
    let ghost orig = standings@;
    let mut won = false;
    let mut j: usize = 0;
    while j < standings.len()
        invariant
            j <= standings@.len(),
            standings@.len() == orig.len(),
            ids@.len() == scores@.len(),
            distinct_ids(ids@),
            forall|k: int| 0 <= k < orig.len() ==> i32::MIN <= #[trigger] settled_score(orig[k], ids@, scores@) <= i32::MAX,
            forall|k: int| 0 <= k < j ==> #[trigger] standings@[k] == (Standing {
                player_id: orig[k].player_id,
                score: settled_score(orig[k], ids@, scores@) as i32,
                ready: orig[k].is_bot,
                is_bot: orig[k].is_bot,
            }),
            forall|k: int| j <= k < orig.len() ==> #[trigger] standings@[k] == orig[k],
            won == exists|k: int| 0 <= k < j && hand_index(ids@, orig[k].player_id) is Some
                && settled_score(orig[k], ids@, scores@) >= WIN_SCORE,
        decreases orig.len() - j,
    {
        let s = standings[j];
        let mut found = false;
        let mut score = s.score;
        let mut i: usize = 0;
        while i < ids.len()
            invariant
                i <= ids@.len(),
                ids@.len() == scores@.len(),
                distinct_ids(ids@),
                s == orig[j as int],
                i32::MIN <= settled_score(s, ids@, scores@) <= i32::MAX,
                found == exists|k: int| 0 <= k < i && ids@[k] == s.player_id,
                found ==> score == settled_score(s, ids@, scores@),
                !found ==> score == s.score,
            decreases ids@.len() - i,
        {
            if ids[i] == s.player_id && !found {
                proof {
                    assert(exists|k: int| 0 <= k < ids@.len() && ids@[k] == s.player_id);
                    let c = choose|k: int| 0 <= k < ids@.len() && ids@[k] == s.player_id;
                    assert(c == i);
                }
                score = s.score + scores[i];
                found = true;
            }
            i = i + 1;
        }
        proof {
            if !found {
                assert(!exists|k: int| 0 <= k < ids@.len() && ids@[k] == s.player_id);
            } else {
                let w = choose|k: int| 0 <= k < ids@.len() && ids@[k] == s.player_id;
                assert(exists|k: int| 0 <= k < ids@.len() && ids@[k] == s.player_id) by {
                    assert(0 <= w < ids@.len() && ids@[w] == s.player_id);
                }
            }
        }
        if found && score >= WIN_SCORE {
            won = true;
        }
        standings.set(j, Standing { player_id: s.player_id, score, ready: s.is_bot, is_bot: s.is_bot });
        j = j + 1;
    }
    assert(won == settlement_wins(orig, ids@, scores@));
    let mut bots: Vec<u8> = Vec::new();
    let mut k: usize = 0;
    while k < standings.len()
        invariant
            k <= standings@.len(),
            standings@.len() == orig.len(),
            forall|m: int| 0 <= m < orig.len() ==> (#[trigger] standings@[m]).is_bot == orig[m].is_bot
                && standings@[m].player_id == orig[m].player_id
                && standings@[m].ready == orig[m].is_bot,
            forall|m: int| 0 <= m < k ==> #[trigger] standings@[m].score == (if won { 0 } else { settled_score(orig[m], ids@, scores@) as i32 }),
            forall|m: int| k <= m < orig.len() ==> #[trigger] standings@[m].score == settled_score(orig[m], ids@, scores@) as i32,
            won == settlement_wins(orig, ids@, scores@),
            bots@ == bot_ids(orig.take(k as int)),
        decreases orig.len() - k,
    {
        let s = standings[k];
        if won {
            standings.set(k, Standing { score: 0, ..s });
        }
        if s.is_bot {
            bots.push(s.player_id);
        }
        proof {
            assert(orig.take(k + 1).drop_last() =~= orig.take(k as int));
        }
        k = k + 1;
    }
    assert(orig.take(k as int) =~= orig);
    assert forall|j: int| 0 <= j < orig.len() implies #[trigger] standings@[j] == (Standing {
        player_id: orig[j].player_id,
        score: if won { 0 } else { settled_score(orig[j], ids@, scores@) as i32 },
        ready: orig[j].is_bot,
        is_bot: orig[j].is_bot,
    }) by {
        let s = standings@[j];
        assert(s.is_bot == orig[j].is_bot && s.player_id == orig[j].player_id && s.ready == orig[j].is_bot);
        assert(s.score == (if won { 0 } else { settled_score(orig[j], ids@, scores@) as i32 }));
    }
    HandSettlement { game_won: won, bots_ready: bots }
}

/// Where a stalled hand stands: how many checks it has stayed idle for, and
/// whether the players were told it is stalled.
#[derive(Clone, Copy, Debug, PartialEq, Eq, Structural)]
pub struct StallState {
    pub stalled_count: u8,
    pub sent_stall: bool,
}

/// What a periodic idle check asks the server to do.
#[derive(Clone, Copy, Debug, PartialEq, Eq, Structural)]
pub enum StallStep {
    /// Nothing yet.
    Wait,
    /// Tell the players the hand is stalled.
    AnnounceStall,
    /// The stall was announced a check ago: shuffle the stock to get the
    /// hand moving again.
    Reshuffle,
}

/// The state after one periodic idle check.
pub open spec fn stall_next(s: StallState) -> StallState {
    if s.sent_stall {
        StallState { stalled_count: 0, sent_stall: false }
    } else if s.stalled_count + 1 >= STALL_SEND_COUNT {
        StallState { stalled_count: (s.stalled_count + 1) as u8, sent_stall: true }
    } else {
        StallState { stalled_count: (s.stalled_count + 1) as u8, sent_stall: false }
    }
}

/// What one periodic idle check asks for.
pub open spec fn stall_step(s: StallState) -> StallStep {
    if s.sent_stall {
        StallStep::Reshuffle
    } else if s.stalled_count + 1 >= STALL_SEND_COUNT {
        StallStep::AnnounceStall
    } else {
        StallStep::Wait
    }
}

/// One periodic idle check: the count goes up; after a stall was announced
/// the next check reshuffles and starts over; otherwise the stall is
/// announced once the count reaches `STALL_SEND_COUNT`.
pub fn stall_tick(state: &mut StallState) -> (res: StallStep)
    requires
        old(state).stalled_count < 255,
    ensures
        res == stall_step(*old(state)),
        *final(state) == stall_next(*old(state)),
{
    state.stalled_count = state.stalled_count + 1;
    if state.sent_stall {
        state.sent_stall = false;
        state.stalled_count = 0;
        StallStep::Reshuffle
    } else if state.stalled_count >= STALL_SEND_COUNT {
        state.sent_stall = true;
        StallStep::AnnounceStall
    } else {
        StallStep::Wait
    }
}

/// An action by a player shows the hand is not stalled: the count starts
/// over, and returns whether the players must be told the stall is over.
pub fn reset_stall(state: &mut StallState) -> (res: bool)
    ensures
        res == old(state).sent_stall,
        *final(state) == (StallState { stalled_count: 0, sent_stall: false }),
{
    state.stalled_count = 0;
    let was = state.sent_stall;
    state.sent_stall = false;
    was
}

/// The states a hand's stall tracking can be in, starting from a fresh
/// hand: counting up below the limit, or announced at the limit.
pub open spec fn stall_reachable(s: StallState) -> bool {
    if s.sent_stall {
        s.stalled_count == STALL_SEND_COUNT
    } else {
        s.stalled_count < STALL_SEND_COUNT
    }
}

/// The fresh state is reachable, every idle check from a reachable state is
/// defined and leads to a reachable state, and a reset always does: so the
/// counter never overflows.
pub proof fn lemma_stall_states_closed(s: StallState)
    ensures
        stall_reachable(StallState { stalled_count: 0, sent_stall: false }),
        stall_reachable(s) ==> s.stalled_count < 255 && stall_reachable(stall_next(s)),
{
}

/// What a server reports about one of its games.
#[derive(Clone, Copy, Debug, PartialEq, Eq, Structural)]
pub struct GameSummary {
    pub game_id: u32,
    pub public: bool,
    pub player_count: usize,
    pub hand_running: bool,
}

/// The public games with room for more players, as listed to the coordinator.
pub open spec fn open_games(games: Seq<GameSummary>) -> Seq<GameSummary>
    decreases games.len(),
{
    if games.len() == 0 {
        Seq::empty()
    } else if games.last().public && games.last().player_count < MAX_PLAYERS {
        open_games(games.drop_last()).push(games.last())
    } else {
        open_games(games.drop_last())
    }
}

/// The listing of the open public games: id, number of players (as a `u8`),
/// and whether the game waits for its next hand.
pub fn open_public_games(games: &Vec<GameSummary>) -> (res: Vec<PublicGameInfo>)
    ensures
        res@.len() == open_games(games@).len(),
        forall|i: int| 0 <= i < res@.len() ==> {
            let g = open_games(games@)[i];
            &&& (#[trigger] res@[i]).game_id == g.game_id
            &&& res@[i].players == g.player_count as u8
            &&& res@[i].waiting == !g.hand_running
        },
{
    let mut res: Vec<PublicGameInfo> = Vec::new();
    let mut i: usize = 0;
    while i < games.len()
        invariant
            i <= games@.len(),
            res@.len() == open_games(games@.take(i as int)).len(),
            forall|k: int| 0 <= k < res@.len() ==> {
                let g = open_games(games@.take(i as int))[k];
                &&& (#[trigger] res@[k]).game_id == g.game_id
                &&& res@[k].players == g.player_count as u8
                &&& res@[k].waiting == !g.hand_running
            },
        decreases games@.len() - i,
    {
        let g = games[i];
        proof {
            assert(games@.take(i + 1).drop_last() =~= games@.take(i as int));
        }
        if g.public && g.player_count < MAX_PLAYERS {
            res.push(PublicGameInfo { game_id: g.game_id, players: g.player_count as u8, waiting: !g.hand_running });
        }
        i = i + 1;
    }
    assert(games@.take(i as int) =~= games@);
    res
}

/// The totals over a server's games, public and private apart.
pub open spec fn stats_of(games: Seq<GameSummary>) -> (int, int, int, int)
    decreases games.len(),
{
    if games.len() == 0 {
        (0, 0, 0, 0)
    } else {
        let (pg, vg, pp, vp) = stats_of(games.drop_last());
        let g = games.last();
        if g.public {
            (pg + 1, vg, pp + g.player_count, vp)
        } else {
            (pg, vg + 1, pp, vp + g.player_count)
        }
    }
}

proof fn lemma_stats_monotone(games: Seq<GameSummary>, k: int)
    requires
        0 <= k <= games.len(),
    ensures
        stats_of(games.take(k)).0 <= stats_of(games).0,
        stats_of(games.take(k)).1 <= stats_of(games).1,
        stats_of(games.take(k)).2 <= stats_of(games).2,
        stats_of(games.take(k)).3 <= stats_of(games).3,
    decreases games.len() - k,
{
    if k < games.len() {
        lemma_stats_monotone(games, k + 1);
        assert(games.take(k + 1).drop_last() =~= games.take(k));
    } else {
        assert(games.take(k) =~= games);
    }
}

/// Counts a server's public and private games and their players.
pub fn game_stats(games: &Vec<GameSummary>) -> (res: ServerStats)
    requires
        stats_of(games@).0 <= u32::MAX,
        stats_of(games@).1 <= u32::MAX,
        stats_of(games@).2 <= u32::MAX,
        stats_of(games@).3 <= u32::MAX,
    ensures
        res.public_games == stats_of(games@).0,
        res.private_games == stats_of(games@).1,
        res.public_game_players == stats_of(games@).2,
        res.private_game_players == stats_of(games@).3,
{
    let mut acc = ServerStats { public_games: 0, private_games: 0, public_game_players: 0, private_game_players: 0 };
    let mut i: usize = 0;
    while i < games.len()
        invariant
            i <= games@.len(),
            stats_of(games@).0 <= u32::MAX,
            stats_of(games@).1 <= u32::MAX,
            stats_of(games@).2 <= u32::MAX,
            stats_of(games@).3 <= u32::MAX,
            acc.public_games == stats_of(games@.take(i as int)).0,
            acc.private_games == stats_of(games@.take(i as int)).1,
            acc.public_game_players == stats_of(games@.take(i as int)).2,
            acc.private_game_players == stats_of(games@.take(i as int)).3,
        decreases games@.len() - i,
    {
        let g = games[i];
        proof {
            assert(games@.take(i + 1).drop_last() =~= games@.take(i as int));
            lemma_stats_monotone(games@, i + 1);
        }
        if g.public {
            acc.public_games = acc.public_games + 1;
            acc.public_game_players = acc.public_game_players + g.player_count as u32;
        } else {
            acc.private_games = acc.private_games + 1;
            acc.private_game_players = acc.private_game_players + g.player_count as u32;
        }
        i = i + 1;
    }
    assert(games@.take(i as int) =~= games@);
    acc
}

} // verus!
