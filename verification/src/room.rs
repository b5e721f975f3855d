//! Who is in a game on a server, who leads it, and what joining, getting
//! ready, leaving and kicking lead to.

use vstd::prelude::*;
use crate::server::{Standing, distinct_ids};
use crate::bot::{first_index, lemma_first_index, lemma_first_index_extend};

verus! {

/// The players of a game as a server keeps them, in the order they joined;
/// the master player, who may start a hand early, add bots and kick players;
/// and whether a hand is running.
pub struct Room {
    pub standings: Vec<Standing>,
    pub master: Option<u8>,
    pub hand_running: bool,
}

/// The ids of `ss`, in order.
pub open spec fn standing_ids(ss: Seq<Standing>) -> Seq<u8> {
    ss.map_values(|s: Standing| s.player_id)
}

/// Standing `k` of `ss` is player `id`'s.
pub open spec fn is_player(ss: Seq<Standing>, id: u8) -> spec_fn(int) -> bool {
    |k: int| ss[k].player_id == id
}

/// Where player `id` stands in `ss`, if there.
pub open spec fn find_player(ss: Seq<Standing>, id: u8) -> Option<int> {
    first_index(ss.len() as int, is_player(ss, id))
}

/// Every player is ready, and there is at least one.
pub open spec fn all_ready(ss: Seq<Standing>) -> bool {
    ss.len() > 0 && forall|i: int| 0 <= i < ss.len() ==> (#[trigger] ss[i]).ready
}

/// What a change of readiness leads to.
#[derive(Clone, Copy, Debug, PartialEq, Eq, Structural)]
pub struct ReadyOutcome {
    /// The others are told the player's new readiness.
    pub announce: bool,
    /// A hand starts.
    pub start_hand: bool,
}

/// What a player leaving leads to.
#[derive(Clone, Copy, Debug, PartialEq, Eq, Structural)]
pub struct LeaveOutcome {
    /// The master left and this player leads the game now.
    pub new_master: Option<u8>,
    /// A hand starts, everyone left being ready.
    pub start_hand: bool,
}

/// What a request to kick a player leads to.
#[derive(Clone, Copy, Debug, PartialEq, Eq, Structural)]
pub enum KickOutcome {
    /// Not the master's request, or no such player: nothing happens.
    Ignored,
    /// A connected player: their connection is closed (they then leave).
    Disconnect,
    /// A bot: it was removed, and the others are told it left.
    BotRemoved,
}

impl Room {
    /// No two standings share a player, and the master, if any, is one of them.
    pub open spec fn wf(self) -> bool {
        &&& distinct_ids(standing_ids(self.standings@))
        &&& match self.master {
            Some(m) => find_player(self.standings@, m) is Some,
            None => true,
        }
    }

    /// A room with nobody in it.
    pub fn new() -> (res: Room)
        ensures
            res.standings@ == Seq::<Standing>::empty(),
            res.master is None,
            !res.hand_running,
            res.wf(),
    {
        Room { standings: Vec::new(), master: None, hand_running: false }
    }

    /// Where player `id` stands, if in the room.
    pub fn position(&self, id: u8) -> (res: Option<usize>)
        ensures
            match res {
                Some(i) => {
                    &&& find_player(self.standings@, id) == Some(i as int)
                    &&& i < self.standings@.len()
                    &&& self.standings@[i as int].player_id == id
                },
                None => find_player(self.standings@, id) is None,
            },
    {
        let ghost f = is_player(self.standings@, id);
        let mut k: usize = 0;
        while k < self.standings.len()
            invariant
                k <= self.standings@.len(),
                f == is_player(self.standings@, id),
                first_index(k as int, f) is None,
            decreases self.standings@.len() - k,
        {
            if self.standings[k].player_id == id {
                proof {
                    assert(f(k as int));
                    assert(first_index(k + 1, f) == Some(k as int));
                    lemma_first_index_extend(k + 1, self.standings@.len() as int, f);
                }
                return Some(k);
            }
            assert(!f(k as int));
            k = k + 1;
        }
        None
    }

    /// Whether everybody is ready (and there is somebody).
    fn everyone_ready(&self) -> (res: bool)
        ensures
            res == all_ready(self.standings@),
    {
        if self.standings.len() == 0 {
            return false;
        }
        let mut i: usize = 0;
        while i < self.standings.len()
            invariant
                i <= self.standings@.len(),
                forall|j: int| 0 <= j < i ==> (#[trigger] self.standings@[j]).ready,
            decreases self.standings@.len() - i,
        {
            if !self.standings[i].ready {
                return false;
            }
            i = i + 1;
        }
        true
    }

    /// A player joins: connected players start not ready, bots ready, both
    /// with no points; the first connected player to join an empty-led room
    /// leads it.
    pub fn join(&mut self, id: u8, is_bot: bool)
        requires
            old(self).wf(),
            find_player(old(self).standings@, id) is None,
        ensures
            final(self).wf(),
            final(self).standings@ == old(self).standings@.push(Standing { player_id: id, score: 0, ready: is_bot, is_bot }),
            final(self).master == if old(self).master is None && !is_bot {
                Some(id)
            } else {
                old(self).master
            },
            final(self).hand_running == old(self).hand_running,
    {
        let ghost before = self.standings@;
        self.standings.push(Standing { player_id: id, score: 0, ready: is_bot, is_bot });
        proof {
            let ss = self.standings@;
            lemma_first_index(before.len() as int, is_player(before, id));
            assert forall|i: int, j: int| 0 <= i < j < ss.len() implies standing_ids(ss)[i] != standing_ids(ss)[j] by {
                if j < before.len() {
                    assert(standing_ids(before)[i] == standing_ids(ss)[i]);
                    assert(standing_ids(before)[j] == standing_ids(ss)[j]);
                } else {
                    assert(!is_player(before, id)(i));
                }
            }
            lemma_find_extend(before, Standing { player_id: id, score: 0, ready: is_bot, is_bot });
        }
        if self.master.is_none() && !is_bot {
            self.master = Some(id);
            proof {
                let f = is_player(self.standings@, id);
                let n = before.len() as int;
                lemma_first_index(n, is_player(before, id));
                assert forall|k: int| 0 <= k < n implies !#[trigger] f(k) by {
                    assert(self.standings@[k] == before[k]);
                    assert(!is_player(before, id)(k));
                }
                assert(f(n));
                lemma_first_index_none_then(n, f);
            }
        }
    }

    /// A player marks themself ready or not. Between hands the readiness is
    /// set, the others are told if it changed, and a hand starts once
    /// everybody is ready; during a hand nothing happens.
    pub fn update_ready(&mut self, id: u8, value: bool) -> (res: ReadyOutcome)
        requires
            old(self).wf(),
            !old(self).hand_running ==> find_player(old(self).standings@, id) is Some,
        ensures
            final(self).wf(),
            final(self).master == old(self).master,
            final(self).hand_running == old(self).hand_running,
            ({
                let k = find_player(old(self).standings@, id).unwrap();
                let s = old(self).standings@[k];
                if old(self).hand_running {
                    &&& final(self).standings@ == old(self).standings@
                    &&& res == (ReadyOutcome { announce: false, start_hand: false })
                } else {
                    &&& final(self).standings@ == old(self).standings@.update(k, Standing { ready: value, ..s })
                    &&& res.announce == (s.ready != value)
                    &&& res.start_hand == all_ready(final(self).standings@)
                }
            }),
    {
        if self.hand_running {
            return ReadyOutcome { announce: false, start_hand: false };
        }
        let k = self.position(id).unwrap();
        let s = self.standings[k];
        let ghost before = self.standings@;
        self.standings.set(k, Standing { ready: value, ..s });
        proof {
            assert(standing_ids(self.standings@) =~= standing_ids(before));
            lemma_find_same_ids(before, self.standings@);
        }
        let start = self.everyone_ready();
        ReadyOutcome { announce: s.ready != value, start_hand: start }
    }

    /// Whether the room can be closed: nobody connected is left in it, only
    /// bots (or nobody at all).
    pub fn abandoned(&self) -> (res: bool)
        ensures
            res == forall|i: int| 0 <= i < self.standings@.len() ==> (#[trigger] self.standings@[i]).is_bot,
    {
        let mut i: usize = 0;
        while i < self.standings.len()
            invariant
                i <= self.standings@.len(),
                forall|j: int| 0 <= j < i ==> (#[trigger] self.standings@[j]).is_bot,
            decreases self.standings@.len() - i,
        {
            if !self.standings[i].is_bot {
                return false;
            }
            i = i + 1;
        }
        true
    }

    /// Whether player `id` may start a hand before everyone is ready: the
    /// master, between hands, with somebody in the room.
    pub fn may_force_start(&self, id: u8) -> (res: bool)
        ensures
            res == (self.master == Some(id) && !self.hand_running && self.standings@.len() > 0),
    {
        self.master == Some(id) && !self.hand_running && self.standings.len() > 0
    }

    /// Whether player `id` leads the game, and so may add bots and kick.
    pub fn is_master(&self, id: u8) -> (res: bool)
        ensures
            res == (self.master == Some(id)),
    {
        self.master == Some(id)
    }

    /// Player `by` asks to kick player `target`: only the master may; a bot
    /// is removed at once, a connected player is disconnected.
    pub fn kick(&mut self, by: u8, target: u8) -> (res: KickOutcome)
        requires
            old(self).wf(),
        ensures
            final(self).master == old(self).master,
            final(self).hand_running == old(self).hand_running,
            old(self).master != Some(target) ==> final(self).wf(),
            match find_player(old(self).standings@, target) {
                Some(k) => if old(self).master == Some(by) {
                    if old(self).standings@[k].is_bot {
                        &&& res == KickOutcome::BotRemoved
                        &&& final(self).standings@ == old(self).standings@.remove(k)
                    } else {
                        &&& res == KickOutcome::Disconnect
                        &&& final(self).standings@ == old(self).standings@
                    }
                } else {
                    &&& res == KickOutcome::Ignored
                    &&& final(self).standings@ == old(self).standings@
                },
                None => res == KickOutcome::Ignored && final(self).standings@ == old(self).standings@,
            },
    {
        if self.master != Some(by) {
            return KickOutcome::Ignored;
        }
        match self.position(target) {
            None => KickOutcome::Ignored,
            Some(k) => {
                if self.standings[k].is_bot {
                    let ghost before = self.standings@;
                    self.standings.remove(k);
                    proof {
                        lemma_remove_keeps_distinct(before, k as int);
                        match self.master {
                            Some(m) => {
                                if m != target {
                                    lemma_find_after_remove(before, target, m);
                                }
                            },
                            None => {},
                        }
                    }
                    KickOutcome::BotRemoved
                } else {
                    KickOutcome::Disconnect
                }
            },
        }
    }

    /// Player `id` leaves. If they led the game, the first player left (if
    /// any) leads it now; then a hand starts if none is running and everyone
    /// left is ready.
    pub fn leave(&mut self, id: u8) -> (res: LeaveOutcome)
        requires
            old(self).wf(),
        ensures
            final(self).wf(),
            final(self).hand_running == old(self).hand_running,
            final(self).standings@ == match find_player(old(self).standings@, id) {
                Some(k) => old(self).standings@.remove(k),
                None => old(self).standings@,
            },
            old(self).master == Some(id) ==> {
                &&& final(self).master == if final(self).standings@.len() > 0 {
                    Some(final(self).standings@[0].player_id)
                } else {
                    None
                }
                &&& res.new_master == final(self).master
            },
            old(self).master != Some(id) ==> final(self).master == old(self).master && res.new_master is None,
            res.start_hand == (!old(self).hand_running && all_ready(final(self).standings@)),
    {
        let ghost before = self.standings@;
        match self.position(id) {
            Some(k) => {
                self.standings.remove(k);
                proof {
                    lemma_remove_keeps_distinct(before, k as int);
                }
            },
            None => {},
        }
        let mut new_master: Option<u8> = None;
        if self.master == Some(id) {
            if self.standings.len() > 0 {
                let m = self.standings[0].player_id;
                self.master = Some(m);
                new_master = Some(m);
                proof {
                    let f = is_player(self.standings@, m);
                    assert(f(0));
                    assert(first_index(0, f) is None);
                    assert(first_index(1, f) == Some(0int));
                    lemma_first_index_extend(1, self.standings@.len() as int, f);
                }
            } else {
                self.master = None;
            }
        } else {
            proof {
                match self.master {
                    Some(m) => {
                        lemma_find_after_remove(before, id, m);
                    },
                    None => {},
                }
            }
        }
        let start = !self.hand_running && self.everyone_ready();
        LeaveOutcome { new_master, start_hand: start }
    }
}

/// Once nothing before `n` satisfies `f` and `n` does, `n` is the first index
/// below any larger bound.
proof fn lemma_first_index_none_then(n: int, f: spec_fn(int) -> bool)
    requires
        0 <= n,
        forall|k: int| 0 <= k < n ==> !#[trigger] f(k),
        f(n),
    ensures
        forall|m: int| m > n ==> first_index(m, f) == Some(n),
{
    lemma_first_index_none_below(n, f);
    assert(first_index(n + 1, f) == Some(n));
    assert forall|m: int| m > n implies first_index(m, f) == Some(n) by {
        lemma_first_index_extend(n + 1, m, f);
    }
}

/// Nothing below `n` satisfies `f`: no first index below `n`.
proof fn lemma_first_index_none_below(n: int, f: spec_fn(int) -> bool)
    requires
        forall|k: int| 0 <= k < n ==> !#[trigger] f(k),
    ensures
        first_index(n, f) is None,
    decreases n,
{
    if n > 0 {
        lemma_first_index_none_below(n - 1, f);
    }
}

/// A player found before a push is found at the same place after it.
proof fn lemma_find_extend(ss: Seq<Standing>, s: Standing)
    ensures
        forall|id: u8| #[trigger] find_player(ss, id) is Some ==> find_player(ss.push(s), id) == find_player(ss, id),
{
    assert forall|id: u8| #[trigger] find_player(ss, id) is Some implies find_player(ss.push(s), id) == find_player(ss, id) by {
        let f = is_player(ss, id);
        let g = is_player(ss.push(s), id);
        lemma_first_index(ss.len() as int, f);
        let i = find_player(ss, id).unwrap();
        assert forall|k: int| 0 <= k < i implies !#[trigger] g(k) by {
            assert(ss.push(s)[k] == ss[k]);
            assert(!f(k));
        }
        assert(g(i));
        lemma_first_index_none_then(i, g);
    }
}

/// Two rooms whose standings have the same ids find every player in the
/// same place.
proof fn lemma_find_same_ids(a: Seq<Standing>, b: Seq<Standing>)
    requires
        standing_ids(a) == standing_ids(b),
    ensures
        forall|id: u8| #[trigger] find_player(b, id) == find_player(a, id),
{
    assert forall|id: u8| #[trigger] find_player(b, id) == find_player(a, id) by {
        let f = is_player(a, id);
        let g = is_player(b, id);
        assert(a.len() == standing_ids(a).len());
        assert(standing_ids(a).len() == standing_ids(b).len());
        assert(b.len() == standing_ids(b).len());
        assert forall|k: int| 0 <= k < a.len() implies #[trigger] f(k) == g(k) by {
            assert(standing_ids(a)[k] == standing_ids(b)[k]);
            assert(standing_ids(a)[k] == a[k].player_id);
            assert(standing_ids(b)[k] == b[k].player_id);
        }
        lemma_first_index_same(a.len() as int, f, g);
    }
}

/// Two tests that agree below `n` have the same first index below `n`.
proof fn lemma_first_index_same(n: int, f: spec_fn(int) -> bool, g: spec_fn(int) -> bool)
    requires
        forall|k: int| 0 <= k < n ==> #[trigger] f(k) == g(k),
    ensures
        first_index(n, f) == first_index(n, g),
    decreases n,
{
    if n > 0 {
        lemma_first_index_same(n - 1, f, g);
    }
}

/// Removing a standing keeps the ids distinct.
proof fn lemma_remove_keeps_distinct(ss: Seq<Standing>, k: int)
    requires
        distinct_ids(standing_ids(ss)),
        0 <= k < ss.len(),
    ensures
        distinct_ids(standing_ids(ss.remove(k))),
{
    let r = ss.remove(k);
    assert forall|i: int, j: int| 0 <= i < j < r.len() implies standing_ids(r)[i] != standing_ids(r)[j] by {
        let i2 = if i < k { i } else { i + 1 };
        let j2 = if j < k { j } else { j + 1 };
        assert(r[i] == ss[i2]);
        assert(r[j] == ss[j2]);
        assert(standing_ids(ss)[i2] != standing_ids(ss)[j2]);
    }
}

/// With distinct ids, a player other than the one removed is still found.
proof fn lemma_find_after_remove(ss: Seq<Standing>, gone: u8, m: u8)
    requires
        distinct_ids(standing_ids(ss)),
        find_player(ss, m) is Some,
        m != gone,
    ensures
        find_player(
            match find_player(ss, gone) {
                Some(k) => ss.remove(k),
                None => ss,
            },
            m,
        ) is Some,
{
    let f = is_player(ss, m);
    lemma_first_index(ss.len() as int, f);
    let i = find_player(ss, m).unwrap();
    match find_player(ss, gone) {
        Some(k) => {
            lemma_first_index(ss.len() as int, is_player(ss, gone));
            let r = ss.remove(k);
            let j = if i < k { i } else { i - 1 };
            assert(i != k);
            assert(r[j] == ss[i]);
            let g = is_player(r, m);
            assert(g(j));
            lemma_first_index(r.len() as int, g);
            if first_index(r.len() as int, g) is None {
                assert(!g(j));
            }
        },
        None => {},
    }
}

} // verus!
