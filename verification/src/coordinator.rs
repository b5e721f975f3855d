//! Decisions the coordinator takes: which game server hosts a new game, and
//! the totals it reports over all servers; and those of the overseer, which
//! checks the game servers one after another.

use vstd::prelude::*;
use crate::protocol::ServerStats;
use crate::random::choose_multiple;

verus! {

/// How many public games the coordinator lists at most.
pub const PUBLIC_GAME_COUNT: usize = 8;

/// The public games listed to a client: up to `PUBLIC_GAME_COUNT` of all the
/// servers' open public games, picked at random.
pub fn sample_public_games<T>(games: Vec<T>) -> (res: Vec<T>)
    ensures
        res@.len() == if games@.len() < PUBLIC_GAME_COUNT { games@.len() } else { PUBLIC_GAME_COUNT as nat },
        res@.to_multiset().subset_of(games@.to_multiset()),
{
    choose_multiple(games, PUBLIC_GAME_COUNT)
}

/// The overseer's next check: with `count` servers known and the counter at
/// `next`, the server at that position is checked (the first one once the
/// counter has run past the end), and the counter moves on past it; with no
/// servers known, none is checked and the counter goes back to the start.
pub fn ping_slot(count: usize, next: usize) -> (res: (Option<usize>, usize))
    ensures
        ({
            let i = if next >= count { 0 } else { next as int };
            if count == 0 {
                res == (None::<usize>, 0usize)
            } else {
                res.0 == Some(i as usize) && res.1 == i + 1
            }
        }),
{
    let i = if next >= count { 0 } else { next };
    if count < 1 {
        return (None, i);
    }
    (Some(i), i + 1)
}

/// How many of the results are failed checks.
pub open spec fn failed_count(results: Seq<Option<bool>>) -> nat
    decreases results.len(),
{
    if results.len() == 0 {
        0
    } else {
        failed_count(results.drop_last()) + if results.last() == Some(false) {
            1nat
        } else {
            0nat
        }
    }
}

/// The overseer's count of servers whose last check failed (those not
/// checked yet do not count).
pub fn failed_pings(results: &Vec<Option<bool>>) -> (res: usize)
    ensures
        res == failed_count(results@),
{
    let mut n: usize = 0;
    let mut i: usize = 0;
    while i < results.len()
        invariant
            i <= results@.len(),
            n == failed_count(results@.take(i as int)),
            n <= i,
        decreases results@.len() - i,
    {
        proof {
            assert(results@.take(i + 1).drop_last() =~= results@.take(i as int));
        }
        if results[i] == Some(false) {
            n = n + 1;
        }
        i = i + 1;
    }
    assert(results@.take(i as int) =~= results@);
    n
}

/// The protocol version assumed of a client that does not say.
pub fn default_protocol_version() -> (res: u16)
    ensures
        res == 3,
{
    3
}

/// What the coordinator knows of a game server when placing a new game.
#[derive(Clone, Debug)]
pub struct ServerOffer {
    pub server_id: u8,
    pub protocol_version: u16,
    pub min_protocol_version: u16,
    pub region: Option<String>,
}

/// The error of `pick_server_for_new_game`: no server speaks the client's protocol.
#[derive(Clone, Copy, Debug, PartialEq, Eq)]
pub struct NoAvailableServers;

/// A server can host a client announcing `protocol_version` that needs at
/// least `min_protocol_version`.
pub open spec fn compatible(o: ServerOffer, protocol_version: u16, min_protocol_version: u16) -> bool {
    o.min_protocol_version <= protocol_version && o.protocol_version >= min_protocol_version
}

/// The first position of `region` in the priority list, or `usize::MAX`
/// for a server of no listed region.
#[verifier::opaque]
pub open spec fn region_rank(regions: Seq<Seq<char>>, region: Option<Seq<char>>) -> int {
    if exists|i: int| 0 <= i < regions.len() && Some(regions[i]) == region {
        let i = choose|i: int|
            0 <= i < regions.len() && Some(regions[i]) == region && forall|k: int|
                0 <= k < i ==> Some(regions[k]) != region;
        i
    } else {
        usize::MAX as int
    }
}

/// The texts of a list of region names.
pub open spec fn region_texts(regions: Seq<String>) -> Seq<Seq<char>> {
    regions.map_values(|r: String| r@)
}

/// An optional name, as text.
pub open spec fn opt_text(name: Option<String>) -> Option<Seq<char>> {
    match name {
        Some(r) => Some(r@),
        None => None,
    }
}

/// The region of an offer, as text.
pub open spec fn offer_region(o: ServerOffer) -> Option<Seq<char>> {
    opt_text(o.region)
}

/// A server suits a client exactly when the client speaks a protocol at
/// least as new as the server's oldest and the server one at least as new
/// as the client's oldest; so a lone such offer is the one to pick.
pub proof fn lemma_matching_offer_is_picked(offers: Seq<ServerOffer>, regions: Seq<Seq<char>>, protocol_version: u16, min_protocol_version: u16)
    ensures
        forall|o: ServerOffer| #[trigger] compatible(o, protocol_version, min_protocol_version) <==> (
            o.min_protocol_version <= protocol_version && min_protocol_version <= o.protocol_version),
        offers.len() == 1 && offers[0].min_protocol_version <= protocol_version && min_protocol_version
            <= offers[0].protocol_version ==> best_offer(offers, regions, protocol_version, min_protocol_version, 0),
{
}

/// Choosing offer `i` is right: it is compatible, no compatible offer has a
/// better-placed region, and every compatible offer before it has a worse one.
pub open spec fn best_offer(offers: Seq<ServerOffer>, regions: Seq<Seq<char>>, protocol_version: u16, min_protocol_version: u16, i: int) -> bool {
    &&& 0 <= i < offers.len()
    &&& compatible(offers[i], protocol_version, min_protocol_version)
    &&& forall|j: int|
        0 <= j < offers.len() && compatible(offers[j], protocol_version, min_protocol_version) ==> region_rank(
            regions,
            offer_region(offers[i]),
        ) <= region_rank(regions, offer_region(offers[j]))
    &&& forall|j: int|
        0 <= j < i && compatible(offers[j], protocol_version, min_protocol_version) ==> region_rank(
            regions,
            offer_region(offers[i]),
        ) < region_rank(regions, offer_region(offers[j]))
}

/// Finds where `region` stands in the priority list.
fn region_position(regions: &Vec<String>, region: &Option<String>) -> (res: usize)
    ensures
        res == region_rank(region_texts(regions@), opt_text(*region)),
{
    reveal(region_rank);
    let ghost rs = region_texts(regions@);
    let ghost target = opt_text(*region);
    match region {
        None => {
            proof {
                assert(!exists|i: int| 0 <= i < rs.len() && Some(rs[i]) == target);
            }
            usize::MAX
        },
        Some(r) => {
            let mut i: usize = 0;
            while i < regions.len()
                invariant
                    i <= regions@.len(),
                    rs == region_texts(regions@),
                    target == Some(r@),
                    target == opt_text(*region),
                    forall|k: int| 0 <= k < i ==> Some(rs[k]) != target,
                decreases regions@.len() - i,
            {
                if regions[i] == *r {
                    proof {
                        reveal(region_rank);
                        assert(Some(rs[i as int]) == target);
                        let c = choose|c: int|
                            0 <= c < rs.len() && Some(rs[c]) == target && forall|k: int|
                                0 <= k < c ==> Some(rs[k]) != target;
                        assert(0 <= i < rs.len() && Some(rs[i as int]) == target && forall|k: int|
                            0 <= k < i ==> Some(rs[k]) != target);
                        if c < i {
                        } else if c > i {
                        }
                        assert(c == i);
                        assert(exists|j: int| 0 <= j < rs.len() && Some(rs[j]) == target);
                        assert(region_rank(rs, target) == i);
                        assert(opt_text(*region) == target);
                        assert(region_texts(regions@) == rs);
                    }
                    return i;
                }
                i = i + 1;
            }
            proof {
                reveal(region_rank);
                assert(!exists|k: int| 0 <= k < rs.len() && Some(rs[k]) == target);
            }
            usize::MAX
        },
    }
}

/// Places a new game: among the servers that speak the client's protocol,
/// the first one whose region comes earliest in `regions` (servers without a
/// listed region come last).
pub fn pick_server_for_new_game(
    offers: &Vec<ServerOffer>,
    regions: &Vec<String>,
    protocol_version: u16,
    min_protocol_version: u16,
) -> (res: Result<usize, NoAvailableServers>)
    ensures
        res is Err <==> forall|j: int| 0 <= j < offers@.len() ==> !compatible(#[trigger] offers@[j], protocol_version, min_protocol_version),
        res is Err <==> forall|j: int| 0 <= j < offers@.len() ==> !(#[trigger] offers@[j].min_protocol_version <= protocol_version
            && min_protocol_version <= offers@[j].protocol_version),
        res matches Ok(i) ==> i < offers@.len() && offers@[i as int].min_protocol_version <= protocol_version
            && min_protocol_version <= offers@[i as int].protocol_version,
        res matches Ok(i) ==> best_offer(offers@, region_texts(regions@), protocol_version, min_protocol_version, i as int),
{
    let ghost rs = region_texts(regions@);
    let mut best: Option<(usize, usize)> = None;
    let mut i: usize = 0;
    while i < offers.len()
        invariant
            i <= offers@.len(),
            rs == region_texts(regions@),
            best is None <==> forall|j: int| 0 <= j < i ==> !compatible(#[trigger] offers@[j], protocol_version, min_protocol_version),
            best matches Some(b) ==> {
                &&& b.0 < i
                &&& compatible(offers@[b.0 as int], protocol_version, min_protocol_version)
                &&& b.1 == region_rank(rs, offer_region(offers@[b.0 as int]))
                &&& forall|j: int| 0 <= j < i && compatible(offers@[j], protocol_version, min_protocol_version) ==> b.1 <= region_rank(rs, offer_region(offers@[j]))
                &&& forall|j: int| 0 <= j < b.0 && compatible(offers@[j], protocol_version, min_protocol_version) ==> b.1 < region_rank(rs, offer_region(offers@[j]))
            },
        decreases offers@.len() - i,
    {
        let o = &offers[i];
        if o.min_protocol_version <= protocol_version && o.protocol_version >= min_protocol_version {
            let rank = region_position(regions, &o.region);
            match best {
                None => {
                    best = Some((i, rank));
                },
                Some(b) => {
                    if rank < b.1 {
                        best = Some((i, rank));
                    }
                },
            }
        }
        i = i + 1;
    }
    match best {
        None => Err(NoAvailableServers),
        Some(b) => Ok(b.0),
    }
}

/// The totals over all servers' reports.
pub open spec fn stats_total(list: Seq<ServerStats>) -> (int, int, int, int)
    decreases list.len(),
{
    if list.len() == 0 {
        (0, 0, 0, 0)
    } else {
        let (a, b, c, d) = stats_total(list.drop_last());
        let s = list.last();
        (a + s.public_games, b + s.private_games, c + s.public_game_players, d + s.private_game_players)
    }
}

proof fn lemma_stats_total_monotone(list: Seq<ServerStats>, k: int)
    requires
        0 <= k <= list.len(),
    ensures
        stats_total(list.take(k)).0 <= stats_total(list).0,
        stats_total(list.take(k)).1 <= stats_total(list).1,
        stats_total(list.take(k)).2 <= stats_total(list).2,
        stats_total(list.take(k)).3 <= stats_total(list).3,
    decreases list.len() - k,
{
    if k < list.len() {
        lemma_stats_total_monotone(list, k + 1);
        assert(list.take(k + 1).drop_last() =~= list.take(k));
    } else {
        assert(list.take(k) =~= list);
    }
}

/// Adds up the servers' reports, field by field.
pub fn sum_server_stats(list: &Vec<ServerStats>) -> (res: ServerStats)
    requires
        stats_total(list@).0 <= u32::MAX,
        stats_total(list@).1 <= u32::MAX,
        stats_total(list@).2 <= u32::MAX,
        stats_total(list@).3 <= u32::MAX,
    ensures
        res.public_games == stats_total(list@).0,
        res.private_games == stats_total(list@).1,
        res.public_game_players == stats_total(list@).2,
        res.private_game_players == stats_total(list@).3,
{
    let mut acc = ServerStats { public_games: 0, private_games: 0, public_game_players: 0, private_game_players: 0 };
    let mut i: usize = 0;
    while i < list.len()
        invariant
            i <= list@.len(),
            stats_total(list@).0 <= u32::MAX,
            stats_total(list@).1 <= u32::MAX,
            stats_total(list@).2 <= u32::MAX,
            stats_total(list@).3 <= u32::MAX,
            acc.public_games == stats_total(list@.take(i as int)).0,
            acc.private_games == stats_total(list@.take(i as int)).1,
            acc.public_game_players == stats_total(list@.take(i as int)).2,
            acc.private_game_players == stats_total(list@.take(i as int)).3,
        decreases list@.len() - i,
    {
        let s = list[i];
        proof {
            assert(list@.take(i + 1).drop_last() =~= list@.take(i as int));
            lemma_stats_total_monotone(list@, i + 1);
        }
        acc.public_games = acc.public_games + s.public_games;
        acc.private_games = acc.private_games + s.private_games;
        acc.public_game_players = acc.public_game_players + s.public_game_players;
        acc.private_game_players = acc.private_game_players + s.private_game_players;
        i = i + 1;
    }
    assert(list@.take(i as int) =~= list@);
    acc
}

} // verus!
