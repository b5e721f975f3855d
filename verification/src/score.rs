//! Scoring a finished hand: each card a player got into the lake earns a
//! point, each card left in the player's nerts pile costs two.

use vstd::prelude::*;
use crate::cards::CardInstance;
use crate::stack::StackModel;
use crate::hand::{HandAction, HandModel, HandState};
use crate::laws::{extends, lemma_lake_only_grows, lemma_nerts_only_shrinks};

verus! {

/// How many of `cards` belong to `owner`.
pub open spec fn owned_count(cards: Seq<CardInstance>, owner: int) -> int
    decreases cards.len(),
{
    if cards.len() == 0 {
        0
    } else {
        owned_count(cards.drop_last(), owner) + if cards.last().owner_id == owner {
            1int
        } else {
            0int
        }
    }
}

/// How many cards of a sequence of stacks belong to `owner`.
pub open spec fn owned_in_stacks(ss: Seq<StackModel>, owner: int) -> int
    decreases ss.len(),
{
    if ss.len() == 0 {
        0
    } else {
        owned_in_stacks(ss.drop_last(), owner) + owned_count(ss.last().cards, owner)
    }
}

/// How many cards a sequence of stacks holds.
pub open spec fn total_cards(ss: Seq<StackModel>) -> int
    decreases ss.len(),
{
    if ss.len() == 0 {
        0
    } else {
        total_cards(ss.drop_last()) + ss.last().cards.len()
    }
}

/// The score player `i` of a hand earns: one point per lake card of theirs,
/// minus two per card left in their nerts pile.
pub open spec fn hand_score(h: HandModel, i: int) -> int {
    owned_in_stacks(h.lakes, i) - 2 * h.players[i].nerts.cards.len()
}

/// Every lake card belongs to a player of the hand.
pub open spec fn lake_owners_in_range(h: HandModel) -> bool {
    forall|s: int, c: int|
        0 <= s < h.lakes.len() && 0 <= c < h.lakes[s].cards.len() ==> (
        #[trigger] h.lakes[s].cards[c]).owner_id < h.players.len()
}

/// The card counts stay small enough for the scores to be computed in `i32`.
pub open spec fn scores_fit(h: HandModel) -> bool {
    &&& total_cards(h.lakes) <= 0x3fff_ffff
    &&& forall|i: int| 0 <= i < h.players.len() ==> (#[trigger] h.players[i]).nerts.cards.len() <= 0x3fff_ffff
}

proof fn lemma_owned_count_bounds(cards: Seq<CardInstance>, owner: int)
    ensures
        0 <= owned_count(cards, owner) <= cards.len(),
    decreases cards.len(),
{
    if cards.len() > 0 {
        lemma_owned_count_bounds(cards.drop_last(), owner);
    }
}

proof fn lemma_owned_in_stacks_bounds(ss: Seq<StackModel>, owner: int)
    ensures
        0 <= owned_in_stacks(ss, owner) <= total_cards(ss),
        0 <= total_cards(ss),
    decreases ss.len(),
{
    if ss.len() > 0 {
        lemma_owned_in_stacks_bounds(ss.drop_last(), owner);
        lemma_owned_count_bounds(ss.last().cards, owner);
    }
}

proof fn lemma_total_cards_take(ss: Seq<StackModel>, k: int)
    requires
        0 <= k <= ss.len(),
    ensures
        total_cards(ss.take(k)) <= total_cards(ss),
    decreases ss.len() - k,
{
    if k < ss.len() {
        lemma_total_cards_take(ss, k + 1);
        assert(ss.take(k + 1).drop_last() =~= ss.take(k));
    } else {
        assert(ss.take(k) =~= ss);
    }
}

/// The scores of a finished hand, by player index.
pub fn hand_scores(hand: &HandState) -> (res: Vec<i32>)
    requires
        lake_owners_in_range(hand@),
        scores_fit(hand@),
    ensures
        res@.len() == hand@.players.len(),
        forall|i: int| 0 <= i < res@.len() ==> #[trigger] res@[i] == hand_score(hand@, i),
{
    let ghost h = hand@;
    let players = hand.players();
    let mut scores: Vec<i32> = Vec::new();
    let mut i: usize = 0;
    while i < players.len()
        invariant
            i <= players@.len(),
            players@.map_values(|p: crate::player::HandPlayerState| p@) == h.players,
            scores_fit(h),
            scores@.len() == i,
            forall|j: int| 0 <= j < i ==> #[trigger] scores@[j] == -2 * h.players[j].nerts.cards.len(),
        decreases players@.len() - i,
    {
        assert(players@[i as int]@ == h.players[i as int]);
        assert(h.players[i as int].nerts.cards.len() <= 0x3fff_ffff);
        let n = players[i].nerts_stack().len();
        assert(n == h.players[i as int].nerts.cards.len());
        let n32 = n as i32;
        assert(n32 == n);
        assert(0 <= n32 <= 0x3fff_ffff);
        scores.push(0 - n32 - n32);
        i = i + 1;
    }
    let lakes = hand.lake_stacks();
    let mut si: usize = 0;
    while si < lakes.len()
        invariant
            si <= lakes@.len(),
            lakes@.map_values(|s: crate::stack::Stack| s@) == h.lakes,
            lake_owners_in_range(h),
            scores_fit(h),
            scores@.len() == h.players.len(),
            forall|j: int| 0 <= j < scores@.len() ==> #[trigger] scores@[j] == owned_in_stacks(h.lakes.take(si as int), j) - 2 * h.players[j].nerts.cards.len(),
        decreases lakes@.len() - si,
    {
        let cards = lakes[si].cards();
        assert(cards@ == h.lakes[si as int].cards);
        let mut ci: usize = 0;
        while ci < cards.len()
            invariant
                si < lakes@.len(),
                lakes@.map_values(|s: crate::stack::Stack| s@) == h.lakes,
                ci <= cards@.len(),
                cards@ == h.lakes[si as int].cards,
                lake_owners_in_range(h),
                scores_fit(h),
                scores@.len() == h.players.len(),
                forall|j: int| 0 <= j < scores@.len() ==> #[trigger] scores@[j] == owned_in_stacks(h.lakes.take(si as int), j) + owned_count(cards@.take(ci as int), j) - 2 * h.players[j].nerts.cards.len(),
            decreases cards@.len() - ci,
        {
            let o = cards[ci].owner_id as usize;
            assert(h.lakes[si as int].cards[ci as int].owner_id < h.players.len());
            proof {
                lemma_owned_in_stacks_bounds(h.lakes.take(si as int), o as int);
                lemma_owned_count_bounds(cards@.take(ci as int), o as int);
                lemma_total_cards_take(h.lakes, si + 1);
                assert(h.lakes.take(si + 1).drop_last() =~= h.lakes.take(si as int));
                assert(cards@.take(ci as int).len() == ci);
            }
            let v = scores[o];
            scores.set(o, v + 1);
            proof {
                assert forall|j: int| 0 <= j < scores@.len() implies #[trigger] scores@[j] == owned_in_stacks(h.lakes.take(si as int), j) + owned_count(cards@.take(ci + 1), j) - 2 * h.players[j].nerts.cards.len() by {
                    assert(cards@.take(ci + 1).drop_last() =~= cards@.take(ci as int));
                }
            }
            ci = ci + 1;
        }
        proof {
            assert(cards@.take(ci as int) =~= cards@);
            assert forall|j: int| 0 <= j < scores@.len() implies #[trigger] scores@[j] == owned_in_stacks(h.lakes.take(si + 1), j) - 2 * h.players[j].nerts.cards.len() by {
                assert(h.lakes.take(si + 1).drop_last() =~= h.lakes.take(si as int));
            }
        }
        si = si + 1;
    }
    assert(h.lakes.take(si as int) =~= h.lakes);
    scores
}

proof fn lemma_owned_count_prefix(cards: Seq<CardInstance>, k: int, owner: int)
    requires
        0 <= k <= cards.len(),
    ensures
        owned_count(cards.take(k), owner) <= owned_count(cards, owner),
    decreases cards.len() - k,
{
    if k < cards.len() {
        lemma_owned_count_prefix(cards, k + 1, owner);
        assert(cards.take(k + 1).drop_last() =~= cards.take(k));
    } else {
        assert(cards.take(k) =~= cards);
    }
}

proof fn lemma_owned_in_stacks_grow(a: Seq<StackModel>, b: Seq<StackModel>, owner: int)
    requires
        a.len() == b.len(),
        forall|i: int| 0 <= i < a.len() ==> extends(#[trigger] a[i], b[i]),
    ensures
        owned_in_stacks(b, owner) <= owned_in_stacks(a, owner),
    decreases a.len(),
{
    if a.len() > 0 {
        assert forall|i: int| 0 <= i < a.drop_last().len() implies extends(#[trigger] a.drop_last()[i], b.drop_last()[i]) by {
            assert(extends(a[i], b[i]));
        }
        lemma_owned_in_stacks_grow(a.drop_last(), b.drop_last(), owner);
        let x = a.last().cards;
        let y = b.last().cards;
        assert(extends(a[a.len() - 1], b[b.len() - 1]));
        assert(x.take(y.len() as int) =~= y);
        lemma_owned_count_prefix(x, y.len() as int, owner);
    }
}

/// No action lowers any player's score: the lake only gains cards, and a
/// nerts pile only loses them.
pub proof fn lemma_scores_never_drop(h: HandModel, player: u8, action: HandAction)
    requires
        h.apply_defined(player, action),
        h.apply_outcome(player, action) is Some,
    ensures
        forall|q: int|
            0 <= q < h.players.len() ==> hand_score(h, q) <= #[trigger] hand_score(
                h.apply_outcome(player, action).unwrap(),
                q,
            ),
{
    let m = h.apply_outcome(player, action).unwrap();
    lemma_lake_only_grows(h, player, action);
    lemma_nerts_only_shrinks(h, player, action);
    assert forall|q: int| 0 <= q < h.players.len() implies hand_score(h, q) <= #[trigger] hand_score(m, q) by {
        lemma_owned_in_stacks_grow(m.lakes, h.lakes, q);
        assert(extends(h.players[q].nerts, m.players[q].nerts));
    }
}

} // verus!
