//! How a computer player decides what to do next in a hand.
//!
//! The bot calls nerts once its nerts pile is gone. Otherwise it looks at
//! its stacks in turn (the nerts pile, each tableau stack, then the waste)
//! and plays the top card of the last of them that has a lake stack to go
//! on (on the lake stack it likes best); where none has, it makes the move
//! onto its tableau of the first of them that has one: a whole tableau stack
//! onto a tableau stack that builds on its bottom card, or the nerts card
//! onto one that builds on it (else onto an empty one). Failing all that, it
//! moves the waste card onto a tableau stack where it helps, and otherwise
//! turns over the stock, or puts the waste back. Which lake stack it likes
//! best depends on where the stacks lie on screen, so that preference is
//! handed in as a list of lake stack indices.

use vstd::prelude::*;
use crate::cards::{CardInstance, group_rank};
use crate::stack::{Stack, StackModel, StackOrder, order_allows, lemma_any_accepts_all};
use crate::player::{PlayerModel, PlayerStackLocation};
use crate::hand::{HandAction, HandModel, HandState, StackLocation, top_cards};

verus! {

broadcast use group_rank;

/// What a bot sets out to do next.
#[derive(Clone, Copy, Debug, PartialEq, Eq, Structural)]
pub enum BotPlan {
    CallNerts,
    Action(HandAction),
}

/// The first index below `n` at which `f` holds.
pub open spec fn first_index(n: int, f: spec_fn(int) -> bool) -> Option<int>
    decreases n,
{
    if n <= 0 {
        None
    } else {
        match first_index(n - 1, f) {
            Some(i) => Some(i),
            None => if f(n - 1) {
                Some(n - 1)
            } else {
                None
            },
        }
    }
}

/// `first_index` finds the least index at which `f` holds.
pub proof fn lemma_first_index(n: int, f: spec_fn(int) -> bool)
    ensures
        match first_index(n, f) {
            Some(i) => 0 <= i < n && f(i) && forall|k: int| 0 <= k < i ==> !#[trigger] f(k),
            None => forall|k: int| 0 <= k < n ==> !#[trigger] f(k),
        },
    decreases n,
{
    if n > 0 {
        lemma_first_index(n - 1, f);
    }
}

/// Once found below `m`, the first index stays the same below any larger bound.
pub proof fn lemma_first_index_extend(m: int, n: int, f: spec_fn(int) -> bool)
    requires
        m <= n,
        first_index(m, f) is Some,
    ensures
        first_index(n, f) == first_index(m, f),
    decreases n - m,
{
    if m < n {
        lemma_first_index_extend(m, n - 1, f);
    }
}

/// Lake stack `order[k]` exists and takes `card`.
pub open spec fn lake_takes(lakes: Seq<StackModel>, order: Seq<u16>, card: CardInstance) -> spec_fn(int) -> bool {
    |k: int| (order[k] as int) < lakes.len() && lakes[order[k] as int].accepts(card)
}

/// The lake stack the bot puts `card` on: the first one in its order of
/// preference that takes the card.
pub open spec fn preferred_lake(lakes: Seq<StackModel>, order: Seq<u16>, card: CardInstance) -> Option<u16> {
    match first_index(order.len() as int, lake_takes(lakes, order, card)) {
        Some(k) => Some(order[k]),
        None => None,
    }
}

/// Tableau stack `i` takes `card` (and, if `built` is set, already holds cards).
pub open spec fn tableau_takes(t: Seq<StackModel>, card: CardInstance, built: bool) -> spec_fn(int) -> bool {
    |i: int| t[i].accepts(card) && (built ==> t[i].cards.len() > 0)
}

/// Tableau stack `i` takes `card`, and its rule would let `target` follow.
pub open spec fn tableau_leads_to(t: Seq<StackModel>, card: CardInstance, target: CardInstance) -> spec_fn(int) -> bool {
    |i: int| t[i].accepts(card) && order_allows(t[i].order, card.card, target.card)
}

/// Tableau stack `i` takes `card`, and its rule would let the bottom card of
/// some tableau stack follow.
pub open spec fn tableau_joins(t: Seq<StackModel>, card: CardInstance) -> spec_fn(int) -> bool {
    |i: int| t[i].accepts(card) && exists|j: int|
        0 <= j < t.len() && t[j].cards.len() > 0 && #[trigger] order_allows(t[i].order, card.card, t[j].cards[0].card)
}

/// A move of `count` cards from the bot's stack `src` to `to`.
pub open spec fn bot_move(idx: int, src: PlayerStackLocation, count: u8, to: StackLocation) -> HandAction {
    HandAction::Move { from: StackLocation::Player(idx as u8, src), count, to }
}

/// The bot's tableau stack `i`, as a location in the hand.
pub open spec fn own_tableau(idx: int, i: int) -> StackLocation {
    StackLocation::Player(idx as u8, PlayerStackLocation::Tableau(i as u8))
}

/// The bot's play from its stack `src` onto the lake, if any: the top card
/// onto the preferred lake stack that takes it.
pub open spec fn lake_move_from(h: HandModel, idx: int, order: Seq<u16>, src: PlayerStackLocation) -> Option<HandAction> {
    let stack = h.players[idx].stack(src).unwrap();
    if stack.cards.len() == 0 {
        None
    } else {
        match preferred_lake(h.lakes, order, stack.cards.last()) {
            Some(l) => Some(bot_move(idx, src, 1, StackLocation::Lake(l))),
            None => None,
        }
    }
}

/// The bot's move from its stack `src` onto its tableau, if any: a whole
/// tableau stack onto the first tableau stack that holds cards and takes its
/// bottom card; the nerts card onto the first tableau stack that holds cards
/// and takes it, else the first that takes it. Nothing from the waste.
pub open spec fn tableau_move_from(h: HandModel, idx: int, src: PlayerStackLocation) -> Option<HandAction> {
    let p = h.players[idx];
    let stack = p.stack(src).unwrap();
    if stack.cards.len() == 0 {
        None
    } else {
        let card = stack.cards.last();
        match src {
            PlayerStackLocation::Tableau(_) => match first_index(
                p.tableau.len() as int,
                tableau_takes(p.tableau, stack.cards[0], true),
            ) {
                Some(i) => Some(bot_move(idx, src, stack.cards.len() as u8, own_tableau(idx, i))),
                None => None,
            },
            PlayerStackLocation::Nerts => match first_index(
                p.tableau.len() as int,
                tableau_takes(p.tableau, card, true),
            ) {
                Some(i) => Some(bot_move(idx, src, 1, own_tableau(idx, i))),
                None => match first_index(p.tableau.len() as int, tableau_takes(p.tableau, card, false)) {
                    Some(i) => Some(bot_move(idx, src, 1, own_tableau(idx, i))),
                    None => None,
                },
            },
            _ => None,
        }
    }
}

/// The stacks the bot tries to move from, in order: the nerts pile, each
/// tableau stack, then the waste (`n` being the number of tableau stacks).
pub open spec fn bot_source(n: int, k: int) -> PlayerStackLocation {
    if k == 0 {
        PlayerStackLocation::Nerts
    } else if k <= n {
        PlayerStackLocation::Tableau((k - 1) as u8)
    } else {
        PlayerStackLocation::Waste
    }
}

/// The lake stacks in the order the bot prefers them for cards from source
/// number `k` (none where `orders` says nothing).
pub open spec fn order_for(orders: Seq<Seq<u16>>, k: int) -> Seq<u16> {
    if 0 <= k < orders.len() {
        orders[k]
    } else {
        Seq::empty()
    }
}

/// The lake play of the last of the bot's first `k` sources that has one.
pub open spec fn last_lake_move(h: HandModel, idx: int, orders: Seq<Seq<u16>>, k: int) -> Option<HandAction>
    decreases k,
{
    if k <= 0 {
        None
    } else {
        let n = h.players[idx].tableau.len() as int;
        match lake_move_from(h, idx, order_for(orders, k - 1), bot_source(n, k - 1)) {
            Some(a) => Some(a),
            None => last_lake_move(h, idx, orders, k - 1),
        }
    }
}

/// The tableau move of the first of the bot's first `k` sources that has one.
pub open spec fn first_tableau_move(h: HandModel, idx: int, k: int) -> Option<HandAction>
    decreases k,
{
    if k <= 0 {
        None
    } else {
        match first_tableau_move(h, idx, k - 1) {
            Some(a) => Some(a),
            None => tableau_move_from(h, idx, bot_source(h.players[idx].tableau.len() as int, k - 1)),
        }
    }
}

/// The move the bot makes from its stacks: the lake play of the last source
/// that has one, else the tableau move of the first source that has one.
pub open spec fn source_move(h: HandModel, idx: int, orders: Seq<Seq<u16>>) -> Option<HandAction> {
    let n = h.players[idx].tableau.len() as int;
    match last_lake_move(h, idx, orders, n + 2) {
        Some(a) => Some(a),
        None => first_tableau_move(h, idx, n + 2),
    }
}

/// The waste card onto the first tableau stack that takes it and would then
/// take the nerts card; failing that, onto the first that takes it and would
/// then take the bottom card of some tableau stack.
pub open spec fn waste_to_tableau(p: PlayerModel, idx: int) -> Option<HandAction> {
    if p.waste.cards.len() == 0 {
        None
    } else {
        let w = p.waste.cards.last();
        let n = p.tableau.len() as int;
        let toward_nerts = if p.nerts.cards.len() > 0 {
            first_index(n, tableau_leads_to(p.tableau, w, p.nerts.cards.last()))
        } else {
            None
        };
        match toward_nerts {
            Some(i) => Some(bot_move(idx, PlayerStackLocation::Waste, 1, own_tableau(idx, i))),
            None => match first_index(n, tableau_joins(p.tableau, w)) {
                Some(i) => Some(bot_move(idx, PlayerStackLocation::Waste, 1, own_tableau(idx, i))),
                None => None,
            },
        }
    }
}

/// Turn over the stock if it holds cards, else put the waste back if it does.
pub open spec fn stock_step(p: PlayerModel) -> Option<HandAction> {
    if p.stock.cards.len() > 0 {
        Some(HandAction::FlipStock)
    } else if p.waste.cards.len() > 0 {
        Some(HandAction::ReturnStock)
    } else {
        None
    }
}

/// The plan of the bot at index `idx` of hand `h`, with lake stacks preferred
/// for cards from source number `k` in the order `orders[k]`: nerts once its
/// nerts pile is empty, else its move from its stacks, else the waste card
/// onto the tableau, else the stock.
pub open spec fn bot_plan(h: HandModel, idx: int, orders: Seq<Seq<u16>>) -> Option<BotPlan> {
    let p = h.players[idx];
    if p.nerts.cards.len() == 0 {
        Some(BotPlan::CallNerts)
    } else {
        match source_move(h, idx, orders) {
            Some(a) => Some(BotPlan::Action(a)),
            None => match waste_to_tableau(p, idx) {
                Some(a) => Some(BotPlan::Action(a)),
                None => match stock_step(p) {
                    Some(a) => Some(BotPlan::Action(a)),
                    None => None,
                },
            },
        }
    }
}

/// Finds the preferred lake stack for `card`.
fn find_lake(lakes: &[Stack], order: &Vec<u16>, card: CardInstance) -> (res: Option<u16>)
    ensures
        res == preferred_lake(lakes@.map_values(|s: Stack| s@), order@, card),
{
    let ghost lv = lakes@.map_values(|s: Stack| s@);
    let ghost f = lake_takes(lv, order@, card);
    let mut k: usize = 0;
    while k < order.len()
        invariant
            k <= order@.len(),
            lv == lakes@.map_values(|s: Stack| s@),
            f == lake_takes(lv, order@, card),
            first_index(k as int, f) is None,
        decreases order@.len() - k,
    {
        let l = order[k];
        if (l as usize) < lakes.len() && lakes[l as usize].can_add(card) {
            proof {
                assert(lakes@[l as int]@ == lv[l as int]);
                assert(f(k as int));
                assert(first_index(k + 1, f) == Some(k as int));
                lemma_first_index_extend(k + 1, order@.len() as int, f);
            }
            return Some(l);
        }
        proof {
            if (l as int) < lv.len() {
                assert(lakes@[l as int]@ == lv[l as int]);
            }
            assert(!f(k as int));
        }
        k = k + 1;
    }
    None
}

/// Finds the first tableau stack that takes `card` (and holds cards, if `built`).
fn find_tableau(t: &[Stack], card: CardInstance, built: bool) -> (res: Option<usize>)
    ensures
        match res {
            Some(i) => first_index(t@.len() as int, tableau_takes(t@.map_values(|s: Stack| s@), card, built))
                == Some(i as int),
            None => first_index(t@.len() as int, tableau_takes(t@.map_values(|s: Stack| s@), card, built)) is None,
        },
{
    let ghost tv = t@.map_values(|s: Stack| s@);
    let ghost f = tableau_takes(tv, card, built);
    let mut i: usize = 0;
    while i < t.len()
        invariant
            i <= t@.len(),
            tv == t@.map_values(|s: Stack| s@),
            f == tableau_takes(tv, card, built),
            first_index(i as int, f) is None,
        decreases t@.len() - i,
    {
        proof {
            assert(t@[i as int]@ == tv[i as int]);
        }
        if t[i].can_add(card) && (!built || t[i].len() > 0) {
            proof {
                assert(f(i as int));
                assert(first_index(i + 1, f) == Some(i as int));
                lemma_first_index_extend(i + 1, t@.len() as int, f);
            }
            return Some(i);
        }
        assert(!f(i as int));
        i = i + 1;
    }
    None
}

/// Finds the first tableau stack that takes `card` and whose rule would then
/// let `target` follow.
fn find_tableau_toward(t: &[Stack], card: CardInstance, target: CardInstance) -> (res: Option<usize>)
    ensures
        match res {
            Some(i) => first_index(t@.len() as int, tableau_leads_to(t@.map_values(|s: Stack| s@), card, target))
                == Some(i as int),
            None => first_index(t@.len() as int, tableau_leads_to(t@.map_values(|s: Stack| s@), card, target)) is None,
        },
{
    let ghost tv = t@.map_values(|s: Stack| s@);
    let ghost f = tableau_leads_to(tv, card, target);
    let mut i: usize = 0;
    while i < t.len()
        invariant
            i <= t@.len(),
            tv == t@.map_values(|s: Stack| s@),
            f == tableau_leads_to(tv, card, target),
            first_index(i as int, f) is None,
        decreases t@.len() - i,
    {
        proof {
            assert(t@[i as int]@ == tv[i as int]);
        }
        if t[i].can_add(card) && t[i].ordering().allows(card.card, target.card) {
            proof {
                assert(f(i as int));
                assert(first_index(i + 1, f) == Some(i as int));
                lemma_first_index_extend(i + 1, t@.len() as int, f);
            }
            return Some(i);
        }
        assert(!f(i as int));
        i = i + 1;
    }
    None
}

/// Finds the first tableau stack that takes `card` and whose rule would then
/// let the bottom card of some tableau stack follow.
fn find_tableau_joining(t: &[Stack], card: CardInstance) -> (res: Option<usize>)
    ensures
        match res {
            Some(i) => first_index(t@.len() as int, tableau_joins(t@.map_values(|s: Stack| s@), card)) == Some(i as int),
            None => first_index(t@.len() as int, tableau_joins(t@.map_values(|s: Stack| s@), card)) is None,
        },
{
    let ghost tv = t@.map_values(|s: Stack| s@);
    let ghost f = tableau_joins(tv, card);
    let mut i: usize = 0;
    while i < t.len()
        invariant
            i <= t@.len(),
            tv == t@.map_values(|s: Stack| s@),
            f == tableau_joins(tv, card),
            first_index(i as int, f) is None,
        decreases t@.len() - i,
    {
        proof {
            assert(t@[i as int]@ == tv[i as int]);
        }
        if t[i].can_add(card) {
            let order = t[i].ordering();
            let mut j: usize = 0;
            while j < t.len()
                invariant
                    i < t@.len(),
                    j <= t@.len(),
                    tv == t@.map_values(|s: Stack| s@),
                    f == tableau_joins(tv, card),
                    first_index(i as int, f) is None,
                    tv[i as int].accepts(card),
                    order == tv[i as int].order,
                    forall|m: int| 0 <= m < j ==> !(tv[m].cards.len() > 0 && #[trigger] order_allows(order, card.card, tv[m].cards[0].card)),
                decreases t@.len() - j,
            {
                proof {
                    assert(t@[j as int]@ == tv[j as int]);
                }
                let bottom = t[j].cards();
                if bottom.len() > 0 && order.allows(card.card, bottom[0].card) {
                    proof {
                        assert(tv[j as int].cards.len() > 0 && order_allows(tv[i as int].order, card.card, tv[j as int].cards[0].card));
                        assert(f(i as int));
                        assert(first_index(i + 1, f) == Some(i as int));
                        lemma_first_index_extend(i + 1, t@.len() as int, f);
                    }
                    return Some(i);
                }
                j = j + 1;
            }
        }
        assert(!f(i as int));
        i = i + 1;
    }
    None
}

/// The bot's play from its stack `src` onto the lake, if any.
fn find_lake_move(hand: &HandState, idx: usize, order: &Vec<u16>, src: PlayerStackLocation) -> (res: Option<HandAction>)
    requires
        idx < hand@.players.len(),
        hand@.players[idx as int].stack(src) is Some,
    ensures
        res == lake_move_from(hand@, idx as int, order@, src),
{
    let players = hand.players();
    let p = &players[idx];
    proof {
        assert(p@ == hand@.players[idx as int]);
    }
    let stack = p.stack_at(src).unwrap();
    let cards = stack.cards();
    let n = cards.len();
    if n == 0 {
        return None;
    }
    let card = cards[n - 1];
    match find_lake(hand.lake_stacks(), order, card) {
        Some(l) => Some(HandAction::Move { from: StackLocation::Player(idx as u8, src), count: 1, to: StackLocation::Lake(l) }),
        None => None,
    }
}

/// The bot's move from its stack `src` onto its tableau, if any.
fn find_tableau_move(hand: &HandState, idx: usize, src: PlayerStackLocation) -> (res: Option<HandAction>)
    requires
        idx < hand@.players.len(),
        hand@.players[idx as int].stack(src) is Some,
    ensures
        res == tableau_move_from(hand@, idx as int, src),
{
    let players = hand.players();
    let p = &players[idx];
    proof {
        assert(p@ == hand@.players[idx as int]);
    }
    let stack = p.stack_at(src).unwrap();
    let cards = stack.cards();
    let n = cards.len();
    if n == 0 {
        return None;
    }
    let card = cards[n - 1];
    let from = StackLocation::Player(idx as u8, src);
    match src {
        PlayerStackLocation::Tableau(_) => {
            match find_tableau(p.tableau_stacks(), cards[0], true) {
                Some(i) => Some(
                    HandAction::Move {
                        from,
                        count: n as u8,
                        to: StackLocation::Player(idx as u8, PlayerStackLocation::Tableau(i as u8)),
                    },
                ),
                None => None,
            }
        },
        PlayerStackLocation::Nerts => {
            match find_tableau(p.tableau_stacks(), card, true) {
                Some(i) => Some(
                    HandAction::Move {
                        from,
                        count: 1,
                        to: StackLocation::Player(idx as u8, PlayerStackLocation::Tableau(i as u8)),
                    },
                ),
                None => match find_tableau(p.tableau_stacks(), card, false) {
                    Some(i) => Some(
                        HandAction::Move {
                            from,
                            count: 1,
                            to: StackLocation::Player(idx as u8, PlayerStackLocation::Tableau(i as u8)),
                        },
                    ),
                    None => None,
                },
            }
        },
        _ => None,
    }
}

/// Looks at the bot's stack `src`: its lake play, if it has one, replaces
/// the plan so far; otherwise, while there is no plan yet, its tableau move
/// becomes the plan.
fn scan_source(
    hand: &HandState,
    idx: usize,
    order: &Vec<u16>,
    src: PlayerStackLocation,
    lake: &mut Option<HandAction>,
    tab: &mut Option<HandAction>,
)
    requires
        idx < hand@.players.len(),
        hand@.players[idx as int].stack(src) is Some,
    ensures
        match lake_move_from(hand@, idx as int, order@, src) {
            Some(a) => *final(lake) == Some(a) && *final(tab) == *old(tab),
            None => *final(lake) == *old(lake) && *final(tab) == if (*old(lake)) is None && (*old(tab)) is None {
                tableau_move_from(hand@, idx as int, src)
            } else {
                *old(tab)
            },
        },
{
    let l = find_lake_move(hand, idx, order, src);
    if l.is_some() {
        *lake = l;
    } else if lake.is_none() && tab.is_none() {
        *tab = find_tableau_move(hand, idx, src);
    }
}

/// The waste card onto a tableau stack where it helps, if there is one.
fn find_waste_move(p: &crate::player::HandPlayerState, idx: usize) -> (res: Option<HandAction>)
    ensures
        res == waste_to_tableau(p@, idx as int),
{
    let waste = p.waste_stack().cards();
    if waste.len() == 0 {
        return None;
    }
    let w = waste[waste.len() - 1];
    let nerts = p.nerts_stack().cards();
    let toward = if nerts.len() > 0 {
        find_tableau_toward(p.tableau_stacks(), w, nerts[nerts.len() - 1])
    } else {
        None
    };
    let to = match toward {
        Some(i) => Some(i),
        None => find_tableau_joining(p.tableau_stacks(), w),
    };
    match to {
        Some(i) => Some(
            HandAction::Move {
                from: StackLocation::Player(idx as u8, PlayerStackLocation::Waste),
                count: 1,
                to: StackLocation::Player(idx as u8, PlayerStackLocation::Tableau(i as u8)),
            },
        ),
        None => None,
    }
}

/// The lake stacks preferred for cards from source number `k`.
fn order_at(orders: &Vec<Vec<u16>>, k: usize) -> (res: Vec<u16>)
    ensures
        res@ == order_for(orders@.map_values(|o: Vec<u16>| o@), k as int),
{
    if k < orders.len() {
        orders[k].clone()
    } else {
        Vec::new()
    }
}

/// Decides what the bot at index `idx` of the hand does next, preferring,
/// for cards from its source number `k` (the nerts pile, then each tableau
/// stack, then the waste), the lake stacks in the order `lake_orders[k]`
/// (lake stack indices, best first).
pub fn plan_bot_move(hand: &HandState, idx: usize, lake_orders: &Vec<Vec<u16>>) -> (res: Option<BotPlan>)
    requires
        idx < hand@.players.len(),
    ensures
        res == bot_plan(hand@, idx as int, lake_orders@.map_values(|o: Vec<u16>| o@)),
{
    let ghost h = hand@;
    let ghost orders = lake_orders@.map_values(|o: Vec<u16>| o@);
    let players = hand.players();
    let p = &players[idx];
    proof {
        assert(p@ == h.players[idx as int]);
    }
    if p.nerts_stack().len() == 0 {
        return Some(BotPlan::CallNerts);
    }
    let n = p.tableau_stacks().len();
    let ghost nn = n as int;
    assert(h.players[idx as int].tableau.len() == nn);
    let mut lake: Option<HandAction> = None;
    let mut tab: Option<HandAction> = None;
    // The nerts pile first.
    let order = order_at(lake_orders, 0);
    assert(bot_source(nn, 0) == PlayerStackLocation::Nerts);
    scan_source(hand, idx, &order, PlayerStackLocation::Nerts, &mut lake, &mut tab);
    assert(last_lake_move(h, idx as int, orders, 0) is None);
    assert(first_tableau_move(h, idx as int, 0) is None);
    // Then each tableau stack.
    let mut i: usize = 0;
    while i < n
        invariant
            i <= n,
            n == nn,
            h == hand@,
            orders == lake_orders@.map_values(|o: Vec<u16>| o@),
            idx < h.players.len(),
            h.players[idx as int].tableau.len() == nn,
            h.players[idx as int].nerts.cards.len() > 0,
            lake == last_lake_move(h, idx as int, orders, i + 1),
            lake is None ==> tab == first_tableau_move(h, idx as int, i + 1),
        decreases n - i,
    {
        let src = PlayerStackLocation::Tableau(#[verifier::truncate] (i as u8));
        proof {
            assert((i as u8) as int <= i as int) by (bit_vector);
            assert(bot_source(nn, i + 1) == src);
        }
        let order = order_at(lake_orders, i + 1);
        scan_source(hand, idx, &order, src, &mut lake, &mut tab);
        i = i + 1;
    }
    // Then the waste.
    let order = if n < lake_orders.len() {
        order_at(lake_orders, n + 1)
    } else {
        Vec::new()
    };
    assert(order@ == order_for(orders, nn + 1));
    assert(bot_source(nn, nn + 1) == PlayerStackLocation::Waste);
    scan_source(hand, idx, &order, PlayerStackLocation::Waste, &mut lake, &mut tab);
    assert(lake == last_lake_move(h, idx as int, orders, nn + 2));
    let chosen = match lake {
        Some(a) => Some(a),
        None => tab,
    };
    if let Some(a) = chosen {
        return Some(BotPlan::Action(a));
    }
    match find_waste_move(p, idx) {
        Some(a) => Some(BotPlan::Action(a)),
        None => {
            if p.stock_stack().len() > 0 {
                Some(BotPlan::Action(HandAction::FlipStock))
            } else if p.waste_stack().len() > 0 {
                Some(BotPlan::Action(HandAction::ReturnStock))
            } else {
                None
            }
        },
    }
}

/// Tableau stack `i` of `t` takes `card`, and its rule would then take the
/// bottom card of some tableau stack.
pub open spec fn joins_at(t: Seq<StackModel>, card: CardInstance, i: int) -> bool {
    &&& t[i].accepts(card)
    &&& exists|j: int| 0 <= j < t.len() && t[j].cards.len() > 0 && #[trigger] order_allows(t[i].order, card.card, t[j].cards[0].card)
}

/// When the bot has nerts cards left but no play from its stacks, and no
/// tableau stack takes its waste card and would then take its nerts card,
/// yet some tableau stack takes the waste card and would then take the
/// bottom card of a tableau stack, the bot plays the waste card onto the
/// first such stack.
pub proof fn lemma_waste_card_joins_the_tableau(h: HandModel, idx: int, orders: Seq<Seq<u16>>)
    requires
        0 <= idx < h.players.len(),
        h.players[idx].nerts.cards.len() > 0,
        source_move(h, idx, orders) is None,
        h.players[idx].waste.cards.len() > 0,
        forall|i: int| 0 <= i < h.players[idx].tableau.len() ==> !(#[trigger] h.players[idx].tableau[i].accepts(
            h.players[idx].waste.cards.last(),
        ) && order_allows(
            h.players[idx].tableau[i].order,
            h.players[idx].waste.cards.last().card,
            h.players[idx].nerts.cards.last().card,
        )),
        exists|i: int, j: int|
            0 <= i < h.players[idx].tableau.len() && 0 <= j < h.players[idx].tableau.len()
                && #[trigger] h.players[idx].tableau[i].accepts(h.players[idx].waste.cards.last())
                && #[trigger] h.players[idx].tableau[j].cards.len() > 0 && order_allows(
                h.players[idx].tableau[i].order,
                h.players[idx].waste.cards.last().card,
                h.players[idx].tableau[j].cards[0].card,
            ),
    ensures
        exists|i: int| #![trigger h.players[idx].tableau[i]]
            0 <= i < h.players[idx].tableau.len() && joins_at(h.players[idx].tableau, h.players[idx].waste.cards.last(), i)
            && (forall|k: int| 0 <= k < i ==> !joins_at(h.players[idx].tableau, h.players[idx].waste.cards.last(), k))
            && bot_plan(h, idx, orders) == Some(BotPlan::Action(HandAction::Move {
                from: StackLocation::Player(idx as u8, PlayerStackLocation::Waste),
                count: 1,
                to: StackLocation::Player(idx as u8, PlayerStackLocation::Tableau(i as u8)),
            })),
{
    let p = h.players[idx];
    let t = p.tableau;
    let n = t.len() as int;
    let w = p.waste.cards.last();
    let fl = tableau_leads_to(t, w, p.nerts.cards.last());
    let fj = tableau_joins(t, w);
    lemma_first_index(n, fl);
    lemma_first_index(n, fj);
    if first_index(n, fl) is Some {
        let k = first_index(n, fl).unwrap();
        assert(fl(k));
        assert(t[k].accepts(w));
        assert(false);
    }
    let (i0, j0) = choose|i: int, j: int|
        0 <= i < n && 0 <= j < n && #[trigger] t[i].accepts(w) && #[trigger] t[j].cards.len() > 0
            && order_allows(t[i].order, w.card, t[j].cards[0].card);
    assert(fj(i0));
    let i = first_index(n, fj).unwrap();
    assert(fj(i));
    assert forall|k: int| 0 <= k < i implies !joins_at(t, w, k) by {
        assert(!fj(k));
    }
    assert(joins_at(t, w, i));
}

/// A stack takes a single card exactly when it takes it as a run of one.
proof fn lemma_accepts_one(d: StackModel, c: CardInstance)
    requires
        d.accepts(c),
    ensures
        d.accepts_all(seq![c]),
{
    assert(d.cards + seq![c].take(0) =~= d.cards);
    assert(d.with_cards(d.cards) =~= d);
    assert(d.with_cards(d.cards + seq![c].take(0)).accepts(seq![c][0]));
}

/// A stack takes the whole of a valid run under the same rule once it takes
/// the run's bottom card.
proof fn lemma_accepts_run(d: StackModel, run: StackModel)
    requires
        d.order == run.order,
        run.valid(),
        run.cards.len() > 0,
        d.accepts(run.cards[0]),
    ensures
        d.accepts_all(run.cards),
{
    let r = run.cards;
    assert forall|j: int| 0 <= j < r.len() implies #[trigger] d.with_cards(d.cards + r.take(j)).accepts(r[j]) by {
        if j == 0 {
            assert(d.cards + r.take(0) =~= d.cards);
            assert(d.with_cards(d.cards) =~= d);
        } else {
            let e = d.cards + r.take(j);
            assert(e.last() == r[j - 1]);
            let i = j - 1;
            assert(order_allows(run.order, r[i].card, r[i + 1].card));
            assert(i + 1 == j);
        }
    }
}

/// The shape of the hands on which the bot's plans are sure to be legal:
/// the bot's index, its number of tableau stacks and their sizes fit the
/// one-byte fields of a move, and its tableau stacks all build down in
/// alternating colors from any card, as dealt.
pub open spec fn bot_hand_shape(h: HandModel, idx: int) -> bool {
    &&& 0 <= idx < h.players.len()
    &&& idx < 256
    &&& h.players[idx].tableau.len() <= 256
    &&& forall|i: int| 0 <= i < h.players[idx].tableau.len() ==> {
        &&& (#[trigger] h.players[idx].tableau[i]).order == StackOrder::AlternatingDown
        &&& !h.players[idx].tableau[i].aces_first
        &&& h.players[idx].tableau[i].cards.len() < 256
    }
}

/// An action the rules allow the player at `idx`: `apply` is defined on it
/// and carries it out.
pub open spec fn legal_for(h: HandModel, idx: int, a: HandAction) -> bool {
    h.apply_defined(idx as u8, a) && h.apply_outcome(idx as u8, a) is Some
}

/// A move the bot finds from one of its stacks is legal.
proof fn lemma_move_from_legal(h: HandModel, idx: int, order: Seq<u16>, src: PlayerStackLocation)
    requires
        h.valid(),
        bot_hand_shape(h, idx),
        h.players[idx].stack(src) is Some,
        src != PlayerStackLocation::Stock,
    ensures
        lake_move_from(h, idx, order, src) matches Some(a) ==> legal_for(h, idx, a),
        tableau_move_from(h, idx, src) matches Some(a) ==> legal_for(h, idx, a),
{
    let p = h.players[idx];
    assert(p.valid());
    let stack = p.stack(src).unwrap();
    assert((idx as u8) as int == idx);
    if stack.cards.len() > 0 {
        let card = stack.cards.last();
        let from = StackLocation::Player(idx as u8, src);
        match preferred_lake(h.lakes, order, card) {
            Some(l) => {
                let f = lake_takes(h.lakes, order, card);
                lemma_first_index(order.len() as int, f);
                let k = first_index(order.len() as int, f).unwrap();
                assert(f(k));
                assert(l == order[k]);
                let a = bot_move(idx, src, 1, StackLocation::Lake(l));
                let dest = h.lakes[l as int];
                assert(h.stack(StackLocation::Lake(l)) == Some(dest));
                assert(top_cards(stack, 1) =~= seq![card]);
                assert(h.after_take(from, 1).stack(StackLocation::Lake(l)) == Some(dest));
                lemma_accepts_one(dest, card);
                assert(legal_for(h, idx, a));
            },
            None => {},
        }
                let n = p.tableau.len() as int;
                match src {
                    PlayerStackLocation::Tableau(jj) => {
                        let ft = tableau_takes(p.tableau, stack.cards[0], true);
                        lemma_first_index(n, ft);
                        match first_index(n, ft) {
                            Some(i) => {
                                assert(ft(i));
                                let len = stack.cards.len();
                                assert(stack == p.tableau[jj as int]);
                                assert(len < 256);
                                assert((len as u8) as int == len);
                                assert((i as u8) as int == i);
                                let to = own_tableau(idx, i);
                                let a = bot_move(idx, src, len as u8, to);
                                assert(h.stack(to) == Some(p.tableau[i]));
                                assert(top_cards(stack, len as int) =~= stack.cards);
                                assert(stack.cards.subrange(0, 0) =~= Seq::<CardInstance>::empty());
                                let d = h.after_take(from, len as int).stack(to).unwrap();
                                if i == jj as int {
                                    assert(d == stack.with_cards(Seq::empty()));
                                } else {
                                    assert(d == p.tableau[i]);
                                }
                                lemma_accepts_run(d, stack);
                                assert(legal_for(h, idx, a));
                            },
                            None => {},
                        }
                    },
                    PlayerStackLocation::Nerts => {
                        let fb = tableau_takes(p.tableau, card, true);
                        let fa = tableau_takes(p.tableau, card, false);
                        lemma_first_index(n, fb);
                        lemma_first_index(n, fa);
                        let pick = match first_index(n, fb) {
                            Some(i) => Some(i),
                            None => first_index(n, fa),
                        };
                        match pick {
                            Some(i) => {
                                assert(p.tableau[i].accepts(card));
                                assert((i as u8) as int == i);
                                let to = own_tableau(idx, i);
                                let a = bot_move(idx, src, 1, to);
                                assert(h.stack(to) == Some(p.tableau[i]));
                                assert(top_cards(stack, 1) =~= seq![card]);
                                assert(h.after_take(from, 1).stack(to) == Some(p.tableau[i]));
                                lemma_accepts_one(p.tableau[i], card);
                                assert(legal_for(h, idx, a));
                            },
                            None => {},
                        }
                    },
                    _ => {},
                }
    }
}

/// Any move the bot finds from its first `k` sources is legal.
proof fn lemma_source_moves_legal(h: HandModel, idx: int, orders: Seq<Seq<u16>>, k: int)
    requires
        h.valid(),
        bot_hand_shape(h, idx),
        k <= h.players[idx].tableau.len() + 2,
    ensures
        last_lake_move(h, idx, orders, k) matches Some(a) ==> legal_for(h, idx, a),
        first_tableau_move(h, idx, k) matches Some(a) ==> legal_for(h, idx, a),
    decreases k,
{
    if k > 0 {
        lemma_source_moves_legal(h, idx, orders, k - 1);
        let n = h.players[idx].tableau.len() as int;
        let src = bot_source(n, k - 1);
        if 1 <= k - 1 <= n {
            assert(((k - 2) as u8) as int == k - 2);
        }
        lemma_move_from_legal(h, idx, order_for(orders, k - 1), src);
    }
}

/// Every action the bot plans is one the rules allow, on hands shaped as
/// dealt; and it calls nerts only once its nerts pile is empty.
pub proof fn lemma_bot_plan_is_legal(h: HandModel, idx: int, orders: Seq<Seq<u16>>)
    requires
        h.valid(),
        bot_hand_shape(h, idx),
    ensures
        bot_plan(h, idx, orders) matches Some(BotPlan::Action(a)) ==> legal_for(h, idx, a),
        bot_plan(h, idx, orders) == Some(BotPlan::CallNerts) <==> h.players[idx].nerts.cards.len() == 0,
{
    let p = h.players[idx];
    assert(p.valid());
    let n = p.tableau.len() as int;
    assert((idx as u8) as int == idx);
    if p.nerts.cards.len() > 0 {
        lemma_source_moves_legal(h, idx, orders, n + 2);
        match source_move(h, idx, orders) {
            Some(_) => {},
            None => {
                match waste_to_tableau(p, idx) {
                    Some(a) => {
                        let w = p.waste.cards.last();
                        let ft = if p.nerts.cards.len() > 0 {
                            tableau_leads_to(p.tableau, w, p.nerts.cards.last())
                        } else {
                            tableau_joins(p.tableau, w)
                        };
                        let fj = tableau_joins(p.tableau, w);
                        lemma_first_index(n, ft);
                        lemma_first_index(n, fj);
                        let i = match first_index(n, ft) {
                            Some(i) => i,
                            None => first_index(n, fj).unwrap(),
                        };
                        assert(p.tableau[i].accepts(w));
                        assert((i as u8) as int == i);
                        let from = StackLocation::Player(idx as u8, PlayerStackLocation::Waste);
                        let to = own_tableau(idx, i);
                        assert(a == bot_move(idx, PlayerStackLocation::Waste, 1, to));
                        assert(h.stack(to) == Some(p.tableau[i]));
                        assert(top_cards(p.waste, 1) =~= seq![w]);
                        assert(h.after_take(from, 1).stack(to) == Some(p.tableau[i]));
                        lemma_accepts_one(p.tableau[i], w);
                    },
                    None => {
                        lemma_any_accepts_all(p.waste, p.flip_cards());
                        lemma_any_accepts_all(p.stock, p.waste.cards.reverse());
                    },
                }
            },
        }
    }
}

} // verus!
