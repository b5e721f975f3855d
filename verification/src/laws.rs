//! Properties of a hand that hold across actions: no card is ever created or
//! lost, the lake and the nerts piles only move one way, and an action
//! touches only the acting player's area.

use vstd::prelude::*;
use vstd::multiset::Multiset;
use crate::cards::CardInstance;
use crate::stack::StackModel;
use crate::player::{PlayerModel, PlayerStackLocation, tableau_cards};
use crate::hand::{HandModel, HandAction, StackLocation, top_cards};

verus! {

broadcast use {vstd::seq_lib::lemma_multiset_commutative, vstd::multiset::group_multiset_axioms};

/// The cards of a sequence of stacks, taken together.
pub open spec fn stacks_cards(ss: Seq<StackModel>) -> Multiset<CardInstance>
    decreases ss.len(),
{
    if ss.len() == 0 {
        Multiset::empty()
    } else {
        stacks_cards(ss.drop_last()).add(ss.last().cards.to_multiset())
    }
}

/// The cards of a sequence of player areas, taken together.
pub open spec fn players_cards(ps: Seq<PlayerModel>) -> Multiset<CardInstance>
    decreases ps.len(),
{
    if ps.len() == 0 {
        Multiset::empty()
    } else {
        players_cards(ps.drop_last()).add(ps.last().all_cards().to_multiset())
    }
}

impl HandModel {
    /// Every card in the hand: the players' areas and the lake.
    pub open spec fn cards(self) -> Multiset<CardInstance> {
        players_cards(self.players).add(stacks_cards(self.lakes))
    }
}

proof fn lemma_add_cancel(a: Multiset<CardInstance>, b: Multiset<CardInstance>, c: Multiset<CardInstance>)
    requires
        a.add(c) == b.add(c),
    ensures
        a == b,
{
    assert forall|x: CardInstance| a.count(x) == b.count(x) by {
        assert(a.add(c).count(x) == a.count(x) + c.count(x));
        assert(b.add(c).count(x) == b.count(x) + c.count(x));
    }
    assert(a =~= b);
}

proof fn lemma_stacks_cards_update(ss: Seq<StackModel>, i: int, s: StackModel)
    requires
        0 <= i < ss.len(),
    ensures
        stacks_cards(ss.update(i, s)).add(ss[i].cards.to_multiset()) == stacks_cards(ss).add(
            s.cards.to_multiset(),
        ),
    decreases ss.len(),
{
    let u = ss.update(i, s);
    let a = ss[i].cards.to_multiset();
    let b = s.cards.to_multiset();
    let du = stacks_cards(u.drop_last());
    let ds = stacks_cards(ss.drop_last());
    let lu = u.last().cards.to_multiset();
    let ls = ss.last().cards.to_multiset();
    assert(stacks_cards(u) == du.add(lu));
    assert(stacks_cards(ss) == ds.add(ls));
    if i == ss.len() - 1 {
        assert(u.drop_last() =~= ss.drop_last());
        assert(u.last() == s);
        assert forall|x: CardInstance| #[trigger] stacks_cards(u).add(a).count(x) == stacks_cards(ss).add(b).count(x) by {
            assert(du.add(lu).count(x) == du.count(x) + lu.count(x));
            assert(ds.add(ls).count(x) == ds.count(x) + ls.count(x));
        }
    } else {
        assert(u.drop_last() =~= ss.drop_last().update(i, s));
        lemma_stacks_cards_update(ss.drop_last(), i, s);
        assert(u.last() == ss.last());
        assert forall|x: CardInstance| #[trigger] stacks_cards(u).add(a).count(x) == stacks_cards(ss).add(b).count(x) by {
            assert(du.add(a).count(x) == ds.add(b).count(x));
            assert(du.add(a).count(x) == du.count(x) + a.count(x));
            assert(ds.add(b).count(x) == ds.count(x) + b.count(x));
            assert(du.add(lu).count(x) == du.count(x) + lu.count(x));
            assert(ds.add(ls).count(x) == ds.count(x) + ls.count(x));
        }
    }
    assert(stacks_cards(u).add(a) =~= stacks_cards(ss).add(b));
}

proof fn lemma_tableau_cards_update(t: Seq<StackModel>, i: int, s: StackModel)
    requires
        0 <= i < t.len(),
    ensures
        tableau_cards(t.update(i, s)).to_multiset().add(t[i].cards.to_multiset()) == tableau_cards(
            t,
        ).to_multiset().add(s.cards.to_multiset()),
    decreases t.len(),
{
    let u = t.update(i, s);
    let a = t[i].cards.to_multiset();
    let b = s.cards.to_multiset();
    let du = tableau_cards(u.drop_last()).to_multiset();
    let ds = tableau_cards(t.drop_last()).to_multiset();
    let lu = u.last().cards.to_multiset();
    let ls = t.last().cards.to_multiset();
    vstd::seq_lib::lemma_multiset_commutative(tableau_cards(u.drop_last()), u.last().cards);
    vstd::seq_lib::lemma_multiset_commutative(tableau_cards(t.drop_last()), t.last().cards);
    assert(tableau_cards(u).to_multiset() == du.add(lu));
    assert(tableau_cards(t).to_multiset() == ds.add(ls));
    if i == t.len() - 1 {
        assert(u.drop_last() =~= t.drop_last());
        assert(u.last() == s);
        assert forall|x: CardInstance| #[trigger] tableau_cards(u).to_multiset().add(a).count(x) == tableau_cards(t).to_multiset().add(b).count(x) by {
            assert(du.add(lu).count(x) == du.count(x) + lu.count(x));
            assert(ds.add(ls).count(x) == ds.count(x) + ls.count(x));
        }
    } else {
        assert(u.drop_last() =~= t.drop_last().update(i, s));
        lemma_tableau_cards_update(t.drop_last(), i, s);
        assert(u.last() == t.last());
        assert forall|x: CardInstance| #[trigger] tableau_cards(u).to_multiset().add(a).count(x) == tableau_cards(t).to_multiset().add(b).count(x) by {
            assert(du.add(a).count(x) == ds.add(b).count(x));
            assert(du.add(a).count(x) == du.count(x) + a.count(x));
            assert(ds.add(b).count(x) == ds.count(x) + b.count(x));
            assert(du.add(lu).count(x) == du.count(x) + lu.count(x));
            assert(ds.add(ls).count(x) == ds.count(x) + ls.count(x));
        }
    }
    assert(tableau_cards(u).to_multiset().add(a) =~= tableau_cards(t).to_multiset().add(b));
}

proof fn lemma_players_cards_update(ps: Seq<PlayerModel>, i: int, p: PlayerModel)
    requires
        0 <= i < ps.len(),
    ensures
        players_cards(ps.update(i, p)).add(ps[i].all_cards().to_multiset()) == players_cards(ps).add(
            p.all_cards().to_multiset(),
        ),
    decreases ps.len(),
{
    let u = ps.update(i, p);
    let a = ps[i].all_cards().to_multiset();
    let b = p.all_cards().to_multiset();
    let du = players_cards(u.drop_last());
    let ds = players_cards(ps.drop_last());
    let lu = u.last().all_cards().to_multiset();
    let ls = ps.last().all_cards().to_multiset();
    assert(players_cards(u) == du.add(lu));
    assert(players_cards(ps) == ds.add(ls));
    if i == ps.len() - 1 {
        assert(u.drop_last() =~= ps.drop_last());
        assert(u.last() == p);
        assert forall|x: CardInstance| #[trigger] players_cards(u).add(a).count(x) == players_cards(ps).add(b).count(x) by {
            assert(du.add(lu).count(x) == du.count(x) + lu.count(x));
            assert(ds.add(ls).count(x) == ds.count(x) + ls.count(x));
        }
    } else {
        assert(u.drop_last() =~= ps.drop_last().update(i, p));
        lemma_players_cards_update(ps.drop_last(), i, p);
        assert(u.last() == ps.last());
        assert forall|x: CardInstance| #[trigger] players_cards(u).add(a).count(x) == players_cards(ps).add(b).count(x) by {
            assert(du.add(a).count(x) == ds.add(b).count(x));
            assert(du.add(a).count(x) == du.count(x) + a.count(x));
            assert(ds.add(b).count(x) == ds.count(x) + b.count(x));
            assert(du.add(lu).count(x) == du.count(x) + lu.count(x));
            assert(ds.add(ls).count(x) == ds.count(x) + ls.count(x));
        }
    }
    assert(players_cards(u).add(a) =~= players_cards(ps).add(b));
}

/// The count of a card in an area is the sum of its counts in the four parts.
proof fn lemma_all_cards_count(p: PlayerModel, x: CardInstance)
    ensures
        p.all_cards().to_multiset().count(x) == p.nerts.cards.to_multiset().count(x)
            + p.stock.cards.to_multiset().count(x) + p.waste.cards.to_multiset().count(x)
            + tableau_cards(p.tableau).to_multiset().count(x),
{
    let n = p.nerts.cards;
    let st = p.stock.cards;
    let w = p.waste.cards;
    let t = tableau_cards(p.tableau);
    vstd::seq_lib::lemma_multiset_commutative(n, st);
    vstd::seq_lib::lemma_multiset_commutative(n + st, w);
    vstd::seq_lib::lemma_multiset_commutative(n + st + w, t);
}

proof fn lemma_player_with_stack(p: PlayerModel, l: PlayerStackLocation, s: StackModel)
    requires
        p.stack(l) is Some,
    ensures
        p.with_stack(l, s).all_cards().to_multiset().add(p.stack(l).unwrap().cards.to_multiset())
            == p.all_cards().to_multiset().add(s.cards.to_multiset()),
{
    let q = p.with_stack(l, s);
    let old_s = p.stack(l).unwrap();
    let a = old_s.cards.to_multiset();
    let b = s.cards.to_multiset();
    if let PlayerStackLocation::Tableau(idx) = l {
        lemma_tableau_cards_update(p.tableau, idx as int, s);
    }
    assert forall|x: CardInstance| #[trigger] q.all_cards().to_multiset().add(a).count(x)
        == p.all_cards().to_multiset().add(b).count(x) by {
        lemma_all_cards_count(p, x);
        lemma_all_cards_count(q, x);
        if let PlayerStackLocation::Tableau(idx) = l {
            assert(tableau_cards(q.tableau).to_multiset().add(a).count(x) == tableau_cards(
                p.tableau,
            ).to_multiset().add(b).count(x));
        }
    }
    assert(q.all_cards().to_multiset().add(a) =~= p.all_cards().to_multiset().add(b));
}

proof fn lemma_hand_with_stack(h: HandModel, loc: StackLocation, s: StackModel)
    requires
        h.stack(loc) is Some,
    ensures
        h.with_stack(loc, s).cards().add(h.stack(loc).unwrap().cards.to_multiset()) == h.cards().add(
            s.cards.to_multiset(),
        ),
{
    let g = h.with_stack(loc, s);
    let old_s = h.stack(loc).unwrap();
    let a = old_s.cards.to_multiset();
    let b = s.cards.to_multiset();
    match loc {
        StackLocation::Lake(idx) => {
            lemma_stacks_cards_update(h.lakes, idx as int, s);
            assert(g.players == h.players);
            assert forall|x: CardInstance| #[trigger] g.cards().add(a).count(x) == h.cards().add(b).count(x) by {
                assert(stacks_cards(g.lakes).add(a).count(x) == stacks_cards(h.lakes).add(b).count(x));
            }
        },
        StackLocation::Player(pi, l) => {
            let p = h.players[pi as int];
            lemma_player_with_stack(p, l, s);
            lemma_players_cards_update(h.players, pi as int, p.with_stack(l, s));
            assert(g.players == h.players.update(pi as int, p.with_stack(l, s)));
            assert(g.lakes == h.lakes);
            assert forall|x: CardInstance| #[trigger] g.cards().add(a).count(x) == h.cards().add(b).count(x) by {
                let pa = p.all_cards().to_multiset();
                let qa = p.with_stack(l, s).all_cards().to_multiset();
                assert(qa.add(a).count(x) == pa.add(b).count(x));
                assert(players_cards(g.players).add(pa).count(x) == players_cards(h.players).add(qa).count(x));
            }
        },
    }
    assert(g.cards().add(a) =~= h.cards().add(b));
}

/// Turning over cards from the stock keeps the cards of the area.
pub proof fn lemma_flip_conserves(p: PlayerModel)
    ensures
        p.flipped().all_cards().to_multiset() == p.all_cards().to_multiset(),
{
    let n = p.stock.cards.len();
    let k = if n < 3 { n } else { 3 };
    let pre = p.stock.cards.subrange(0, n - k);
    let top = p.stock.cards.subrange(n - k, n as int);
    top.lemma_reverse_to_multiset();
    assert(p.stock.cards =~= pre + top);
    let t = tableau_cards(p.tableau);
    assert(p.flipped().all_cards() =~= p.nerts.cards + pre + (p.waste.cards + top.reverse()) + t);
    assert(p.all_cards() =~= p.nerts.cards + (pre + top) + p.waste.cards + t);
    assert(p.flipped().all_cards().to_multiset() =~= p.all_cards().to_multiset());
}

/// Putting the waste back on the stock keeps the cards of the area.
pub proof fn lemma_return_conserves(p: PlayerModel)
    ensures
        p.returned().all_cards().to_multiset() == p.all_cards().to_multiset(),
{
    p.waste.cards.lemma_reverse_to_multiset();
    let t = tableau_cards(p.tableau);
    assert(p.returned().all_cards() =~= p.nerts.cards + (p.stock.cards + p.waste.cards.reverse())
        + Seq::<CardInstance>::empty() + t);
    assert(p.returned().all_cards().to_multiset() =~= p.all_cards().to_multiset());
}

/// Whatever `HandState::apply` accepts leaves the hand holding exactly the
/// cards it held before: actions only move cards around.
pub proof fn lemma_apply_conserves_cards(h: HandModel, player: u8, action: HandAction)
    requires
        h.apply_defined(player, action),
    ensures
        h.apply_outcome(player, action) matches Some(m) ==> m.cards() == h.cards(),
{
    match action {
        HandAction::FlipStock => {
            let p = h.players[player as int];
            let m = h.apply_outcome(player, action).unwrap();
            lemma_flip_conserves(p);
            lemma_players_cards_update(h.players, player as int, p.flipped());
            lemma_add_cancel(players_cards(m.players), players_cards(h.players), p.all_cards().to_multiset());
        },
        HandAction::ReturnStock => {
            let p = h.players[player as int];
            let m = h.apply_outcome(player, action).unwrap();
            lemma_return_conserves(p);
            lemma_players_cards_update(h.players, player as int, p.returned());
            lemma_add_cancel(players_cards(m.players), players_cards(h.players), p.all_cards().to_multiset());
        },
        HandAction::Move { from, count, to } => {
            if let Some(m) = h.apply_outcome(player, action) {
                let src = h.stack(from).unwrap();
                let n = src.cards.len();
                let pre = src.cards.subrange(0, n - count);
                let moved = top_cards(src, count as int);
                assert(src.cards =~= pre + moved);
                vstd::seq_lib::lemma_multiset_commutative(pre, moved);
                let s1 = h.after_take(from, count as int);
                lemma_hand_with_stack(h, from, src.with_cards(pre));
                let src_ms = src.cards.to_multiset();
                let pre_ms = pre.to_multiset();
                let mv_ms = moved.to_multiset();
                assert forall|x: CardInstance| #[trigger] s1.cards().add(mv_ms).count(x) == h.cards().count(x) by {
                    assert(s1.cards().add(src_ms).count(x) == h.cards().add(pre_ms).count(x));
                    assert(src_ms.count(x) == pre_ms.count(x) + mv_ms.count(x));
                }
                assert(s1.cards().add(mv_ms) =~= h.cards());
                let d1 = s1.stack(to).unwrap();
                let d1_ms = d1.cards.to_multiset();
                vstd::seq_lib::lemma_multiset_commutative(d1.cards, moved);
                lemma_hand_with_stack(s1, to, d1.with_cards(d1.cards + moved));
                assert forall|x: CardInstance| #[trigger] m.cards().count(x) == s1.cards().add(mv_ms).count(x) by {
                    assert(m.cards().add(d1_ms).count(x) == s1.cards().add((d1.cards + moved).to_multiset()).count(x));
                    assert((d1.cards + moved).to_multiset().count(x) == d1_ms.count(x) + mv_ms.count(x));
                }
                assert(m.cards() =~= s1.cards().add(mv_ms));
            }
        },
    }
}

/// Putting the waste back after turning over cards ends in the same area as
/// putting the waste back straight away.
pub proof fn lemma_return_after_flip(p: PlayerModel)
    ensures
        p.flipped().returned() == p.returned(),
{
    let n = p.stock.cards.len();
    let k = if n < 3 { n } else { 3 };
    let pre = p.stock.cards.subrange(0, n - k);
    let top = p.stock.cards.subrange(n - k, n as int);
    assert((p.waste.cards + top.reverse()).reverse() =~= top + p.waste.cards.reverse());
    assert(pre + (top + p.waste.cards.reverse()) =~= p.stock.cards + p.waste.cards.reverse());
}

/// With an empty waste, turning over cards and putting them back restores
/// the area exactly.
pub proof fn lemma_return_undoes_flip(p: PlayerModel)
    requires
        p.waste.cards.len() == 0,
    ensures
        p.flipped().returned() == p,
{
    lemma_return_after_flip(p);
    assert(p.waste.cards.reverse() =~= Seq::<CardInstance>::empty());
    assert(p.stock.cards + p.waste.cards.reverse() =~= p.stock.cards);
    assert(p.waste.with_cards(Seq::empty()) =~= p.waste);
    assert(p.stock.with_cards(p.stock.cards) =~= p.stock);
}

/// The area after turning over cards from the stock `m` times.
pub open spec fn flipped_times(p: PlayerModel, m: nat) -> PlayerModel
    decreases m,
{
    if m == 0 {
        p
    } else {
        flipped_times(p, (m - 1) as nat).flipped()
    }
}

/// However many times cards are turned over, putting the waste back ends in
/// the same area as putting it back straight away; with an empty waste at
/// the start, that is the area as it was, stock order included.
pub proof fn lemma_return_after_flips(p: PlayerModel, m: nat)
    ensures
        flipped_times(p, m).returned() == p.returned(),
        p.waste.cards.len() == 0 ==> flipped_times(p, m).returned() == p,
    decreases m,
{
    if m > 0 {
        lemma_return_after_flips(p, (m - 1) as nat);
        lemma_return_after_flip(flipped_times(p, (m - 1) as nat));
    }
    if p.waste.cards.len() == 0 {
        lemma_return_undoes_flip(p);
        lemma_return_after_flip(p);
    }
}

/// The hand after `HandState::apply`, whether it carries the action out or
/// refuses it (and then leaves the hand as it was).
pub open spec fn after_apply(h: HandModel, player: u8, action: HandAction) -> HandModel {
    match h.apply_outcome(player, action) {
        Some(m) => m,
        None => h,
    }
}

/// Whether `HandState::apply` carries an action out or refuses it, the hand
/// holds exactly the cards it held before.
pub proof fn lemma_apply_keeps_cards(h: HandModel, player: u8, action: HandAction)
    requires
        h.apply_defined(player, action),
    ensures
        after_apply(h, player, action).cards() == h.cards(),
{
    lemma_apply_conserves_cards(h, player, action);
}

/// `a` is `b` with nothing or more put on top.
pub open spec fn extends(a: StackModel, b: StackModel) -> bool {
    &&& a.order == b.order
    &&& a.aces_first == b.aces_first
    &&& b.cards.len() <= a.cards.len()
    &&& a.cards.subrange(0, b.cards.len() as int) == b.cards
}

/// No action takes a card out of the lake: every lake stack after an action
/// is the stack before it with nothing or more put on top.
pub proof fn lemma_lake_only_grows(h: HandModel, player: u8, action: HandAction)
    requires
        h.apply_defined(player, action),
        h.apply_outcome(player, action) is Some,
    ensures
        h.apply_outcome(player, action).unwrap().lakes.len() == h.lakes.len(),
        forall|i: int|
            0 <= i < h.lakes.len() ==> extends(
                #[trigger] h.apply_outcome(player, action).unwrap().lakes[i],
                h.lakes[i],
            ),
{
    let m = h.apply_outcome(player, action).unwrap();
    match action {
        HandAction::Move { from, count, to } => {
            let s1 = h.after_take(from, count as int);
            assert(s1.lakes == h.lakes);
            assert forall|i: int| 0 <= i < h.lakes.len() implies extends(#[trigger] m.lakes[i], h.lakes[i]) by {
                let b = h.lakes[i].cards;
                assert(m.lakes[i].cards.subrange(0, b.len() as int) =~= b);
            }
        },
        _ => {
            assert forall|i: int| 0 <= i < h.lakes.len() implies extends(#[trigger] m.lakes[i], h.lakes[i]) by {
                assert(m.lakes[i] == h.lakes[i]);
                assert(h.lakes[i].cards.subrange(0, h.lakes[i].cards.len() as int) =~= h.lakes[i].cards);
            }
        },
    }
}

/// No action puts a card on a nerts pile: after an action, every player's
/// nerts pile is the pile before it with nothing or more taken off the top.
pub proof fn lemma_nerts_only_shrinks(h: HandModel, player: u8, action: HandAction)
    requires
        h.apply_defined(player, action),
        h.apply_outcome(player, action) is Some,
    ensures
        h.apply_outcome(player, action).unwrap().players.len() == h.players.len(),
        forall|q: int|
            0 <= q < h.players.len() ==> extends(
                h.players[q].nerts,
                (#[trigger] h.apply_outcome(player, action).unwrap().players[q]).nerts,
            ),
{
    let m = h.apply_outcome(player, action).unwrap();
    match action {
        HandAction::Move { from, count, to } => {
            let s1 = h.after_take(from, count as int);
            assert forall|q: int| 0 <= q < h.players.len() implies extends(
                h.players[q].nerts,
                (#[trigger] m.players[q]).nerts,
            ) by {
                assert(m.players[q].nerts == s1.players[q].nerts);
                let a = h.players[q].nerts.cards;
                let b = s1.players[q].nerts.cards;
                assert(a.subrange(0, b.len() as int) =~= b);
            }
        },
        _ => {
            assert forall|q: int| 0 <= q < h.players.len() implies extends(
                h.players[q].nerts,
                (#[trigger] m.players[q]).nerts,
            ) by {
                assert(m.players[q].nerts == h.players[q].nerts);
                let a = h.players[q].nerts.cards;
                assert(a.subrange(0, a.len() as int) =~= a);
            }
        },
    }
}

/// An action changes no player's area but the acting player's.
pub proof fn lemma_only_actor_changes(h: HandModel, player: u8, action: HandAction)
    requires
        h.apply_defined(player, action),
        h.apply_outcome(player, action) is Some,
    ensures
        h.apply_outcome(player, action).unwrap().players.len() == h.players.len(),
        forall|q: int|
            0 <= q < h.players.len() && q != player ==> #[trigger] h.apply_outcome(
                player,
                action,
            ).unwrap().players[q] == h.players[q],
{
}

} // verus!
