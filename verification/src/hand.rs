//! The state of a whole hand: every player's area and the shared lake, and
//! the actions players take on it.

use vstd::prelude::*;
use crate::cards::{Card, CardInstance, group_rank};
use crate::stack::{Stack, StackModel, StackOrder, without_card, lemma_any_accepts_all};
use crate::player::{HandPlayerState, PlayerModel, PlayerStackLocation};

verus! {

broadcast use group_rank;

/// Where a stack sits in a hand: one of the lake stacks, or a stack in a
/// player's area (by the player's index in the hand).
#[derive(Clone, Copy, Debug, PartialEq, Eq, Hash, Structural)]
pub enum StackLocation {
    Lake(u16),
    Player(u8, PlayerStackLocation),
}

/// What a player can do during a hand.
#[derive(Clone, Copy, Debug, PartialEq, Eq, Structural)]
pub enum HandAction {
    FlipStock,
    ReturnStock,
    Move { from: StackLocation, count: u8, to: StackLocation },
}

/// The error of `HandState::apply`: the action is not allowed.
#[derive(Debug)]
pub struct CannotApplyAction;

/// The abstract contents of a hand.
#[verifier::ext_equal]
pub struct HandModel {
    pub players: Seq<PlayerModel>,
    pub lakes: Seq<StackModel>,
}

impl HandModel {
    /// The stack at `loc`, if there is one.
    pub open spec fn stack(self, loc: StackLocation) -> Option<StackModel> {
        match loc {
            StackLocation::Lake(idx) => if (idx as int) < self.lakes.len() {
                Some(self.lakes[idx as int])
            } else {
                None
            },
            StackLocation::Player(p, l) => if (p as int) < self.players.len() {
                self.players[p as int].stack(l)
            } else {
                None
            },
        }
    }

    /// The same hand with the stack at `loc` replaced by `s` (unchanged where
    /// there is no stack at `loc`).
    pub open spec fn with_stack(self, loc: StackLocation, s: StackModel) -> HandModel {
        match loc {
            StackLocation::Lake(idx) => if (idx as int) < self.lakes.len() {
                HandModel { lakes: self.lakes.update(idx as int, s), ..self }
            } else {
                self
            },
            StackLocation::Player(p, l) => if (p as int) < self.players.len() {
                HandModel {
                    players: self.players.update(p as int, self.players[p as int].with_stack(l, s)),
                    ..self
                }
            } else {
                self
            },
        }
    }

    /// Every player area and every lake stack obeys its rules.
    pub open spec fn valid(self) -> bool {
        &&& forall|i: int| 0 <= i < self.players.len() ==> (#[trigger] self.players[i]).valid()
        &&& forall|i: int| 0 <= i < self.lakes.len() ==> (#[trigger] self.lakes[i]).valid()
    }
}

/// Whether the rules allow a move of `count` cards from `from` to `to` by the
/// player at index `player`, judging by the kinds of the two stacks alone:
/// the source must be one of the player's own stacks other than the stock
/// (exactly one card from the nerts pile or the waste), and the destination
/// a lake stack or one of the player's own tableau stacks.
pub open spec fn move_shape_ok(player: u8, from: StackLocation, count: u8, to: StackLocation) -> bool {
    match from {
        StackLocation::Player(sp, sl) => {
            &&& sp == player
            &&& match sl {
                PlayerStackLocation::Nerts | PlayerStackLocation::Waste => count == 1,
                PlayerStackLocation::Stock => false,
                PlayerStackLocation::Tableau(_) => true,
            }
            &&& match to {
                StackLocation::Player(dp, dl) => dp == player && dl is Tableau,
                StackLocation::Lake(_) => true,
            }
        },
        StackLocation::Lake(_) => false,
    }
}

/// The top `count` cards of a stack, bottom first.
pub open spec fn top_cards(src: StackModel, count: int) -> Seq<CardInstance> {
    src.cards.subrange(src.cards.len() - count, src.cards.len() as int)
}

/// A move takes a single card from a player's nerts pile or waste: one
/// that takes any other number from there is refused.
pub proof fn lemma_one_card_from_nerts_or_waste(h: HandModel, player: u8, p: u8, src: PlayerStackLocation, count: u8, to: StackLocation)
    requires
        src == PlayerStackLocation::Nerts || src == PlayerStackLocation::Waste,
        count != 1,
    ensures
        h.apply_outcome(player, HandAction::Move { from: StackLocation::Player(p, src), count, to }) is None,
{
}

/// Checks `move_shape_ok`.
fn move_shape_allowed(player: u8, from: StackLocation, count: u8, to: StackLocation) -> (res: bool)
    ensures
        res == move_shape_ok(player, from, count, to),
{
    match from {
        StackLocation::Player(sp, sl) => {
            if sp != player {
                return false;
            }
            let src_ok = match sl {
                PlayerStackLocation::Nerts | PlayerStackLocation::Waste => count == 1,
                PlayerStackLocation::Stock => false,
                PlayerStackLocation::Tableau(_) => true,
            };
            let dest_ok = match to {
                StackLocation::Player(dp, dl) => dp == player && match dl {
                    PlayerStackLocation::Tableau(_) => true,
                    _ => false,
                },
                StackLocation::Lake(_) => true,
            };
            src_ok && dest_ok
        },
        StackLocation::Lake(_) => false,
    }
}

impl HandModel {
    /// The stack a move by `player` takes its cards from.
    pub open spec fn move_source(self, player: u8, from: StackLocation) -> Option<StackModel> {
        match from {
            StackLocation::Player(_, sl) => self.players[player as int].stack(sl),
            StackLocation::Lake(_) => None,
        }
    }

    /// The hand after taking the top `count` cards off the stack at `from`.
    pub open spec fn after_take(self, from: StackLocation, count: int) -> HandModel {
        let src = self.stack(from).unwrap();
        self.with_stack(from, src.with_cards(src.cards.subrange(0, src.cards.len() - count)))
    }

    /// The hand after moving the top `count` cards of `from` onto `to`: they
    /// are taken off first, then put on the destination as it then stands.
    pub open spec fn after_move(self, from: StackLocation, count: int, to: StackLocation) -> HandModel {
        let moved = top_cards(self.stack(from).unwrap(), count);
        let s1 = self.after_take(from, count);
        let dest = s1.stack(to).unwrap();
        s1.with_stack(to, dest.with_cards(dest.cards + moved))
    }

    /// The hand with the area of player `p` replaced by `m`.
    pub open spec fn with_player(self, p: int, m: PlayerModel) -> HandModel {
        HandModel { players: self.players.update(p, m), ..self }
    }

    /// The inputs on which `HandState::apply` returns at all: the player
    /// index is in range wherever the action reaches the player's area; a
    /// flip or return only moves cards the destination takes; a move whose
    /// source exists takes between one card and the whole source stack; and
    /// once its first card is accepted, every card it carries is accepted in
    /// turn.
    pub open spec fn apply_defined(self, player: u8, action: HandAction) -> bool {
        match action {
            HandAction::FlipStock => {
                &&& (player as int) < self.players.len()
                &&& self.players[player as int].waste.accepts_all(self.players[player as int].flip_cards())
            },
            HandAction::ReturnStock => {
                &&& (player as int) < self.players.len()
                &&& self.players[player as int].stock.accepts_all(
                    self.players[player as int].waste.cards.reverse(),
                )
            },
            HandAction::Move { from, count, to } => move_shape_ok(player, from, count, to) ==> {
                &&& (player as int) < self.players.len()
                &&& match self.move_source(player, from) {
                    None => true,
                    Some(src) => {
                        &&& 1 <= count <= src.cards.len()
                        &&& match self.stack(to) {
                            None => true,
                            Some(dest) => dest.accepts(src.cards[src.cards.len() - count]) ==> self.after_take(
                                from,
                                count as int,
                            ).stack(to).unwrap().accepts_all(top_cards(src, count as int)),
                        }
                    },
                }
            },
        }
    }

    /// What `HandState::apply` makes of the hand: `Some` of the new hand, or
    /// `None` where the action is refused (and the hand stays as it was).
    pub open spec fn apply_outcome(self, player: u8, action: HandAction) -> Option<HandModel> {
        match action {
            HandAction::FlipStock => Some(
                self.with_player(player as int, self.players[player as int].flipped()),
            ),
            HandAction::ReturnStock => Some(
                self.with_player(player as int, self.players[player as int].returned()),
            ),
            HandAction::Move { from, count, to } => if !move_shape_ok(player, from, count, to) {
                None
            } else {
                match self.move_source(player, from) {
                    None => None,
                    Some(src) => match self.stack(to) {
                        None => None,
                        Some(dest) => if dest.accepts(src.cards[src.cards.len() - count]) {
                            Some(self.after_move(from, count as int, to))
                        } else {
                            None
                        },
                    },
                }
            },
        }
    }
}

/// Putting back the stack a location already holds changes nothing.
proof fn lemma_with_same_stack(h: HandModel, loc: StackLocation)
    requires
        h.stack(loc) is Some,
    ensures
        h.with_stack(loc, h.stack(loc).unwrap()) == h,
{
    match loc {
        StackLocation::Lake(idx) => {
            assert(h.lakes.update(idx as int, h.lakes[idx as int]) =~= h.lakes);
        },
        StackLocation::Player(p, l) => {
            let pm = h.players[p as int];
            match l {
                PlayerStackLocation::Tableau(i) => {
                    assert(pm.tableau.update(i as int, pm.tableau[i as int]) =~= pm.tableau);
                },
                _ => {},
            }
            assert(pm.with_stack(l, pm.stack(l).unwrap()) =~= pm);
            assert(h.players.update(p as int, pm) =~= h.players);
        },
    }
    assert(h.with_stack(loc, h.stack(loc).unwrap()) =~= h);
}

#[derive(Clone, Debug)]
pub struct HandState {
    players: Vec<HandPlayerState>,
    lake_stacks: Vec<Stack>,
}

impl View for HandState {
    type V = HandModel;

    closed spec fn view(&self) -> HandModel {
        HandModel {
            players: self.players@.map_values(|p: HandPlayerState| p@),
            lakes: self.lake_stacks@.map_values(|s: Stack| s@),
        }
    }
}

impl HandState {
    pub open spec fn wf(self) -> bool {
        self@.valid()
    }

    /// A hand made of the given player areas and lake stacks.
    pub fn raw(players: Vec<HandPlayerState>, lake_stacks: Vec<Stack>) -> (res: Self)
        ensures
            res@ == (HandModel {
                players: players@.map_values(|p: HandPlayerState| p@),
                lakes: lake_stacks@.map_values(|s: Stack| s@),
            }),
    {
        Self { players, lake_stacks }
    }

    /// Deals a new hand: player `i` of the hand is `players[i]`, gets an area
    /// dealt from a freshly shuffled deck of cards belonging to index `i`
    /// (taken as a `u8`) with four tableau stacks, and the lake has four empty
    /// stacks per player, each to be built up by suit from the ace.
    pub fn generate(players: Vec<u8>) -> (res: Self)
        requires
            players@.len() <= usize::MAX / 4,
        ensures
            res@.players.len() == players@.len(),
            forall|i: int| 0 <= i < players@.len() ==> (#[trigger] res@.players[i]).freshly_dealt(
                players@[i],
                i as u8,
                4,
            ),
            res@.lakes.len() == 4 * players@.len(),
            forall|i: int| 0 <= i < res@.lakes.len() ==> #[trigger] res@.lakes[i] == (StackModel {
                order: StackOrder::SingleSuitUp,
                aces_first: true,
                cards: Seq::empty(),
            }),
            res.wf(),
    {
        let mut hand_players: Vec<HandPlayerState> = Vec::new();
        let mut idx: usize = 0;
        while idx < players.len()
            invariant
                idx <= players@.len(),
                hand_players@.len() == idx,
                forall|i: int| 0 <= i < idx ==> (#[trigger] hand_players@[i])@.freshly_dealt(
                    players@[i],
                    i as u8,
                    4,
                ),
            decreases players@.len() - idx,
        {
            hand_players.push(HandPlayerState::generate(players[idx], idx as u8, 4));
            idx = idx + 1;
        }
        let lake_count = hand_players.len() * 4;
        let mut lake_stacks: Vec<Stack> = Vec::new();
        let mut j: usize = 0;
        while j < lake_count
            invariant
                j <= lake_count,
                lake_stacks@.len() == j,
                forall|i: int| 0 <= i < j ==> (#[trigger] lake_stacks@[i])@ == (StackModel {
                    order: StackOrder::SingleSuitUp,
                    aces_first: true,
                    cards: Seq::empty(),
                }),
            decreases lake_count - j,
        {
            lake_stacks.push(Stack::new(StackOrder::SingleSuitUp, true));
            j = j + 1;
        }
        let res = Self { players: hand_players, lake_stacks };
        proof {
            assert forall|i: int| 0 <= i < res@.players.len() implies (#[trigger] res@.players[i]).valid() by {
                assert(res@.players[i] == hand_players@[i]@);
            }
            assert forall|i: int| 0 <= i < res@.lakes.len() implies (#[trigger] res@.lakes[i]).valid() by {
                assert(res@.lakes[i] == lake_stacks@[i]@);
            }
        }
        res
    }

    pub fn stack_at(&self, loc: StackLocation) -> (res: Option<&Stack>)
        ensures
            res is None <==> self@.stack(loc) is None,
            res matches Some(s) ==> self@.stack(loc) == Some(s@),
    {
        match loc {
            StackLocation::Lake(idx) => {
                if (idx as usize) < self.lake_stacks.len() {
                    Some(&self.lake_stacks[idx as usize])
                } else {
                    None
                }
            },
            StackLocation::Player(p, l) => {
                if (p as usize) < self.players.len() {
                    self.players[p as usize].stack_at(l)
                } else {
                    None
                }
            },
        }
    }

    /// Where in the hand player `player_id` sits.
    pub fn player_index(&self, player_id: u8) -> (res: Option<usize>)
        ensures
            match res {
                Some(i) => {
                    &&& i < self@.players.len()
                    &&& self@.players[i as int].player_id == player_id
                    &&& forall|k: int| 0 <= k < i ==> self@.players[k].player_id != player_id
                },
                None => forall|k: int| 0 <= k < self@.players.len() ==> self@.players[k].player_id != player_id,
            },
    {
        let mut i: usize = 0;
        while i < self.players.len()
            invariant
                i <= self@.players.len(),
                self@.players.len() == self.players@.len(),
                forall|k: int| 0 <= k < i ==> self@.players[k].player_id != player_id,
            decreases self@.players.len() - i,
        {
            assert(self.players@[i as int]@ == self@.players[i as int]);
            if self.players[i].player_id() == player_id {
                return Some(i);
            }
            i = i + 1;
        }
        None
    }

    pub fn players(&self) -> (res: &[HandPlayerState])
        ensures
            res@.map_values(|p: HandPlayerState| p@) == self@.players,
    {
        self.players.as_slice()
    }

    pub fn lake_stacks(&self) -> (res: &[Stack])
        ensures
            res@.map_values(|s: Stack| s@) == self@.lakes,
    {
        self.lake_stacks.as_slice()
    }

    pub fn apply(&mut self, player: u8, action: HandAction) -> (res: Result<(), CannotApplyAction>)
        requires
            old(self)@.apply_defined(player, action),
        ensures
            match old(self)@.apply_outcome(player, action) {
                Some(m) => res is Ok && final(self)@ == m,
                None => res is Err && final(self)@ == old(self)@,
            },
            old(self).wf() ==> final(self).wf(),
    {
        match action {
            HandAction::FlipStock => {
                self.players[player as usize].flip_stock();
                proof {
                    if old(self).wf() {
                        assert(old(self)@.players[player as int].valid());
                        self.lemma_valid_after_player_change(*old(self), player as int);
                    }
                }
                Ok(())
            },
            HandAction::ReturnStock => {
                self.players[player as usize].return_stock();
                proof {
                    if old(self).wf() {
                        assert(old(self)@.players[player as int].valid());
                        self.lemma_valid_after_player_change(*old(self), player as int);
                    }
                }
                Ok(())
            },
            HandAction::Move { from, count, to } => {
                if let StackLocation::Player(src_player, src_loc) = from {
                    if src_player != player {
                        return Err(CannotApplyAction);
                    }
                    match src_loc {
                        PlayerStackLocation::Nerts | PlayerStackLocation::Waste => {
                            if count != 1 {
                                return Err(CannotApplyAction);
                            }
                        },
                        PlayerStackLocation::Stock => {
                            return Err(CannotApplyAction);
                        },
                        PlayerStackLocation::Tableau(_) => {},
                    }
                    match to {
                        StackLocation::Player(dest_player, dest_loc) => {
                            if dest_player != player {
                                return Err(CannotApplyAction);
                            }
                            match dest_loc {
                                PlayerStackLocation::Tableau(_) => {},
                                _ => {
                                    return Err(CannotApplyAction);
                                },
                            }
                        },
                        StackLocation::Lake(_) => {},
                    }
                    let first_card = match self.players[player as usize].stack_at(src_loc) {
                        None => {
                            return Err(CannotApplyAction);
                        },
                        Some(src_stack) => src_stack.cards()[src_stack.len() - count as usize],
                    };
                    match self.stack_at(to) {
                        None => {
                            return Err(CannotApplyAction);
                        },
                        Some(dest_stack) => {
                            if !dest_stack.can_add(first_card) {
                                return Err(CannotApplyAction);
                            }
                        },
                    }
                    let taken = self.mut_stack_at(from).unwrap().pop_many(count as usize);
                    match taken {
                        Some(cards) => {
                            self.mut_stack_at(to).unwrap().push_all(&cards);
                            Ok(())
                        },
                        None => Err(CannotApplyAction),
                    }
                } else {
                    Err(CannotApplyAction)
                }
            },
        }
    }

    /// A hand that differs from a valid one only in one player area, itself
    /// valid, is valid.
    proof fn lemma_valid_after_player_change(self, before: HandState, p: int)
        requires
            before.wf(),
            0 <= p < before@.players.len(),
            self@.players.len() == before@.players.len(),
            self@.lakes == before@.lakes,
            self@.players[p].valid(),
            forall|q: int| 0 <= q < before@.players.len() && q != p ==> self@.players[q] == before@.players[q],
        ensures
            self.wf(),
    {
        assert forall|q: int| 0 <= q < self@.players.len() implies (#[trigger] self@.players[q]).valid() by {
            if q != p {
                assert(self@.players[q] == before@.players[q]);
            }
        }
    }

    /// Whether `apply` returns for this player and action (rather than
    /// failing an internal check): `apply` may be called exactly when this
    /// is `true`.
    pub fn apply_is_defined(&self, player: u8, action: HandAction) -> (res: bool)
        ensures
            res == self@.apply_defined(player, action),
    {
        if (player as usize) >= self.players.len() {
            return match action {
                HandAction::Move { from, count, to } => !move_shape_allowed(player, from, count, to),
                _ => false,
            };
        }
        let p = &self.players[player as usize];
        assert(p@ == self@.players[player as int]);
        match action {
            HandAction::FlipStock => {
                let stock = p.stock_stack().cards();
                let n = stock.len();
                let k = if n < 3 { n } else { 3 };
                let mut moved: Vec<CardInstance> = Vec::new();
                let mut t: usize = 0;
                while t < k
                    invariant
                        t <= k,
                        k <= n,
                        n == stock@.len(),
                        k == (if n < 3 { n } else { 3 }),
                        moved@ == stock@.subrange(n - k, n as int).reverse().take(t as int),
                    decreases k - t,
                {
                    moved.push(stock[n - 1 - t]);
                    proof {
                        assert(moved@ =~= stock@.subrange(n - k, n as int).reverse().take(t + 1));
                    }
                    t = t + 1;
                }
                assert(moved@ =~= p@.flip_cards());
                p.waste_stack().can_add_all(&moved)
            },
            HandAction::ReturnStock => {
                let waste = p.waste_stack().cards();
                let n = waste.len();
                let mut moved: Vec<CardInstance> = Vec::new();
                let mut t: usize = 0;
                while t < n
                    invariant
                        t <= n,
                        n == waste@.len(),
                        moved@ == waste@.reverse().take(t as int),
                    decreases n - t,
                {
                    moved.push(waste[n - 1 - t]);
                    proof {
                        assert(moved@ =~= waste@.reverse().take(t + 1));
                    }
                    t = t + 1;
                }
                assert(moved@ =~= waste@.reverse());
                p.stock_stack().can_add_all(&moved)
            },
            HandAction::Move { from, count, to } => {
                if !move_shape_allowed(player, from, count, to) {
                    return true;
                }
                let src_loc = match from {
                    StackLocation::Player(_, l) => l,
                    StackLocation::Lake(_) => {
                        return true;
                    },
                };
                let src = match p.stack_at(src_loc) {
                    None => {
                        return true;
                    },
                    Some(s) => s,
                };
                let n = src.len();
                if count == 0 || (count as usize) > n {
                    return false;
                }
                let first = src.cards()[n - count as usize];
                let dest = match self.stack_at(to) {
                    None => {
                        return true;
                    },
                    Some(d) => d,
                };
                if !dest.can_add(first) {
                    return true;
                }
                let cards = src.cards();
                let mut moved: Vec<CardInstance> = Vec::new();
                let mut t: usize = 0;
                while t < count as usize
                    invariant
                        t <= count,
                        count <= n,
                        n == cards@.len(),
                        moved@ == cards@.subrange(n - count, n as int).take(t as int),
                    decreases count - t,
                {
                    moved.push(cards[n - count as usize + t]);
                    proof {
                        assert(moved@ =~= cards@.subrange(n - count, n as int).take(t + 1));
                    }
                    t = t + 1;
                }
                assert(moved@ =~= cards@.subrange(n - count, n as int));
                if from == to {
                    src.can_add_all_after(n - count as usize, &moved)
                } else {
                    dest.can_add_all(&moved)
                }
            },
        }
    }

    /// Whether `apply` would carry the action out rather than refuse it,
    /// found without changing the hand.
    pub fn would_apply(&self, player: u8, action: HandAction) -> (res: bool)
        requires
            self@.apply_defined(player, action),
        ensures
            res == self@.apply_outcome(player, action) is Some,
    {
        match action {
            HandAction::FlipStock | HandAction::ReturnStock => true,
            HandAction::Move { from, count, to } => {
                if !move_shape_allowed(player, from, count, to) {
                    return false;
                }
                let src_loc = match from {
                    StackLocation::Player(_, l) => l,
                    StackLocation::Lake(_) => {
                        return false;
                    },
                };
                let p = &self.players[player as usize];
                assert(p@ == self@.players[player as int]);
                let src = match p.stack_at(src_loc) {
                    None => {
                        return false;
                    },
                    Some(s) => s,
                };
                let first = src.cards()[src.len() - count as usize];
                match self.stack_at(to) {
                    None => false,
                    Some(d) => d.can_add(first),
                }
            },
        }
    }

    /// Brings `card` out for the player at index `p` (the practice feeder):
    /// the first copy of it in the player's stock is taken out, the top stock
    /// card taking its place, and the card, as the player's own, goes on top
    /// of the player's waste.
    pub fn summon_to_waste(&mut self, p: u8, card: Card)
        requires
            (p as int) < old(self)@.players.len(),
            old(self)@.players[p as int].waste.accepts(CardInstance { card, owner_id: p }),
        ensures
            ({
                let pm = old(self)@.players[p as int];
                final(self)@ == old(self)@.with_player(
                    p as int,
                    PlayerModel {
                        stock: pm.stock.with_cards(without_card(pm.stock.cards, card)),
                        waste: pm.waste.with_cards(pm.waste.cards.push(CardInstance { card, owner_id: p })),
                        ..pm
                    },
                )
            }),
            old(self).wf() && old(self)@.players[p as int].stock.order == StackOrder::Any
                && !old(self)@.players[p as int].stock.aces_first ==> final(self).wf(),
    {
        let ghost before = *self;
        let ghost pm = self@.players[p as int];
        let stock_loc = StackLocation::Player(p, PlayerStackLocation::Stock);
        let waste_loc = StackLocation::Player(p, PlayerStackLocation::Waste);
        let stock = self.mut_stack_at(stock_loc).unwrap();
        stock.swap_remove_card(card);
        let waste = self.mut_stack_at(waste_loc).unwrap();
        let r = waste.try_add(CardInstance { card, owner_id: p });
        r.unwrap();
        proof {
            assert(self@.players[p as int] == (PlayerModel {
                stock: pm.stock.with_cards(without_card(pm.stock.cards, card)),
                waste: pm.waste.with_cards(pm.waste.cards.push(CardInstance { card, owner_id: p })),
                ..pm
            }));
            assert(self@ =~= before@.with_player(p as int, self@.players[p as int]));
            if before.wf() && pm.stock.order == StackOrder::Any && !pm.stock.aces_first {
                assert(pm.valid());
                self.lemma_valid_after_player_change(before, p as int);
            }
        }
    }

    /// Takes the top `count` cards of the stack at `from` and puts them, one
    /// after another, on top of the stock of the player at index `p` (the
    /// practice feeder taking cards back); nothing happens if the stack holds
    /// fewer cards. The cards must fit on the stock one after another.
    pub fn retract_to_stock(&mut self, from: StackLocation, count: u8, p: u8)
        requires
            old(self)@.stack(from) is Some,
            (p as int) < old(self)@.players.len(),
            ({
                let src = old(self)@.stack(from).unwrap();
                let to = StackLocation::Player(p, PlayerStackLocation::Stock);
                count <= src.cards.len() ==> old(self)@.after_take(from, count as int).stack(to).unwrap().accepts_all(
                    top_cards(src, count as int),
                )
            }),
        ensures
            ({
                let src = old(self)@.stack(from).unwrap();
                let to = StackLocation::Player(p, PlayerStackLocation::Stock);
                if count <= src.cards.len() {
                    final(self)@ == old(self)@.after_move(from, count as int, to)
                } else {
                    final(self)@ == old(self)@
                }
            }),
            old(self).wf() ==> final(self).wf(),
    {
        let to = StackLocation::Player(p, PlayerStackLocation::Stock);
        let ghost before = self@;
        let taken = self.mut_stack_at(from).unwrap().pop_many(count as usize);
        match taken {
            Some(cards) => {
                let ghost s1 = self@;
                proof {
                    let src = before.stack(from).unwrap();
                    assert(s1 == before.after_take(from, count as int));
                    assert(cards@ == top_cards(src, count as int));
                }
                self.mut_stack_at(to).unwrap().push_all(&cards);
                proof {
                    let dest = s1.stack(to).unwrap();
                    assert(self@ == s1.with_stack(to, dest.with_cards(dest.cards + cards@)));
                }
            },
            None => {
                proof {
                    lemma_with_same_stack(before, from);
                }
            },
        }
    }

    fn mut_stack_at(&mut self, loc: StackLocation) -> (res: Option<&mut Stack>)
        ensures
            res is None <==> old(self)@.stack(loc) is None,
            res is None ==> final(self)@ == old(self)@,
            res matches Some(s) ==> old(self)@.stack(loc) == Some(s@),
            res matches Some(s) ==> final(self)@ == old(self)@.with_stack(loc, final(s)@),
    {
        match loc {
            StackLocation::Lake(idx) => {
                if (idx as usize) < self.lake_stacks.len() {
                    Some(&mut self.lake_stacks[idx as usize])
                } else {
                    None
                }
            },
            StackLocation::Player(p, l) => {
                if (p as usize) < self.players.len() {
                    self.players[p as usize].mut_stack_at(l)
                } else {
                    None
                }
            },
        }
    }
}

} // verus!
