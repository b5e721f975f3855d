//! One player's part of a hand: the nerts pile, the stock and waste, and the
//! tableau.

use vstd::prelude::*;
use crate::cards::{CardInstance, group_rank, owned_deck, full_deck, deck};
use crate::stack::{Stack, StackModel, StackOrder};
use crate::random::shuffle;

verus! {

broadcast use group_rank;

/// Where a stack sits in a player's area.
#[derive(Clone, Copy, Debug, PartialEq, Eq, Hash, Structural)]
pub enum PlayerStackLocation {
    Nerts,
    Tableau(u8),
    Stock,
    Waste,
}

/// The abstract contents of a player's area.
#[verifier::ext_equal]
pub struct PlayerModel {
    pub player_id: u8,
    pub nerts: StackModel,
    pub stock: StackModel,
    pub waste: StackModel,
    pub tableau: Seq<StackModel>,
}

impl PlayerModel {
    /// The stack at `loc`, if there is one.
    pub open spec fn stack(self, loc: PlayerStackLocation) -> Option<StackModel> {
        match loc {
            PlayerStackLocation::Nerts => Some(self.nerts),
            PlayerStackLocation::Stock => Some(self.stock),
            PlayerStackLocation::Waste => Some(self.waste),
            PlayerStackLocation::Tableau(idx) => if (idx as int) < self.tableau.len() {
                Some(self.tableau[idx as int])
            } else {
                None
            },
        }
    }

    /// The same area with the stack at `loc` replaced by `s` (unchanged where
    /// there is no stack at `loc`).
    pub open spec fn with_stack(self, loc: PlayerStackLocation, s: StackModel) -> PlayerModel {
        match loc {
            PlayerStackLocation::Nerts => PlayerModel { nerts: s, ..self },
            PlayerStackLocation::Stock => PlayerModel { stock: s, ..self },
            PlayerStackLocation::Waste => PlayerModel { waste: s, ..self },
            PlayerStackLocation::Tableau(idx) => if (idx as int) < self.tableau.len() {
                PlayerModel { tableau: self.tableau.update(idx as int, s), ..self }
            } else {
                self
            },
        }
    }

    /// The area after turning over up to three cards from the stock onto the
    /// waste, one at a time.
    pub open spec fn flipped(self) -> PlayerModel {
        let n = self.stock.cards.len();
        let k = if n < 3 { n } else { 3 };
        PlayerModel {
            stock: self.stock.with_cards(self.stock.cards.subrange(0, n - k)),
            waste: self.waste.with_cards(
                self.waste.cards + self.stock.cards.subrange(n - k, n as int).reverse(),
            ),
            ..self
        }
    }

    /// The cards that `flipped` moves, in the order they land on the waste.
    pub open spec fn flip_cards(self) -> Seq<CardInstance> {
        let n = self.stock.cards.len();
        let k = if n < 3 { n } else { 3 };
        self.stock.cards.subrange(n - k, n as int).reverse()
    }

    /// The area after putting the whole waste back on the stock, last card first.
    pub open spec fn returned(self) -> PlayerModel {
        PlayerModel {
            stock: self.stock.with_cards(self.stock.cards + self.waste.cards.reverse()),
            waste: self.waste.with_cards(Seq::empty()),
            ..self
        }
    }

    /// Every stack obeys its rules, and the stock and the waste take any card.
    pub open spec fn valid(self) -> bool {
        &&& self.nerts.valid()
        &&& self.stock.valid()
        &&& self.waste.valid()
        &&& forall|i: int| 0 <= i < self.tableau.len() ==> (#[trigger] self.tableau[i]).valid()
        &&& self.stock.order == StackOrder::Any
        &&& !self.stock.aces_first
        &&& self.waste.order == StackOrder::Any
        &&& !self.waste.aces_first
    }
}

/// The cards of a tableau, stack after stack, each from bottom to top.
pub open spec fn tableau_cards(t: Seq<StackModel>) -> Seq<CardInstance>
    decreases t.len(),
{
    if t.len() == 0 {
        Seq::empty()
    } else {
        tableau_cards(t.drop_last()) + t.last().cards
    }
}

impl PlayerModel {
    /// Every card in the area: nerts pile, stock, waste, then the tableau.
    pub open spec fn all_cards(self) -> Seq<CardInstance> {
        self.nerts.cards + self.stock.cards + self.waste.cards + tableau_cards(self.tableau)
    }
}

impl PlayerModel {
    /// The shape of a freshly dealt area: player `player_id`, a 13-card nerts
    /// pile, `tableau_count` tableau stacks of one card each going down in
    /// alternating colors, the rest of the 48 cards in the stock, an empty
    /// waste, and, all together, exactly the deck with every card belonging
    /// to `owner`.
    pub open spec fn freshly_dealt(self, player_id: u8, owner: u8, tableau_count: int) -> bool {
        &&& self.player_id == player_id
        &&& self.nerts.order == StackOrder::Any && !self.nerts.aces_first
        &&& self.nerts.cards.len() == 13
        &&& self.stock.order == StackOrder::Any && !self.stock.aces_first
        &&& self.stock.cards.len() == 35 - tableau_count
        &&& self.waste == (StackModel { order: StackOrder::Any, aces_first: false, cards: Seq::empty() })
        &&& self.tableau.len() == tableau_count
        &&& forall|i: int| 0 <= i < tableau_count ==> {
            &&& (#[trigger] self.tableau[i]).order == StackOrder::AlternatingDown
            &&& !self.tableau[i].aces_first
            &&& self.tableau[i].cards.len() == 1
        }
        &&& self.valid()
        &&& self.all_cards().to_multiset() == owned_deck(owner).to_multiset()
    }
}

/// A tableau of single-card stacks holds those cards, in stack order.
proof fn lemma_tableau_singletons(t: Seq<StackModel>, s: Seq<CardInstance>)
    requires
        t.len() == s.len(),
        forall|i: int| 0 <= i < t.len() ==> (#[trigger] t[i]).cards == seq![s[i]],
    ensures
        tableau_cards(t) == s,
    decreases t.len(),
{
    if t.len() > 0 {
        lemma_tableau_singletons(t.drop_last(), s.drop_last());
        assert(s.drop_last() + t.last().cards =~= s);
    }
}

#[derive(Clone, Debug)]
pub struct HandPlayerState {
    player_id: u8,
    nerts_stack: Stack,
    stock_stack: Stack,
    waste_stack: Stack,
    tableau_stacks: Vec<Stack>,
}

impl View for HandPlayerState {
    type V = PlayerModel;

    closed spec fn view(&self) -> PlayerModel {
        PlayerModel {
            player_id: self.player_id,
            nerts: self.nerts_stack@,
            stock: self.stock_stack@,
            waste: self.waste_stack@,
            tableau: self.tableau_stacks@.map_values(|s: Stack| s@),
        }
    }
}

impl HandPlayerState {
    pub open spec fn wf(self) -> bool {
        self@.valid()
    }

    /// An area made of the given stacks.
    pub fn raw(
        player_id: u8,
        nerts_stack: Stack,
        stock_stack: Stack,
        waste_stack: Stack,
        tableau_stacks: Vec<Stack>,
    ) -> (res: Self)
        ensures
            res@ == (PlayerModel {
                player_id,
                nerts: nerts_stack@,
                stock: stock_stack@,
                waste: waste_stack@,
                tableau: tableau_stacks@.map_values(|s: Stack| s@),
            }),
    {
        Self { player_id, nerts_stack, stock_stack, waste_stack, tableau_stacks }
    }

    /// Deals a player's area from `cards`, the top of the pile being the last
    /// card: the top 13 cards become the nerts pile, the next
    /// `tableau_stacks_count` cards start one tableau stack each (top card
    /// first), the rest is the stock, and the waste is empty.
    pub fn deal(player_id: u8, cards: Vec<CardInstance>, tableau_stacks_count: usize) -> (res: Self)
        requires
            cards@.len() >= 13 + tableau_stacks_count,
        ensures
            res@.player_id == player_id,
            res@.nerts == (StackModel {
                order: StackOrder::Any,
                aces_first: false,
                cards: cards@.subrange(cards@.len() - 13, cards@.len() as int),
            }),
            res@.stock == (StackModel {
                order: StackOrder::Any,
                aces_first: false,
                cards: cards@.subrange(0, cards@.len() - 13 - tableau_stacks_count),
            }),
            res@.waste == (StackModel { order: StackOrder::Any, aces_first: false, cards: Seq::empty() }),
            res@.tableau.len() == tableau_stacks_count,
            forall|i: int| 0 <= i < tableau_stacks_count ==> #[trigger] res@.tableau[i] == (StackModel {
                order: StackOrder::AlternatingDown,
                aces_first: false,
                cards: seq![cards@[cards@.len() - 14 - i]],
            }),
            res.wf(),
            res@.all_cards().to_multiset() == cards@.to_multiset(),
    {
        let ghost c = cards@;
        let ghost len = cards@.len();
        let mut cards = cards;
        let at = cards.len() - 13;
        let nerts = cards.split_off(at);
        let nerts_stack = Stack::from_list_unordered(nerts);
        let mut tableau_stacks: Vec<Stack> = Vec::new();
        let mut i: usize = 0;
        while i < tableau_stacks_count
            invariant
                i <= tableau_stacks_count,
                len == c.len(),
                len >= 13 + tableau_stacks_count,
                cards@ == c.subrange(0, len - 13 - i),
                tableau_stacks@.len() == i,
                forall|j: int| 0 <= j < i ==> #[trigger] tableau_stacks@[j]@ == (StackModel {
                    order: StackOrder::AlternatingDown,
                    aces_first: false,
                    cards: seq![c[len - 14 - j]],
                }),
            decreases tableau_stacks_count - i,
        {
            let card = cards.pop().unwrap();
            tableau_stacks.push(Stack::from_one(StackOrder::AlternatingDown, false, card));
            proof {
                assert(cards@ =~= c.subrange(0, len - 13 - (i + 1)));
            }
            i = i + 1;
        }
        let stock_stack = Stack::from_list_unordered(cards);
        let waste_stack = Stack::new(StackOrder::Any, false);
        let res = Self { player_id, nerts_stack, tableau_stacks, stock_stack, waste_stack };
        proof {
            let k = tableau_stacks_count as int;
            let m = res@;
            assert(m.tableau.len() == k);
            let mid = Seq::new(k as nat, |j: int| c[len - 14 - j]);
            assert forall|j: int| 0 <= j < k implies (#[trigger] m.tableau[j]).cards == seq![mid[j]] by {
                assert(m.tableau[j] == tableau_stacks@[j]@);
            }
            lemma_tableau_singletons(m.tableau, mid);
            assert(mid =~= c.subrange(len - 13 - k, len - 13).reverse());
            c.subrange(len - 13 - k, len - 13).lemma_reverse_to_multiset();
            let nerts_part = c.subrange(len - 13, len as int);
            let stock_part = c.subrange(0, len - 13 - k);
            let mid_part = c.subrange(len - 13 - k, len - 13);
            assert(c =~= stock_part + mid_part + nerts_part);
            assert(m.all_cards() =~= nerts_part + stock_part + Seq::<CardInstance>::empty() + mid);
            broadcast use vstd::seq_lib::lemma_multiset_commutative;
            broadcast use vstd::multiset::group_multiset_axioms;
            assert(m.all_cards().to_multiset() =~= c.to_multiset());
            assert forall|j: int| 0 <= j < m.tableau.len() implies (#[trigger] m.tableau[j]).valid() by {
                assert(m.tableau[j] == tableau_stacks@[j]@);
            }
        }
        res
    }

    /// Deals a fresh area for player `player_id` from a shuffled deck whose
    /// cards all belong to `hand_player_id`.
    pub fn generate(player_id: u8, hand_player_id: u8, tableau_stacks_count: usize) -> (res: Self)
        requires
            tableau_stacks_count <= 35,
        ensures
            res@.freshly_dealt(player_id, hand_player_id, tableau_stacks_count as int),
    {
        let deck_cards = full_deck();
        let mut cards: Vec<CardInstance> = Vec::new();
        let mut i: usize = 0;
        while i < deck_cards.len()
            invariant
                i <= deck_cards@.len(),
                deck_cards@ == deck(),
                cards@ == owned_deck(hand_player_id).take(i as int),
            decreases deck_cards@.len() - i,
        {
            cards.push(CardInstance { owner_id: hand_player_id, card: deck_cards[i] });
            proof {
                assert(cards@ =~= owned_deck(hand_player_id).take(i + 1));
            }
            i = i + 1;
        }
        assert(cards@ =~= owned_deck(hand_player_id));
        shuffle(&mut cards);
        Self::deal(player_id, cards, tableau_stacks_count)
    }

    pub fn flip_stock(&mut self)
        requires
            old(self)@.waste.accepts_all(old(self)@.flip_cards()),
        ensures
            final(self)@ == old(self)@.flipped(),
            old(self).wf() ==> final(self).wf(),
    {
        let ghost orig = self@;
        let ghost n = orig.stock.cards.len();
        let mut i: usize = 0;
        while i < 3
            invariant
                0 <= i <= 3,
                i <= n,
                n == orig.stock.cards.len(),
                orig.waste.accepts_all(orig.flip_cards()),
                self@ == (PlayerModel {
                    stock: orig.stock.with_cards(orig.stock.cards.subrange(0, n - i)),
                    waste: orig.waste.with_cards(
                        orig.waste.cards + orig.stock.cards.subrange(n - i, n as int).reverse(),
                    ),
                    ..orig
                }),
                orig.valid() ==> self.wf(),
            ensures
                self@ == orig.flipped(),
                orig.valid() ==> self.wf(),
            decreases 3 - i,
        {
            assert(self.stock_stack@.cards == orig.stock.cards.subrange(0, n - i));
            let popped = self.stock_stack.pop();
            match popped {
                Some(card) => {
                    proof {
                        assert(card == orig.stock.cards[n - i - 1]);
                        let moved = orig.flip_cards();
                        assert(moved.take(i as int) =~= orig.stock.cards.subrange(n - i, n as int).reverse());
                        assert(moved[i as int] == card);
                        assert(orig.waste.with_cards(orig.waste.cards + moved.take(i as int)).accepts(moved[i as int]));
                    }
                    let r = self.waste_stack.try_add(card);
                    r.unwrap();
                    proof {
                        assert(orig.stock.cards.subrange(0, n - i).drop_last() =~= orig.stock.cards.subrange(0, n - i - 1));
                        assert(orig.stock.cards.subrange(n - i, n as int).reverse().push(card) =~= orig.stock.cards.subrange(n - i - 1, n as int).reverse());
                        assert(self@.tableau =~= orig.tableau);
                    }
                    i = i + 1;
                },
                None => {
                    assert(n == i);
                    assert(self.stock_stack@.cards =~= orig.stock.cards.subrange(0, n - i));
                    break;
                },
            }
        }
        proof {
            assert(self@.tableau =~= orig.tableau);
        }
    }

    pub fn return_stock(&mut self)
        requires
            old(self)@.stock.accepts_all(old(self)@.waste.cards.reverse()),
        ensures
            final(self)@ == old(self)@.returned(),
            old(self).wf() ==> final(self).wf(),
    {
        let ghost orig = self@;
        let cards = self.waste_stack.take_all();
        let mut i: usize = cards.len();
        while i > 0
            invariant
                i <= cards@.len(),
                cards@ == orig.waste.cards,
                orig.stock.accepts_all(orig.waste.cards.reverse()),
                self@ == (PlayerModel {
                    stock: orig.stock.with_cards(orig.stock.cards + cards@.subrange(i as int, cards@.len() as int).reverse()),
                    waste: orig.waste.with_cards(Seq::empty()),
                    ..orig
                }),
                orig.valid() ==> self.wf(),
            decreases i,
        {
            let card = cards[i - 1];
            proof {
                let moved = orig.waste.cards.reverse();
                let j = cards@.len() - i;
                assert(moved.take(j) =~= cards@.subrange(i as int, cards@.len() as int).reverse());
                assert(moved[j] == card);
                assert(orig.stock.with_cards(orig.stock.cards + moved.take(j)).accepts(moved[j]));
            }
            let r = self.stock_stack.try_add(card);
            r.unwrap();
            proof {
                assert(cards@.subrange(i as int, cards@.len() as int).reverse().push(card) =~= cards@.subrange(i - 1, cards@.len() as int).reverse());
                assert(orig.stock.cards + cards@.subrange(i as int, cards@.len() as int).reverse().push(card) =~= orig.stock.cards + cards@.subrange(i - 1, cards@.len() as int).reverse());
                assert(self@.tableau =~= orig.tableau);
            }
            i = i - 1;
        }
        proof {
            assert(cards@.subrange(0, cards@.len() as int) =~= cards@);
        }
    }

    pub fn stack_at(&self, loc: PlayerStackLocation) -> (res: Option<&Stack>)
        ensures
            res is None <==> self@.stack(loc) is None,
            res matches Some(s) ==> self@.stack(loc) == Some(s@),
    {
        match loc {
            PlayerStackLocation::Nerts => Some(self.nerts_stack()),
            PlayerStackLocation::Stock => Some(self.stock_stack()),
            PlayerStackLocation::Waste => Some(self.waste_stack()),
            PlayerStackLocation::Tableau(idx) => {
                if (idx as usize) < self.tableau_stacks.len() {
                    Some(&self.tableau_stacks[idx as usize])
                } else {
                    None
                }
            },
        }
    }

    pub fn mut_stack_at(&mut self, loc: PlayerStackLocation) -> (res: Option<&mut Stack>)
        ensures
            res is None <==> old(self)@.stack(loc) is None,
            res is None ==> final(self)@ == old(self)@,
            res matches Some(s) ==> old(self)@.stack(loc) == Some(s@),
            res matches Some(s) ==> final(self)@ == old(self)@.with_stack(loc, final(s)@),
    {
        match loc {
            PlayerStackLocation::Nerts => Some(&mut self.nerts_stack),
            PlayerStackLocation::Stock => Some(&mut self.stock_stack),
            PlayerStackLocation::Waste => Some(&mut self.waste_stack),
            PlayerStackLocation::Tableau(idx) => {
                if (idx as usize) < self.tableau_stacks.len() {
                    Some(&mut self.tableau_stacks[idx as usize])
                } else {
                    None
                }
            },
        }
    }

    pub fn nerts_stack(&self) -> (res: &Stack)
        ensures
            res@ == self@.nerts,
    {
        &self.nerts_stack
    }

    pub fn stock_stack(&self) -> (res: &Stack)
        ensures
            res@ == self@.stock,
    {
        &self.stock_stack
    }

    pub fn waste_stack(&self) -> (res: &Stack)
        ensures
            res@ == self@.waste,
    {
        &self.waste_stack
    }

    pub fn tableau_stacks(&self) -> (res: &[Stack])
        ensures
            res@.map_values(|s: Stack| s@) == self@.tableau,
    {
        self.tableau_stacks.as_slice()
    }

    pub fn player_id(&self) -> (res: u8)
        ensures
            res == self@.player_id,
    {
        self.player_id
    }
}

} // verus!
