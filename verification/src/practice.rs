//! Practice scenarios: hands set up to train one skill, and when each one
//! is finished.

use vstd::prelude::*;
use vstd::multiset::Multiset;
use crate::cards::{Card, CardInstance, Rank, Suit, group_rank, owned_deck, full_deck, rank_of, suit_at};
use crate::stack::{Stack, StackModel, StackOrder};
use crate::player::{HandPlayerState, PlayerModel};
use crate::hand::{HandModel, HandState};
use crate::random::shuffle;
use crate::runs::{can_deal, holds_ranks_from, stack_pile};

verus! {

broadcast use group_rank;

#[derive(Clone, Copy, PartialEq, Eq, Debug, Structural)]
pub enum PracticeSpec {
    /// Play a whole suit, dealt upside down, onto one lake stack.
    Invert,
    /// Sort a shuffled pile of four descending suits onto four lake stacks.
    Distribute,
    /// Build the nerts pile down onto five empty tableau stacks.
    Stack,
    /// Go through a whole stock, fed aces by a second player.
    Flip,
}

/// An empty lake stack, built up by suit from the ace.
pub open spec fn empty_lake() -> StackModel {
    StackModel { order: StackOrder::SingleSuitUp, aces_first: true, cards: Seq::empty() }
}

/// An empty stack that takes anything.
pub open spec fn empty_any() -> StackModel {
    StackModel { order: StackOrder::Any, aces_first: false, cards: Seq::empty() }
}

fn lake_stack() -> (res: Stack)
    ensures
        res@ == empty_lake(),
{
    Stack::new(StackOrder::SingleSuitUp, true)
}

/// The pile of the invert scenario: the hearts of the deck, highest rank
/// at the bottom.
pub open spec fn invert_pile() -> Seq<CardInstance> {
    Seq::new(12, |k: int| CardInstance { card: Card { suit: Suit::Hearts, rank: rank_of(12 - k).unwrap() }, owner_id: 0 })
}

/// How many of `suits` are `s`.
pub open spec fn suit_count(suits: Seq<Suit>, s: Suit) -> int
    decreases suits.len(),
{
    if suits.len() == 0 {
        0
    } else {
        suit_count(suits.drop_last(), s) + if suits.last() == s { 1int } else { 0int }
    }
}

/// The pile of the distribute scenario for a given order of suits: card
/// `k` has suit `order[k]` and is the next lower card of that suit, from the
/// king down.
pub open spec fn distributed_pile(order: Seq<Suit>) -> Seq<CardInstance> {
    Seq::new(order.len(), |k: int| CardInstance {
        card: Card { suit: order[k], rank: rank_of(13 - suit_count(order.take(k), order[k])).unwrap() },
        owner_id: 0,
    })
}

/// Thirteen of each suit, in any order.
pub open spec fn thirteen_each(order: Seq<Suit>) -> bool {
    order.len() == 52 && forall|s: Suit| suit_count(order, s) == 13
}

/// The four aces, belonging to the second player.
pub open spec fn feeder_aces() -> Seq<CardInstance> {
    Seq::new(4, |k: int| CardInstance { card: Card { suit: suit_at(k), rank: rank_of(1).unwrap() }, owner_id: 1 })
}

/// The hand a scenario starts from. For the scenarios that shuffle, this
/// pins everything but the order of the shuffled cards (see `gen_hand`).
pub open spec fn practice_hand_shape(spec: PracticeSpec, h: HandModel) -> bool {
    match spec {
        PracticeSpec::Invert => h == (HandModel {
            players: seq![PlayerModel {
                player_id: 0,
                nerts: StackModel { order: StackOrder::Any, aces_first: false, cards: invert_pile() },
                stock: empty_any(),
                waste: empty_any(),
                tableau: Seq::empty(),
            }],
            lakes: seq![empty_lake()],
        }),
        PracticeSpec::Distribute => {
            &&& h.players.len() == 1
            &&& h.players[0].player_id == 0
            &&& h.players[0].stock == empty_any()
            &&& h.players[0].waste == empty_any()
            &&& h.players[0].tableau.len() == 0
            &&& h.players[0].nerts.order == StackOrder::Any && !h.players[0].nerts.aces_first
            &&& exists|order: Seq<Suit>| thirteen_each(order) && h.players[0].nerts.cards == distributed_pile(order)
            &&& h.lakes == seq![empty_lake(), empty_lake(), empty_lake(), empty_lake()]
        },
        PracticeSpec::Stack => {
            &&& h.players.len() == 1
            &&& h.players[0].player_id == 0
            &&& h.players[0].stock == empty_any()
            &&& h.players[0].waste == empty_any()
            &&& h.players[0].nerts.order == StackOrder::Any && !h.players[0].nerts.aces_first
            &&& h.players[0].nerts.cards.len() == 52
            &&& holds_ranks_from(h.players[0].nerts.cards.to_multiset(), 1)
            &&& can_deal(h.players[0].nerts.cards, Multiset::empty())
            &&& h.players[0].tableau.len() == 5
            &&& forall|i: int| 0 <= i < 5 ==> #[trigger] h.players[0].tableau[i] == (StackModel {
                order: StackOrder::AlternatingDown,
                aces_first: false,
                cards: Seq::empty(),
            })
            &&& h.lakes.len() == 0
        },
        PracticeSpec::Flip => {
            &&& h.players.len() == 2
            &&& h.players[0].player_id == 0
            &&& h.players[0].nerts == empty_any()
            &&& h.players[0].waste == empty_any()
            &&& h.players[0].tableau.len() == 0
            &&& h.players[0].stock.order == StackOrder::Any && !h.players[0].stock.aces_first
            &&& h.players[0].stock.cards.to_multiset() == owned_deck(0).to_multiset()
            &&& h.players[1].player_id == 1
            &&& h.players[1].nerts == empty_any()
            &&& h.players[1].waste == empty_any()
            &&& h.players[1].tableau.len() == 0
            &&& h.players[1].stock.order == StackOrder::Any && !h.players[1].stock.aces_first
            &&& h.players[1].stock.cards.to_multiset() == feeder_aces().to_multiset()
            &&& h.lakes.len() == 8
            &&& forall|i: int| 0 <= i < 8 ==> #[trigger] h.lakes[i] == empty_lake()
        },
    }
}

/// The index of a suit in declared order.
fn suit_index(s: Suit) -> (res: usize)
    ensures
        res < 4,
        suit_at(res as int) == s,
{
    match s {
        Suit::Spades => 0,
        Suit::Diamonds => 1,
        Suit::Clubs => 2,
        Suit::Hearts => 3,
    }
}

proof fn lemma_suit_count_multiset(suits: Seq<Suit>, s: Suit)
    ensures
        suit_count(suits, s) == suits.to_multiset().count(s),
    decreases suits.len(),
{
    broadcast use vstd::multiset::group_multiset_axioms;
    if suits.len() > 0 {
        lemma_suit_count_multiset(suits.drop_last(), s);
        assert(suits.drop_last().push(suits.last()) =~= suits);
        vstd::seq_lib::to_multiset_build(suits.drop_last(), suits.last());
        assert(suits.to_multiset() =~= suits.drop_last().to_multiset().insert(suits.last()));
    } else {
        suits.to_multiset_ensures();
        assert(suits.to_multiset().len() == 0);
        assert(suits.to_multiset() =~= Multiset::empty());
    }
}

/// Deals the distribute pile for an order of suits: each card is the next
/// lower one of its suit, starting from the king.
pub fn distribute_pile(order: &Vec<Suit>) -> (res: Vec<CardInstance>)
    requires
        forall|s: Suit| suit_count(order@, s) <= 13,
    ensures
        res@ == distributed_pile(order@),
{
    let mut used: Vec<u8> = Vec::new();
    used.push(0);
    used.push(0);
    used.push(0);
    used.push(0);
    let mut res: Vec<CardInstance> = Vec::new();
    let mut k: usize = 0;
    while k < order.len()
        invariant
            k <= order@.len(),
            forall|s: Suit| suit_count(order@, s) <= 13,
            used@.len() == 4,
            forall|i: int| 0 <= i < 4 ==> #[trigger] used@[i] == suit_count(order@.take(k as int), suit_at(i)),
            res@ == distributed_pile(order@).take(k as int),
        decreases order@.len() - k,
    {
        let s = order[k];
        let si = suit_index(s);
        proof {
            lemma_suit_count_prefix(order@, k + 1, s);
            assert(order@.take(k + 1).drop_last() =~= order@.take(k as int));
        }
        let n = used[si];
        let rank = Rank::new(13 - n);
        res.push(CardInstance { card: Card { suit: s, rank }, owner_id: 0 });
        used.set(si, n + 1);
        proof {
            assert(res@ =~= distributed_pile(order@).take(k + 1));
            assert forall|i: int| 0 <= i < 4 implies #[trigger] used@[i] == suit_count(order@.take(k + 1), suit_at(i)) by {
                assert(order@.take(k + 1).drop_last() =~= order@.take(k as int));
            }
        }
        k = k + 1;
    }
    assert(distributed_pile(order@).take(k as int) =~= distributed_pile(order@));
    res
}

proof fn lemma_suit_count_prefix(suits: Seq<Suit>, k: int, s: Suit)
    requires
        0 <= k <= suits.len(),
    ensures
        suit_count(suits.take(k), s) <= suit_count(suits, s),
    decreases suits.len() - k,
{
    if k < suits.len() {
        lemma_suit_count_prefix(suits, k + 1, s);
        assert(suits.take(k + 1).drop_last() =~= suits.take(k));
    } else {
        assert(suits.take(k) =~= suits);
    }
}

/// Every suit is one of the four, in declared order.
proof fn lemma_suit_at_index(s: Suit)
    ensures
        exists|t: int| 0 <= t < 4 && suit_at(t) == s,
{
    match s {
        Suit::Spades => assert(suit_at(0) == s),
        Suit::Diamonds => assert(suit_at(1) == s),
        Suit::Clubs => assert(suit_at(2) == s),
        Suit::Hearts => assert(suit_at(3) == s),
    }
}

/// Thirteen of each suit, suit after suit.
fn thirteen_of_each() -> (res: Vec<Suit>)
    ensures
        thirteen_each(res@),
{
    let suits = Suit::all();
    let mut list: Vec<Suit> = Vec::new();
    let mut i: usize = 0;
    while i < 4
        invariant
            i <= 4,
            suits@.len() == 4,
            forall|t: int| 0 <= t < 4 ==> suits@[t] == suit_at(t),
            list@.len() == 13 * i,
            forall|t: int| 0 <= t < 4 ==> #[trigger] suit_count(list@, suit_at(t)) == if t < i { 13int } else { 0int },
        decreases 4 - i,
    {
        let mut j: usize = 0;
        while j < 13
            invariant
                i < 4,
                j <= 13,
                suits@.len() == 4,
                forall|t: int| 0 <= t < 4 ==> suits@[t] == suit_at(t),
                list@.len() == 13 * i + j,
                forall|t: int| 0 <= t < 4 ==> #[trigger] suit_count(list@, suit_at(t)) == if t < i {
                    13int
                } else if t == i {
                    j as int
                } else {
                    0int
                },
            decreases 13 - j,
        {
            let ghost before = list@;
            list.push(suits[i]);
            proof {
                assert(list@.drop_last() =~= before);
                assert forall|t: int| 0 <= t < 4 implies #[trigger] suit_count(list@, suit_at(t)) == if t < i {
                    13int
                } else if t == i {
                    j + 1
                } else {
                    0int
                } by {
                    assert(suit_at(t) == suit_at(i as int) <==> t == i);
                    assert(list@.last() == suit_at(i as int));
                    assert(suit_count(list@, suit_at(t)) == suit_count(before, suit_at(t)) + if list@.last() == suit_at(t) { 1int } else { 0int });
                }
            }
            j = j + 1;
        }
        i = i + 1;
    }
    proof {
        assert forall|s: Suit| suit_count(list@, s) == 13 by {
            lemma_suit_at_index(s);
            let t = choose|t: int| 0 <= t < 4 && suit_at(t) == s;
            assert(suit_count(list@, suit_at(t)) == 13);
        }
    }
    list
}

/// The owned deck of `owner`, in deck order.
fn owned_deck_cards(owner: u8) -> (res: Vec<CardInstance>)
    ensures
        res@ == owned_deck(owner),
{
    let deck_cards = full_deck();
    let mut cards: Vec<CardInstance> = Vec::new();
    let mut i: usize = 0;
    while i < deck_cards.len()
        invariant
            i <= deck_cards@.len(),
            deck_cards@ == crate::cards::deck(),
            cards@ == owned_deck(owner).take(i as int),
        decreases deck_cards@.len() - i,
    {
        cards.push(CardInstance { card: deck_cards[i], owner_id: owner });
        proof {
            assert(cards@ =~= owned_deck(owner).take(i + 1));
        }
        i = i + 1;
    }
    assert(cards@ =~= owned_deck(owner));
    cards
}

impl PracticeSpec {
    /// Every scenario, in the order they are offered.
    pub fn all() -> (res: Vec<PracticeSpec>)
        ensures
            res@ == seq![PracticeSpec::Invert, PracticeSpec::Distribute, PracticeSpec::Stack, PracticeSpec::Flip],
    {
        let mut v: Vec<PracticeSpec> = Vec::new();
        v.push(PracticeSpec::Invert);
        v.push(PracticeSpec::Distribute);
        v.push(PracticeSpec::Stack);
        v.push(PracticeSpec::Flip);
        v
    }

    /// The scenario's name, as shown to the player.
    pub fn label(&self) -> (res: &'static str)
        ensures
            res@ == match *self {
                PracticeSpec::Invert => "Invert"@,
                PracticeSpec::Distribute => "Distribute"@,
                PracticeSpec::Stack => "Stack"@,
                PracticeSpec::Flip => "Flip"@,
            },
    {
        match self {
            PracticeSpec::Invert => "Invert",
            PracticeSpec::Distribute => "Distribute",
            PracticeSpec::Stack => "Stack",
            PracticeSpec::Flip => "Flip",
        }
    }

    /// Sets up the scenario's hand. The distribute, stack and flip scenarios
    /// shuffle or choose at random; `practice_hand_shape` says what holds
    /// whatever the random choices were.
    pub fn gen_hand(&self) -> (res: HandState)
        ensures
            practice_hand_shape(*self, res@),
    {
        match self {
            PracticeSpec::Invert => {
                let mut list: Vec<CardInstance> = Vec::new();
                let mut k: u8 = 0;
                while k < 12
                    invariant
                        k <= 12,
                        list@ == invert_pile().take(k as int),
                    decreases 12 - k,
                {
                    list.push(CardInstance { card: Card { suit: Suit::Hearts, rank: Rank::new(12 - k) }, owner_id: 0 });
                    proof {
                        assert(list@ =~= invert_pile().take(k + 1));
                    }
                    k = k + 1;
                }
                assert(list@ =~= invert_pile());
                let player = HandPlayerState::raw(
                    0,
                    Stack::from_list_unordered(list),
                    Stack::new(StackOrder::Any, false),
                    Stack::new(StackOrder::Any, false),
                    Vec::new(),
                );
                let mut players: Vec<HandPlayerState> = Vec::new();
                players.push(player);
                let mut lakes: Vec<Stack> = Vec::new();
                lakes.push(lake_stack());
                let res = HandState::raw(players, lakes);
                assert(res@.players =~= seq![player@]);
                assert(player@.tableau =~= Seq::<StackModel>::empty());
                assert(res@.lakes =~= seq![empty_lake()]);
                res
            },
            PracticeSpec::Distribute => {
                let mut order = thirteen_of_each();
                let ghost before = order@;
                shuffle(&mut order);
                proof {
                    assert forall|s: Suit| suit_count(order@, s) == 13 by {
                        lemma_suit_count_multiset(order@, s);
                        lemma_suit_count_multiset(before, s);
                    }
                }
                let pile = distribute_pile(&order);
                let player = HandPlayerState::raw(
                    0,
                    Stack::from_list_unordered(pile),
                    Stack::new(StackOrder::Any, false),
                    Stack::new(StackOrder::Any, false),
                    Vec::new(),
                );
                let mut players: Vec<HandPlayerState> = Vec::new();
                players.push(player);
                let mut lakes: Vec<Stack> = Vec::new();
                let mut i: usize = 0;
                while i < 4
                    invariant
                        i <= 4,
                        lakes@.len() == i,
                        forall|j: int| 0 <= j < i ==> (#[trigger] lakes@[j])@ == empty_lake(),
                    decreases 4 - i,
                {
                    lakes.push(lake_stack());
                    i = i + 1;
                }
                let res = HandState::raw(players, lakes);
                assert(res@.players =~= seq![player@]);
                assert(res@.lakes =~= seq![empty_lake(), empty_lake(), empty_lake(), empty_lake()]);
                assert(thirteen_each(order@) && res@.players[0].nerts.cards == distributed_pile(order@));
                res
            },
            PracticeSpec::Stack => {
                let pile = stack_pile();
                let mut tableau: Vec<Stack> = Vec::new();
                let mut i: usize = 0;
                while i < 5
                    invariant
                        i <= 5,
                        tableau@.len() == i,
                        forall|j: int| 0 <= j < i ==> (#[trigger] tableau@[j])@ == (StackModel {
                            order: StackOrder::AlternatingDown,
                            aces_first: false,
                            cards: Seq::empty(),
                        }),
                    decreases 5 - i,
                {
                    tableau.push(Stack::new(StackOrder::AlternatingDown, false));
                    i = i + 1;
                }
                let player = HandPlayerState::raw(
                    0,
                    Stack::from_list_unordered(pile),
                    Stack::new(StackOrder::Any, false),
                    Stack::new(StackOrder::Any, false),
                    tableau,
                );
                let mut players: Vec<HandPlayerState> = Vec::new();
                players.push(player);
                let res = HandState::raw(players, Vec::new());
                assert(res@.players =~= seq![player@]);
                res
            },
            PracticeSpec::Flip => {
                let mut first = owned_deck_cards(0);
                shuffle(&mut first);
                let mut aces: Vec<CardInstance> = Vec::new();
                let suits = Suit::all();
                let mut i: usize = 0;
                while i < 4
                    invariant
                        i <= 4,
                        suits@.len() == 4,
                        forall|t: int| 0 <= t < 4 ==> suits@[t] == suit_at(t),
                        aces@ == feeder_aces().take(i as int),
                    decreases 4 - i,
                {
                    aces.push(CardInstance { card: Card { suit: suits[i], rank: Rank::ace() }, owner_id: 1 });
                    proof {
                        crate::cards::lemma_rank_of(1);
                        assert(aces@ =~= feeder_aces().take(i + 1));
                    }
                    i = i + 1;
                }
                assert(aces@ =~= feeder_aces());
                shuffle(&mut aces);
                let p0 = HandPlayerState::raw(
                    0,
                    Stack::new(StackOrder::Any, false),
                    Stack::from_list_unordered(first),
                    Stack::new(StackOrder::Any, false),
                    Vec::new(),
                );
                let p1 = HandPlayerState::raw(
                    1,
                    Stack::new(StackOrder::Any, false),
                    Stack::from_list_unordered(aces),
                    Stack::new(StackOrder::Any, false),
                    Vec::new(),
                );
                let mut players: Vec<HandPlayerState> = Vec::new();
                players.push(p0);
                players.push(p1);
                let mut lakes: Vec<Stack> = Vec::new();
                let mut j: usize = 0;
                while j < 8
                    invariant
                        j <= 8,
                        lakes@.len() == j,
                        forall|k: int| 0 <= k < j ==> (#[trigger] lakes@[k])@ == empty_lake(),
                    decreases 8 - j,
                {
                    lakes.push(lake_stack());
                    j = j + 1;
                }
                let res = HandState::raw(players, lakes);
                assert(res@.players =~= seq![p0@, p1@]);
                res
            },
        }
    }

    /// Whether the scenario is finished: the nerts pile is gone, or, for the
    /// flip scenario, the first player's stock and waste are both empty.
    pub fn is_done(&self, hand: &HandState) -> (res: bool)
        requires
            hand@.players.len() > 0,
        ensures
            res == match *self {
                PracticeSpec::Flip => hand@.players[0].stock.cards.len() == 0 && hand@.players[0].waste.cards.len() == 0,
                _ => hand@.players[0].nerts.cards.len() == 0,
            },
    {
        let players = hand.players();
        assert(players@[0]@ == hand@.players[0]);
        match self {
            PracticeSpec::Invert | PracticeSpec::Distribute | PracticeSpec::Stack => {
                players[0].nerts_stack().len() == 0
            },
            PracticeSpec::Flip => {
                let player = &players[0];
                player.stock_stack().len() == 0 && player.waste_stack().len() == 0
            },
        }
    }
}

} // verus!
