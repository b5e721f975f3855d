//! Stacks of cards and the rules that decide which card may be put on top.

use vstd::prelude::*;
use crate::cards::{Card, CardInstance, Rank, group_rank, opposite_color, rank_of, suit_color};
use crate::bot::{first_index, lemma_first_index_extend};

verus! {

broadcast use group_rank;

/// The rule a stack applies between a card and the card put on it.
#[derive(Clone, Copy, PartialEq, Eq, Hash, Debug, Structural)]
pub enum StackOrder {
    /// Anything goes.
    Any,
    /// Each card is one rank lower than the one below it, in the other color.
    AlternatingDown,
    /// Each card is one rank higher than the one below it, in the same suit.
    SingleSuitUp,
}

/// Whether `order` lets `above` go on top of `below`.
pub open spec fn order_allows(order: StackOrder, below: Card, above: Card) -> bool {
    match order {
        StackOrder::Any => true,
        StackOrder::AlternatingDown => {
            &&& rank_of(below.rank.val() - 1) == Some(above.rank)
            &&& suit_color(below.suit) == opposite_color(suit_color(above.suit))
        },
        StackOrder::SingleSuitUp => {
            &&& rank_of(below.rank.val() + 1) == Some(above.rank)
            &&& below.suit == above.suit
        },
    }
}

impl StackOrder {
    pub fn allows(self, below: Card, above: Card) -> (res: bool)
        ensures
            res == order_allows(self, below, above),
    {
        match self {
            StackOrder::Any => true,
            StackOrder::AlternatingDown => {
                below.rank.decrement() == Some(above.rank) && below.suit.color()
                    == above.suit.color().opposite()
            },
            StackOrder::SingleSuitUp => {
                below.rank.increment() == Some(above.rank) && below.suit == above.suit
            },
        }
    }
}

/// The error of `Stack::try_add`: the stack's rule refused the card.
#[derive(Debug)]
pub struct RejectedByOrdering;

/// The abstract contents of a stack: its rule, whether it must start with an
/// ace, and its cards from bottom to top.
#[verifier::ext_equal]
pub struct StackModel {
    pub order: StackOrder,
    pub aces_first: bool,
    pub cards: Seq<CardInstance>,
}

impl StackModel {
    /// The cards obey the stack's rules: if the stack must start with an ace,
    /// its bottom card is one, and each card is allowed on the one below.
    pub open spec fn valid(self) -> bool {
        &&& (self.aces_first && self.cards.len() > 0 ==> self.cards[0].card.rank.val() == 1)
        &&& forall|i: int|
            0 <= i < self.cards.len() - 1 ==> #[trigger] order_allows(
                self.order,
                self.cards[i].card,
                self.cards[i + 1].card,
            )
    }

    /// Whether `card` may be put on top.
    pub open spec fn accepts(self, card: CardInstance) -> bool {
        if self.cards.len() == 0 {
            self.aces_first ==> card.card.rank.val() == 1
        } else {
            order_allows(self.order, self.cards.last().card, card.card)
        }
    }

    /// Whether `cards` can be put on top one after another, each accepted by
    /// the stack as it stands after the ones before it.
    pub open spec fn accepts_all(self, cards: Seq<CardInstance>) -> bool {
        forall|j: int|
            0 <= j < cards.len() ==> #[trigger] self.with_cards(self.cards + cards.take(j)).accepts(
                cards[j],
            )
    }

    /// The same stack holding `cards` instead.
    pub open spec fn with_cards(self, cards: Seq<CardInstance>) -> StackModel {
        StackModel { cards, ..self }
    }
}

/// Card `k` of `cards` is `card`.
pub open spec fn holds_card(cards: Seq<CardInstance>, card: Card) -> spec_fn(int) -> bool {
    |k: int| cards[k].card == card
}

/// `cards` with the first copy of `card` taken out and the last card put in
/// its place (unchanged if `card` is not there).
pub open spec fn without_card(cards: Seq<CardInstance>, card: Card) -> Seq<CardInstance> {
    match first_index(cards.len() as int, holds_card(cards, card)) {
        Some(j) => cards.update(j, cards.last()).drop_last(),
        None => cards,
    }
}

/// A stack of cards, bottom first.
#[derive(Clone, Debug)]
pub struct Stack {
    ordering: StackOrder,
    start_with_ace: bool,
    cards: Vec<CardInstance>,
}

/// A stack that takes any card first and puts no rule between cards takes
/// any sequence of cards.
pub proof fn lemma_any_accepts_all(s: StackModel, cards: Seq<CardInstance>)
    requires
        s.order == StackOrder::Any,
        !s.aces_first,
    ensures
        s.accepts_all(cards),
{
}

impl View for Stack {
    type V = StackModel;

    closed spec fn view(&self) -> StackModel {
        StackModel { order: self.ordering, aces_first: self.start_with_ace, cards: self.cards@ }
    }
}

impl Stack {
    /// The stack's cards obey its rules.
    pub open spec fn wf(self) -> bool {
        self@.valid()
    }

    pub fn new(ordering: StackOrder, start_with_ace: bool) -> (res: Self)
        ensures
            res@ == (StackModel { order: ordering, aces_first: start_with_ace, cards: Seq::empty() }),
            res.wf(),
    {
        Self { ordering, start_with_ace, cards: Vec::new() }
    }

    pub fn from_one(ordering: StackOrder, start_with_ace: bool, card: CardInstance) -> (res: Self)
        requires
            start_with_ace ==> card.card.rank.val() == 1,
        ensures
            res@ == (StackModel { order: ordering, aces_first: start_with_ace, cards: seq![card] }),
            res.wf(),
    {
        let mut cards: Vec<CardInstance> = Vec::new();
        cards.push(card);
        Self { ordering, start_with_ace, cards }
    }

    pub fn from_list_unordered(list: Vec<CardInstance>) -> (res: Self)
        ensures
            res@ == (StackModel { order: StackOrder::Any, aces_first: false, cards: list@ }),
            res.wf(),
    {
        Self { ordering: StackOrder::Any, start_with_ace: false, cards: list }
    }

    pub fn last(&self) -> (res: Option<&CardInstance>)
        ensures
            res is Some <==> self@.cards.len() > 0,
            res matches Some(c) ==> *c == self@.cards.last(),
    {
        let n = self.cards.len();
        if n == 0 {
            None
        } else {
            Some(&self.cards[n - 1])
        }
    }

    pub fn len(&self) -> (res: usize)
        ensures
            res == self@.cards.len(),
    {
        self.cards.len()
    }

    pub fn can_add(&self, card: CardInstance) -> (res: bool)
        ensures
            res == self@.accepts(card),
    {
        match self.last() {
            None => {
                if self.start_with_ace {
                    card.card.rank == Rank::ace()
                } else {
                    true
                }
            },
            Some(below) => self.ordering.allows(below.card, card.card),
        }
    }

    pub fn try_add(&mut self, card: CardInstance) -> (res: Result<(), RejectedByOrdering>)
        ensures
            res is Ok <==> old(self)@.accepts(card),
            res is Ok ==> final(self)@ == old(self)@.with_cards(old(self)@.cards.push(card)),
            res is Err ==> final(self)@ == old(self)@,
            old(self).wf() ==> final(self).wf(),
    {
        let ok = self.can_add(card);
        if ok {
            self.cards.push(card);
            proof {
                let s = self@.cards;
                let o = old(self)@.cards;
                if old(self).wf() {
                    assert forall|i: int| 0 <= i < s.len() - 1 implies #[trigger] order_allows(
                        self.ordering,
                        s[i].card,
                        s[i + 1].card,
                    ) by {
                        if i < s.len() - 2 {
                            assert(s[i] == o[i]);
                            assert(s[i + 1] == o[i + 1]);
                        }
                    }
                }
            }
            Ok(())
        } else {
            Err(RejectedByOrdering)
        }
    }

    pub fn pop(&mut self) -> (res: Option<CardInstance>)
        ensures
            old(self)@.cards.len() == 0 ==> res is None && final(self)@ == old(self)@,
            old(self)@.cards.len() > 0 ==> {
                &&& res == Some(old(self)@.cards.last())
                &&& final(self)@ == old(self)@.with_cards(old(self)@.cards.drop_last())
            },
            old(self).wf() ==> final(self).wf(),
    {
        let r = self.cards.pop();
        proof {
            let s = self@.cards;
            let o = old(self)@.cards;
            if old(self).wf() {
                assert forall|i: int| 0 <= i < s.len() - 1 implies #[trigger] order_allows(
                    self.ordering,
                    s[i].card,
                    s[i + 1].card,
                ) by {
                    assert(s[i] == o[i]);
                    assert(s[i + 1] == o[i + 1]);
                }
            }
        }
        r
    }

    pub fn pop_many(&mut self, count: usize) -> (res: Option<Vec<CardInstance>>)
        ensures
            old(self)@.cards.len() < count ==> res is None && final(self)@ == old(self)@,
            old(self)@.cards.len() >= count ==> {
                let o = old(self)@.cards;
                &&& res is Some
                &&& res.unwrap()@ == o.subrange(o.len() - count, o.len() as int)
                &&& final(self)@ == old(self)@.with_cards(o.subrange(0, o.len() - count))
            },
            old(self).wf() ==> final(self).wf(),
    {
        if self.len() < count {
            None
        } else if self.len() == count {
            let all = self.take_all();
            assert(old(self)@.cards.subrange(0, 0) =~= Seq::<CardInstance>::empty());
            assert(old(self)@.cards.subrange(0, old(self)@.cards.len() as int) =~= old(self)@.cards);
            Some(all)
        } else {
            let at = self.len() - count;
            let rest = self.cards.split_off(at);
            proof {
                let s = self@.cards;
                let o = old(self)@.cards;
                if old(self).wf() {
                    assert forall|i: int| 0 <= i < s.len() - 1 implies #[trigger] order_allows(
                        self.ordering,
                        s[i].card,
                        s[i + 1].card,
                    ) by {
                        assert(s[i] == o[i]);
                        assert(s[i + 1] == o[i + 1]);
                    }
                }
            }
            Some(rest)
        }
    }

    pub fn take_all(&mut self) -> (res: Vec<CardInstance>)
        ensures
            res@ == old(self)@.cards,
            final(self)@ == old(self)@.with_cards(Seq::empty()),
            final(self).wf(),
    {
        let mut taken: Vec<CardInstance> = Vec::new();
        std::mem::swap(&mut taken, &mut self.cards);
        taken
    }

    /// Whether `cards` can be put on top one after another.
    pub fn can_add_all(&self, cards: &Vec<CardInstance>) -> (res: bool)
        ensures
            res == self@.accepts_all(cards@),
    {
        let r = self.can_add_all_after(self.cards.len(), cards);
        assert(self@.cards.take(self@.cards.len() as int) =~= self@.cards);
        assert(self@.with_cards(self@.cards) =~= self@);
        r
    }

    /// Whether `cards` could be put on top one after another once all but
    /// the bottom `keep` cards were taken off.
    pub fn can_add_all_after(&self, keep: usize, cards: &Vec<CardInstance>) -> (res: bool)
        requires
            keep <= self@.cards.len(),
        ensures
            res == self@.with_cards(self@.cards.take(keep as int)).accepts_all(cards@),
    {
        let ghost m = self@.with_cards(self@.cards.take(keep as int));
        let mut j: usize = 0;
        while j < cards.len()
            invariant
                j <= cards@.len(),
                keep <= self@.cards.len(),
                m == self@.with_cards(self@.cards.take(keep as int)),
                forall|k: int| 0 <= k < j ==> #[trigger] m.with_cards(m.cards + cards@.take(k)).accepts(cards@[k]),
            decreases cards@.len() - j,
        {
            let ok = if j == 0 {
                if keep == 0 {
                    if self.start_with_ace {
                        cards[0].card.rank == Rank::ace()
                    } else {
                        true
                    }
                } else {
                    self.ordering.allows(self.cards[keep - 1].card, cards[0].card)
                }
            } else {
                self.ordering.allows(cards[j - 1].card, cards[j].card)
            };
            proof {
                let ext = m.cards + cards@.take(j as int);
                if j > 0 {
                    assert(ext.last() == cards@[j - 1]);
                } else {
                    assert(ext =~= m.cards);
                }
                assert(ok == m.with_cards(ext).accepts(cards@[j as int]));
            }
            if !ok {
                return false;
            }
            j = j + 1;
        }
        true
    }

    /// Puts `cards` on top one after another.
    pub(crate) fn push_all(&mut self, cards: &Vec<CardInstance>)
        requires
            old(self)@.accepts_all(cards@),
        ensures
            final(self)@ == old(self)@.with_cards(old(self)@.cards + cards@),
            old(self).wf() ==> final(self).wf(),
    {
        let ghost orig = self@;
        let mut j: usize = 0;
        while j < cards.len()
            invariant
                j <= cards@.len(),
                orig.accepts_all(cards@),
                self@ == orig.with_cards(orig.cards + cards@.take(j as int)),
                orig.valid() ==> self.wf(),
            decreases cards@.len() - j,
        {
            proof {
                assert(orig.with_cards(orig.cards + cards@.take(j as int)).accepts(cards@[j as int]));
            }
            let r = self.try_add(cards[j]);
            r.unwrap();
            proof {
                assert(orig.cards + cards@.take(j as int) + seq![cards@[j as int]] =~= orig.cards + cards@.take(j + 1));
                assert((orig.cards + cards@.take(j as int)).push(cards@[j as int]) =~= orig.cards + cards@.take(j + 1));
            }
            j = j + 1;
        }
        assert(cards@.take(cards@.len() as int) =~= cards@);
    }

    /// Takes the first copy of `card` out of the stack, if there is one, the
    /// top card taking its place; returns whether one was found.
    pub fn swap_remove_card(&mut self, card: Card) -> (res: bool)
        ensures
            res == first_index(old(self)@.cards.len() as int, holds_card(old(self)@.cards, card)) is Some,
            final(self)@ == old(self)@.with_cards(without_card(old(self)@.cards, card)),
            old(self)@.order == StackOrder::Any && !old(self)@.aces_first ==> final(self).wf(),
    {
        let ghost f = holds_card(self@.cards, card);
        let ghost orig = self@;
        let mut i: usize = 0;
        while i < self.cards.len()
            invariant
                i <= self.cards@.len(),
                self@ == orig,
                orig == old(self)@,
                f == holds_card(orig.cards, card),
                first_index(i as int, f) is None,
            decreases self.cards@.len() - i,
        {
            if self.cards[i].card == card {
                proof {
                    assert(f(i as int));
                    assert(first_index(i + 1, f) == Some(i as int));
                    lemma_first_index_extend(i + 1, orig.cards.len() as int, f);
                }
                self.cards.swap_remove(i);
                proof {
                    let o = orig.cards;
                    let n = self@.cards;
                    assert(n =~= o.update(i as int, o.last()).drop_last());
                }
                return true;
            }
            assert(!f(i as int));
            i = i + 1;
        }
        false
    }

    /// Whether the stack must start with an ace.
    pub fn starts_with_ace(&self) -> (res: bool)
        ensures
            res == self@.aces_first,
    {
        self.start_with_ace
    }

    /// A stack made of the given parts as they are, whether or not the cards
    /// obey its rules (as a stack received from elsewhere).
    pub fn from_parts(ordering: StackOrder, start_with_ace: bool, cards: Vec<CardInstance>) -> (res: Self)
        ensures
            res@ == (StackModel { order: ordering, aces_first: start_with_ace, cards: cards@ }),
    {
        Self { ordering, start_with_ace, cards }
    }

    /// The rule the stack applies between cards.
    pub fn ordering(&self) -> (res: StackOrder)
        ensures
            res == self@.order,
    {
        self.ordering
    }

    pub fn cards(&self) -> (res: &[CardInstance])
        ensures
            res@ == self@.cards,
    {
        self.cards.as_slice()
    }
}

} // verus!
