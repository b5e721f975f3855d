//! Colors, suits, ranks and cards.

use vstd::prelude::*;

verus! {

/// The color of a suit.
#[derive(Clone, Copy, PartialEq, Eq, Hash, Debug, Structural)]
pub enum Color {
    Red,
    Black,
}

/// The other color.
pub open spec fn opposite_color(c: Color) -> Color {
    match c {
        Color::Red => Color::Black,
        Color::Black => Color::Red,
    }
}

impl Color {
    pub fn opposite(self) -> (res: Color)
        ensures
            res == opposite_color(self),
            res != self,
    {
        match self {
            Color::Red => Color::Black,
            Color::Black => Color::Red,
        }
    }
}

/// Taking the opposite color twice gives back the color one started with.
pub proof fn lemma_opposite_involutive(c: Color)
    ensures
        opposite_color(opposite_color(c)) == c,
{
}

#[derive(Clone, Copy, PartialEq, Eq, Hash, Debug, Structural)]
pub enum Suit {
    Spades,
    Diamonds,
    Clubs,
    Hearts,
}

/// Spades and clubs are black, diamonds and hearts red.
pub open spec fn suit_color(s: Suit) -> Color {
    match s {
        Suit::Spades | Suit::Clubs => Color::Black,
        Suit::Diamonds | Suit::Hearts => Color::Red,
    }
}

/// The suits in their declared order.
pub open spec fn suit_at(i: int) -> Suit {
    if i == 0 {
        Suit::Spades
    } else if i == 1 {
        Suit::Diamonds
    } else if i == 2 {
        Suit::Clubs
    } else {
        Suit::Hearts
    }
}

impl Suit {
    pub fn color(self) -> (res: Color)
        ensures
            res == suit_color(self),
    {
        match self {
            Suit::Spades | Suit::Clubs => Color::Black,
            Suit::Diamonds | Suit::Hearts => Color::Red,
        }
    }

    /// All suits, in declared order.
    pub fn all() -> (res: Vec<Suit>)
        ensures
            res@.len() == 4,
            forall|i: int| 0 <= i < 4 ==> res@[i] == suit_at(i),
    {
        let mut v: Vec<Suit> = Vec::new();
        v.push(Suit::Spades);
        v.push(Suit::Diamonds);
        v.push(Suit::Clubs);
        v.push(Suit::Hearts);
        v
    }
}

/// A card rank, from 1 (ace) to 13 (king).
#[derive(Clone, Copy, PartialEq, Eq, Hash, Debug, Structural)]
pub struct Rank(u8);

/// Lowest and highest valid rank values.
pub open spec fn valid_rank_value(v: int) -> bool {
    1 <= v <= 13
}

/// What `Rank::try_new` gives for a value (taken as an integer).
pub closed spec fn rank_of(v: int) -> Option<Rank> {
    if valid_rank_value(v) {
        Some(Rank(v as u8))
    } else {
        None
    }
}

/// `rank_of` yields a rank exactly for the valid values, and that rank has the value.
pub broadcast proof fn lemma_rank_of(v: int)
    ensures
        (#[trigger] rank_of(v)).is_some() <==> valid_rank_value(v),
        rank_of(v).is_some() ==> rank_of(v).unwrap().val() == v,
{
}

/// Two ranks are equal exactly when their values are.
pub broadcast proof fn lemma_rank_eq(a: Rank, b: Rank)
    ensures
        (#[trigger] a.val() == #[trigger] b.val()) <==> a == b,
{
}

pub broadcast group group_rank {
    lemma_rank_of,
    lemma_rank_eq,
}

impl Rank {
    #[verifier::type_invariant]
    spec fn inv(self) -> bool {
        valid_rank_value(self.0 as int)
    }

    /// The numeric value of the rank.
    pub closed spec fn val(self) -> int {
        self.0 as int
    }

    /// The ace, the lowest rank.
    pub fn ace() -> (res: Rank)
        ensures
            res.val() == 1,
    {
        Rank(1)
    }

    /// The ranks that make up a deck, in increasing order: values 1 through 12.
    pub fn iter() -> (res: Vec<Rank>)
        ensures
            res@.len() == 12,
            forall|i: int| 0 <= i < 12 ==> res@[i].val() == i + 1,
    {
        let mut v: Vec<Rank> = Vec::new();
        let mut n: u8 = 1;
        while n < 13
            invariant
                1 <= n <= 13,
                v@.len() == n - 1,
                forall|i: int| 0 <= i < v@.len() ==> v@[i].val() == i + 1,
            decreases 13 - n,
        {
            v.push(Rank(n));
            n = n + 1;
        }
        v
    }

    pub fn try_new(src: u8) -> (res: Option<Self>)
        ensures
            res == rank_of(src as int),
    {
        if src >= 1 && src <= 13 {
            Some(Rank(src))
        } else {
            None
        }
    }

    pub fn new(src: u8) -> (res: Self)
        requires
            valid_rank_value(src as int),
        ensures
            res.val() == src,
    {
        Rank(src)
    }

    pub fn value(self) -> (res: u8)
        ensures
            res == self.val(),
            valid_rank_value(res as int),
    {
        proof {
            use_type_invariant(self);
        }
        self.0
    }

    pub fn increment(self) -> (res: Option<Rank>)
        ensures
            res == rank_of(self.val() + 1),
    {
        proof {
            use_type_invariant(self);
        }
        Rank::try_new(self.value() + 1)
    }

    pub fn decrement(self) -> (res: Option<Rank>)
        ensures
            res == rank_of(self.val() - 1),
    {
        proof {
            use_type_invariant(self);
        }
        Rank::try_new(self.value() - 1)
    }
}

#[derive(Clone, Copy, PartialEq, Eq, Hash, Debug, Structural)]
pub struct Card {
    pub suit: Suit,
    pub rank: Rank,
}

#[derive(Clone, Copy, PartialEq, Eq, Hash, Debug, Structural)]
pub struct CardInstance {
    pub card: Card,
    pub owner_id: u8,
}

/// The card at position `i` of the deck: suits in declared order, and within
/// each suit the ranks 1 through 12.
pub open spec fn deck_card(i: int) -> Card {
    Card { suit: suit_at(i / 12), rank: rank_of(i % 12 + 1).unwrap() }
}

/// The deck every player's cards are dealt from: 48 cards, four suits of the
/// ranks 1 through 12.
pub open spec fn deck() -> Seq<Card> {
    Seq::new(48, |i: int| deck_card(i))
}

/// The deck with every card belonging to `owner`.
pub open spec fn owned_deck(owner: u8) -> Seq<CardInstance> {
    deck().map_values(|c: Card| CardInstance { card: c, owner_id: owner })
}

/// The deck, built from every suit paired with every rank of `Rank::iter`.
pub fn full_deck() -> (res: Vec<Card>)
    ensures
        res@ == deck(),
{
    let suits = Suit::all();
    let ranks = Rank::iter();
    let mut res: Vec<Card> = Vec::new();
    let mut si: usize = 0;
    while si < 4
        invariant
            si <= 4,
            suits@.len() == 4,
            ranks@.len() == 12,
            forall|i: int| 0 <= i < 4 ==> suits@[i] == suit_at(i),
            forall|i: int| 0 <= i < 12 ==> ranks@[i].val() == i + 1,
            res@.len() == si * 12,
            forall|i: int| 0 <= i < res@.len() ==> res@[i] == deck_card(i),
        decreases 4 - si,
    {
        let mut ri: usize = 0;
        while ri < 12
            invariant
                si < 4,
                ri <= 12,
                suits@.len() == 4,
                ranks@.len() == 12,
                forall|i: int| 0 <= i < 4 ==> suits@[i] == suit_at(i),
                forall|i: int| 0 <= i < 12 ==> ranks@[i].val() == i + 1,
                res@.len() == si * 12 + ri,
                forall|i: int| 0 <= i < res@.len() ==> res@[i] == deck_card(i),
            decreases 12 - ri,
        {
            let card = Card { suit: suits[si], rank: ranks[ri] };
            proof {
                let k = si * 12 + ri;
                assert(k / 12 == si) by (nonlinear_arith)
                    requires k == si * 12 + ri, ri < 12;
                assert(k % 12 == ri) by (nonlinear_arith)
                    requires k == si * 12 + ri, ri < 12;
                lemma_rank_of(k % 12 + 1);
                lemma_rank_eq(ranks@[ri as int], rank_of(k % 12 + 1).unwrap());
            }
            res.push(card);
            ri = ri + 1;
        }
        si = si + 1;
    }
    assert(res@ =~= deck());
    res
}

} // verus!
