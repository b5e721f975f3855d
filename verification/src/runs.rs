//! The pile of the stack practice scenario: four runs from the king down in
//! alternating colors, one of each suit at every rank, broken apart at
//! random and taken off card by card, so that the player can build the runs
//! back on five tableau stacks.

use vstd::prelude::*;
use vstd::multiset::Multiset;
use crate::cards::{Card, CardInstance, Color, Rank, Suit, group_rank, opposite_color, suit_color};
use crate::stack::{StackOrder, order_allows};
use vstd::seq_lib::{to_multiset_build, to_multiset_len, to_multiset_contains};
use crate::cards::suit_at as suit_at_spec;
use crate::random::{shuffle, random_bool, random_below};

verus! {

broadcast use {group_rank, vstd::multiset::group_multiset_axioms, vstd::seq_lib::to_multiset_build};

/// How many cards a list of piles holds.
pub open spec fn piles_len(piles: Seq<Vec<CardInstance>>) -> int
    decreases piles.len(),
{
    if piles.len() == 0 {
        0
    } else {
        piles_len(piles.drop_last()) + piles.last()@.len()
    }
}

/// The cards of a list of piles, taken together.
pub open spec fn piles_cards(piles: Seq<Vec<CardInstance>>) -> Multiset<CardInstance>
    decreases piles.len(),
{
    if piles.len() == 0 {
        Multiset::empty()
    } else {
        piles_cards(piles.drop_last()).add(piles.last()@.to_multiset())
    }
}

/// How many of `cols` are `c`.
pub open spec fn color_count(cols: Seq<Color>, c: Color) -> int
    decreases cols.len(),
{
    if cols.len() == 0 {
        0
    } else {
        color_count(cols.drop_last(), c) + if cols.last() == c {
            1int
        } else {
            0int
        }
    }
}

/// The colors of the top cards of a list of piles.
pub open spec fn top_colors(piles: Seq<Vec<CardInstance>>) -> Seq<Color> {
    piles.map_values(|p: Vec<CardInstance>| suit_color(p@.last().card.suit))
}

/// Every card of the first player from rank `lo` up to the king, of every
/// suit, once, and nothing else.
pub open spec fn holds_ranks_from(m: Multiset<CardInstance>, lo: int) -> bool {
    forall|c: CardInstance| #[trigger] m.count(c) == if c.owner_id == 0 && lo <= c.card.rank.val() <= 13 {
        1nat
    } else {
        0nat
    }
}

/// The card of suit `s` and rank value `v`, belonging to the first player.
pub open spec fn first_players(s: Suit, v: int) -> CardInstance {
    CardInstance { card: Card { suit: s, rank: crate::cards::rank_of(v).unwrap() }, owner_id: 0 }
}

/// The black suit a flag picks.
pub open spec fn black_for(flag: bool) -> Suit {
    if flag {
        Suit::Clubs
    } else {
        Suit::Spades
    }
}

/// The red suit a flag picks.
pub open spec fn red_for(flag: bool) -> Suit {
    if flag {
        Suit::Diamonds
    } else {
        Suit::Hearts
    }
}

/// The cards of rank value `v` handed out in suits picked by a flag that
/// started at `start` and was toggled before each of `k` picks.
pub open spec fn toggled_picks(k: int, start: bool, v: int, black: bool) -> Multiset<CardInstance> {
    let pick = |flag: bool| if black {
        first_players(black_for(flag), v)
    } else {
        first_players(red_for(flag), v)
    };
    if k <= 0 {
        Multiset::empty()
    } else if k == 1 {
        Multiset::empty().insert(pick(!start))
    } else {
        Multiset::empty().insert(pick(!start)).insert(pick(start))
    }
}

proof fn lemma_color_count_split(cols: Seq<Color>)
    ensures
        color_count(cols, Color::Red) + color_count(cols, Color::Black) == cols.len(),
        0 <= color_count(cols, Color::Red),
        0 <= color_count(cols, Color::Black),
    decreases cols.len(),
{
    if cols.len() > 0 {
        lemma_color_count_split(cols.drop_last());
    }
}

proof fn lemma_color_count_prefix(cols: Seq<Color>, j: int, c: Color)
    requires
        0 <= j <= cols.len(),
    ensures
        color_count(cols.take(j), c) <= color_count(cols, c),
    decreases cols.len() - j,
{
    if j < cols.len() {
        lemma_color_count_prefix(cols, j + 1, c);
        assert(cols.take(j + 1).drop_last() =~= cols.take(j));
    } else {
        assert(cols.take(j) =~= cols);
    }
}

/// Flipping every color swaps the counts.
proof fn lemma_color_count_flipped(a: Seq<Color>, b: Seq<Color>)
    requires
        a.len() == b.len(),
        forall|k: int| 0 <= k < a.len() ==> #[trigger] b[k] == opposite_color(a[k]),
    ensures
        color_count(b, Color::Red) == color_count(a, Color::Black),
    decreases a.len(),
{
    if a.len() > 0 {
        let (a2, b2) = (a.drop_last(), b.drop_last());
        assert forall|k: int| 0 <= k < a2.len() implies #[trigger] b2[k] == opposite_color(a2[k]) by {
            assert(b2[k] == b[k] && a2[k] == a[k]);
        }
        lemma_color_count_flipped(a2, b2);
        assert(b.last() == opposite_color(a.last()));
    }
}

/// The red suits among `s` count once each towards the red total.
proof fn lemma_suit_colors(s: Seq<Suit>)
    ensures
        color_count(s.map_values(|x: Suit| suit_color(x)), Color::Red) == s.to_multiset().count(Suit::Diamonds)
            + s.to_multiset().count(Suit::Hearts),
    decreases s.len(),
{
    let cols = s.map_values(|x: Suit| suit_color(x));
    if s.len() == 0 {
        assert(s.to_multiset() =~= Multiset::empty()) by {
            s.to_multiset_ensures();
            assert(s.to_multiset().len() == 0);
        }
    } else {
        let p = s.drop_last();
        lemma_suit_colors(p);
        assert(cols.drop_last() =~= p.map_values(|x: Suit| suit_color(x)));
        assert(p.push(s.last()) =~= s);
    }
}

proof fn lemma_piles_cards_update(piles: Seq<Vec<CardInstance>>, i: int, v: Vec<CardInstance>)
    requires
        0 <= i < piles.len(),
    ensures
        piles_cards(piles.update(i, v)).add(piles[i]@.to_multiset()) =~= piles_cards(piles).add(v@.to_multiset()),
    decreases piles.len(),
{
    let u = piles.update(i, v);
    let a = piles[i]@.to_multiset();
    let b = v@.to_multiset();
    let lhs = piles_cards(u).add(a);
    let rhs = piles_cards(piles).add(b);
    if i == piles.len() - 1 {
        assert(u.drop_last() =~= piles.drop_last());
        let d = piles_cards(piles.drop_last());
        assert(piles_cards(u) == d.add(b));
        assert(piles_cards(piles) == d.add(a));
        assert forall|x: CardInstance| lhs.count(x) == rhs.count(x) by {}
    } else {
        assert(u.drop_last() =~= piles.drop_last().update(i, v));
        lemma_piles_cards_update(piles.drop_last(), i, v);
        let du = piles_cards(u.drop_last());
        let dp = piles_cards(piles.drop_last());
        let l = piles.last()@.to_multiset();
        assert(u.last() == piles.last());
        assert(piles_cards(u) == du.add(l));
        assert(piles_cards(piles) == dp.add(l));
        assert forall|x: CardInstance| lhs.count(x) == rhs.count(x) by {
            assert(du.add(a).count(x) == dp.add(b).count(x));
        }
    }
    assert(lhs =~= rhs);
}

proof fn lemma_piles_len_update(piles: Seq<Vec<CardInstance>>, i: int, v: Vec<CardInstance>)
    requires
        0 <= i < piles.len(),
    ensures
        piles_len(piles.update(i, v)) == piles_len(piles) - piles[i]@.len() + v@.len(),
    decreases piles.len(),
{
    let u = piles.update(i, v);
    if i == piles.len() - 1 {
        assert(u.drop_last() =~= piles.drop_last());
    } else {
        assert(u.drop_last() =~= piles.drop_last().update(i, v));
        lemma_piles_len_update(piles.drop_last(), i, v);
    }
}

proof fn lemma_piles_push(piles: Seq<Vec<CardInstance>>, v: Vec<CardInstance>)
    ensures
        piles_len(piles.push(v)) == piles_len(piles) + v@.len(),
        piles_cards(piles.push(v)) == piles_cards(piles).add(v@.to_multiset()),
{
    assert(piles.push(v).drop_last() =~= piles);
}

proof fn lemma_piles_len_nonneg(piles: Seq<Vec<CardInstance>>)
    ensures
        piles_len(piles) >= 0,
    decreases piles.len(),
{
    if piles.len() > 0 {
        lemma_piles_len_nonneg(piles.drop_last());
    }
}

/// Removing the pile at `i` by moving the last pile into its place.
proof fn lemma_piles_swap_remove(piles: Seq<Vec<CardInstance>>, i: int)
    requires
        0 <= i < piles.len(),
    ensures
        piles_len(piles.update(i, piles.last()).drop_last()) == piles_len(piles) - piles[i]@.len(),
        piles_cards(piles.update(i, piles.last()).drop_last()).add(piles[i]@.to_multiset()) =~= piles_cards(piles),
{
    let n = piles.len();
    if i == n - 1 {
        assert(piles.update(i, piles.last()).drop_last() =~= piles.drop_last());
    } else {
        lemma_piles_len_update(piles.drop_last(), i, piles.last());
        lemma_piles_cards_update(piles.drop_last(), i, piles.last());
        assert(piles.update(i, piles.last()).drop_last() =~= piles.drop_last().update(i, piles.last()));
    }
}

/// How many tableau stacks the stack scenario deals its pile back onto.
pub const STACK_TABLEAU: usize = 5;

/// `above` may lie on `below` in an alternating-down stack: one rank lower,
/// in the other color.
pub open spec fn goes_on(below: CardInstance, above: CardInstance) -> bool {
    order_allows(StackOrder::AlternatingDown, below.card, above.card)
}

/// Each card of `s` may lie on the one before it in an alternating-down
/// stack.
pub open spec fn is_run(s: Seq<CardInstance>) -> bool {
    forall|i: int, j: int| 0 <= i && j == i + 1 && j < s.len() ==> #[trigger] goes_on(s[i], s[j])
}

/// The runs laid out on the tableau: no more than it has stacks, none empty,
/// each alternating down.
pub open spec fn laid_out(runs: Seq<Seq<CardInstance>>) -> bool {
    &&& runs.len() <= STACK_TABLEAU
    &&& forall|j: int| 0 <= j < runs.len() ==> (#[trigger] runs[j]).len() > 0 && is_run(runs[j])
}

/// The cards of each run.
pub open spec fn run_views(runs: Seq<Vec<CardInstance>>) -> Seq<Seq<CardInstance>> {
    runs.map_values(|v: Vec<CardInstance>| v@)
}

/// Dealing card `c` onto the runs `t` gives the runs `t2`, by way of `l` and
/// `r`: the card goes on top of run `l`, which it fits, or, with `l` empty,
/// on an empty tableau stack (fewer runs than stacks lie out); then run `r`,
/// unless empty, whose bottom card fits on the card, is moved on top of it.
pub open spec fn deal_via(
    t: Multiset<Seq<CardInstance>>,
    c: CardInstance,
    l: Seq<CardInstance>,
    r: Seq<CardInstance>,
    t2: Multiset<Seq<CardInstance>>,
) -> bool {
    &&& if l.len() == 0 {
        t.len() < STACK_TABLEAU
    } else {
        t.count(l) > 0 && goes_on(l.last(), c)
    }
    &&& r.len() > 0 ==> t.remove(l).count(r) > 0 && goes_on(c, r[0])
    &&& t2 == t.remove(l).remove(r).insert(l.push(c) + r)
}

/// Card `c` can be dealt onto the runs `t` so that they become `t2`.
pub open spec fn deal_step(t: Multiset<Seq<CardInstance>>, c: CardInstance, t2: Multiset<Seq<CardInstance>>) -> bool {
    exists|l: Seq<CardInstance>, r: Seq<CardInstance>| #[trigger] deal_via(t, c, l, r, t2)
}

/// The tableaus `ts` go with dealing the pile (its top card last) from the
/// top: `ts[k]` is the tableau once every card above position `k` has been
/// dealt, so the last one is where the dealing starts, and dealing card `k`
/// onto `ts[k + 1]` gives `ts[k]`.
pub open spec fn deals_through(pile: Seq<CardInstance>, ts: Seq<Multiset<Seq<CardInstance>>>) -> bool {
    &&& ts.len() == pile.len() + 1
    &&& forall|k: int| 0 <= k < pile.len() ==> deal_step(ts[k + 1], pile[k], #[trigger] ts[k])
}

/// The pile (its top card last) can be dealt out, card by card from the top,
/// onto the runs `t` of the tableau.
pub open spec fn can_deal(pile: Seq<CardInstance>, t: Multiset<Seq<CardInstance>>) -> bool {
    exists|ts: Seq<Multiset<Seq<CardInstance>>>| #[trigger] deals_through(pile, ts) && ts.last() == t
}

/// The position of the card taken off run `w` given the split draw: the
/// drawn one while fewer runs than tableau stacks lie out and the run has
/// more than one card, otherwise the top one.
pub open spec fn cut_at(count: int, w: Seq<CardInstance>, split: int) -> int {
    if count < STACK_TABLEAU && w.len() > 1 {
        split
    } else {
        w.len() - 1
    }
}

/// The runs after the card at position `cut` of run `idx` is taken off:
/// the cards below it stay in its place (or, with none, the last run moves
/// there), and the cards above it, if any, become a new last run.
pub open spec fn runs_after_take(runs: Seq<Seq<CardInstance>>, idx: int, cut: int) -> Seq<Seq<CardInstance>> {
    let w = runs[idx];
    let below = w.take(cut);
    let above = w.skip(cut + 1);
    let kept = if below.len() == 0 {
        runs.update(idx, runs.last()).drop_last()
    } else {
        runs.update(idx, below)
    };
    if above.len() == 0 {
        kept
    } else {
        kept.push(above)
    }
}

/// A pile that can be dealt onto `t2`, with a card on top that deals onto
/// `t` giving `t2`, can be dealt onto `t`.
proof fn lemma_can_deal_push(
    pile: Seq<CardInstance>,
    c: CardInstance,
    t: Multiset<Seq<CardInstance>>,
    t2: Multiset<Seq<CardInstance>>,
)
    requires
        deal_step(t, c, t2),
        can_deal(pile, t2),
    ensures
        can_deal(pile.push(c), t),
{
    let ts = choose|ts: Seq<Multiset<Seq<CardInstance>>>| #[trigger] deals_through(pile, ts) && ts.last() == t2;
    let p = pile.push(c);
    let ts2 = ts.push(t);
    assert forall|k: int| 0 <= k < p.len() implies deal_step(ts2[k + 1], p[k], #[trigger] ts2[k]) by {
        if k < pile.len() {
            assert(deal_step(ts[k + 1], pile[k], ts[k]));
        }
    }
    assert(deals_through(p, ts2));
}

/// An empty pile can be dealt onto any tableau.
proof fn lemma_can_deal_empty(t: Multiset<Seq<CardInstance>>)
    ensures
        can_deal(Seq::empty(), t),
{
    let ts = seq![t];
    assert(deals_through(Seq::empty(), ts));
}

/// A run whose top card has rank value `v + 1`, with a card of rank value
/// `v` in the other color put on it, is still a run.
proof fn lemma_run_extends(before: Seq<CardInstance>, after: Seq<CardInstance>, v: int)
    requires
        is_run(before),
        before.len() > 0,
        before.last().card.rank.val() == v + 1,
        1 <= v <= 12,
        after.drop_last() == before,
        after.len() == before.len() + 1,
        after.last().card.rank.val() == v,
        suit_color(after.last().card.suit) == opposite_color(suit_color(before.last().card.suit)),
    ensures
        is_run(after),
{
    crate::cards::lemma_rank_of(v);
    crate::cards::lemma_rank_eq(after.last().card.rank, crate::cards::rank_of(v).unwrap());
    assert forall|i: int, j: int| 0 <= i && j == i + 1 && j < after.len() implies #[trigger] goes_on(after[i], after[j]) by {
        if j < after.len() - 1 {
            assert(after[i] == before[i] && after[j] == before[j]);
            assert(goes_on(before[i], before[j]));
        } else {
            assert(after[i] == before.last());
        }
    }
}

proof fn lemma_swap_remove_multiset<A>(s: Seq<A>, i: int)
    requires
        0 <= i < s.len(),
    ensures
        s.update(i, s.last()).drop_last().to_multiset() == s.to_multiset().remove(s[i]),
{
    let u = s.update(i, s.last());
    assert(u.drop_last().push(u.last()) =~= u);
    to_multiset_build(u.drop_last(), u.last());
    vstd::seq_lib::to_multiset_update(s, i, s.last());
    assert(u.last() == s.last());
    to_multiset_contains(s, s[i]);
    let m = s.to_multiset();
    assert forall|x: A| u.drop_last().to_multiset().count(x) == m.remove(s[i]).count(x) by {
        assert(u.to_multiset().count(x) == u.drop_last().to_multiset().insert(u.last()).count(x));
        assert(u.to_multiset().count(x) == m.insert(s.last()).remove(s[i]).count(x));
    }
    assert(u.drop_last().to_multiset() =~= m.remove(s[i]));
}

/// The card taken off the laid-out runs can be dealt back onto the runs
/// left, giving the runs as they were; and the runs left are laid out too.
pub proof fn lemma_taken_card_deals_back(runs: Seq<Seq<CardInstance>>, idx: int, cut: int)
    requires
        laid_out(runs),
        0 <= idx < runs.len(),
        0 <= cut < runs[idx].len(),
        runs.len() >= STACK_TABLEAU ==> cut == runs[idx].len() - 1,
    ensures
        laid_out(runs_after_take(runs, idx, cut)),
        deal_step(runs_after_take(runs, idx, cut).to_multiset(), runs[idx][cut], runs.to_multiset()),
{
    let w = runs[idx];
    let c = w[cut];
    let below = w.take(cut);
    let above = w.skip(cut + 1);
    let kept = if below.len() == 0 {
        runs.update(idx, runs.last()).drop_last()
    } else {
        runs.update(idx, below)
    };
    let after = runs_after_take(runs, idx, cut);
    let t0 = runs.to_multiset();
    let t = after.to_multiset();
    assert(w =~= below.push(c) + above);
    assert(is_run(w));
    assert(is_run(below)) by {
        assert forall|i: int, j: int| 0 <= i && j == i + 1 && j < below.len() implies #[trigger] goes_on(below[i], below[j]) by {
            assert(goes_on(w[i], w[j]));
        }
    }
    assert(is_run(above)) by {
        assert forall|i: int, j: int| 0 <= i && j == i + 1 && j < above.len() implies #[trigger] goes_on(above[i], above[j]) by {
            assert(goes_on(w[i + cut + 1], w[j + cut + 1]));
        }
    }
    if below.len() > 0 {
        assert(goes_on(w[cut - 1], w[cut]));
        assert(below.last() == w[cut - 1]);
    }
    if above.len() > 0 {
        assert(goes_on(w[cut], w[cut + 1]));
        assert(above[0] == w[cut + 1]);
    }
    assert forall|j: int| 0 <= j < after.len() implies (#[trigger] after[j]).len() > 0 && is_run(after[j]) by {
        if above.len() > 0 && j == after.len() - 1 {
            assert(after[j] == above);
        } else if below.len() > 0 && j == idx {
            assert(after[j] == below);
        } else if below.len() == 0 && j == idx {
            assert(after[j] == runs.last());
        } else {
            assert(after[j] == runs[j]);
        }
    }
    // the runs' multiset, step by step
    let tk = kept.to_multiset();
    if below.len() == 0 {
        lemma_swap_remove_multiset(runs, idx);
        assert(tk == t0.remove(w));
    } else {
        vstd::seq_lib::to_multiset_update(runs, idx, below);
        assert(below.len() < w.len());
        assert(below != w);
        assert(tk =~= t0.remove(w).insert(below));
    }
    if above.len() == 0 {
        assert(after == kept);
    } else {
        assert(after == kept.push(above));
        to_multiset_build(kept, above);
    }
    to_multiset_len(after);
    to_multiset_len(runs);
    assert(t.count(Seq::<CardInstance>::empty()) == 0) by {
        to_multiset_contains(after, Seq::<CardInstance>::empty());
        if after.contains(Seq::<CardInstance>::empty()) {
            let j = choose|j: int| 0 <= j < after.len() && after[j] == Seq::<CardInstance>::empty();
            assert(after[j].len() > 0);
        }
    }
    assert(t0.count(w) > 0) by {
        to_multiset_contains(runs, w);
        assert(runs.contains(w));
    }
    let m = t0.remove(w);
    let t2 = t.remove(below).remove(above).insert(below.push(c) + above);
    assert(t.count(Seq::<CardInstance>::empty()) == 0);
    let t_a = if above.len() == 0 { m } else { m.insert(above) };
    assert(t.remove(below) =~= t_a) by {
        if below.len() == 0 {
            assert(tk == m);
            assert(t == t_a);
            assert(below =~= Seq::<CardInstance>::empty());
        } else {
            assert(tk =~= m.insert(below));
        }
    }
    assert(t0.count(Seq::<CardInstance>::empty()) == 0) by {
        to_multiset_contains(runs, Seq::<CardInstance>::empty());
        if runs.contains(Seq::<CardInstance>::empty()) {
            let j = choose|j: int| 0 <= j < runs.len() && runs[j] == Seq::<CardInstance>::empty();
            assert(runs[j].len() > 0);
        }
    }
    assert(t_a.remove(above) =~= m) by {
        if above.len() == 0 {
            assert(above =~= Seq::<CardInstance>::empty());
            assert(m.count(above) == 0);
        }
    }
    assert(t2 =~= t0) by {
        assert(t2 == m.insert(w));
        assert forall|x: Seq<CardInstance>| t2.count(x) == t0.count(x) by {}
    }
    assert(deal_via(t, c, below, above, t0));
}

/// The suit of the other color that a run topped by a card of suit `top`
/// gets next: for a red top the black flag is toggled and picks clubs or
/// spades, for a black top the red flag is toggled and picks diamonds or
/// hearts.
fn next_suit(top: Suit, next_red: &mut bool, next_black: &mut bool) -> (res: Suit)
    ensures
        suit_color(top) == Color::Red ==> {
            &&& *final(next_black) == !*old(next_black)
            &&& *final(next_red) == *old(next_red)
            &&& res == black_for(*final(next_black))
        },
        suit_color(top) == Color::Black ==> {
            &&& *final(next_red) == !*old(next_red)
            &&& *final(next_black) == *old(next_black)
            &&& res == red_for(*final(next_red))
        },
{
    match top.color() {
        Color::Red => {
            *next_black = !*next_black;
            if *next_black {
                Suit::Clubs
            } else {
                Suit::Spades
            }
        },
        Color::Black => {
            *next_red = !*next_red;
            if *next_red {
                Suit::Diamonds
            } else {
                Suit::Hearts
            }
        },
    }
}

/// The four kings, one per run, in random order.
fn king_piles() -> (res: Vec<Vec<CardInstance>>)
    ensures
        res@.len() == 4,
        forall|j: int| 0 <= j < 4 ==> (#[trigger] res@[j])@.len() == 1,
        forall|j: int| 0 <= j < 4 ==> (#[trigger] res@[j])@[0].card.rank.val() == 13,
        color_count(top_colors(res@), Color::Red) == 2,
        holds_ranks_from(piles_cards(res@), 13),
{
    let mut suits = Suit::all();
    let ghost dealt = suits@;
    proof {
        let e = Seq::<Suit>::empty();
        e.to_multiset_ensures();
        assert(e.to_multiset() =~= Multiset::empty());
        assert(suits@[0] == suit_at_spec(0));
        assert(suits@[1] == suit_at_spec(1));
        assert(suits@[2] == suit_at_spec(2));
        assert(suits@[3] == suit_at_spec(3));
        assert(dealt =~= e.push(Suit::Spades).push(Suit::Diamonds).push(Suit::Clubs).push(Suit::Hearts));
        let m = dealt.to_multiset();
        assert(m =~= Multiset::empty().insert(Suit::Spades).insert(Suit::Diamonds).insert(Suit::Clubs).insert(Suit::Hearts));
        assert forall|x: Suit| m.count(x) == 1 by {}
    }
    shuffle(&mut suits);
    let mut piles: Vec<Vec<CardInstance>> = Vec::new();
    proof {
        let t = suits@.take(0);
        t.to_multiset_ensures();
        assert(t =~= Seq::<Suit>::empty());
        assert(t.to_multiset() =~= Multiset::empty());
        assert(piles_cards(piles@) =~= Multiset::empty());
    }
    let mut i: usize = 0;
    while i < 4
        invariant
            i <= 4,
            suits@.len() == 4,
            suits@.to_multiset() == dealt.to_multiset(),
            forall|x: Suit| dealt.to_multiset().count(x) == 1,
            piles@.len() == i,
            forall|j: int| 0 <= j < i ==> (#[trigger] piles@[j])@ == seq![first_players(suits@[j], 13)],
            forall|c: CardInstance| #[trigger] piles_cards(piles@).count(c) == if c.owner_id == 0
                && c.card.rank.val() == 13 {
                suits@.take(i as int).to_multiset().count(c.card.suit)
            } else {
                0nat
            },
        decreases 4 - i,
    {
        let mut v: Vec<CardInstance> = Vec::new();
        v.push(CardInstance { card: Card { suit: suits[i], rank: Rank::new(13) }, owner_id: 0 });
        let ghost before = piles@;
        let ghost k = first_players(suits@[i as int], 13);
        proof {
            crate::cards::lemma_rank_of(13);
            assert(v@ =~= seq![k]);
            let e = Seq::<CardInstance>::empty();
            e.to_multiset_ensures();
            assert(e.to_multiset() =~= Multiset::empty());
            assert(seq![k] =~= e.push(k));
            assert(v@.to_multiset() =~= Multiset::empty().insert(k));
        }
        piles.push(v);
        proof {
            lemma_piles_push(before, v);
            let t = suits@.take(i as int);
            assert(suits@.take(i + 1) =~= t.push(suits@[i as int]));
            assert forall|c: CardInstance| #[trigger] piles_cards(piles@).count(c) == if c.owner_id == 0
                && c.card.rank.val() == 13 {
                suits@.take(i + 1).to_multiset().count(c.card.suit)
            } else {
                0nat
            } by {
                crate::cards::lemma_rank_eq(c.card.rank, crate::cards::rank_of(13).unwrap());
                if c.owner_id == 0 && c.card.rank.val() == 13 {
                    assert(c == k <==> c.card.suit == suits@[i as int]);
                } else {
                    assert(c != k);
                }
            }
        }
        i = i + 1;
    }
    proof {
        let s = suits@;
        assert(s.take(4) =~= s);
        let cols = top_colors(piles@);
        assert(cols =~= s.map_values(|x: Suit| suit_color(x))) by {
            assert forall|j: int| 0 <= j < 4 implies cols[j] == suit_color(s[j]) by {
                assert(piles@[j]@.last() == first_players(s[j], 13));
            }
        }
        lemma_suit_colors(s);
        assert(s.to_multiset().count(Suit::Diamonds) == 1);
        assert(s.to_multiset().count(Suit::Hearts) == 1);
        assert forall|c: CardInstance| #[trigger] piles_cards(piles@).count(c) == if c.owner_id == 0 && 13 <= c.card.rank.val() <= 13 {
            1nat
        } else {
            0nat
        } by {
            if c.owner_id == 0 && c.card.rank.val() == 13 {
                assert(s.to_multiset().count(c.card.suit) == 1);
            }
        }
    }
    piles
}

/// `start`, toggled `n` times.
pub open spec fn toggled(start: bool, n: int) -> bool {
    if n % 2 == 0 {
        start
    } else {
        !start
    }
}

/// The suit of the card of rank `v` that `add_rank` puts on run `k`, whose
/// top colors are `oc`: a black suit on a red top, picked by the black flag
/// toggled once for each red top up to and including run `k`; a red suit on
/// a black top, likewise with the red flag.
pub open spec fn added_suit(oc: Seq<Color>, k: int, black: bool, red: bool) -> Suit {
    if oc[k] == Color::Red {
        black_for(toggled(black, color_count(oc.take(k + 1), Color::Red)))
    } else {
        red_for(toggled(red, color_count(oc.take(k + 1), Color::Black)))
    }
}

/// Puts one card of rank value `v` on each of the four runs, in the other
/// color than its top, given the two flags drawn for this rank: the black
/// flag is toggled each time a black suit is handed out and picks clubs or
/// spades, the red one likewise picks diamonds or hearts, so that each
/// color's two suits both come up.
pub fn add_rank(piles: &mut Vec<Vec<CardInstance>>, v: u8, black: bool, red: bool)
    requires
        1 <= v <= 12,
        old(piles)@.len() == 4,
        forall|j: int| 0 <= j < 4 ==> (#[trigger] old(piles)@[j])@.len() > 0,
        color_count(top_colors(old(piles)@), Color::Red) == 2,
        holds_ranks_from(piles_cards(old(piles)@), v + 1),
    ensures
        final(piles)@.len() == 4,
        forall|j: int| 0 <= j < 4 ==> (#[trigger] final(piles)@[j])@.len() == old(piles)@[j]@.len() + 1,
        color_count(top_colors(final(piles)@), Color::Red) == 2,
        holds_ranks_from(piles_cards(final(piles)@), v as int),
        forall|j: int| 0 <= j < 4 ==> {
            &&& (#[trigger] final(piles)@[j])@.drop_last() == old(piles)@[j]@
            &&& final(piles)@[j]@.last().card.rank.val() == v
            &&& final(piles)@[j]@.last().owner_id == 0
            &&& suit_color(final(piles)@[j]@.last().card.suit) == opposite_color(
                suit_color(old(piles)@[j]@.last().card.suit),
            )
            &&& final(piles)@[j]@.last() == first_players(added_suit(top_colors(old(piles)@), j, black, red), v as int)
        },
{
    let ghost before = piles@;
    let ghost oc = top_colors(before);
    let b0 = black;
    let r0 = red;
    let mut next_black = b0;
    let mut next_red = r0;
    let ghost mut kb: int = 0;
    let ghost mut kr: int = 0;
    proof {
        lemma_color_count_split(oc);
        assert(oc.take(0) =~= Seq::<Color>::empty());
    }
    let mut j: usize = 0;
    while j < 4
        invariant
            j <= 4,
            1 <= v <= 12,
            before.len() == 4,
            oc == top_colors(before),
            color_count(oc, Color::Red) == 2,
            color_count(oc, Color::Black) == 2,
            piles@.len() == 4,
            forall|k: int| 0 <= k < 4 ==> (#[trigger] before[k])@.len() > 0,
            forall|k: int| 0 <= k < 4 ==> (#[trigger] piles@[k])@.len() == before[k]@.len() + if k < j {
                1int
            } else {
                0int
            },
            forall|k: int| j <= k < 4 ==> #[trigger] piles@[k] == before[k],
            forall|k: int| 0 <= k < j ==> suit_color((#[trigger] piles@[k])@.last().card.suit) == opposite_color(oc[k]),
            forall|k: int| 0 <= k < j ==> {
                &&& (#[trigger] piles@[k])@.drop_last() == before[k]@
                &&& piles@[k]@.last().card.rank.val() == v
                &&& piles@[k]@.last().owner_id == 0
                &&& piles@[k]@.last() == first_players(added_suit(oc, k, b0, r0), v as int)
            },
            kb == color_count(oc.take(j as int), Color::Red),
            kr == color_count(oc.take(j as int), Color::Black),
            0 <= kb <= 2,
            0 <= kr <= 2,
            next_black == if kb % 2 == 0 { b0 } else { !b0 },
            next_red == if kr % 2 == 0 { r0 } else { !r0 },
            piles_cards(piles@) == piles_cards(before).add(
                toggled_picks(kb, b0, v as int, true).add(toggled_picks(kr, r0, v as int, false)),
            ),
        decreases 4 - j,
    {
        let ghost pj = piles@;
        let mut pile: Vec<CardInstance> = Vec::new();
        piles.set_and_swap(j, &mut pile);
        let ghost p1 = piles@;
        let top = pile[pile.len() - 1].card.suit;
        proof {
            assert(oc[j as int] == suit_color(top));
            lemma_color_count_split(oc.take(j + 1));
            assert(oc.take(j + 1).drop_last() =~= oc.take(j as int));
            lemma_color_count_prefix(oc, j + 1, Color::Red);
            lemma_color_count_prefix(oc, j + 1, Color::Black);
        }
        let suit = next_suit(top, &mut next_red, &mut next_black);
        let card = CardInstance { card: Card { suit, rank: Rank::new(v) }, owner_id: 0 };
        let ghost old_pile = pile@;
        pile.push(card);
        let ghost new_pile = pile;
        piles.set_and_swap(j, &mut pile);
        proof {
            crate::cards::lemma_rank_of(v as int);
            assert(card == first_players(suit, v as int));
            assert(p1 =~= pj.update(j as int, p1[j as int]));
            assert(old_pile == pj[j as int]@);
            lemma_piles_cards_update(pj, j as int, p1[j as int]);
            lemma_piles_cards_update(p1, j as int, new_pile);
            assert(p1.update(j as int, new_pile) =~= piles@);
            let z = p1[j as int]@.to_multiset();
            assert(z =~= Multiset::empty()) by {
                p1[j as int]@.to_multiset_ensures();
            }
            assert(new_pile@ =~= old_pile.push(card));
            let a0 = old_pile.to_multiset();
            assert(new_pile@.to_multiset() =~= a0.insert(card));
            assert forall|x: CardInstance| piles_cards(piles@).count(x) == piles_cards(pj).insert(card).count(x) by {
                assert(piles_cards(p1).add(a0).count(x) == piles_cards(pj).add(z).count(x));
                assert(piles_cards(piles@).add(z).count(x) == piles_cards(p1).add(a0.insert(card)).count(x));
            }
            assert(piles_cards(piles@) =~= piles_cards(pj).insert(card));
            if suit_color(top) == Color::Red {
                kb = kb + 1;
                assert(toggled_picks(kb, b0, v as int, true) =~= toggled_picks(kb - 1, b0, v as int, true).insert(card));
            } else {
                kr = kr + 1;
                assert(toggled_picks(kr, r0, v as int, false) =~= toggled_picks(kr - 1, r0, v as int, false).insert(card));
            }
            assert(piles@[j as int]@.last() == card);
            assert(piles@[j as int]@.drop_last() =~= before[j as int]@);
        }
        j = j + 1;
    }
    proof {
        assert(oc.take(4) =~= oc);
        let fin = top_colors(piles@);
        assert forall|k: int| 0 <= k < 4 implies #[trigger] fin[k] == opposite_color(oc[k]) by {}
        lemma_color_count_flipped(oc, fin);
        let picks = toggled_picks(2, b0, v as int, true).add(toggled_picks(2, r0, v as int, false));
        assert forall|c: CardInstance| #[trigger] piles_cards(piles@).count(c) == if c.owner_id == 0 && v
            <= c.card.rank.val() <= 13 {
            1nat
        } else {
            0nat
        } by {
            crate::cards::lemma_rank_of(v as int);
            if c.owner_id == 0 && c.card.rank.val() == v {
                crate::cards::lemma_rank_eq(c.card.rank, crate::cards::rank_of(v as int).unwrap());
                assert(c == first_players(c.card.suit, v as int));
                assert(picks.count(c) == 1);
            } else {
                assert(picks.count(c) == 0);
            }
        }
    }
}

/// Takes one card off the runs, given the two draws of the stack scenario:
/// `idx` picks the run, and `split` the card in it, which counts while fewer
/// runs than tableau stacks lie out and the run holds more than one card;
/// otherwise the run's top card is taken. What lay below the card stays in
/// the run's place (or the last run moves there, if nothing did), and what
/// lay above it becomes a new last run.
pub fn take_card(runs: &mut Vec<Vec<CardInstance>>, idx: usize, split: usize) -> (card: CardInstance)
    requires
        idx < old(runs)@.len(),
        split < old(runs)@[idx as int]@.len(),
    ensures
        ({
            let w = old(runs)@[idx as int]@;
            let cut = cut_at(old(runs)@.len() as int, w, split as int);
            &&& card == w[cut]
            &&& run_views(final(runs)@) == runs_after_take(run_views(old(runs)@), idx as int, cut)
        }),
        piles_len(final(runs)@) == piles_len(old(runs)@) - 1,
        piles_cards(final(runs)@).insert(card) == piles_cards(old(runs)@),
{
    let ghost p0 = runs@;
    let ghost cut = cut_at(p0.len() as int, p0[idx as int]@, split as int);
    let current_stacks_count = runs.len();
    let mut pile: Vec<CardInstance> = Vec::new();
    runs.set_and_swap(idx, &mut pile);
    let ghost p1 = runs@;
    let ghost whole = pile@;
    proof {
        assert(p1 =~= p0.update(idx as int, p1[idx as int]));
        lemma_piles_len_update(p0, idx as int, p1[idx as int]);
        lemma_piles_cards_update(p0, idx as int, p1[idx as int]);
        lemma_piles_len_nonneg(p1);
        p1[idx as int]@.to_multiset_ensures();
        assert(p1[idx as int]@.to_multiset() =~= Multiset::empty());
        assert(piles_cards(p1).add(whole.to_multiset()) =~= piles_cards(p0));
        assert(whole == p0[idx as int]@);
    }
    let mut after: Vec<CardInstance> = Vec::new();
    if current_stacks_count < STACK_TABLEAU && pile.len() > 1 {
        after = pile.split_off(split + 1);
    }
    let ghost kept = pile@;
    let ghost tail = after@;
    proof {
        assert(whole =~= kept + tail);
        vstd::seq_lib::lemma_multiset_commutative(kept, tail);
        assert(whole.to_multiset() =~= kept.to_multiset().add(tail.to_multiset()));
        assert(kept.len() == cut + 1);
        assert(tail =~= whole.skip(cut + 1));
    }
    let card = pile.pop().unwrap();
    let ghost rest = pile@;
    proof {
        assert(kept =~= rest.push(card));
        assert(kept.to_multiset() =~= rest.to_multiset().insert(card));
        assert(rest =~= whole.take(cut));
        assert(card == whole[cut]);
    }
    if pile.len() == 0 {
        runs.swap_remove(idx);
        proof {
            lemma_piles_swap_remove(p1, idx as int);
            assert(runs@ =~= p1.update(idx as int, p1.last()).drop_last());
            rest.to_multiset_ensures();
            assert(rest.to_multiset() =~= Multiset::empty());
            assert(piles_cards(runs@) =~= piles_cards(p1).add(rest.to_multiset()));
            assert(run_views(runs@) =~= run_views(p0).update(idx as int, run_views(p0).last()).drop_last());
        }
    } else {
        let ghost p2 = runs@;
        let ghost back = pile;
        runs.set_and_swap(idx, &mut pile);
        proof {
            lemma_piles_len_update(p2, idx as int, back);
            lemma_piles_cards_update(p2, idx as int, back);
            assert(runs@ == p2.update(idx as int, back));
            assert(piles_cards(runs@) =~= piles_cards(p1).add(rest.to_multiset()));
            assert(run_views(runs@) =~= run_views(p0).update(idx as int, rest));
        }
    }
    let ghost p_mid = piles_cards(runs@);
    let ghost v_mid = run_views(runs@);
    if after.len() > 0 {
        let ghost p3 = runs@;
        let ghost added = after;
        runs.push(after);
        proof {
            lemma_piles_push(p3, added);
            assert(piles_cards(runs@) == p_mid.add(tail.to_multiset()));
            assert(run_views(runs@) =~= v_mid.push(tail));
        }
    } else {
        proof {
            tail.to_multiset_ensures();
            assert(tail.to_multiset() =~= Multiset::empty());
            assert(piles_cards(runs@) =~= p_mid.add(tail.to_multiset()));
        }
    }
    proof {
        assert forall|x: CardInstance| piles_cards(runs@).insert(card).count(x) == piles_cards(p0).count(x) by {
            assert(piles_cards(p1).add(whole.to_multiset()).count(x) == piles_cards(p0).count(x));
        }
        assert(piles_cards(runs@).insert(card) =~= piles_cards(p0));
        assert(run_views(runs@) == runs_after_take(run_views(p0), idx as int, cut));
    }
    card
}

/// Builds the stack scenario's pile: four runs from the king down in
/// alternating colors, then broken apart at random and taken off card by
/// card (at most five runs at a time). Whatever the random choices, the pile
/// holds every card of the first player, of every suit and rank, once, and
/// it can be dealt out from its top onto five empty tableau stacks, each
/// card going on an empty stack or on a card it fits, with a whole run moved
/// onto it where that run's bottom card fits.
pub(crate) fn stack_pile() -> (res: Vec<CardInstance>)
    ensures
        res@.len() == 52,
        holds_ranks_from(res@.to_multiset(), 1),
        can_deal(res@, Multiset::empty()),
{
    let mut piles = king_piles();
    let mut rank_value: u8 = 12;
    loop
        invariant_except_break
            forall|j: int| 0 <= j < 4 ==> (#[trigger] piles@[j])@.len() == 13 - rank_value,
            forall|j: int| 0 <= j < 4 ==> is_run(#[trigger] piles@[j]@) && piles@[j]@.last().card.rank.val() == rank_value + 1,
            holds_ranks_from(piles_cards(piles@), rank_value + 1),
        invariant
            1 <= rank_value <= 12,
            piles@.len() == 4,
            color_count(top_colors(piles@), Color::Red) == 2,
        ensures
            piles@.len() == 4,
            forall|j: int| 0 <= j < 4 ==> (#[trigger] piles@[j])@.len() == 13,
            forall|j: int| 0 <= j < 4 ==> is_run(#[trigger] piles@[j]@),
            holds_ranks_from(piles_cards(piles@), 1),
        decreases rank_value,
    {
        let ghost before = piles@;
        let black = random_bool();
        let red = random_bool();
        add_rank(&mut piles, rank_value, black, red);
        proof {
            assert forall|j: int| 0 <= j < 4 implies is_run(#[trigger] piles@[j]@) by {
                lemma_run_extends(before[j]@, piles@[j]@, rank_value as int);
            }
        }
        if rank_value == 1 {
            break;
        }
        rank_value = rank_value - 1;
    }
    let ghost full = piles_cards(piles@);
    proof {
        assert forall|j: int| 0 <= j < run_views(piles@).len() implies (#[trigger] run_views(piles@)[j]).len() > 0
            && is_run(run_views(piles@)[j]) by {
            assert(run_views(piles@)[j] == piles@[j]@);
        }
    }
    let mut nerts_cards: Vec<CardInstance> = Vec::new();
    proof {
        assert forall|j: int| 0 <= j < piles@.len() implies (#[trigger] piles@[j])@.len() == 13 by {}
        lemma_piles_len_uniform(piles@, 13);
        assert(nerts_cards@.to_multiset() =~= Multiset::empty()) by {
            nerts_cards@.to_multiset_ensures();
        }
    }
    proof {
        assert(run_views(piles@).to_multiset() =~= Multiset::empty().insert(piles@[0]@).insert(piles@[1]@).insert(
            piles@[2]@,
        ).insert(piles@[3]@)) by {
            let v = run_views(piles@);
            assert(v =~= Seq::<Seq<CardInstance>>::empty().push(piles@[0]@).push(piles@[1]@).push(piles@[2]@).push(
                piles@[3]@,
            ));
            Seq::<Seq<CardInstance>>::empty().to_multiset_ensures();
        }
        lemma_can_deal_empty(run_views(piles@).to_multiset());
        assert(nerts_cards@ =~= Seq::<CardInstance>::empty());
    }
    while piles.len() > 0
        invariant
            nerts_cards@.len() + piles_len(piles@) == 52,
            nerts_cards@.to_multiset().add(piles_cards(piles@)) == full,
            laid_out(run_views(piles@)),
            can_deal(nerts_cards@, run_views(piles@).to_multiset()),
        decreases 52 - nerts_cards@.len(),
    {
        let ghost p0 = piles@;
        let ghost n0 = nerts_cards@.to_multiset();
        proof {
            lemma_piles_len_nonneg(p0);
            assert(p0[0]@ == run_views(p0)[0]);
        }
        let idx = random_below(piles.len());
        let len = piles[idx].len();
        proof {
            assert(piles@[idx as int]@ == run_views(p0)[idx as int]);
        }
        let split = if piles.len() < STACK_TABLEAU && len > 1 {
            random_below(len)
        } else {
            len - 1
        };
        let card = take_card(&mut piles, idx, split);
        let ghost ns0 = nerts_cards@;
        proof {
            lemma_piles_len_nonneg(piles@);
            assert(run_views(p0)[idx as int] == p0[idx as int]@);
            let cut = if p0.len() < STACK_TABLEAU && len > 1 { split as int } else { len - 1 };
            lemma_taken_card_deals_back(run_views(p0), idx as int, cut);
        }
        nerts_cards.push(card);
        proof {
            let n = nerts_cards@.to_multiset();
            assert(n =~= n0.insert(card));
            assert forall|x: CardInstance| n.add(piles_cards(piles@)).count(x) == full.count(x) by {
                assert(n0.add(piles_cards(p0)).count(x) == full.count(x));
            }
            assert(n.add(piles_cards(piles@)) =~= full);
            let t = run_views(piles@).to_multiset();
            let t0 = run_views(p0).to_multiset();
            assert(nerts_cards@.drop_last() =~= ns0);
            assert(nerts_cards@ =~= ns0.push(card));
            lemma_can_deal_push(ns0, card, t, t0);
        }
    }
    proof {
        assert(piles_cards(piles@) =~= Multiset::empty());
        assert(nerts_cards@.to_multiset() =~= full);
        assert(run_views(piles@) =~= Seq::<Seq<CardInstance>>::empty());
        Seq::<Seq<CardInstance>>::empty().to_multiset_ensures();
        assert(run_views(piles@).to_multiset() =~= Multiset::empty());
    }
    nerts_cards
}

proof fn lemma_piles_len_uniform(piles: Seq<Vec<CardInstance>>, n: int)
    requires
        forall|j: int| 0 <= j < piles.len() ==> (#[trigger] piles[j])@.len() == n,
    ensures
        piles_len(piles) == n * piles.len(),
    decreases piles.len(),
{
    if piles.len() > 0 {
        assert forall|j: int| 0 <= j < piles.drop_last().len() implies (#[trigger] piles.drop_last()[j])@.len() == n by {
            assert(piles.drop_last()[j] == piles[j]);
        }
        lemma_piles_len_uniform(piles.drop_last(), n);
        assert(n * piles.len() == n * (piles.len() - 1) + n) by (nonlinear_arith);
    }
}

} // verus!
