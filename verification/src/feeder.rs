//! The feeder of the flip practice scenario: a second player who keeps the
//! learner supplied with playable cards. When too few of the cards the
//! learner can reach in the stock and waste can be played, the feeder either
//! brings a card onto the lake that opens a stack the learner can build on,
//! or takes cards back off a lake stack so that one of the learner's cards
//! fits again.

use vstd::prelude::*;
use crate::cards::{Card, CardInstance, group_rank, rank_of};
use crate::stack::{Stack, StackModel, StackOrder};
use crate::player::PlayerModel;
use crate::hand::{HandModel, HandState};
use crate::bot::{first_index, lemma_first_index, lemma_first_index_extend};

verus! {

broadcast use group_rank;

/// The cards at positions 2, 5, 8, ... of `s`: those turned face up when a
/// pile is flipped through three cards at a time.
pub open spec fn every_third(s: Seq<CardInstance>) -> Seq<Card> {
    Seq::new((s.len() / 3) as nat, |k: int| s[3 * k + 2].card)
}

/// The cards the learner (player 0) can reach by flipping: those on the
/// next pass through the waste and stock, those left on this pass, the
/// waste card, and the last card of the stock.
pub open spec fn available_list(p: PlayerModel) -> Seq<Card> {
    let w = p.waste.cards;
    let st = p.stock.cards;
    every_third(w + st.reverse()) + every_third(st.reverse()) + (if w.len() > 0 {
        seq![w.last().card]
    } else {
        Seq::empty()
    }) + (if st.len() > 0 {
        seq![st[0].card]
    } else {
        Seq::empty()
    })
}

/// The cards of `s`, each kept once, in order of first appearance.
pub open spec fn distinct(s: Seq<Card>) -> Seq<Card>
    decreases s.len(),
{
    if s.len() == 0 {
        Seq::empty()
    } else {
        let d = distinct(s.drop_last());
        if d.contains(s.last()) {
            d
        } else {
            d.push(s.last())
        }
    }
}

/// How many of `s` are aces.
pub open spec fn ace_count(s: Seq<Card>) -> int
    decreases s.len(),
{
    if s.len() == 0 {
        0
    } else {
        ace_count(s.drop_last()) + if s.last().rank.val() == 1 {
            1int
        } else {
            0int
        }
    }
}

/// The card of the same suit one rank higher, if any.
pub open spec fn next_card(c: Card) -> Option<Card> {
    match rank_of(c.rank.val() + 1) {
        Some(r) => Some(Card { suit: c.suit, rank: r }),
        None => None,
    }
}

/// The card of the same suit one rank lower, if any.
pub open spec fn prev_card(c: Card) -> Option<Card> {
    match rank_of(c.rank.val() - 1) {
        Some(r) => Some(Card { suit: c.suit, rank: r }),
        None => None,
    }
}

/// Some card of `avail` goes on top of stack `s`.
pub open spec fn builds_on_top(s: StackModel, avail: Seq<Card>) -> bool {
    s.cards.len() > 0 && match next_card(s.cards.last().card) {
        Some(n) => avail.contains(n),
        None => false,
    }
}

/// How many lake stacks the cards `avail` can build on.
pub open spec fn lake_playable_count(lakes: Seq<StackModel>, avail: Seq<Card>) -> int
    decreases lakes.len(),
{
    if lakes.len() == 0 {
        0
    } else {
        let s = lakes.last();
        lake_playable_count(lakes.drop_last(), avail) + if builds_on_top(s, avail) {
            1int
        } else {
            0int
        }
    }
}

/// The learner's reachable cards, each once.
pub open spec fn available_cards(h: HandModel) -> Seq<Card> {
    distinct(available_list(h.players[0]))
}

/// How many plays the reachable cards offer: aces, and cards that build on
/// a lake stack.
pub open spec fn playable_count(h: HandModel) -> int {
    ace_count(available_cards(h)) + lake_playable_count(h.lakes, available_cards(h))
}

/// The feeder steps in when fewer than a third of the reachable cards, or
/// fewer than two, can be played.
pub open spec fn needs_feeding(h: HandModel) -> bool {
    playable_count(h) < available_cards(h).len() / 3 || playable_count(h) < 2
}

/// The cards at positions 2, 5, 8, ... of `w` followed by `st` reversed.
fn every_third_of(w: &[CardInstance], st: &[CardInstance]) -> (res: Vec<Card>)
    ensures
        res@ == every_third(w@ + st@.reverse()),
{
    let ghost s = w@ + st@.reverse();
    let n: u128 = w.len() as u128 + st.len() as u128;
    let mut res: Vec<Card> = Vec::new();
    let mut k: u128 = 0;
    while k < n / 3
        invariant
            n == s.len(),
            s == w@ + st@.reverse(),
            k <= n / 3,
            res@ == every_third(s).take(k as int),
        decreases n / 3 - k,
    {
        let i: u128 = 3 * k + 2;
        let c = if i < w.len() as u128 {
            w[i as usize]
        } else {
            st[st.len() - 1 - (i - w.len() as u128) as usize]
        };
        assert(c == s[i as int]);
        res.push(c.card);
        proof {
            assert(res@ =~= every_third(s).take(k + 1));
        }
        k = k + 1;
    }
    assert(res@ =~= every_third(s));
    res
}

/// Keeps each card of `s` once, in order of first appearance.
fn distinct_cards(s: &Vec<Card>) -> (res: Vec<Card>)
    ensures
        res@ == distinct(s@),
{
    let mut res: Vec<Card> = Vec::new();
    let mut i: usize = 0;
    while i < s.len()
        invariant
            i <= s@.len(),
            res@ == distinct(s@.take(i as int)),
        decreases s@.len() - i,
    {
        let c = s[i];
        let mut found = false;
        let mut j: usize = 0;
        while j < res.len()
            invariant
                j <= res@.len(),
                found == exists|m: int| 0 <= m < j && res@[m] == c,
            decreases res@.len() - j,
        {
            if res[j] == c {
                found = true;
            }
            j = j + 1;
        }
        proof {
            assert(s@.take(i + 1).drop_last() =~= s@.take(i as int));
            assert(s@.take(i + 1).last() == c);
            if found {
                let m = choose|m: int| 0 <= m < j && res@[m] == c;
                assert(res@.contains(c));
            } else {
                assert(!res@.contains(c));
            }
        }
        if !found {
            res.push(c);
        }
        i = i + 1;
    }
    assert(s@.take(i as int) =~= s@);
    res
}

/// Whether `c` is among `s`.
fn has_card(s: &Vec<Card>, c: Card) -> (res: bool)
    ensures
        res == s@.contains(c),
{
    let mut j: usize = 0;
    while j < s.len()
        invariant
            j <= s@.len(),
            forall|m: int| 0 <= m < j ==> s@[m] != c,
        decreases s@.len() - j,
    {
        if s[j] == c {
            return true;
        }
        j = j + 1;
    }
    false
}

/// The card of the same suit one rank higher, if any.
fn next_card_of(c: Card) -> (res: Option<Card>)
    ensures
        res == next_card(c),
{
    match c.rank.increment() {
        Some(r) => Some(Card { suit: c.suit, rank: r }),
        None => None,
    }
}

/// The card of the same suit one rank lower, if any.
fn prev_card_of(c: Card) -> (res: Option<Card>)
    ensures
        res == prev_card(c),
{
    match c.rank.decrement() {
        Some(r) => Some(Card { suit: c.suit, rank: r }),
        None => None,
    }
}

/// The learner's reachable cards, each once.
fn reachable_cards(hand: &HandState) -> (res: Vec<Card>)
    requires
        hand@.players.len() > 0,
    ensures
        res@ == available_cards(hand@),
{
    let p = &hand.players()[0];
    assert(p@ == hand@.players[0]);
    let w = p.waste_stack().cards();
    let st = p.stock_stack().cards();
    let mut list = every_third_of(w, st);
    let empty: Vec<CardInstance> = Vec::new();
    let mut b = every_third_of(empty.as_slice(), st);
    assert(empty@ + st@.reverse() =~= st@.reverse());
    list.append(&mut b);
    if w.len() > 0 {
        list.push(w[w.len() - 1].card);
    }
    if st.len() > 0 {
        list.push(st[0].card);
    }
    proof {
        let wl: Seq<Card> = if w@.len() > 0 { seq![w@.last().card] } else { Seq::empty() };
        let sl: Seq<Card> = if st@.len() > 0 { seq![st@[0].card] } else { Seq::empty() };
        assert(list@ =~= every_third(w@ + st@.reverse()) + every_third(st@.reverse()) + wl + sl);
    }
    distinct_cards(&list)
}

/// Whether the feeder should step in.
pub fn should_feed(hand: &HandState) -> (res: bool)
    requires
        hand@.players.len() > 0,
    ensures
        res == needs_feeding(hand@),
{
    let avail = reachable_cards(hand);
    let mut aces: usize = 0;
    let mut i: usize = 0;
    while i < avail.len()
        invariant
            i <= avail@.len(),
            aces == ace_count(avail@.take(i as int)),
            aces <= i,
        decreases avail@.len() - i,
    {
        proof {
            assert(avail@.take(i + 1).drop_last() =~= avail@.take(i as int));
        }
        if avail[i].rank.value() == 1 {
            aces = aces + 1;
        }
        i = i + 1;
    }
    assert(avail@.take(i as int) =~= avail@);
    let lakes = hand.lake_stacks();
    let ghost lv = lakes@.map_values(|s: crate::stack::Stack| s@);
    let mut on_lake: usize = 0;
    let mut j: usize = 0;
    while j < lakes.len()
        invariant
            j <= lakes@.len(),
            lv == lakes@.map_values(|s: crate::stack::Stack| s@),
            on_lake == lake_playable_count(lv.take(j as int), avail@),
            on_lake <= j,
        decreases lakes@.len() - j,
    {
        proof {
            assert(lv.take(j + 1).drop_last() =~= lv.take(j as int));
            assert(lakes@[j as int]@ == lv[j as int]);
        }
        let plays = match lakes[j].last() {
            Some(top) => match next_card_of(top.card) {
                Some(n) => has_card(&avail, n),
                None => false,
            },
            None => false,
        };
        if plays {
            on_lake = on_lake + 1;
        }
        j = j + 1;
    }
    assert(lv.take(j as int) =~= lv);
    assert(lv == hand@.lakes);
    let playable: u128 = aces as u128 + on_lake as u128;
    playable < (avail.len() / 3) as u128 || playable < 2
}

/// A card the feeder could bring onto lake stack `lake` (`play`), and the
/// card the learner would then need to follow it (`target`).
#[derive(Clone, Copy, Debug, PartialEq, Eq, Structural)]
pub struct SummonCandidate {
    pub lake: u16,
    pub play: Card,
    pub target: Card,
}

/// Cards the feeder could take off lake stack `lake` (`count` of them), and
/// the card then on top of the learner's hopes (`target`).
#[derive(Clone, Copy, Debug, PartialEq, Eq, Structural)]
pub struct RetractCandidate {
    pub lake: u16,
    pub count: u8,
    pub target: Card,
}

/// The aces among `s`, in order.
pub open spec fn aces_of(s: Seq<CardInstance>) -> Seq<Card>
    decreases s.len(),
{
    if s.len() == 0 {
        Seq::empty()
    } else if s.last().card.rank.val() == 1 {
        aces_of(s.drop_last()).push(s.last().card)
    } else {
        aces_of(s.drop_last())
    }
}

/// The top cards of the lake stacks that hold cards.
pub open spec fn lake_tops(lakes: Seq<StackModel>) -> Seq<Card>
    decreases lakes.len(),
{
    if lakes.len() == 0 {
        Seq::empty()
    } else if lakes.last().cards.len() > 0 {
        lake_tops(lakes.drop_last()).push(lakes.last().cards.last().card)
    } else {
        lake_tops(lakes.drop_last())
    }
}

/// Some lake stack is empty.
pub open spec fn has_empty_lake(lakes: Seq<StackModel>) -> bool {
    exists|i: int| 0 <= i < lakes.len() && #[trigger] lakes[i].cards.len() == 0
}

/// What the feeder could bring onto each lake stack in turn: on a stack with
/// cards, the next card up (the learner then needing the one after); on an
/// empty stack, the next of the feeder's own aces (the learner then needing
/// the two). Also gives how many of `aces` were handed out.
pub open spec fn summon_candidates(lakes: Seq<StackModel>, aces: Seq<Card>) -> (Seq<SummonCandidate>, int)
    decreases lakes.len(),
{
    if lakes.len() == 0 {
        (Seq::empty(), 0)
    } else {
        let (c, used) = summon_candidates(lakes.drop_last(), aces);
        let lake = (lakes.len() - 1) as u16;
        let s = lakes.last();
        if s.cards.len() > 0 {
            match next_card(s.cards.last().card) {
                Some(play) => match next_card(play) {
                    Some(target) => (c.push(SummonCandidate { lake, play, target }), used),
                    None => (c, used),
                },
                None => (c, used),
            }
        } else if used < aces.len() {
            (c.push(SummonCandidate { lake, play: aces[used], target: next_card(aces[used]).unwrap() }), used + 1)
        } else {
            (c, used)
        }
    }
}

/// The candidates whose card the learner cannot reach already.
pub open spec fn unreachable_plays(c: Seq<SummonCandidate>, avail: Seq<Card>) -> Seq<SummonCandidate>
    decreases c.len(),
{
    if c.len() == 0 {
        Seq::empty()
    } else if avail.contains(c.last().play) {
        unreachable_plays(c.drop_last(), avail)
    } else {
        unreachable_plays(c.drop_last(), avail).push(c.last())
    }
}

/// One step further up: each candidate's target moves one rank up, except
/// where the card below the target already tops some lake stack (that stack
/// would be a duplicate) or there is no higher rank.
pub open spec fn summon_step(c: Seq<SummonCandidate>, tops: Seq<Card>) -> Seq<SummonCandidate>
    decreases c.len(),
{
    if c.len() == 0 {
        Seq::empty()
    } else {
        let rest = summon_step(c.drop_last(), tops);
        let e = c.last();
        let duplicate = match prev_card(e.target) {
            Some(p) => tops.contains(p),
            None => false,
        };
        if duplicate {
            rest
        } else {
            match next_card(e.target) {
                Some(n) => rest.push(SummonCandidate { target: n, ..e }),
                None => rest,
            }
        }
    }
}

/// The learner can reach the target of candidate `k`.
pub open spec fn summon_hits(c: Seq<SummonCandidate>, avail: Seq<Card>) -> spec_fn(int) -> bool {
    |k: int| avail.contains(c[k].target)
}

/// The first candidate whose target the learner can reach, looking further
/// up step by step (at most `fuel` steps).
pub open spec fn summon_search(c: Seq<SummonCandidate>, avail: Seq<Card>, tops: Seq<Card>, fuel: nat) -> Option<SummonCandidate>
    decreases fuel,
{
    if fuel == 0 || c.len() == 0 {
        None
    } else {
        match first_index(c.len() as int, summon_hits(c, avail)) {
            Some(k) => Some(c[k]),
            None => summon_search(summon_step(c, tops), avail, tops, (fuel - 1) as nat),
        }
    }
}

/// The top card of each lake stack that holds cards, as a candidate for
/// taking one card back.
pub open spec fn retract_candidates(lakes: Seq<StackModel>) -> Seq<RetractCandidate>
    decreases lakes.len(),
{
    if lakes.len() == 0 {
        Seq::empty()
    } else if lakes.last().cards.len() > 0 {
        retract_candidates(lakes.drop_last()).push(
            RetractCandidate { lake: (lakes.len() - 1) as u16, count: 1, target: lakes.last().cards.last().card },
        )
    } else {
        retract_candidates(lakes.drop_last())
    }
}

/// One card deeper into each stack: one more card taken, the target one rank
/// lower (candidates at the ace drop out).
pub open spec fn retract_step(c: Seq<RetractCandidate>) -> Seq<RetractCandidate>
    decreases c.len(),
{
    if c.len() == 0 {
        Seq::empty()
    } else {
        match prev_card(c.last().target) {
            Some(p) => retract_step(c.drop_last()).push(
                RetractCandidate { count: (c.last().count + 1) as u8, target: p, ..c.last() },
            ),
            None => retract_step(c.drop_last()),
        }
    }
}

/// Taking back candidate `k` helps: the learner can reach its target, not
/// also the card above it, and the stack left would duplicate no other (the
/// card below the target tops no lake stack; for an ace, no lake stack is
/// empty).
pub open spec fn retract_fits(c: Seq<RetractCandidate>, avail: Seq<Card>, tops: Seq<Card>, has_empty: bool) -> spec_fn(int) -> bool {
    |k: int| {
        let e = c[k];
        &&& avail.contains(e.target)
        &&& !(match next_card(e.target) {
            Some(n) => avail.contains(n),
            None => false,
        })
        &&& !(match prev_card(e.target) {
            Some(p) => tops.contains(p),
            None => has_empty,
        })
    }
}

/// The first candidate that helps, looking deeper step by step (at most
/// `fuel` steps).
pub open spec fn retract_search(c: Seq<RetractCandidate>, avail: Seq<Card>, tops: Seq<Card>, has_empty: bool, fuel: nat) -> Option<RetractCandidate>
    decreases fuel,
{
    if fuel == 0 || c.len() == 0 {
        None
    } else {
        match first_index(c.len() as int, retract_fits(c, avail, tops, has_empty)) {
            Some(k) => Some(c[k]),
            None => retract_search(retract_step(c), avail, tops, has_empty, (fuel - 1) as nat),
        }
    }
}

/// What the feeder does.
#[derive(Clone, Copy, Debug, PartialEq, Eq, Structural)]
pub enum FeedDecision {
    /// Bring `card` onto lake stack `lake`.
    Summon { lake: u16, card: Card },
    /// Take the top `count` cards of lake stack `lake` back.
    Retract { lake: u16, count: u8 },
    /// Nothing to do.
    Nothing,
}

/// What the feeder does for hand `h` (the learner being player 0, the
/// feeder player 1): nothing unless the learner needs feeding; else bring
/// up a card that opens a stack the learner can follow, searching upwards;
/// else take cards back so that a card the learner holds fits again,
/// searching downwards.
pub open spec fn feed_decision(h: HandModel) -> FeedDecision {
    if !needs_feeding(h) {
        FeedDecision::Nothing
    } else {
        let avail = available_cards(h);
        let tops = lake_tops(h.lakes);
        let summons = unreachable_plays(summon_candidates(h.lakes, aces_of(h.players[1].stock.cards)).0, avail);
        match summon_search(summons, avail, tops, 13) {
            Some(e) => FeedDecision::Summon { lake: e.lake, card: e.play },
            None => match retract_search(retract_candidates(h.lakes), avail, tops, has_empty_lake(h.lakes), 13) {
                Some(e) => FeedDecision::Retract { lake: e.lake, count: e.count },
                None => FeedDecision::Nothing,
            },
        }
    }
}

/// Every candidate's target lies between rank `lo` and the king.
pub open spec fn summon_targets_from(c: Seq<SummonCandidate>, lo: int) -> bool {
    forall|k: int| 0 <= k < c.len() ==> lo <= (#[trigger] c[k]).target.rank.val() <= 13
}

/// Every candidate's target lies between the ace and rank `hi`, with `count`
/// cards taken.
pub open spec fn retract_targets_upto(c: Seq<RetractCandidate>, hi: int, count: int) -> bool {
    forall|k: int| 0 <= k < c.len() ==> 1 <= (#[trigger] c[k]).target.rank.val() <= hi && c[k].count == count
}

/// The top cards of the lake stacks that hold cards.
fn tops_of(lakes: &[Stack]) -> (res: Vec<Card>)
    ensures
        res@ == lake_tops(lakes@.map_values(|s: Stack| s@)),
{
    let ghost lv = lakes@.map_values(|s: Stack| s@);
    let mut res: Vec<Card> = Vec::new();
    let mut i: usize = 0;
    while i < lakes.len()
        invariant
            i <= lakes@.len(),
            lv == lakes@.map_values(|s: Stack| s@),
            res@ == lake_tops(lv.take(i as int)),
        decreases lakes@.len() - i,
    {
        proof {
            assert(lv.take(i + 1).drop_last() =~= lv.take(i as int));
            assert(lakes@[i as int]@ == lv[i as int]);
        }
        match lakes[i].last() {
            Some(top) => {
                res.push(top.card);
            },
            None => {},
        }
        i = i + 1;
    }
    assert(lv.take(i as int) =~= lv);
    res
}

/// Whether some lake stack is empty.
fn any_empty(lakes: &[Stack]) -> (res: bool)
    ensures
        res == has_empty_lake(lakes@.map_values(|s: Stack| s@)),
{
    let ghost lv = lakes@.map_values(|s: Stack| s@);
    let mut i: usize = 0;
    while i < lakes.len()
        invariant
            i <= lakes@.len(),
            lv == lakes@.map_values(|s: Stack| s@),
            forall|k: int| 0 <= k < i ==> lv[k].cards.len() > 0,
        decreases lakes@.len() - i,
    {
        assert(lakes@[i as int]@ == lv[i as int]);
        if lakes[i].len() == 0 {
            assert(lv[i as int].cards.len() == 0);
            return true;
        }
        i = i + 1;
    }
    false
}

/// The aces among `s`, in order.
fn aces_in(s: &[CardInstance]) -> (res: Vec<Card>)
    ensures
        res@ == aces_of(s@),
        forall|k: int| 0 <= k < res@.len() ==> (#[trigger] res@[k]).rank.val() == 1,
{
    let mut res: Vec<Card> = Vec::new();
    let mut i: usize = 0;
    while i < s.len()
        invariant
            i <= s@.len(),
            res@ == aces_of(s@.take(i as int)),
            forall|k: int| 0 <= k < res@.len() ==> (#[trigger] res@[k]).rank.val() == 1,
        decreases s@.len() - i,
    {
        proof {
            assert(s@.take(i + 1).drop_last() =~= s@.take(i as int));
        }
        if s[i].card.rank.value() == 1 {
            res.push(s[i].card);
        }
        i = i + 1;
    }
    assert(s@.take(i as int) =~= s@);
    res
}

/// What the feeder could bring onto each lake stack, those the learner can
/// already reach left out.
fn summons_for(lakes: &[Stack], aces: &Vec<Card>, avail: &Vec<Card>) -> (res: Vec<SummonCandidate>)
    requires
        forall|k: int| 0 <= k < aces@.len() ==> (#[trigger] aces@[k]).rank.val() == 1,
    ensures
        res@ == unreachable_plays(summon_candidates(lakes@.map_values(|s: Stack| s@), aces@).0, avail@),
        summon_targets_from(res@, 2),
{
    let ghost lv = lakes@.map_values(|s: Stack| s@);
    let mut all: Vec<SummonCandidate> = Vec::new();
    let mut used: usize = 0;
    let mut i: usize = 0;
    while i < lakes.len()
        invariant
            i <= lakes@.len(),
            lv == lakes@.map_values(|s: Stack| s@),
            forall|k: int| 0 <= k < aces@.len() ==> (#[trigger] aces@[k]).rank.val() == 1,
            (all@, used as int) == summon_candidates(lv.take(i as int), aces@),
            used <= aces@.len(),
            summon_targets_from(all@, 2),
        decreases lakes@.len() - i,
    {
        proof {
            assert(lv.take(i + 1).drop_last() =~= lv.take(i as int));
            assert(lakes@[i as int]@ == lv[i as int]);
        }
        let lake = i as u16;
        match lakes[i].last() {
            Some(top) => {
                match next_card_of(top.card) {
                    Some(play) => match next_card_of(play) {
                        Some(target) => {
                            all.push(SummonCandidate { lake, play, target });
                        },
                        None => {},
                    },
                    None => {},
                }
            },
            None => {
                if used < aces.len() {
                    let a = aces[used];
                    let target = next_card_of(a).unwrap();
                    all.push(SummonCandidate { lake, play: a, target });
                    used = used + 1;
                }
            },
        }
        i = i + 1;
    }
    assert(lv.take(i as int) =~= lv);
    let mut res: Vec<SummonCandidate> = Vec::new();
    let mut j: usize = 0;
    while j < all.len()
        invariant
            j <= all@.len(),
            res@ == unreachable_plays(all@.take(j as int), avail@),
            summon_targets_from(all@, 2),
            summon_targets_from(res@, 2),
        decreases all@.len() - j,
    {
        proof {
            assert(all@.take(j + 1).drop_last() =~= all@.take(j as int));
        }
        if !has_card(avail, all[j].play) {
            res.push(all[j]);
        }
        j = j + 1;
    }
    assert(all@.take(j as int) =~= all@);
    res
}

/// One step of the upward search.
fn summon_step_of(c: &Vec<SummonCandidate>, tops: &Vec<Card>, lo: Ghost<int>) -> (res: Vec<SummonCandidate>)
    requires
        summon_targets_from(c@, lo@),
    ensures
        res@ == summon_step(c@, tops@),
        summon_targets_from(res@, lo@ + 1),
{
    let mut res: Vec<SummonCandidate> = Vec::new();
    let mut i: usize = 0;
    while i < c.len()
        invariant
            i <= c@.len(),
            summon_targets_from(c@, lo@),
            res@ == summon_step(c@.take(i as int), tops@),
            summon_targets_from(res@, lo@ + 1),
        decreases c@.len() - i,
    {
        proof {
            assert(c@.take(i + 1).drop_last() =~= c@.take(i as int));
        }
        let e = c[i];
        let duplicate = match prev_card_of(e.target) {
            Some(p) => has_card(tops, p),
            None => false,
        };
        if !duplicate {
            match next_card_of(e.target) {
                Some(n) => {
                    res.push(SummonCandidate { lake: e.lake, play: e.play, target: n });
                },
                None => {},
            }
        }
        i = i + 1;
    }
    assert(c@.take(i as int) =~= c@);
    res
}

/// The upward search.
fn search_summons(start: Vec<SummonCandidate>, avail: &Vec<Card>, tops: &Vec<Card>) -> (res: Option<SummonCandidate>)
    requires
        summon_targets_from(start@, 2),
    ensures
        res == summon_search(start@, avail@, tops@, 13),
{
    let mut c = start;
    let mut round: usize = 0;
    while c.len() > 0
        invariant
            round <= 12,
            summon_targets_from(c@, round + 2),
            summon_search(c@, avail@, tops@, (13 - round) as nat) == summon_search(start@, avail@, tops@, 13),
        decreases 13 - round,
    {
        let v = c[0].target.rank.value();
        assert(round + 2 <= v <= 13);
        let ghost f = summon_hits(c@, avail@);
        let mut k: usize = 0;
        while k < c.len()
            invariant
                k <= c@.len(),
                c@.len() > 0,
                round <= 12,
                summon_search(c@, avail@, tops@, (13 - round) as nat) == summon_search(start@, avail@, tops@, 13),
                f == summon_hits(c@, avail@),
                first_index(k as int, f) is None,
            decreases c@.len() - k,
        {
            if has_card(avail, c[k].target) {
                proof {
                    assert(f(k as int));
                    assert(first_index(k + 1, f) == Some(k as int));
                    lemma_first_index_extend(k + 1, c@.len() as int, f);
                }
                return Some(c[k]);
            }
            assert(!f(k as int));
            k = k + 1;
        }
        let next = summon_step_of(&c, tops, Ghost(round + 2));
        c = next;
        round = round + 1;
    }
    None
}

/// The top card of each lake stack that holds cards, as retract candidates.
fn retracts_for(lakes: &[Stack]) -> (res: Vec<RetractCandidate>)
    ensures
        res@ == retract_candidates(lakes@.map_values(|s: Stack| s@)),
        retract_targets_upto(res@, 13, 1),
{
    let ghost lv = lakes@.map_values(|s: Stack| s@);
    let mut res: Vec<RetractCandidate> = Vec::new();
    let mut i: usize = 0;
    while i < lakes.len()
        invariant
            i <= lakes@.len(),
            lv == lakes@.map_values(|s: Stack| s@),
            res@ == retract_candidates(lv.take(i as int)),
            retract_targets_upto(res@, 13, 1),
        decreases lakes@.len() - i,
    {
        proof {
            assert(lv.take(i + 1).drop_last() =~= lv.take(i as int));
            assert(lakes@[i as int]@ == lv[i as int]);
        }
        match lakes[i].last() {
            Some(top) => {
                let _ = top.card.rank.value();
                res.push(RetractCandidate { lake: i as u16, count: 1, target: top.card });
            },
            None => {},
        }
        i = i + 1;
    }
    assert(lv.take(i as int) =~= lv);
    res
}

/// One step of the downward search.
fn retract_step_of(c: &Vec<RetractCandidate>, hi: Ghost<int>, count: Ghost<int>) -> (res: Vec<RetractCandidate>)
    requires
        retract_targets_upto(c@, hi@, count@),
        count@ <= 13,
    ensures
        res@ == retract_step(c@),
        retract_targets_upto(res@, hi@ - 1, count@ + 1),
{
    let mut res: Vec<RetractCandidate> = Vec::new();
    let mut i: usize = 0;
    while i < c.len()
        invariant
            i <= c@.len(),
            count@ <= 13,
            retract_targets_upto(c@, hi@, count@),
            res@ == retract_step(c@.take(i as int)),
            retract_targets_upto(res@, hi@ - 1, count@ + 1),
        decreases c@.len() - i,
    {
        proof {
            assert(c@.take(i + 1).drop_last() =~= c@.take(i as int));
        }
        let e = c[i];
        assert(e.count == count@);
        match prev_card_of(e.target) {
            Some(p) => {
                res.push(RetractCandidate { lake: e.lake, count: e.count + 1, target: p });
            },
            None => {},
        }
        i = i + 1;
    }
    assert(c@.take(i as int) =~= c@);
    res
}

/// The downward search.
fn search_retracts(start: Vec<RetractCandidate>, avail: &Vec<Card>, tops: &Vec<Card>, has_empty: bool) -> (res: Option<RetractCandidate>)
    requires
        retract_targets_upto(start@, 13, 1),
    ensures
        res == retract_search(start@, avail@, tops@, has_empty, 13),
{
    let mut c = start;
    let mut round: usize = 0;
    while c.len() > 0
        invariant
            round <= 13,
            retract_targets_upto(c@, 13 - round, round + 1),
            retract_search(c@, avail@, tops@, has_empty, (13 - round) as nat) == retract_search(
                start@,
                avail@,
                tops@,
                has_empty,
                13,
            ),
        decreases 13 - round,
    {
        let v = c[0].target.rank.value();
        assert(1 <= v <= 13 - round);
        assert(round <= 12);
        let ghost f = retract_fits(c@, avail@, tops@, has_empty);
        let mut k: usize = 0;
        while k < c.len()
            invariant
                k <= c@.len(),
                c@.len() > 0,
                round <= 12,
                retract_search(c@, avail@, tops@, has_empty, (13 - round) as nat) == retract_search(
                    start@,
                    avail@,
                    tops@,
                    has_empty,
                    13,
                ),
                f == retract_fits(c@, avail@, tops@, has_empty),
                first_index(k as int, f) is None,
            decreases c@.len() - k,
        {
            let e = c[k];
            let fits = if has_card(avail, e.target) {
                let above = match next_card_of(e.target) {
                    Some(n) => has_card(avail, n),
                    None => false,
                };
                let duplicate = match prev_card_of(e.target) {
                    Some(p) => has_card(tops, p),
                    None => has_empty,
                };
                !above && !duplicate
            } else {
                false
            };
            assert(fits == f(k as int));
            if fits {
                proof {
                    assert(first_index(k + 1, f) == Some(k as int));
                    lemma_first_index_extend(k + 1, c@.len() as int, f);
                }
                return Some(e);
            }
            k = k + 1;
        }
        let next = retract_step_of(&c, Ghost(13 - round), Ghost(round + 1));
        c = next;
        round = round + 1;
    }
    None
}

/// Decides what the feeder (player 1) does for the learner (player 0).
pub fn plan_feeding(hand: &HandState) -> (res: FeedDecision)
    requires
        hand@.players.len() >= 2,
    ensures
        res == feed_decision(hand@),
{
    if !should_feed(hand) {
        return FeedDecision::Nothing;
    }
    let avail = reachable_cards(hand);
    let lakes = hand.lake_stacks();
    let tops = tops_of(lakes);
    let feeder = &hand.players()[1];
    assert(feeder@ == hand@.players[1]);
    let aces = aces_in(feeder.stock_stack().cards());
    let summons = summons_for(lakes, &aces, &avail);
    match search_summons(summons, &avail, &tops) {
        Some(e) => FeedDecision::Summon { lake: e.lake, card: e.play },
        None => {
            let has_empty = any_empty(lakes);
            let retracts = retracts_for(lakes);
            match search_retracts(retracts, &avail, &tops, has_empty) {
                Some(e) => FeedDecision::Retract { lake: e.lake, count: e.count },
                None => FeedDecision::Nothing,
            }
        },
    }
}

/// The lake as dealt: every stack builds up by suit from the ace, and there
/// are few enough of them for their indices to fit in a move.
pub open spec fn dealt_lake(lakes: Seq<StackModel>) -> bool {
    &&& lakes.len() <= 0x10000
    &&& forall|i: int| 0 <= i < lakes.len() ==> {
        &&& (#[trigger] lakes[i]).order == StackOrder::SingleSuitUp
        &&& lakes[i].aces_first
        &&& lakes[i].valid()
    }
}

/// A lake stack built up from the ace holds the ranks 1, 2, ... in turn.
proof fn lemma_lake_ranks(s: StackModel, i: int)
    requires
        s.valid(),
        s.order == StackOrder::SingleSuitUp,
        s.aces_first,
        0 <= i < s.cards.len(),
    ensures
        s.cards[i].card.rank.val() == i + 1,
        i + 1 <= 13,
    decreases i,
{
    if i > 0 {
        lemma_lake_ranks(s, i - 1);
        let j = i - 1;
        assert(crate::stack::order_allows(s.order, s.cards[j].card, s.cards[j + 1].card));
    }
}

/// Candidate `e` can be played: its lake stack exists and takes its card.
pub open spec fn summon_playable(lakes: Seq<StackModel>, e: SummonCandidate) -> bool {
    (e.lake as int) < lakes.len() && forall|owner: u8| #[trigger] lakes[e.lake as int].accepts(
        CardInstance { card: e.play, owner_id: owner },
    )
}

/// Every candidate of `c` can be played.
pub open spec fn all_playable(lakes: Seq<StackModel>, c: Seq<SummonCandidate>) -> bool {
    forall|k: int| 0 <= k < c.len() ==> summon_playable(lakes, #[trigger] c[k])
}

proof fn lemma_aces_of(s: Seq<CardInstance>)
    ensures
        forall|k: int| 0 <= k < aces_of(s).len() ==> (#[trigger] aces_of(s)[k]).rank.val() == 1,
    decreases s.len(),
{
    if s.len() > 0 {
        lemma_aces_of(s.drop_last());
    }
}

proof fn lemma_summon_candidates_playable(lakes: Seq<StackModel>, aces: Seq<Card>)
    requires
        dealt_lake(lakes),
        forall|k: int| 0 <= k < aces.len() ==> (#[trigger] aces[k]).rank.val() == 1,
    ensures
        all_playable(lakes, summon_candidates(lakes, aces).0),
        0 <= summon_candidates(lakes, aces).1 <= aces.len(),
    decreases lakes.len(),
{
    if lakes.len() > 0 {
        let prev = lakes.drop_last();
        assert forall|i: int| 0 <= i < prev.len() implies {
            &&& (#[trigger] prev[i]).order == StackOrder::SingleSuitUp
            &&& prev[i].aces_first
            &&& prev[i].valid()
        } by {
            assert(prev[i] == lakes[i]);
        }
        lemma_summon_candidates_playable(prev, aces);
        let (c, used) = summon_candidates(prev, aces);
        let n = lakes.len() - 1;
        assert(((n as u16) as int) == n);
        assert forall|k: int| 0 <= k < c.len() implies summon_playable(lakes, #[trigger] c[k]) by {
            assert(summon_playable(prev, c[k]));
            assert(lakes[c[k].lake as int] == prev[c[k].lake as int]);
        }
        let s = lakes.last();
        assert(s == lakes[n]);
        if s.cards.len() > 0 {
            match next_card(s.cards.last().card) {
                Some(play) => {
                    let e = SummonCandidate { lake: n as u16, play, target: play };
                    assert forall|owner: u8| #[trigger] lakes[e.lake as int].accepts(
                        CardInstance { card: play, owner_id: owner },
                    ) by {}
                },
                None => {},
            }
        } else if used < aces.len() {
            let a = aces[used];
            assert(a.rank.val() == 1);
            let e = SummonCandidate { lake: n as u16, play: a, target: a };
            assert forall|owner: u8| #[trigger] lakes[e.lake as int].accepts(
                CardInstance { card: a, owner_id: owner },
            ) by {}
        }
        let r = summon_candidates(lakes, aces).0;
        assert forall|k: int| 0 <= k < r.len() implies summon_playable(lakes, #[trigger] r[k]) by {
            if k < c.len() {
                assert(r[k] == c[k]);
            }
        }
    }
}

proof fn lemma_unreachable_playable(lakes: Seq<StackModel>, c: Seq<SummonCandidate>, avail: Seq<Card>)
    requires
        all_playable(lakes, c),
    ensures
        all_playable(lakes, unreachable_plays(c, avail)),
    decreases c.len(),
{
    if c.len() > 0 {
        let prev = c.drop_last();
        assert forall|k: int| 0 <= k < prev.len() implies summon_playable(lakes, #[trigger] prev[k]) by {
            assert(prev[k] == c[k]);
        }
        lemma_unreachable_playable(lakes, prev, avail);
        let r = unreachable_plays(c, avail);
        let rp = unreachable_plays(prev, avail);
        assert(summon_playable(lakes, c[c.len() - 1]));
        assert forall|k: int| 0 <= k < r.len() implies summon_playable(lakes, #[trigger] r[k]) by {
            if k < rp.len() {
                assert(r[k] == rp[k]);
            }
        }
    }
}

proof fn lemma_summon_step_playable(lakes: Seq<StackModel>, c: Seq<SummonCandidate>, tops: Seq<Card>)
    requires
        all_playable(lakes, c),
    ensures
        all_playable(lakes, summon_step(c, tops)),
    decreases c.len(),
{
    if c.len() > 0 {
        let prev = c.drop_last();
        assert forall|k: int| 0 <= k < prev.len() implies summon_playable(lakes, #[trigger] prev[k]) by {
            assert(prev[k] == c[k]);
        }
        lemma_summon_step_playable(lakes, prev, tops);
        let r = summon_step(c, tops);
        let rp = summon_step(prev, tops);
        let e = c[c.len() - 1];
        assert(summon_playable(lakes, e));
        assert forall|k: int| 0 <= k < r.len() implies summon_playable(lakes, #[trigger] r[k]) by {
            if k < rp.len() {
                assert(r[k] == rp[k]);
            } else {
                assert(r[k].lake == e.lake && r[k].play == e.play);
            }
        }
    }
}

proof fn lemma_summon_search_playable(lakes: Seq<StackModel>, c: Seq<SummonCandidate>, avail: Seq<Card>, tops: Seq<Card>, fuel: nat)
    requires
        all_playable(lakes, c),
    ensures
        summon_search(c, avail, tops, fuel) matches Some(e) ==> summon_playable(lakes, e),
    decreases fuel,
{
    if fuel > 0 && c.len() > 0 {
        let f = summon_hits(c, avail);
        lemma_first_index(c.len() as int, f);
        match first_index(c.len() as int, f) {
            Some(k) => {
                assert(summon_playable(lakes, c[k]));
            },
            None => {
                lemma_summon_step_playable(lakes, c, tops);
                lemma_summon_search_playable(lakes, summon_step(c, tops), avail, tops, (fuel - 1) as nat);
            },
        }
    }
}

/// Candidate `e` takes no more cards than its lake stack holds.
pub open spec fn retract_within(lakes: Seq<StackModel>, e: RetractCandidate) -> bool {
    &&& (e.lake as int) < lakes.len()
    &&& 1 <= e.count
    &&& e.target.rank.val() >= 1
    &&& e.count + e.target.rank.val() == lakes[e.lake as int].cards.len() + 1
    &&& lakes[e.lake as int].cards.len() <= 13
}

/// Every candidate of `c` takes no more cards than its lake stack holds.
pub open spec fn all_within(lakes: Seq<StackModel>, c: Seq<RetractCandidate>) -> bool {
    forall|k: int| 0 <= k < c.len() ==> retract_within(lakes, #[trigger] c[k])
}

proof fn lemma_retract_candidates_within(lakes: Seq<StackModel>)
    requires
        dealt_lake(lakes),
    ensures
        all_within(lakes, retract_candidates(lakes)),
    decreases lakes.len(),
{
    if lakes.len() > 0 {
        let prev = lakes.drop_last();
        assert forall|i: int| 0 <= i < prev.len() implies {
            &&& (#[trigger] prev[i]).order == StackOrder::SingleSuitUp
            &&& prev[i].aces_first
            &&& prev[i].valid()
        } by {
            assert(prev[i] == lakes[i]);
        }
        lemma_retract_candidates_within(prev);
        let c = retract_candidates(prev);
        let n = lakes.len() - 1;
        assert(((n as u16) as int) == n);
        let r = retract_candidates(lakes);
        let s = lakes[n];
        if s.cards.len() > 0 {
            lemma_lake_ranks(s, s.cards.len() - 1);
        }
        assert forall|k: int| 0 <= k < r.len() implies retract_within(lakes, #[trigger] r[k]) by {
            if k < c.len() {
                assert(r[k] == c[k]);
                assert(retract_within(prev, c[k]));
                assert(lakes[c[k].lake as int] == prev[c[k].lake as int]);
            }
        }
    }
}

proof fn lemma_retract_step_within(lakes: Seq<StackModel>, c: Seq<RetractCandidate>)
    requires
        all_within(lakes, c),
    ensures
        all_within(lakes, retract_step(c)),
    decreases c.len(),
{
    if c.len() > 0 {
        let prev = c.drop_last();
        assert forall|k: int| 0 <= k < prev.len() implies retract_within(lakes, #[trigger] prev[k]) by {
            assert(prev[k] == c[k]);
        }
        lemma_retract_step_within(lakes, prev);
        let r = retract_step(c);
        let rp = retract_step(prev);
        let e = c[c.len() - 1];
        assert(retract_within(lakes, e));
        assert forall|k: int| 0 <= k < r.len() implies retract_within(lakes, #[trigger] r[k]) by {
            if k < rp.len() {
                assert(r[k] == rp[k]);
            } else {
                assert(e.count + 1 < 256);
            }
        }
    }
}

proof fn lemma_retract_search_within(lakes: Seq<StackModel>, c: Seq<RetractCandidate>, avail: Seq<Card>, tops: Seq<Card>, has_empty: bool, fuel: nat)
    requires
        all_within(lakes, c),
    ensures
        retract_search(c, avail, tops, has_empty, fuel) matches Some(e) ==> retract_within(lakes, e),
    decreases fuel,
{
    if fuel > 0 && c.len() > 0 {
        let f = retract_fits(c, avail, tops, has_empty);
        lemma_first_index(c.len() as int, f);
        match first_index(c.len() as int, f) {
            Some(k) => {
                assert(retract_within(lakes, c[k]));
            },
            None => {
                lemma_retract_step_within(lakes, c);
                lemma_retract_search_within(lakes, retract_step(c), avail, tops, has_empty, (fuel - 1) as nat);
            },
        }
    }
}

/// Candidate `e` names a card actually on its lake stack: between one card
/// and the whole stack is taken back, and the target is the lowest of them.
pub open spec fn retract_at(lakes: Seq<StackModel>, e: RetractCandidate) -> bool {
    &&& (e.lake as int) < lakes.len()
    &&& 1 <= e.count <= lakes[e.lake as int].cards.len()
    &&& e.target == lakes[e.lake as int].cards[lakes[e.lake as int].cards.len() - e.count].card
}

proof fn lemma_retract_candidates_at(lakes: Seq<StackModel>)
    requires
        lakes.len() <= 0x10000,
    ensures
        forall|k: int| 0 <= k < retract_candidates(lakes).len() ==> retract_at(lakes, #[trigger] retract_candidates(lakes)[k]),
    decreases lakes.len(),
{
    if lakes.len() > 0 {
        let prev = lakes.drop_last();
        lemma_retract_candidates_at(prev);
        let c = retract_candidates(prev);
        let r = retract_candidates(lakes);
        let n = lakes.len() - 1;
        assert(((n as u16) as int) == n);
        assert forall|k: int| 0 <= k < r.len() implies retract_at(lakes, #[trigger] r[k]) by {
            if k < c.len() {
                assert(r[k] == c[k]);
                assert(retract_at(prev, c[k]));
                assert(lakes[c[k].lake as int] == prev[c[k].lake as int]);
            }
        }
    }
}

proof fn lemma_retract_step_at(lakes: Seq<StackModel>, c: Seq<RetractCandidate>)
    requires
        dealt_lake(lakes),
        forall|k: int| 0 <= k < c.len() ==> retract_at(lakes, #[trigger] c[k]),
    ensures
        forall|k: int| 0 <= k < retract_step(c).len() ==> retract_at(lakes, #[trigger] retract_step(c)[k]),
    decreases c.len(),
{
    if c.len() > 0 {
        let prev = c.drop_last();
        assert forall|k: int| 0 <= k < prev.len() implies retract_at(lakes, #[trigger] prev[k]) by {
            assert(prev[k] == c[k]);
        }
        lemma_retract_step_at(lakes, prev);
        let r = retract_step(c);
        let rp = retract_step(prev);
        let e = c[c.len() - 1];
        assert(retract_at(lakes, e));
        let s = lakes[e.lake as int];
        let len = s.cards.len();
        let pos = len - e.count;
        lemma_lake_ranks(s, pos);
        match prev_card(e.target) {
            Some(p) => {
                let ne = RetractCandidate { count: (e.count + 1) as u8, target: p, ..e };
                assert(r == rp.push(ne));
                assert(pos >= 1);
                lemma_lake_ranks(s, pos - 1);
                assert(crate::stack::order_allows(s.order, s.cards[pos - 1].card, s.cards[pos].card));
                crate::cards::lemma_rank_of(e.target.rank.val() - 1);
                crate::cards::lemma_rank_eq(p.rank, s.cards[pos - 1].card.rank);
                assert(p == s.cards[pos - 1].card);
                lemma_lake_ranks(s, len - 1);
                assert(len <= 13);
                assert(((e.count + 1) as u8) as int == e.count + 1);
                assert(retract_at(lakes, ne));
                assert forall|k: int| 0 <= k < r.len() implies retract_at(lakes, #[trigger] r[k]) by {
                    if k < rp.len() {
                        assert(r[k] == rp[k]);
                    }
                }
            },
            None => {
                assert(r == rp);
            },
        }
    }
}

proof fn lemma_retract_search_at(
    lakes: Seq<StackModel>,
    c: Seq<RetractCandidate>,
    avail: Seq<Card>,
    tops: Seq<Card>,
    has_empty: bool,
    fuel: nat,
)
    requires
        dealt_lake(lakes),
        forall|k: int| 0 <= k < c.len() ==> retract_at(lakes, #[trigger] c[k]),
    ensures
        retract_search(c, avail, tops, has_empty, fuel) matches Some(e) ==> {
            &&& retract_at(lakes, e)
            &&& avail.contains(e.target)
            &&& (rank_of(e.target.rank.val() + 1) matches Some(r) ==> !avail.contains(Card { suit: e.target.suit, rank: r }))
        },
    decreases fuel,
{
    if fuel > 0 && c.len() > 0 {
        let f = retract_fits(c, avail, tops, has_empty);
        lemma_first_index(c.len() as int, f);
        match first_index(c.len() as int, f) {
            Some(k) => {
                let e = c[k];
                assert(f(k));
            },
            None => {
                lemma_retract_step_at(lakes, c);
                lemma_retract_search_at(lakes, retract_step(c), avail, tops, has_empty, (fuel - 1) as nat);
            },
        }
    }
}

/// When the feeder takes cards back, it takes a lake stack down to a card
/// the learner can reach (the lowest card taken back), and only where the
/// learner cannot reach the next card up of that suit (if there is one): a card the learner
/// could already play on that stack keeps the stack as it is.
pub proof fn lemma_retract_frees_a_needed_card(h: HandModel)
    requires
        h.players.len() >= 2,
        dealt_lake(h.lakes),
    ensures
        feed_decision(h) matches FeedDecision::Retract { lake, count } ==> {
            let s = h.lakes[lake as int];
            let t = s.cards[s.cards.len() - count].card;
            &&& (lake as int) < h.lakes.len()
            &&& 1 <= count <= s.cards.len()
            &&& available_cards(h).contains(t)
            &&& (rank_of(t.rank.val() + 1) matches Some(r) ==> !available_cards(h).contains(Card { suit: t.suit, rank: r }))
        },
{
    let avail = available_cards(h);
    let tops = lake_tops(h.lakes);
    lemma_retract_candidates_at(h.lakes);
    lemma_retract_search_at(h.lakes, retract_candidates(h.lakes), avail, tops, has_empty_lake(h.lakes), 13);
}

/// On a lake as dealt, the feeder only brings a card onto a lake stack that
/// takes it, and only takes back cards that are there: between one card and
/// the whole stack.
pub proof fn lemma_feeding_fits_the_lake(h: HandModel)
    requires
        h.players.len() >= 2,
        dealt_lake(h.lakes),
    ensures
        feed_decision(h) matches FeedDecision::Summon { lake, card } ==> {
            &&& (lake as int) < h.lakes.len()
            &&& forall|owner: u8| #[trigger] h.lakes[lake as int].accepts(CardInstance { card, owner_id: owner })
        },
        feed_decision(h) matches FeedDecision::Retract { lake, count } ==> {
            &&& (lake as int) < h.lakes.len()
            &&& 1 <= count <= h.lakes[lake as int].cards.len()
        },
{
    let avail = available_cards(h);
    let tops = lake_tops(h.lakes);
    let aces = aces_of(h.players[1].stock.cards);
    lemma_aces_of(h.players[1].stock.cards);
    lemma_summon_candidates_playable(h.lakes, aces);
    let summons = unreachable_plays(summon_candidates(h.lakes, aces).0, avail);
    lemma_unreachable_playable(h.lakes, summon_candidates(h.lakes, aces).0, avail);
    lemma_summon_search_playable(h.lakes, summons, avail, tops, 13);
    lemma_retract_candidates_within(h.lakes);
    lemma_retract_search_within(h.lakes, retract_candidates(h.lakes), avail, tops, has_empty_lake(h.lakes), 13);
}

} // verus!
