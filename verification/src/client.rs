//! Decisions the game client takes while a hand is played: what a click on
//! the stock does, what dropping held cards does, what the hand looks like
//! once the player's own actions not yet confirmed by the server are played,
//! and whether cards someone holds are still where they were picked up.

use vstd::prelude::*;
use crate::cards::{Card, CardInstance, Suit};
use crate::player::{HandPlayerState, PlayerModel, PlayerStackLocation};
use crate::hand::{HandAction, HandModel, HandState, StackLocation};
use crate::bot::{first_index, lemma_first_index, lemma_first_index_extend};


verus! {

/// Clicking the stock turns it over, or, once it is empty, puts the waste back.
pub fn stock_action(p: &HandPlayerState) -> (res: HandAction)
    ensures
        res == if p@.stock.cards.len() == 0 {
            HandAction::ReturnStock
        } else {
            HandAction::FlipStock
        },
{
    if p.stock_stack().len() == 0 {
        HandAction::ReturnStock
    } else {
        HandAction::FlipStock
    }
}

/// The suit called out when an action lands on the lake: with callouts on,
/// a move onto a lake stack whose top card (after the move) is an ace calls
/// out that ace's suit.
pub fn suit_callout(hand: &HandState, action: HandAction, enabled: bool) -> (res: Option<Suit>)
    ensures
        res == match action {
            HandAction::Move { to, .. } => if enabled && to is Lake {
                match hand@.stack(to) {
                    Some(s) => if s.cards.len() > 0 && s.cards.last().card.rank.val() == 1 {
                        Some(s.cards.last().card.suit)
                    } else {
                        None
                    },
                    None => None,
                }
            } else {
                None
            },
            _ => None,
        },
{
    if !enabled {
        return None;
    }
    match action {
        HandAction::Move { to, .. } => {
            match to {
                StackLocation::Lake(_) => match hand.stack_at(to) {
                    Some(s) => match s.last() {
                        Some(top) => if top.card.rank.value() == 1 {
                            Some(top.card.suit)
                        } else {
                            None
                        },
                        None => None,
                    },
                    None => None,
                },
                _ => None,
            }
        },
        _ => None,
    }
}

/// How many cards the player holds up from the stack at `loc` (`held` being
/// the stack they hold cards from and how many), if any.
pub open spec fn held_from(held: Option<(PlayerStackLocation, u8)>, loc: PlayerStackLocation) -> Option<u8> {
    match held {
        Some((src, count)) => if src == loc {
            Some(count)
        } else {
            None
        },
        None => None,
    }
}

/// `cards` without the top `count` held up, if it holds that many.
pub open spec fn without_held(cards: Seq<CardInstance>, count: Option<u8>) -> Seq<CardInstance> {
    match count {
        Some(c) => if c <= cards.len() {
            cards.take(cards.len() - c)
        } else {
            cards
        },
        None => cards,
    }
}

/// The cards of the player's stack at `loc` drawn face up in their area: a
/// tableau stack's cards, and the top three of the waste, in both cases but
/// for those held up; the top card of the nerts pile unless it is held up;
/// none of the stock.
pub open spec fn face_up(p: PlayerModel, loc: PlayerStackLocation, held: Option<(PlayerStackLocation, u8)>) -> Seq<CardInstance> {
    match loc {
        PlayerStackLocation::Tableau(_) => match p.stack(loc) {
            Some(s) => without_held(s.cards, held_from(held, loc)),
            None => Seq::empty(),
        },
        PlayerStackLocation::Waste => {
            let w = p.waste.cards;
            let top = if w.len() > 3 { w.subrange(w.len() - 3, w.len() as int) } else { w };
            without_held(top, held_from(held, loc))
        },
        PlayerStackLocation::Nerts => if p.nerts.cards.len() == 0 || held_from(held, loc) is Some {
            Seq::empty()
        } else {
            seq![p.nerts.cards.last()]
        },
        PlayerStackLocation::Stock => Seq::empty(),
    }
}

/// The cards drawn face up for the player's stack at `loc`, while the player
/// holds cards up as `held` says.
pub fn face_up_cards(p: &HandPlayerState, loc: PlayerStackLocation, held: Option<(PlayerStackLocation, u8)>) -> (res: Vec<CardInstance>)
    ensures
        res@ == face_up(p@, loc, held),
{
    let count = match held {
        Some((src, c)) => if src == loc {
            Some(c)
        } else {
            None
        },
        None => None,
    };
    let (cards, from): (&[CardInstance], usize) = match loc {
        PlayerStackLocation::Stock => {
            return Vec::new();
        },
        PlayerStackLocation::Nerts => {
            let n = p.nerts_stack().cards();
            if n.len() == 0 || count.is_some() {
                return Vec::new();
            }
            let mut v = Vec::new();
            v.push(n[n.len() - 1]);
            proof {
                assert(v@ =~= seq![p@.nerts.cards.last()]);
            }
            return v;
        },
        PlayerStackLocation::Waste => {
            let w = p.waste_stack().cards();
            (w, if w.len() > 3 { w.len() - 3 } else { 0 })
        },
        PlayerStackLocation::Tableau(_) => match p.stack_at(loc) {
            Some(s) => (s.cards(), 0),
            None => {
                return Vec::new();
            },
        },
    };
    let ghost shown = cards@.subrange(from as int, cards@.len() as int);
    let len = cards.len() - from;
    let keep = match count {
        Some(c) => if (c as usize) <= len {
            len - c as usize
        } else {
            len
        },
        None => len,
    };
    let mut v: Vec<CardInstance> = Vec::new();
    let mut i: usize = 0;
    while i < keep
        invariant
            i <= keep,
            keep <= len,
            len == cards@.len() - from,
            from <= cards@.len(),
            cards@.len() <= usize::MAX,
            v@ == cards@.subrange(from as int, from + i),
        decreases keep - i,
    {
        v.push(cards[from + i]);
        proof {
            assert(v@ =~= cards@.subrange(from as int, from + i + 1));
        }
        i = i + 1;
    }
    proof {
        assert(v@ =~= shown.take(keep as int));
        match loc {
            PlayerStackLocation::Waste => {
                let w = p@.waste.cards;
                if w.len() <= 3 {
                    assert(shown =~= w);
                }
            },
            _ => {
                assert(shown =~= cards@);
            },
        }
        assert(shown.take(len as int) =~= shown);
    }
    v
}

/// What dropping held cards leads to.
#[derive(Clone, Copy, Debug, PartialEq, Eq, Structural)]
pub enum DropOutcome {
    /// They were dropped back where they came from.
    PutBack,
    /// They are played with this move.
    Play(HandAction),
    /// No stack under them takes them.
    Nothing,
}

/// Dropping on `t` plays the held cards: `t` is a tableau or lake stack and
/// the move is one `apply` carries out.
pub open spec fn drop_plays(h: HandModel, player: u8, from: StackLocation, count: u8, t: StackLocation) -> bool {
    &&& (t is Lake || t matches StackLocation::Player(_, PlayerStackLocation::Tableau(_)))
    &&& h.apply_outcome(player, HandAction::Move { from, count, to: t }) is Some
}

/// Candidate `k` settles the drop: it is the stack the cards came from, or one
/// they can be played on.
pub open spec fn drop_hits(h: HandModel, player: u8, from: StackLocation, count: u8, targets: Seq<StackLocation>) -> spec_fn(int) -> bool {
    |k: int| targets[k] == from || drop_plays(h, player, from, count, targets[k])
}

/// The outcome of dropping `count` cards held from `from` over the stacks
/// `targets`, nearest first: the first that settles it decides.
pub open spec fn drop_choice(h: HandModel, player: u8, from: StackLocation, count: u8, targets: Seq<StackLocation>) -> DropOutcome {
    match first_index(targets.len() as int, drop_hits(h, player, from, count, targets)) {
        Some(k) => if targets[k] == from {
            DropOutcome::PutBack
        } else {
            DropOutcome::Play(HandAction::Move { from, count, to: targets[k] })
        },
        None => DropOutcome::Nothing,
    }
}

/// Decides what dropping `count` cards held from the player's stack `src`
/// over the stacks `targets` (nearest first) does.
pub fn choose_drop(hand: &HandState, player: u8, src: PlayerStackLocation, count: u8, targets: &Vec<StackLocation>) -> (res: DropOutcome)
    requires
        forall|k: int| 0 <= k < targets@.len() ==> hand@.apply_defined(
            player,
            HandAction::Move { from: StackLocation::Player(player, src), count, to: #[trigger] targets@[k] },
        ),
    ensures
        res == drop_choice(hand@, player, StackLocation::Player(player, src), count, targets@),
{
    let from = StackLocation::Player(player, src);
    let ghost f = drop_hits(hand@, player, from, count, targets@);
    let mut k: usize = 0;
    while k < targets.len()
        invariant
            k <= targets@.len(),
            f == drop_hits(hand@, player, from, count, targets@),
            from == StackLocation::Player(player, src),
            forall|j: int| 0 <= j < targets@.len() ==> hand@.apply_defined(
                player,
                HandAction::Move { from, count, to: #[trigger] targets@[j] },
            ),
            first_index(k as int, f) is None,
        decreases targets@.len() - k,
    {
        let t = targets[k];
        let hit = if t == from {
            true
        } else {
            let kind_ok = match t {
                StackLocation::Lake(_) => true,
                StackLocation::Player(_, PlayerStackLocation::Tableau(_)) => true,
                _ => false,
            };
            kind_ok && hand.would_apply(player, HandAction::Move { from, count, to: t })
        };
        assert(hit == f(k as int));
        if hit {
            proof {
                assert(first_index(k + 1, f) == Some(k as int));
                lemma_first_index_extend(k + 1, targets@.len() as int, f);
            }
            if t == from {
                return DropOutcome::PutBack;
            } else {
                return DropOutcome::Play(HandAction::Move { from, count, to: t });
            }
        }
        k = k + 1;
    }
    DropOutcome::Nothing
}

/// Every move the input handling decides on is one `apply` carries out:
/// a drop that plays the held cards, and a click on the stock (turning
/// cards over and putting the waste back are never refused).
pub proof fn lemma_input_moves_apply(
    h: HandModel,
    player: u8,
    from: StackLocation,
    count: u8,
    targets: Seq<StackLocation>,
)
    ensures
        drop_choice(h, player, from, count, targets) matches DropOutcome::Play(a) ==> h.apply_outcome(player, a) is Some,
        h.apply_outcome(player, HandAction::FlipStock) is Some,
        h.apply_outcome(player, HandAction::ReturnStock) is Some,
{
    lemma_first_index(targets.len() as int, drop_hits(h, player, from, count, targets));
}

/// The hand once the player at `player` has played `actions` in turn, each
/// refused action leaving it as it was.
pub open spec fn predicted(h: HandModel, player: u8, actions: Seq<HandAction>) -> HandModel
    decreases actions.len(),
{
    if actions.len() == 0 {
        h
    } else {
        let before = predicted(h, player, actions.drop_last());
        match before.apply_outcome(player, actions.last()) {
            Some(m) => m,
            None => before,
        }
    }
}

/// Each of `actions`, played in turn, is one `apply` returns on.
pub open spec fn predictable(h: HandModel, player: u8, actions: Seq<HandAction>) -> bool
    decreases actions.len(),
{
    actions.len() == 0 || (predictable(h, player, actions.drop_last()) && predicted(
        h,
        player,
        actions.drop_last(),
    ).apply_defined(player, actions.last()))
}

/// The hand as the player will see it once the server confirms the actions
/// `pending` they already played: each is applied in turn, those refused
/// being skipped.
pub fn predict_hand(hand: HandState, player: u8, pending: &Vec<HandAction>) -> (res: HandState)
    requires
        predictable(hand@, player, pending@),
    ensures
        res@ == predicted(hand@, player, pending@),
        hand.wf() ==> res.wf(),
{
    let ghost start = hand@;
    let ghost start_wf = hand.wf();
    let mut h = hand;
    let mut i: usize = 0;
    while i < pending.len()
        invariant
            i <= pending@.len(),
            predictable(start, player, pending@),
            h@ == predicted(start, player, pending@.take(i as int)),
            start_wf ==> h.wf(),
        decreases pending@.len() - i,
    {
        proof {
            lemma_predictable_prefix(start, player, pending@, i + 1);
            assert(pending@.take(i + 1).drop_last() =~= pending@.take(i as int));
            assert(pending@.take(i + 1).last() == pending@[i as int]);
        }
        let _ = h.apply(player, pending[i]);
        i = i + 1;
    }
    assert(pending@.take(i as int) =~= pending@);
    h
}

/// Plays the player's own `action` on the predicted hand: where it is
/// carried out, it is queued at the end of the actions the server has yet
/// to confirm (and is to be sent, `true`); where it is refused, nothing
/// changes (`false`).
pub fn queue_action(pred: &mut HandState, pending: &mut Vec<HandAction>, player: u8, action: HandAction) -> (res: bool)
    requires
        old(pred)@.apply_defined(player, action),
    ensures
        match old(pred)@.apply_outcome(player, action) {
            Some(m) => res && final(pred)@ == m && final(pending)@ == old(pending)@.push(action),
            None => !res && final(pred)@ == old(pred)@ && final(pending)@ == old(pending)@,
        },
        old(pred).wf() ==> final(pred).wf(),
{
    match pred.apply(player, action) {
        Ok(()) => {
            pending.push(action);
            true
        },
        Err(_) => false,
    }
}

/// Queueing keeps the prediction: if `pred` is the hand predicted from the
/// confirmed hand `h` and the queue `pending`, then after queueing an
/// action it is still the prediction from `h` and the new queue, and the
/// new queue can still be played in turn.
pub proof fn lemma_queue_keeps_prediction(h: HandModel, player: u8, pending: Seq<HandAction>, action: HandAction)
    requires
        predictable(h, player, pending),
        predicted(h, player, pending).apply_defined(player, action),
        predicted(h, player, pending).apply_outcome(player, action) is Some,
    ensures
        predictable(h, player, pending.push(action)),
        predicted(h, player, pending.push(action)) == predicted(h, player, pending).apply_outcome(
            player,
            action,
        ).unwrap(),
{
    assert(pending.push(action).drop_last() =~= pending);
}

/// What can be played in turn can be played in part.
proof fn lemma_predictable_prefix(h: HandModel, player: u8, actions: Seq<HandAction>, k: int)
    requires
        predictable(h, player, actions),
        0 <= k <= actions.len(),
    ensures
        predictable(h, player, actions.take(k)),
    decreases actions.len() - k,
{
    if k < actions.len() {
        lemma_predictable_prefix(h, player, actions, k + 1);
        assert(actions.take(k + 1).drop_last() =~= actions.take(k));
    } else {
        assert(actions.take(k) =~= actions);
    }
}

/// Whether cards a player holds are still there: stack `src` of their area
/// exists, holds at least `count` cards, and the lowest of the top `count`
/// is `top_card`.
pub fn held_cards_present(p: &HandPlayerState, src: PlayerStackLocation, count: u8, top_card: Card) -> (res: bool)
    requires
        count > 0,
    ensures
        res == match p@.stack(src) {
            Some(s) => count <= s.cards.len() && s.cards[s.cards.len() - count].card == top_card,
            None => false,
        },
{
    match p.stack_at(src) {
        None => false,
        Some(s) => {
            let cards = s.cards();
            if (count as usize) <= cards.len() {
                cards[cards.len() - count as usize].card == top_card
            } else {
                false
            }
        },
    }
}

/// Whether the player may go on holding `count` cards from their stack
/// `src`: the stack exists and still holds that many.
pub fn held_still_fits(p: &HandPlayerState, src: PlayerStackLocation, count: u8) -> (res: bool)
    ensures
        res == match p@.stack(src) {
            Some(s) => count <= s.cards.len(),
            None => false,
        },
{
    match p.stack_at(src) {
        None => false,
        Some(s) => (count as usize) <= s.len(),
    }
}

/// Whether `player` is the seat of player `id` in the hand (their first seat).
pub fn holds_seat(hand: &HandState, id: u8, player: u8) -> (res: bool)
    ensures
        res == match find_seat(hand@, id) {
            Some(i) => i == player,
            None => false,
        },
{
    match hand.player_index(id) {
        Some(i) => {
            proof {
                let f = |k: int| hand@.players[k].player_id == id;
                assert(f(i as int));
                assert forall|k: int| 0 <= k < i implies !#[trigger] f(k) by {}
                lemma_first_index(hand@.players.len() as int, f);
                lemma_first_index(i as int, f);
                assert(first_index(i as int, f) is None);
                assert(first_index(i + 1, f) == Some(i as int));
                lemma_first_index_extend(i + 1, hand@.players.len() as int, f);
            }
            i < 256 && (i as u8) == player
        },
        None => {
            proof {
                let f = |k: int| hand@.players[k].player_id == id;
                lemma_first_index(hand@.players.len() as int, f);
            }
            false
        },
    }
}

/// Where player `id` sits in hand `h`: the first seat they hold.
pub open spec fn find_seat(h: HandModel, id: u8) -> Option<int> {
    first_index(h.players.len() as int, |k: int| h.players[k].player_id == id)
}

} // verus!
