//! How a hand is laid out on screen: which players sit on which side of the
//! lake. (Positions in pixels are computed in floating point by the client.)

use vstd::prelude::*;

verus! {

pub struct HandMetrics {
    players: usize,
    tableau_stacks: usize,
    lake_stacks: usize,
    nerts_pile_size: usize,
}

/// The numbers a layout is computed from.
pub struct MetricsModel {
    pub players: nat,
    pub tableau_stacks: nat,
    pub lake_stacks: nat,
    pub nerts_pile_size: nat,
}

impl View for HandMetrics {
    type V = MetricsModel;

    closed spec fn view(&self) -> MetricsModel {
        MetricsModel {
            players: self.players as nat,
            tableau_stacks: self.tableau_stacks as nat,
            lake_stacks: self.lake_stacks as nat,
            nerts_pile_size: self.nerts_pile_size as nat,
        }
    }
}

impl HandMetrics {
    pub fn new(players: usize, tableau_stacks: usize, lake_stacks: usize, nerts_pile_size: usize) -> (res: HandMetrics)
        ensures
            res@ == (MetricsModel {
                players: players as nat,
                tableau_stacks: tableau_stacks as nat,
                lake_stacks: lake_stacks as nat,
                nerts_pile_size: nerts_pile_size as nat,
            }),
    {
        Self { players, tableau_stacks, lake_stacks, nerts_pile_size }
    }

    /// Players on the smaller side: half of them, rounded down.
    pub fn min_side_player_count(&self) -> (res: usize)
        ensures
            res == self@.players / 2,
    {
        self.players / 2
    }

    /// Players on the larger side: half of them, rounded up.
    pub fn max_side_player_count(&self) -> (res: usize)
        ensures
            res == (self@.players + 1) / 2,
    {
        if self.players % 2 == 0 {
            self.min_side_player_count()
        } else {
            self.min_side_player_count() + 1
        }
    }

    /// Where player `player_idx` sits: the first half of the players (rounded
    /// down) along the near side in order, the rest along the far side, which
    /// is seen upside down.
    pub fn seat(&self, player_idx: usize) -> (res: Seat)
        ensures
            res.inverted == (player_idx >= self@.players / 2),
            res.side_count == if res.inverted {
                (self@.players + 1) / 2
            } else {
                self@.players / 2
            },
            res.side_index == if res.inverted {
                player_idx - self@.players / 2
            } else {
                player_idx as int
            },
    {
        let min_side = self.min_side_player_count();
        let inverted = player_idx >= min_side;
        let side_count = if inverted {
            self.max_side_player_count()
        } else {
            min_side
        };
        let side_index = if inverted {
            player_idx - min_side
        } else {
            player_idx
        };
        Seat { inverted, side_index, side_count }
    }

    pub fn players(&self) -> (res: usize)
        ensures
            res == self@.players,
    {
        self.players
    }

    pub fn tableau_stacks(&self) -> (res: usize)
        ensures
            res == self@.tableau_stacks,
    {
        self.tableau_stacks
    }

    pub fn lake_stacks(&self) -> (res: usize)
        ensures
            res == self@.lake_stacks,
    {
        self.lake_stacks
    }

    pub fn nerts_pile_size(&self) -> (res: usize)
        ensures
            res == self@.nerts_pile_size,
    {
        self.nerts_pile_size
    }
}

/// A player's place at the table: which side of the lake, the place along
/// that side, and how many players that side seats.
#[derive(Clone, Copy, Debug, PartialEq, Eq, Structural)]
pub struct Seat {
    pub inverted: bool,
    pub side_index: usize,
    pub side_count: usize,
}

/// Every player of the hand gets a place on their side, and no two players
/// share one.
pub proof fn lemma_seats_are_distinct(players: nat, i: nat, j: nat)
    requires
        i < players,
        j < players,
        i != j,
    ensures
        ({
            let inv_i = i >= players / 2;
            let inv_j = j >= players / 2;
            let idx_i = if inv_i { i - players / 2 } else { i as int };
            let idx_j = if inv_j { j - players / 2 } else { j as int };
            let cnt_i = if inv_i { (players + 1) / 2 } else { players / 2 };
            &&& 0 <= idx_i < cnt_i
            &&& (inv_i != inv_j || idx_i != idx_j)
        }),
{
}

/// The two sides of the lake seat every player, and differ by at most one.
pub proof fn lemma_sides_seat_everyone(players: nat)
    ensures
        players / 2 + (players + 1) / 2 == players,
        (players + 1) / 2 - players / 2 <= 1,
{
}

} // verus!
