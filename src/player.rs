use vstd::prelude::*;

use crate::card::Card;
use crate::map::TerritoryId;

verus! {

/// Number of players in a game.
pub const NUM_PLAYERS: usize = 5;

/// A player seat. Within the combat model seats are numbered relative to the
/// acting player, who is always `P0`.
#[derive(Clone, Copy, PartialEq, Eq, Structural, Hash, Debug)]
pub enum PlayerId {
    P0,
    P1,
    P2,
    P3,
    P4,
}

impl PlayerId {
    /// Position of the seat in turn order.
    pub open spec fn idx(self) -> int {
        match self {
            PlayerId::P0 => 0,
            PlayerId::P1 => 1,
            PlayerId::P2 => 2,
            PlayerId::P3 => 3,
            PlayerId::P4 => 4,
        }
    }

    /// The seat at a position of turn order (the last one past the end).
    pub open spec fn from_idx(i: int) -> PlayerId {
        if i == 0 {
            PlayerId::P0
        } else if i == 1 {
            PlayerId::P1
        } else if i == 2 {
            PlayerId::P2
        } else if i == 3 {
            PlayerId::P3
        } else {
            PlayerId::P4
        }
    }

    /// The seat with the given number, if there is one.
    pub fn n(value: u8) -> (r: Option<PlayerId>)
        ensures
            value < NUM_PLAYERS ==> r == Some(PlayerId::from_idx(value as int)),
            value >= NUM_PLAYERS ==> r is None,
    {
        match value {
            0 => Some(PlayerId::P0),
            1 => Some(PlayerId::P1),
            2 => Some(PlayerId::P2),
            3 => Some(PlayerId::P3),
            4 => Some(PlayerId::P4),
            _ => None,
        }
    }

    /// Position of the seat in turn order.
    pub fn index(self) -> (r: usize)
        ensures
            r as int == self.idx(),
            r < NUM_PLAYERS,
    {
        match self {
            PlayerId::P0 => 0,
            PlayerId::P1 => 1,
            PlayerId::P2 => 2,
            PlayerId::P3 => 3,
            PlayerId::P4 => 4,
        }
    }

    /// Whether this is the first seat, the acting player in the combat model.
    pub fn is_p0(&self) -> (r: bool)
        ensures
            r <==> *self == PlayerId::P0,
    {
        match self {
            PlayerId::P0 => true,
            _ => false,
        }
    }
}

/// A seat is determined by its number.
pub proof fn lemma_player_from_idx_idx(p: PlayerId)
    ensures
        PlayerId::from_idx(p.idx()) == p,
        0 <= p.idx() < NUM_PLAYERS,
{
}

/// A player as the game engine knows it.
#[derive(Clone, Debug)]
pub struct Player {
    pub id: PlayerId,
    pub troops_remaining: u32,
    pub alive: bool,
    pub cards: Vec<Card>,
    pub must_place_territory_bonus: Vec<TerritoryId>,
}

impl Player {
    /// A living player with `troops` troops to place, no cards and no pending bonus.
    pub fn new(id: PlayerId, troops: u32) -> (r: Player)
        ensures
            r.id == id,
            r.troops_remaining == troops,
            r.alive,
            r.cards@.len() == 0,
            r.must_place_territory_bonus@.len() == 0,
    {
        Player {
            id,
            troops_remaining: troops,
            alive: true,
            cards: Vec::new(),
            must_place_territory_bonus: Vec::new(),
        }
    }
}

/// What every player may know of another player.
#[derive(Clone, Debug)]
pub struct PublicPlayer {
    pub id: PlayerId,
    pub troops_remaining: u32,
    pub alive: bool,
    pub card_count: usize,
    pub must_place_territory_bonus: Vec<TerritoryId>,
}

impl PublicPlayer {
    /// A living player with `troops` troops to place, no cards and no pending bonus.
    pub fn new(id: PlayerId, troops: u32) -> (r: PublicPlayer)
        ensures
            r.id == id,
            r.troops_remaining == troops,
            r.alive,
            r.card_count == 0,
            r.must_place_territory_bonus@.len() == 0,
    {
        PublicPlayer {
            id,
            troops_remaining: troops,
            alive: true,
            card_count: 0,
            must_place_territory_bonus: Vec::new(),
        }
    }
}

} // verus!
