use vstd::prelude::*;

use crate::card::Card;
use crate::map::{Continent, TerritoryId};
use crate::player::PlayerId;

verus! {

/// Why a player must distribute troops or redeem cards.
#[derive(Clone, Copy, PartialEq, Eq, Structural, Debug)]
pub enum Cause {
    TurnStarted,
    PlayerEliminated,
}

impl Cause {
    /// Whether the cause is the start of a turn.
    pub fn is_turn_started(&self) -> (r: bool)
        ensures
            r <==> *self is TurnStarted,
    {
        match self {
            Cause::TurnStarted => true,
            _ => false,
        }
    }

    /// Whether the cause is the elimination of a player.
    pub fn is_player_eliminated(&self) -> (r: bool)
        ensures
            r <==> *self is PlayerEliminated,
    {
        match self {
            Cause::PlayerEliminated => true,
            _ => false,
        }
    }
}

/// What the host asks a player to decide.
#[derive(Clone, Copy, PartialEq, Eq, Structural, Debug)]
pub enum QueryDetails {
    Attack,
    ClaimTerritory,
    /// Defend against the attack recorded under this id.
    Defend(usize),
    DistributeTroops(Cause),
    Fortify,
    PlaceInitialTroop,
    RedeemCards(Cause),
    /// Move troops after the attack recorded under this id.
    TroopsAfterAttack(usize),
}

/// How a game ended.
#[derive(Clone, Copy, PartialEq, Eq, Structural, Debug)]
pub enum GameResult {
    Cancelled,
    Success(PlayerId),
}

/// An attack: from, into, and with how many troops.
#[derive(Clone, Copy, PartialEq, Eq, Structural, Debug)]
pub struct MoveAttack {
    pub attacking_territory: TerritoryId,
    pub defending_territory: TerritoryId,
    pub attacking_troops: u32,
}

/// A defence of the attack recorded under `move_attack_id`.
#[derive(Clone, Copy, PartialEq, Eq, Structural, Debug)]
pub struct MoveDefend {
    pub move_attack_id: usize,
    pub defending_troops: u32,
}

/// Troops moved between two held territories at the end of a turn.
#[derive(Clone, Copy, PartialEq, Eq, Structural, Debug)]
pub struct MoveFortify {
    pub source_territory: TerritoryId,
    pub target_territory: TerritoryId,
    pub troop_count: u32,
}

/// Card sets redeemed for troops.
#[derive(Clone, Debug)]
pub struct MoveRedeemCards {
    pub sets: Vec<[Card; 3]>,
    pub cause: Cause,
}

/// Troops moved into a territory after conquering it.
#[derive(Clone, Copy, PartialEq, Eq, Structural, Debug)]
pub struct MoveTroopsAfterAttack {
    pub record_attack_id: usize,
    pub troop_count: u32,
}

/// The outcome of an attack.
#[derive(Clone, Copy, PartialEq, Eq, Structural, Debug)]
pub struct Attack {
    pub move_attack_id: usize,
    pub move_defend_id: usize,
    pub attacking_lost: u32,
    pub defending_lost: u32,
    pub territory_conquered: bool,
    pub defender_eliminated: bool,
}

/// A card drawn by a player.
#[derive(Clone, Copy, PartialEq, Eq, Structural, Debug)]
pub struct DrewCard {
    pub player: PlayerId,
    pub card: Card,
}

/// A player eliminated by an attack, with the cards it surrendered.
#[derive(Clone, Debug)]
pub struct PlayerEliminated {
    pub player: PlayerId,
    pub record_attack_id: usize,
    pub cards_surrendered: Vec<Card>,
}

/// A player eliminated by an attack, as the other players see it.
#[derive(Clone, Copy, PartialEq, Eq, Structural, Debug)]
pub struct PublicPlayerEliminated {
    pub player: PlayerId,
    pub record_attack_id: usize,
    pub cards_surrendered_count: usize,
}

/// Troops received for redeeming cards.
#[derive(Clone, Copy, PartialEq, Eq, Structural, Debug)]
pub struct RedeemedCards {
    pub move_id: usize,
    pub total_set_bonus: u32,
    pub matching_territory_bonus: u32,
}

/// The start of a player's turn and the troops it receives.
#[derive(Clone, Debug)]
pub struct StartTurn {
    pub player: PlayerId,
    pub continents_held: Vec<Continent>,
    pub territories_held: u32,
    pub continent_bonus: u32,
    pub territory_bonus: u32,
}

/// A territory conquered by the attack recorded under `record_attack_id`.
#[derive(Clone, Copy, PartialEq, Eq, Structural, Debug)]
pub struct TerritoryConquered {
    pub record_attack_id: usize,
}

} // verus!
