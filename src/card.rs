use vstd::prelude::*;

use crate::map::{TerritoryId, TERRITORY_COUNT};
use crate::player::PlayerId;

verus! {

/// Number of cards in the deck: one per territory and two wildcards.
pub const CARD_COUNT: usize = 44;

/// The symbol printed on a card.
#[derive(Clone, Copy, PartialEq, Eq, Structural, Hash, Debug)]
pub enum CardSymbol {
    Infantry,
    Cavalry,
    Artillery,
    Wildcard,
}

/// The symbol on the card with number `i`.
pub open spec fn symbol_of(i: int) -> CardSymbol {
    if i == 0 {
        CardSymbol::Infantry
    } else if i == 1 {
        CardSymbol::Cavalry
    } else if i == 2 {
        CardSymbol::Artillery
    } else if i == 3 {
        CardSymbol::Artillery
    } else if i == 4 {
        CardSymbol::Cavalry
    } else if i == 5 {
        CardSymbol::Artillery
    } else if i == 6 {
        CardSymbol::Cavalry
    } else if i == 7 {
        CardSymbol::Cavalry
    } else if i == 8 {
        CardSymbol::Artillery
    } else if i == 9 {
        CardSymbol::Artillery
    } else if i == 10 {
        CardSymbol::Infantry
    } else if i == 11 {
        CardSymbol::Artillery
    } else if i == 12 {
        CardSymbol::Cavalry
    } else if i == 13 {
        CardSymbol::Artillery
    } else if i == 14 {
        CardSymbol::Cavalry
    } else if i == 15 {
        CardSymbol::Artillery
    } else if i == 16 {
        CardSymbol::Cavalry
    } else if i == 17 {
        CardSymbol::Infantry
    } else if i == 18 {
        CardSymbol::Cavalry
    } else if i == 19 {
        CardSymbol::Cavalry
    } else if i == 20 {
        CardSymbol::Artillery
    } else if i == 21 {
        CardSymbol::Infantry
    } else if i == 22 {
        CardSymbol::Infantry
    } else if i == 23 {
        CardSymbol::Infantry
    } else if i == 24 {
        CardSymbol::Infantry
    } else if i == 25 {
        CardSymbol::Cavalry
    } else if i == 26 {
        CardSymbol::Cavalry
    } else if i == 27 {
        CardSymbol::Cavalry
    } else if i == 28 {
        CardSymbol::Infantry
    } else if i == 29 {
        CardSymbol::Artillery
    } else if i == 30 {
        CardSymbol::Infantry
    } else if i == 31 {
        CardSymbol::Infantry
    } else if i == 32 {
        CardSymbol::Infantry
    } else if i == 33 {
        CardSymbol::Infantry
    } else if i == 34 {
        CardSymbol::Infantry
    } else if i == 35 {
        CardSymbol::Cavalry
    } else if i == 36 {
        CardSymbol::Cavalry
    } else if i == 37 {
        CardSymbol::Artillery
    } else if i == 38 {
        CardSymbol::Artillery
    } else if i == 39 {
        CardSymbol::Infantry
    } else if i == 40 {
        CardSymbol::Artillery
    } else if i == 41 {
        CardSymbol::Artillery
    } else if i == 42 {
        CardSymbol::Wildcard
    } else {
        CardSymbol::Wildcard
    }
}

/// A card of the deck, identified by its number.
#[derive(Clone, Copy, PartialEq, Eq, Structural, Hash, Debug)]
pub struct Card(u8);

impl Card {
    /// The number of the card.
    pub closed spec fn spec_id(self) -> int {
        self.0 as int
    }

    /// Whether the card is one of the deck.
    pub open spec fn valid(self) -> bool {
        self.spec_id() < CARD_COUNT
    }

    /// The card with number `v`, if the deck has one.
    pub fn new(v: u8) -> (r: Option<Card>)
        ensures
            v < CARD_COUNT ==> r is Some && r->0.spec_id() == v,
            v >= CARD_COUNT ==> r is None,
    {
        if v < 44 {
            Some(Card(v))
        } else {
            None
        }
    }

    /// The number of the card.
    pub fn id(self) -> (r: u8)
        ensures
            r == self.spec_id(),
            0 <= self.spec_id() < 256,
    {
        self.0
    }

    /// Every card of the deck, in order of their numbers.
    pub fn all() -> (r: Vec<Card>)
        ensures
            r@.len() == CARD_COUNT,
            forall|i: int| 0 <= i < CARD_COUNT ==> (#[trigger] r@[i]).spec_id() == i,
    {
        let mut r: Vec<Card> = Vec::new();
        let mut i: u8 = 0;
        while i < 44
            invariant
                i <= CARD_COUNT,
                r@.len() == i,
                forall|j: int| 0 <= j < i ==> (#[trigger] r@[j]).spec_id() == j,
            decreases 44 - i,
        {
            r.push(Card(i));
            i = i + 1;
        }
        r
    }

    /// The territory pictured on the card; wildcards picture none.
    pub fn territory(self) -> (r: Option<TerritoryId>)
        ensures
            self.spec_id() < TERRITORY_COUNT ==> r == Some(TerritoryId::from_idx(self.spec_id())),
            self.spec_id() >= TERRITORY_COUNT ==> r is None,
    {
        TerritoryId::n(self.0)
    }

    /// The symbol on the card.
    pub fn symbol(self) -> (r: CardSymbol)
        requires
            self.valid(),
        ensures
            r == symbol_of(self.spec_id()),
    {
        match self.0 {
            0 => CardSymbol::Infantry,
            1 => CardSymbol::Cavalry,
            2 => CardSymbol::Artillery,
            3 => CardSymbol::Artillery,
            4 => CardSymbol::Cavalry,
            5 => CardSymbol::Artillery,
            6 => CardSymbol::Cavalry,
            7 => CardSymbol::Cavalry,
            8 => CardSymbol::Artillery,
            9 => CardSymbol::Artillery,
            10 => CardSymbol::Infantry,
            11 => CardSymbol::Artillery,
            12 => CardSymbol::Cavalry,
            13 => CardSymbol::Artillery,
            14 => CardSymbol::Cavalry,
            15 => CardSymbol::Artillery,
            16 => CardSymbol::Cavalry,
            17 => CardSymbol::Infantry,
            18 => CardSymbol::Cavalry,
            19 => CardSymbol::Cavalry,
            20 => CardSymbol::Artillery,
            21 => CardSymbol::Infantry,
            22 => CardSymbol::Infantry,
            23 => CardSymbol::Infantry,
            24 => CardSymbol::Infantry,
            25 => CardSymbol::Cavalry,
            26 => CardSymbol::Cavalry,
            27 => CardSymbol::Cavalry,
            28 => CardSymbol::Infantry,
            29 => CardSymbol::Artillery,
            30 => CardSymbol::Infantry,
            31 => CardSymbol::Infantry,
            32 => CardSymbol::Infantry,
            33 => CardSymbol::Infantry,
            34 => CardSymbol::Infantry,
            35 => CardSymbol::Cavalry,
            36 => CardSymbol::Cavalry,
            37 => CardSymbol::Artillery,
            38 => CardSymbol::Artillery,
            39 => CardSymbol::Infantry,
            40 => CardSymbol::Artillery,
            41 => CardSymbol::Artillery,
            42 => CardSymbol::Wildcard,
            43 => CardSymbol::Wildcard,
            _ => CardSymbol::Wildcard,
        }
    }
}

/// A territory of the board as the game engine reports it.
#[derive(Debug)]
pub struct Territory {
    pub id: TerritoryId,
    pub occupier: Option<PlayerId>,
    pub troops: u32,
}

impl Territory {
    /// The territory `id`, unoccupied and without troops.
    pub fn new(id: TerritoryId) -> (r: Territory)
        ensures
            r.id == id,
            r.occupier is None,
            r.troops == 0,
    {
        Territory { id, occupier: None, troops: 0 }
    }
}

} // verus!
