use vstd::prelude::*;

verus! {

/// Number of territories on the board.
pub const TERRITORY_COUNT: usize = 42;

/// A territory of the board. Territories are numbered in declaration order.
#[derive(Clone, Copy, PartialEq, Eq, Structural, Hash, Debug)]
pub enum TerritoryId {
    Alaska,
    Alberta,
    CentralAmerica,
    EasternUs,
    Greenland,
    NorthwestTerritory,
    Ontario,
    Quebec,
    WesternUs,
    GreatBritain,
    Iceland,
    NorthernEurope,
    Scandinavia,
    SouthernEurope,
    Ukraine,
    WesternEurope,
    Afghanistan,
    China,
    India,
    Irkutsk,
    Japan,
    Kamchatka,
    MiddleEast,
    Mongolia,
    Siam,
    Siberia,
    Ural,
    Yakutsk,
    Argentina,
    Brazil,
    Venezuela,
    Peru,
    Congo,
    EastAfrica,
    Egypt,
    Madagascar,
    NorthAfrica,
    SouthAfrica,
    EasternAustralia,
    NewGuinea,
    Indonesia,
    WesternAustralia,
}

impl TerritoryId {
    /// Position of the territory in the board order.
    pub open spec fn idx(self) -> int {
        match self {
            TerritoryId::Alaska => 0,
            TerritoryId::Alberta => 1,
            TerritoryId::CentralAmerica => 2,
            TerritoryId::EasternUs => 3,
            TerritoryId::Greenland => 4,
            TerritoryId::NorthwestTerritory => 5,
            TerritoryId::Ontario => 6,
            TerritoryId::Quebec => 7,
            TerritoryId::WesternUs => 8,
            TerritoryId::GreatBritain => 9,
            TerritoryId::Iceland => 10,
            TerritoryId::NorthernEurope => 11,
            TerritoryId::Scandinavia => 12,
            TerritoryId::SouthernEurope => 13,
            TerritoryId::Ukraine => 14,
            TerritoryId::WesternEurope => 15,
            TerritoryId::Afghanistan => 16,
            TerritoryId::China => 17,
            TerritoryId::India => 18,
            TerritoryId::Irkutsk => 19,
            TerritoryId::Japan => 20,
            TerritoryId::Kamchatka => 21,
            TerritoryId::MiddleEast => 22,
            TerritoryId::Mongolia => 23,
            TerritoryId::Siam => 24,
            TerritoryId::Siberia => 25,
            TerritoryId::Ural => 26,
            TerritoryId::Yakutsk => 27,
            TerritoryId::Argentina => 28,
            TerritoryId::Brazil => 29,
            TerritoryId::Venezuela => 30,
            TerritoryId::Peru => 31,
            TerritoryId::Congo => 32,
            TerritoryId::EastAfrica => 33,
            TerritoryId::Egypt => 34,
            TerritoryId::Madagascar => 35,
            TerritoryId::NorthAfrica => 36,
            TerritoryId::SouthAfrica => 37,
            TerritoryId::EasternAustralia => 38,
            TerritoryId::NewGuinea => 39,
            TerritoryId::Indonesia => 40,
            TerritoryId::WesternAustralia => 41,
        }
    }

    /// The territory at a position of the board order (the last one past the end).
    pub open spec fn from_idx(i: int) -> TerritoryId {
        if i == 0 {
            TerritoryId::Alaska
        } else if i == 1 {
            TerritoryId::Alberta
        } else if i == 2 {
            TerritoryId::CentralAmerica
        } else if i == 3 {
            TerritoryId::EasternUs
        } else if i == 4 {
            TerritoryId::Greenland
        } else if i == 5 {
            TerritoryId::NorthwestTerritory
        } else if i == 6 {
            TerritoryId::Ontario
        } else if i == 7 {
            TerritoryId::Quebec
        } else if i == 8 {
            TerritoryId::WesternUs
        } else if i == 9 {
            TerritoryId::GreatBritain
        } else if i == 10 {
            TerritoryId::Iceland
        } else if i == 11 {
            TerritoryId::NorthernEurope
        } else if i == 12 {
            TerritoryId::Scandinavia
        } else if i == 13 {
            TerritoryId::SouthernEurope
        } else if i == 14 {
            TerritoryId::Ukraine
        } else if i == 15 {
            TerritoryId::WesternEurope
        } else if i == 16 {
            TerritoryId::Afghanistan
        } else if i == 17 {
            TerritoryId::China
        } else if i == 18 {
            TerritoryId::India
        } else if i == 19 {
            TerritoryId::Irkutsk
        } else if i == 20 {
            TerritoryId::Japan
        } else if i == 21 {
            TerritoryId::Kamchatka
        } else if i == 22 {
            TerritoryId::MiddleEast
        } else if i == 23 {
            TerritoryId::Mongolia
        } else if i == 24 {
            TerritoryId::Siam
        } else if i == 25 {
            TerritoryId::Siberia
        } else if i == 26 {
            TerritoryId::Ural
        } else if i == 27 {
            TerritoryId::Yakutsk
        } else if i == 28 {
            TerritoryId::Argentina
        } else if i == 29 {
            TerritoryId::Brazil
        } else if i == 30 {
            TerritoryId::Venezuela
        } else if i == 31 {
            TerritoryId::Peru
        } else if i == 32 {
            TerritoryId::Congo
        } else if i == 33 {
            TerritoryId::EastAfrica
        } else if i == 34 {
            TerritoryId::Egypt
        } else if i == 35 {
            TerritoryId::Madagascar
        } else if i == 36 {
            TerritoryId::NorthAfrica
        } else if i == 37 {
            TerritoryId::SouthAfrica
        } else if i == 38 {
            TerritoryId::EasternAustralia
        } else if i == 39 {
            TerritoryId::NewGuinea
        } else if i == 40 {
            TerritoryId::Indonesia
        } else {
            TerritoryId::WesternAustralia
        }
    }

    /// Position of the territory in the board order.
    pub fn index(self) -> (r: usize)
        ensures
            r as int == self.idx(),
            r < TERRITORY_COUNT,
    {
        match self {
            TerritoryId::Alaska => 0,
            TerritoryId::Alberta => 1,
            TerritoryId::CentralAmerica => 2,
            TerritoryId::EasternUs => 3,
            TerritoryId::Greenland => 4,
            TerritoryId::NorthwestTerritory => 5,
            TerritoryId::Ontario => 6,
            TerritoryId::Quebec => 7,
            TerritoryId::WesternUs => 8,
            TerritoryId::GreatBritain => 9,
            TerritoryId::Iceland => 10,
            TerritoryId::NorthernEurope => 11,
            TerritoryId::Scandinavia => 12,
            TerritoryId::SouthernEurope => 13,
            TerritoryId::Ukraine => 14,
            TerritoryId::WesternEurope => 15,
            TerritoryId::Afghanistan => 16,
            TerritoryId::China => 17,
            TerritoryId::India => 18,
            TerritoryId::Irkutsk => 19,
            TerritoryId::Japan => 20,
            TerritoryId::Kamchatka => 21,
            TerritoryId::MiddleEast => 22,
            TerritoryId::Mongolia => 23,
            TerritoryId::Siam => 24,
            TerritoryId::Siberia => 25,
            TerritoryId::Ural => 26,
            TerritoryId::Yakutsk => 27,
            TerritoryId::Argentina => 28,
            TerritoryId::Brazil => 29,
            TerritoryId::Venezuela => 30,
            TerritoryId::Peru => 31,
            TerritoryId::Congo => 32,
            TerritoryId::EastAfrica => 33,
            TerritoryId::Egypt => 34,
            TerritoryId::Madagascar => 35,
            TerritoryId::NorthAfrica => 36,
            TerritoryId::SouthAfrica => 37,
            TerritoryId::EasternAustralia => 38,
            TerritoryId::NewGuinea => 39,
            TerritoryId::Indonesia => 40,
            TerritoryId::WesternAustralia => 41,
        }
    }

    /// The territory with the given number, if there is one.
    pub fn n(value: u8) -> (r: Option<TerritoryId>)
        ensures
            value < TERRITORY_COUNT ==> r == Some(TerritoryId::from_idx(value as int)),
            value >= TERRITORY_COUNT ==> r is None,
    {
        match value {
            0 => Some(TerritoryId::Alaska),
            1 => Some(TerritoryId::Alberta),
            2 => Some(TerritoryId::CentralAmerica),
            3 => Some(TerritoryId::EasternUs),
            4 => Some(TerritoryId::Greenland),
            5 => Some(TerritoryId::NorthwestTerritory),
            6 => Some(TerritoryId::Ontario),
            7 => Some(TerritoryId::Quebec),
            8 => Some(TerritoryId::WesternUs),
            9 => Some(TerritoryId::GreatBritain),
            10 => Some(TerritoryId::Iceland),
            11 => Some(TerritoryId::NorthernEurope),
            12 => Some(TerritoryId::Scandinavia),
            13 => Some(TerritoryId::SouthernEurope),
            14 => Some(TerritoryId::Ukraine),
            15 => Some(TerritoryId::WesternEurope),
            16 => Some(TerritoryId::Afghanistan),
            17 => Some(TerritoryId::China),
            18 => Some(TerritoryId::India),
            19 => Some(TerritoryId::Irkutsk),
            20 => Some(TerritoryId::Japan),
            21 => Some(TerritoryId::Kamchatka),
            22 => Some(TerritoryId::MiddleEast),
            23 => Some(TerritoryId::Mongolia),
            24 => Some(TerritoryId::Siam),
            25 => Some(TerritoryId::Siberia),
            26 => Some(TerritoryId::Ural),
            27 => Some(TerritoryId::Yakutsk),
            28 => Some(TerritoryId::Argentina),
            29 => Some(TerritoryId::Brazil),
            30 => Some(TerritoryId::Venezuela),
            31 => Some(TerritoryId::Peru),
            32 => Some(TerritoryId::Congo),
            33 => Some(TerritoryId::EastAfrica),
            34 => Some(TerritoryId::Egypt),
            35 => Some(TerritoryId::Madagascar),
            36 => Some(TerritoryId::NorthAfrica),
            37 => Some(TerritoryId::SouthAfrica),
            38 => Some(TerritoryId::EasternAustralia),
            39 => Some(TerritoryId::NewGuinea),
            40 => Some(TerritoryId::Indonesia),
            41 => Some(TerritoryId::WesternAustralia),
            _ => None,
        }
    }

    /// The continent that the territory belongs to.
    pub fn continent(self) -> (r: Continent)
        ensures
            r == continent_of(self.idx()),
    {
        let i = self.index();
        if i < 9 {
            Continent::NorthAmerica
        } else if i < 16 {
            Continent::Europe
        } else if i < 28 {
            Continent::Asia
        } else if i < 32 {
            Continent::SouthAmerica
        } else if i < 38 {
            Continent::Africa
        } else {
            Continent::Australia
        }
    }

    /// Every territory, in board order.
    pub fn all() -> (r: Vec<TerritoryId>)
        ensures
            r@.len() == TERRITORY_COUNT,
            forall|i: int| 0 <= i < TERRITORY_COUNT ==> (#[trigger] r@[i]).idx() == i,
    {
        let mut r: Vec<TerritoryId> = Vec::new();
        let mut i: u8 = 0;
        while i < 42
            invariant
                i <= TERRITORY_COUNT,
                r@.len() == i,
                forall|j: int| 0 <= j < i ==> (#[trigger] r@[j]).idx() == j,
            decreases 42 - i,
        {
            let t = TerritoryId::n(i);
            proof {
                lemma_idx_from_idx(i as int);
            }
            r.push(t.unwrap());
            i = i + 1;
        }
        r
    }
}

/// Numbering territories is a bijection onto `0..42`.
pub proof fn lemma_idx_from_idx(i: int)
    requires
        0 <= i < TERRITORY_COUNT,
    ensures
        TerritoryId::from_idx(i).idx() == i,
{
}

/// A territory is determined by its number.
pub proof fn lemma_from_idx_idx(t: TerritoryId)
    ensures
        TerritoryId::from_idx(t.idx()) == t,
        0 <= t.idx() < TERRITORY_COUNT,
{
    match t {
        TerritoryId::Alaska => {},
        TerritoryId::Alberta => {},
        TerritoryId::CentralAmerica => {},
        TerritoryId::EasternUs => {},
        TerritoryId::Greenland => {},
        TerritoryId::NorthwestTerritory => {},
        TerritoryId::Ontario => {},
        TerritoryId::Quebec => {},
        TerritoryId::WesternUs => {},
        TerritoryId::GreatBritain => {},
        TerritoryId::Iceland => {},
        TerritoryId::NorthernEurope => {},
        TerritoryId::Scandinavia => {},
        TerritoryId::SouthernEurope => {},
        TerritoryId::Ukraine => {},
        TerritoryId::WesternEurope => {},
        TerritoryId::Afghanistan => {},
        TerritoryId::China => {},
        TerritoryId::India => {},
        TerritoryId::Irkutsk => {},
        TerritoryId::Japan => {},
        TerritoryId::Kamchatka => {},
        TerritoryId::MiddleEast => {},
        TerritoryId::Mongolia => {},
        TerritoryId::Siam => {},
        TerritoryId::Siberia => {},
        TerritoryId::Ural => {},
        TerritoryId::Yakutsk => {},
        TerritoryId::Argentina => {},
        TerritoryId::Brazil => {},
        TerritoryId::Venezuela => {},
        TerritoryId::Peru => {},
        TerritoryId::Congo => {},
        TerritoryId::EastAfrica => {},
        TerritoryId::Egypt => {},
        TerritoryId::Madagascar => {},
        TerritoryId::NorthAfrica => {},
        TerritoryId::SouthAfrica => {},
        TerritoryId::EasternAustralia => {},
        TerritoryId::NewGuinea => {},
        TerritoryId::Indonesia => {},
        TerritoryId::WesternAustralia => {},
    }
}

/// Two territories with the same number are the same territory.
pub proof fn lemma_idx_injective(a: TerritoryId, b: TerritoryId)
    ensures
        a.idx() == b.idx() <==> a == b,
{
    lemma_from_idx_idx(a);
    lemma_from_idx_idx(b);
}

/// A continent of the board.
#[derive(Clone, Copy, PartialEq, Eq, Structural, Hash, Debug)]
pub enum Continent {
    NorthAmerica,
    Europe,
    Asia,
    SouthAmerica,
    Africa,
    Australia,
}

/// The continent of the territory with number `i`; continents are contiguous in board order.
pub open spec fn continent_of(i: int) -> Continent {
    if i < 9 {
        Continent::NorthAmerica
    } else if i < 16 {
        Continent::Europe
    } else if i < 28 {
        Continent::Asia
    } else if i < 32 {
        Continent::SouthAmerica
    } else if i < 38 {
        Continent::Africa
    } else {
        Continent::Australia
    }
}

impl Continent {
    /// Number of the first territory of the continent.
    pub open spec fn first_idx(self) -> int {
        match self {
            Continent::NorthAmerica => 0,
            Continent::Europe => 9,
            Continent::Asia => 16,
            Continent::SouthAmerica => 28,
            Continent::Africa => 32,
            Continent::Australia => 38,
        }
    }

    /// Number of territories of the continent.
    pub open spec fn size(self) -> int {
        match self {
            Continent::NorthAmerica => 9,
            Continent::Europe => 7,
            Continent::Asia => 12,
            Continent::SouthAmerica => 4,
            Continent::Africa => 6,
            Continent::Australia => 4,
        }
    }

    /// Every continent, in board order.
    pub open spec fn all_spec() -> Seq<Continent> {
        seq![
            Continent::NorthAmerica,
            Continent::Europe,
            Continent::Asia,
            Continent::SouthAmerica,
            Continent::Africa,
            Continent::Australia,
        ]
    }

    /// Every continent, in board order.
    pub fn all() -> (r: Vec<Continent>)
        ensures
            r@ == Continent::all_spec(),
    {
        vec![
            Continent::NorthAmerica,
            Continent::Europe,
            Continent::Asia,
            Continent::SouthAmerica,
            Continent::Africa,
            Continent::Australia,
        ]
    }

    /// Number of territories of the continent.
    pub fn territory_count(self) -> (r: u32)
        ensures
            r == self.size(),
    {
        match self {
            Continent::NorthAmerica => 9,
            Continent::Europe => 7,
            Continent::Asia => 12,
            Continent::SouthAmerica => 4,
            Continent::Africa => 6,
            Continent::Australia => 4,
        }
    }

    /// Troops a player receives each turn for holding the whole continent.
    pub fn bonus(self) -> (r: u32)
        ensures
            r == continent_bonus(self),
    {
        match self {
            Continent::NorthAmerica => 5,
            Continent::Europe => 5,
            Continent::Asia => 7,
            Continent::SouthAmerica => 2,
            Continent::Africa => 3,
            Continent::Australia => 2,
        }
    }

    /// The territories of the continent, in board order.
    pub fn iter_territories(self) -> (r: Vec<TerritoryId>)
        ensures
            r@.len() == self.size(),
            forall|k: int| 0 <= k < r@.len() ==> (#[trigger] r@[k]).idx() == self.first_idx() + k,
            forall|t: TerritoryId| r@.contains(t) <==> continent_of(t.idx()) == self,
    {
        let all = TerritoryId::all();
        let mut r: Vec<TerritoryId> = Vec::new();
        let mut i: usize = 0;
        while i < all.len()
            invariant
                all@.len() == TERRITORY_COUNT,
                forall|j: int| 0 <= j < TERRITORY_COUNT ==> (#[trigger] all@[j]).idx() == j,
                i <= all@.len(),
                r@.len() == if i <= self.first_idx() {
                    0
                } else if i < self.first_idx() + self.size() {
                    i - self.first_idx()
                } else {
                    self.size()
                },
                forall|k: int| 0 <= k < r@.len() ==> (#[trigger] r@[k]).idx() == self.first_idx() + k,
            decreases all@.len() - i,
        {
            let t = all[i];
            if t.continent() == self {
                r.push(t);
            }
            i = i + 1;
        }
        assert forall|t: TerritoryId| r@.contains(t) <==> continent_of(t.idx()) == self by {
            lemma_from_idx_idx(t);
            if continent_of(t.idx()) == self {
                let k = t.idx() - self.first_idx();
                assert(r@[k].idx() == t.idx());
                lemma_idx_injective(r@[k], t);
            }
        }
        r
    }
}

/// Troops a player receives each turn for holding the whole continent.
pub open spec fn continent_bonus(c: Continent) -> int {
    match c {
        Continent::NorthAmerica => 5,
        Continent::Europe => 5,
        Continent::Asia => 7,
        Continent::SouthAmerica => 2,
        Continent::Africa => 3,
        Continent::Australia => 2,
    }
}

/// The territories adjacent to `t`.
pub open spec fn adjacent(t: TerritoryId) -> Seq<TerritoryId> {
    match t {
        TerritoryId::Alaska => seq![TerritoryId::Alberta, TerritoryId::NorthwestTerritory, TerritoryId::Kamchatka],
        TerritoryId::Alberta => seq![TerritoryId::Ontario, TerritoryId::NorthwestTerritory, TerritoryId::Alaska, TerritoryId::WesternUs],
        TerritoryId::CentralAmerica => seq![TerritoryId::EasternUs, TerritoryId::WesternUs, TerritoryId::Venezuela],
        TerritoryId::EasternUs => seq![TerritoryId::Quebec, TerritoryId::Ontario, TerritoryId::WesternUs, TerritoryId::CentralAmerica],
        TerritoryId::Greenland => seq![TerritoryId::NorthwestTerritory, TerritoryId::Ontario, TerritoryId::Quebec, TerritoryId::Iceland],
        TerritoryId::NorthwestTerritory => seq![TerritoryId::Greenland, TerritoryId::Alaska, TerritoryId::Alberta, TerritoryId::Ontario],
        TerritoryId::Ontario => seq![TerritoryId::Quebec, TerritoryId::Greenland, TerritoryId::NorthwestTerritory, TerritoryId::Alberta, TerritoryId::WesternUs, TerritoryId::EasternUs],
        TerritoryId::Quebec => seq![TerritoryId::Greenland, TerritoryId::Ontario, TerritoryId::EasternUs],
        TerritoryId::WesternUs => seq![TerritoryId::EasternUs, TerritoryId::Ontario, TerritoryId::Alberta, TerritoryId::CentralAmerica],
        TerritoryId::GreatBritain => seq![TerritoryId::NorthernEurope, TerritoryId::Scandinavia, TerritoryId::Iceland, TerritoryId::WesternEurope],
        TerritoryId::Iceland => seq![TerritoryId::Scandinavia, TerritoryId::Greenland, TerritoryId::GreatBritain],
        TerritoryId::NorthernEurope => seq![TerritoryId::Ukraine, TerritoryId::Scandinavia, TerritoryId::GreatBritain, TerritoryId::WesternEurope, TerritoryId::SouthernEurope],
        TerritoryId::Scandinavia => seq![TerritoryId::Ukraine, TerritoryId::Iceland, TerritoryId::GreatBritain, TerritoryId::NorthernEurope],
        TerritoryId::SouthernEurope => seq![TerritoryId::MiddleEast, TerritoryId::Ukraine, TerritoryId::NorthernEurope, TerritoryId::WesternEurope, TerritoryId::NorthAfrica, TerritoryId::Egypt],
        TerritoryId::Ukraine => seq![TerritoryId::Afghanistan, TerritoryId::Ural, TerritoryId::Scandinavia, TerritoryId::NorthernEurope, TerritoryId::SouthernEurope, TerritoryId::MiddleEast],
        TerritoryId::WesternEurope => seq![TerritoryId::SouthernEurope, TerritoryId::NorthernEurope, TerritoryId::GreatBritain, TerritoryId::NorthAfrica],
        TerritoryId::Afghanistan => seq![TerritoryId::China, TerritoryId::Ural, TerritoryId::Ukraine, TerritoryId::MiddleEast, TerritoryId::India],
        TerritoryId::China => seq![TerritoryId::Mongolia, TerritoryId::Siberia, TerritoryId::Ural, TerritoryId::Afghanistan, TerritoryId::India, TerritoryId::Siam],
        TerritoryId::India => seq![TerritoryId::Siam, TerritoryId::China, TerritoryId::Afghanistan, TerritoryId::MiddleEast],
        TerritoryId::Irkutsk => seq![TerritoryId::Kamchatka, TerritoryId::Yakutsk, TerritoryId::Siberia, TerritoryId::Mongolia],
        TerritoryId::Japan => seq![TerritoryId::Kamchatka, TerritoryId::Mongolia],
        TerritoryId::Kamchatka => seq![TerritoryId::Alaska, TerritoryId::Yakutsk, TerritoryId::Irkutsk, TerritoryId::Mongolia, TerritoryId::Japan],
        TerritoryId::MiddleEast => seq![TerritoryId::India, TerritoryId::Afghanistan, TerritoryId::Ukraine, TerritoryId::SouthernEurope, TerritoryId::Egypt, TerritoryId::EastAfrica],
        TerritoryId::Mongolia => seq![TerritoryId::Japan, TerritoryId::Kamchatka, TerritoryId::Irkutsk, TerritoryId::Siberia, TerritoryId::China],
        TerritoryId::Siam => seq![TerritoryId::China, TerritoryId::India, TerritoryId::Indonesia],
        TerritoryId::Siberia => seq![TerritoryId::Yakutsk, TerritoryId::Ural, TerritoryId::China, TerritoryId::Mongolia, TerritoryId::Irkutsk],
        TerritoryId::Ural => seq![TerritoryId::Siberia, TerritoryId::Ukraine, TerritoryId::Afghanistan, TerritoryId::China],
        TerritoryId::Yakutsk => seq![TerritoryId::Kamchatka, TerritoryId::Siberia, TerritoryId::Irkutsk],
        TerritoryId::Argentina => seq![TerritoryId::Brazil, TerritoryId::Peru],
        TerritoryId::Brazil => seq![TerritoryId::NorthAfrica, TerritoryId::Venezuela, TerritoryId::Peru, TerritoryId::Argentina],
        TerritoryId::Venezuela => seq![TerritoryId::CentralAmerica, TerritoryId::Peru, TerritoryId::Brazil],
        TerritoryId::Peru => seq![TerritoryId::Brazil, TerritoryId::Venezuela, TerritoryId::Argentina],
        TerritoryId::Congo => seq![TerritoryId::EastAfrica, TerritoryId::NorthAfrica, TerritoryId::SouthAfrica],
        TerritoryId::EastAfrica => seq![TerritoryId::MiddleEast, TerritoryId::Egypt, TerritoryId::NorthAfrica, TerritoryId::Congo, TerritoryId::SouthAfrica, TerritoryId::Madagascar],
        TerritoryId::Egypt => seq![TerritoryId::MiddleEast, TerritoryId::SouthernEurope, TerritoryId::NorthAfrica, TerritoryId::EastAfrica],
        TerritoryId::Madagascar => seq![TerritoryId::EastAfrica, TerritoryId::SouthAfrica],
        TerritoryId::NorthAfrica => seq![TerritoryId::EastAfrica, TerritoryId::Egypt, TerritoryId::SouthernEurope, TerritoryId::WesternEurope, TerritoryId::Brazil, TerritoryId::Congo],
        TerritoryId::SouthAfrica => seq![TerritoryId::Madagascar, TerritoryId::EastAfrica, TerritoryId::Congo],
        TerritoryId::EasternAustralia => seq![TerritoryId::NewGuinea, TerritoryId::WesternAustralia],
        TerritoryId::NewGuinea => seq![TerritoryId::Indonesia, TerritoryId::WesternAustralia, TerritoryId::EasternAustralia],
        TerritoryId::Indonesia => seq![TerritoryId::NewGuinea, TerritoryId::Siam, TerritoryId::WesternAustralia],
        TerritoryId::WesternAustralia => seq![TerritoryId::EasternAustralia, TerritoryId::NewGuinea, TerritoryId::Indonesia],
    }
}

/// The territories adjacent to `t`.
pub fn edges(t: TerritoryId) -> (r: Vec<TerritoryId>)
    ensures
        r@ == adjacent(t),
{
    match t {
        TerritoryId::Alaska => vec![TerritoryId::Alberta, TerritoryId::NorthwestTerritory, TerritoryId::Kamchatka],
        TerritoryId::Alberta => vec![TerritoryId::Ontario, TerritoryId::NorthwestTerritory, TerritoryId::Alaska, TerritoryId::WesternUs],
        TerritoryId::CentralAmerica => vec![TerritoryId::EasternUs, TerritoryId::WesternUs, TerritoryId::Venezuela],
        TerritoryId::EasternUs => vec![TerritoryId::Quebec, TerritoryId::Ontario, TerritoryId::WesternUs, TerritoryId::CentralAmerica],
        TerritoryId::Greenland => vec![TerritoryId::NorthwestTerritory, TerritoryId::Ontario, TerritoryId::Quebec, TerritoryId::Iceland],
        TerritoryId::NorthwestTerritory => vec![TerritoryId::Greenland, TerritoryId::Alaska, TerritoryId::Alberta, TerritoryId::Ontario],
        TerritoryId::Ontario => vec![TerritoryId::Quebec, TerritoryId::Greenland, TerritoryId::NorthwestTerritory, TerritoryId::Alberta, TerritoryId::WesternUs, TerritoryId::EasternUs],
        TerritoryId::Quebec => vec![TerritoryId::Greenland, TerritoryId::Ontario, TerritoryId::EasternUs],
        TerritoryId::WesternUs => vec![TerritoryId::EasternUs, TerritoryId::Ontario, TerritoryId::Alberta, TerritoryId::CentralAmerica],
        TerritoryId::GreatBritain => vec![TerritoryId::NorthernEurope, TerritoryId::Scandinavia, TerritoryId::Iceland, TerritoryId::WesternEurope],
        TerritoryId::Iceland => vec![TerritoryId::Scandinavia, TerritoryId::Greenland, TerritoryId::GreatBritain],
        TerritoryId::NorthernEurope => vec![TerritoryId::Ukraine, TerritoryId::Scandinavia, TerritoryId::GreatBritain, TerritoryId::WesternEurope, TerritoryId::SouthernEurope],
        TerritoryId::Scandinavia => vec![TerritoryId::Ukraine, TerritoryId::Iceland, TerritoryId::GreatBritain, TerritoryId::NorthernEurope],
        TerritoryId::SouthernEurope => vec![TerritoryId::MiddleEast, TerritoryId::Ukraine, TerritoryId::NorthernEurope, TerritoryId::WesternEurope, TerritoryId::NorthAfrica, TerritoryId::Egypt],
        TerritoryId::Ukraine => vec![TerritoryId::Afghanistan, TerritoryId::Ural, TerritoryId::Scandinavia, TerritoryId::NorthernEurope, TerritoryId::SouthernEurope, TerritoryId::MiddleEast],
        TerritoryId::WesternEurope => vec![TerritoryId::SouthernEurope, TerritoryId::NorthernEurope, TerritoryId::GreatBritain, TerritoryId::NorthAfrica],
        TerritoryId::Afghanistan => vec![TerritoryId::China, TerritoryId::Ural, TerritoryId::Ukraine, TerritoryId::MiddleEast, TerritoryId::India],
        TerritoryId::China => vec![TerritoryId::Mongolia, TerritoryId::Siberia, TerritoryId::Ural, TerritoryId::Afghanistan, TerritoryId::India, TerritoryId::Siam],
        TerritoryId::India => vec![TerritoryId::Siam, TerritoryId::China, TerritoryId::Afghanistan, TerritoryId::MiddleEast],
        TerritoryId::Irkutsk => vec![TerritoryId::Kamchatka, TerritoryId::Yakutsk, TerritoryId::Siberia, TerritoryId::Mongolia],
        TerritoryId::Japan => vec![TerritoryId::Kamchatka, TerritoryId::Mongolia],
        TerritoryId::Kamchatka => vec![TerritoryId::Alaska, TerritoryId::Yakutsk, TerritoryId::Irkutsk, TerritoryId::Mongolia, TerritoryId::Japan],
        TerritoryId::MiddleEast => vec![TerritoryId::India, TerritoryId::Afghanistan, TerritoryId::Ukraine, TerritoryId::SouthernEurope, TerritoryId::Egypt, TerritoryId::EastAfrica],
        TerritoryId::Mongolia => vec![TerritoryId::Japan, TerritoryId::Kamchatka, TerritoryId::Irkutsk, TerritoryId::Siberia, TerritoryId::China],
        TerritoryId::Siam => vec![TerritoryId::China, TerritoryId::India, TerritoryId::Indonesia],
        TerritoryId::Siberia => vec![TerritoryId::Yakutsk, TerritoryId::Ural, TerritoryId::China, TerritoryId::Mongolia, TerritoryId::Irkutsk],
        TerritoryId::Ural => vec![TerritoryId::Siberia, TerritoryId::Ukraine, TerritoryId::Afghanistan, TerritoryId::China],
        TerritoryId::Yakutsk => vec![TerritoryId::Kamchatka, TerritoryId::Siberia, TerritoryId::Irkutsk],
        TerritoryId::Argentina => vec![TerritoryId::Brazil, TerritoryId::Peru],
        TerritoryId::Brazil => vec![TerritoryId::NorthAfrica, TerritoryId::Venezuela, TerritoryId::Peru, TerritoryId::Argentina],
        TerritoryId::Venezuela => vec![TerritoryId::CentralAmerica, TerritoryId::Peru, TerritoryId::Brazil],
        TerritoryId::Peru => vec![TerritoryId::Brazil, TerritoryId::Venezuela, TerritoryId::Argentina],
        TerritoryId::Congo => vec![TerritoryId::EastAfrica, TerritoryId::NorthAfrica, TerritoryId::SouthAfrica],
        TerritoryId::EastAfrica => vec![TerritoryId::MiddleEast, TerritoryId::Egypt, TerritoryId::NorthAfrica, TerritoryId::Congo, TerritoryId::SouthAfrica, TerritoryId::Madagascar],
        TerritoryId::Egypt => vec![TerritoryId::MiddleEast, TerritoryId::SouthernEurope, TerritoryId::NorthAfrica, TerritoryId::EastAfrica],
        TerritoryId::Madagascar => vec![TerritoryId::EastAfrica, TerritoryId::SouthAfrica],
        TerritoryId::NorthAfrica => vec![TerritoryId::EastAfrica, TerritoryId::Egypt, TerritoryId::SouthernEurope, TerritoryId::WesternEurope, TerritoryId::Brazil, TerritoryId::Congo],
        TerritoryId::SouthAfrica => vec![TerritoryId::Madagascar, TerritoryId::EastAfrica, TerritoryId::Congo],
        TerritoryId::EasternAustralia => vec![TerritoryId::NewGuinea, TerritoryId::WesternAustralia],
        TerritoryId::NewGuinea => vec![TerritoryId::Indonesia, TerritoryId::WesternAustralia, TerritoryId::EasternAustralia],
        TerritoryId::Indonesia => vec![TerritoryId::NewGuinea, TerritoryId::Siam, TerritoryId::WesternAustralia],
        TerritoryId::WesternAustralia => vec![TerritoryId::EasternAustralia, TerritoryId::NewGuinea, TerritoryId::Indonesia],
    }
}

/// No territory is listed twice among the neighbours of another, nor is its own neighbour.
pub proof fn lemma_adjacent_distinct(t: TerritoryId)
    ensures
        adjacent(t).no_duplicates(),
        !adjacent(t).contains(t),
{
    match t {
        TerritoryId::Alaska => {},
        TerritoryId::Alberta => {},
        TerritoryId::CentralAmerica => {},
        TerritoryId::EasternUs => {},
        TerritoryId::Greenland => {},
        TerritoryId::NorthwestTerritory => {},
        TerritoryId::Ontario => {},
        TerritoryId::Quebec => {},
        TerritoryId::WesternUs => {},
        TerritoryId::GreatBritain => {},
        TerritoryId::Iceland => {},
        TerritoryId::NorthernEurope => {},
        TerritoryId::Scandinavia => {},
        TerritoryId::SouthernEurope => {},
        TerritoryId::Ukraine => {},
        TerritoryId::WesternEurope => {},
        TerritoryId::Afghanistan => {},
        TerritoryId::China => {},
        TerritoryId::India => {},
        TerritoryId::Irkutsk => {},
        TerritoryId::Japan => {},
        TerritoryId::Kamchatka => {},
        TerritoryId::MiddleEast => {},
        TerritoryId::Mongolia => {},
        TerritoryId::Siam => {},
        TerritoryId::Siberia => {},
        TerritoryId::Ural => {},
        TerritoryId::Yakutsk => {},
        TerritoryId::Argentina => {},
        TerritoryId::Brazil => {},
        TerritoryId::Venezuela => {},
        TerritoryId::Peru => {},
        TerritoryId::Congo => {},
        TerritoryId::EastAfrica => {},
        TerritoryId::Egypt => {},
        TerritoryId::Madagascar => {},
        TerritoryId::NorthAfrica => {},
        TerritoryId::SouthAfrica => {},
        TerritoryId::EasternAustralia => {},
        TerritoryId::NewGuinea => {},
        TerritoryId::Indonesia => {},
        TerritoryId::WesternAustralia => {},
    }
}

} // verus!
