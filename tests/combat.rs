use risk_search::card::{Card, CardSymbol, Territory};
use risk_search::game::{
    retain_different_dest, retain_different_origin, retain_different_origin_dest, AttackGame,
    Move, PlayerMove, Turn,
};
use risk_search::map::{edges, Continent, TerritoryId};
use risk_search::player::{Player, PlayerId, PublicPlayer};
use risk_search::record::Cause;

fn board(owned: &[(TerritoryId, u32)], enemy: &[(TerritoryId, u32, PlayerId)]) -> AttackGame {
    let mut troops = vec![1u32; 42];
    let mut occupiers = vec![PlayerId::P1; 42];
    for &(t, n) in owned {
        troops[t.index()] = n;
        occupiers[t.index()] = PlayerId::P0;
    }
    for &(t, n, p) in enemy {
        troops[t.index()] = n;
        occupiers[t.index()] = p;
    }
    let mut game = AttackGame::new();
    game.set_state(troops, occupiers, 0);
    game
}

fn sorted(mut moves: Vec<PlayerMove>) -> Vec<(usize, usize)> {
    let mut v: Vec<(usize, usize)> = moves
        .drain(..)
        .map(|m| (m.origin.index(), m.dest.index()))
        .collect();
    v.sort();
    v
}

#[test]
fn territory_numbers_round_trip() {
    for i in 0..42u8 {
        assert_eq!(TerritoryId::n(i).unwrap().index(), i as usize);
    }
    assert!(TerritoryId::n(42).is_none());
    assert_eq!(TerritoryId::all().len(), 42);
}

#[test]
fn alaska_neighbours() {
    assert_eq!(
        edges(TerritoryId::Alaska),
        vec![
            TerritoryId::Alberta,
            TerritoryId::NorthwestTerritory,
            TerritoryId::Kamchatka
        ]
    );
}

#[test]
fn continents_and_bonuses() {
    assert_eq!(TerritoryId::Alaska.continent(), Continent::NorthAmerica);
    assert_eq!(TerritoryId::Kamchatka.continent(), Continent::Asia);
    assert_eq!(TerritoryId::WesternAustralia.continent(), Continent::Australia);
    assert_eq!(Continent::Asia.territory_count(), 12);
    assert_eq!(Continent::Asia.bonus(), 7);
    assert_eq!(Continent::SouthAmerica.bonus(), 2);
    assert_eq!(
        Continent::Australia.iter_territories(),
        vec![
            TerritoryId::EasternAustralia,
            TerritoryId::NewGuinea,
            TerritoryId::Indonesia,
            TerritoryId::WesternAustralia
        ]
    );
    let total: u32 = Continent::all().iter().map(|c| c.territory_count()).sum();
    assert_eq!(total, 42);
}

#[test]
fn cards() {
    assert!(Card::new(44).is_none());
    let wild = Card::new(42).unwrap();
    assert_eq!(wild.id(), 42);
    assert_eq!(wild.symbol(), CardSymbol::Wildcard);
    assert!(wild.territory().is_none());
    let first = Card::new(0).unwrap();
    assert_eq!(first.symbol(), CardSymbol::Infantry);
    assert_eq!(first.territory(), Some(TerritoryId::Alaska));
    assert_eq!(Card::new(1).unwrap().symbol(), CardSymbol::Cavalry);
    assert_eq!(Card::all().len(), 44);
    let t = Territory::new(TerritoryId::Peru);
    assert!(t.occupier.is_none());
    assert_eq!(t.troops, 0);
}

#[test]
fn players() {
    let p = Player::new(PlayerId::P2, 35);
    assert!(p.alive && p.cards.is_empty() && p.troops_remaining == 35);
    let q = PublicPlayer::new(PlayerId::P3, 7);
    assert_eq!(q.card_count, 0);
    assert!(PlayerId::P0.is_p0());
    assert!(!PlayerId::P4.is_p0());
}

#[test]
fn new_game_is_all_ones() {
    let g = AttackGame::new();
    assert_eq!(g.turn(), Turn::Player);
    for t in TerritoryId::all() {
        assert_eq!(g.troops(t), 1);
        assert_eq!(g.occupier(t), PlayerId::P0);
    }
    assert_eq!(g.territories_occupied(), 42);
    assert_eq!(g.players_remaining(), 1);
}

#[test]
fn attack_moves_are_friendly_spare_troops_into_adjacent_enemies() {
    // Alaska (3) borders Alberta, Northwest Territory and Kamchatka; Alberta (1) has no spare troop.
    let g = board(
        &[(TerritoryId::Alaska, 3), (TerritoryId::Alberta, 1)],
        &[],
    );
    let mut moves = Vec::new();
    g.gen_player_moves_into(&mut moves);
    assert_eq!(
        sorted(moves),
        vec![
            (TerritoryId::Alaska.index(), TerritoryId::NorthwestTerritory.index()),
            (TerritoryId::Alaska.index(), TerritoryId::Kamchatka.index()),
        ]
        .into_iter()
        .collect::<std::collections::BTreeSet<_>>()
        .into_iter()
        .collect::<Vec<_>>()
    );
}

#[test]
fn no_attack_without_spare_troops() {
    let g = board(&[(TerritoryId::Alaska, 1)], &[]);
    let mut moves = vec![PlayerMove {
        origin: TerritoryId::Peru,
        dest: TerritoryId::Brazil,
    }];
    g.gen_player_moves_into(&mut moves);
    assert!(moves.is_empty());
}

#[test]
fn conquest_moves_all_but_one_troop() {
    let mut g = board(&[(TerritoryId::Alaska, 5)], &[(TerritoryId::Kamchatka, 1, PlayerId::P2)]);
    let m = PlayerMove {
        origin: TerritoryId::Alaska,
        dest: TerritoryId::Kamchatka,
    };
    g.make_move(Move::Player(m));
    assert_eq!(g.turn(), Turn::Chance(m));
    let mut outcomes = Vec::new();
    g.gen_chance_moves_into(&mut outcomes);
    assert_eq!(outcomes, vec![(0, 1), (1, 0)]);
    g.make_move(Move::Chance(0, 1));
    assert_eq!(g.turn(), Turn::Player);
    assert_eq!(g.occupier(TerritoryId::Kamchatka), PlayerId::P0);
    assert_eq!(g.troops(TerritoryId::Alaska), 1);
    assert_eq!(g.troops(TerritoryId::Kamchatka), 4);
    assert!(g.territory_conquered());
    // P2 held only Kamchatka.
    assert_eq!(g.players_eliminated(), 1);
}

#[test]
fn failed_attack_only_removes_troops() {
    let mut g = board(&[(TerritoryId::Alaska, 5)], &[(TerritoryId::Kamchatka, 4, PlayerId::P2)]);
    let m = PlayerMove {
        origin: TerritoryId::Alaska,
        dest: TerritoryId::Kamchatka,
    };
    g.make_move(Move::Player(m));
    let mut outcomes = Vec::new();
    g.gen_chance_moves_into(&mut outcomes);
    assert_eq!(outcomes, vec![(0, 2), (1, 1), (2, 0)]);
    g.make_move(Move::Chance(1, 1));
    assert_eq!(g.troops(TerritoryId::Alaska), 4);
    assert_eq!(g.troops(TerritoryId::Kamchatka), 3);
    assert_eq!(g.occupier(TerritoryId::Kamchatka), PlayerId::P2);
    assert!(!g.territory_conquered());
}

fn incremental_matches_full(mut g: AttackGame, m: PlayerMove, outcome: (u8, u8)) {
    let mut list = Vec::new();
    g.gen_player_moves_into(&mut list);
    g.make_move(Move::Player(m));
    g.make_move(Move::Chance(outcome.0, outcome.1));
    g.gen_player_moves_incremental(m, &mut list);
    let mut full = Vec::new();
    g.gen_player_moves_into(&mut full);
    assert_eq!(list.len(), full.len());
    assert_eq!(sorted(list), sorted(full));
}

#[test]
fn incremental_generation_after_conquest() {
    let g = board(
        &[(TerritoryId::Alaska, 4), (TerritoryId::Alberta, 3)],
        &[(TerritoryId::NorthwestTerritory, 1, PlayerId::P1), (TerritoryId::Kamchatka, 2, PlayerId::P3)],
    );
    let m = PlayerMove {
        origin: TerritoryId::Alaska,
        dest: TerritoryId::NorthwestTerritory,
    };
    incremental_matches_full(g, m, (0, 1));
}

#[test]
fn incremental_generation_after_losing_spare_troops() {
    let g = board(
        &[(TerritoryId::Alaska, 2), (TerritoryId::Alberta, 3)],
        &[(TerritoryId::NorthwestTerritory, 2, PlayerId::P1)],
    );
    let m = PlayerMove {
        origin: TerritoryId::Alaska,
        dest: TerritoryId::NorthwestTerritory,
    };
    incremental_matches_full(g, m, (1, 0));
}

#[test]
fn incremental_generation_after_even_exchange() {
    let g = board(
        &[(TerritoryId::Alaska, 6)],
        &[(TerritoryId::Kamchatka, 5, PlayerId::P4)],
    );
    let m = PlayerMove {
        origin: TerritoryId::Alaska,
        dest: TerritoryId::Kamchatka,
    };
    incremental_matches_full(g, m, (1, 1));
}

#[test]
fn placement_chunks() {
    let mut g = board(&[(TerritoryId::Peru, 1)], &[]);
    g.set_troops_to_place(200);
    assert!(g.turn().is_place_troops());
    g.make_move(Move::PlaceTroops(TerritoryId::Peru));
    assert_eq!(g.troops(TerritoryId::Peru), 41);
    assert_eq!(g.troops_to_place(), 160);
    let mut g = board(&[(TerritoryId::Peru, 1)], &[]);
    g.set_troops_to_place(50);
    g.make_move(Move::PlaceTroops(TerritoryId::Peru));
    assert_eq!(g.troops_to_place(), 30);
    g.make_move(Move::PlaceTroops(TerritoryId::Peru));
    g.make_move(Move::PlaceTroops(TerritoryId::Peru));
    assert_eq!(g.troops(TerritoryId::Peru), 51);
    assert_eq!(g.troops_to_place(), 0);
    assert_eq!(g.turn(), Turn::Player);
}

#[test]
fn retain_filters() {
    let a = TerritoryId::Alaska;
    let b = TerritoryId::Alberta;
    let c = TerritoryId::Kamchatka;
    let all = vec![
        PlayerMove { origin: a, dest: b },
        PlayerMove { origin: b, dest: c },
        PlayerMove { origin: a, dest: c },
    ];
    let mut v = all.clone();
    retain_different_origin(&mut v, a);
    assert_eq!(v, vec![PlayerMove { origin: b, dest: c }]);
    let mut v = all.clone();
    retain_different_dest(&mut v, c);
    assert_eq!(v, vec![PlayerMove { origin: a, dest: b }]);
    let mut v = all.clone();
    retain_different_origin_dest(&mut v, b, b);
    assert_eq!(v, vec![PlayerMove { origin: a, dest: c }]);
}

#[test]
fn counting_players_and_territories() {
    let g = board(
        &[(TerritoryId::Alaska, 2), (TerritoryId::Peru, 2)],
        &[(TerritoryId::Japan, 1, PlayerId::P4)],
    );
    assert_eq!(g.territories_occupied(), 2);
    assert_eq!(g.players_remaining(), 3);
    assert_eq!(g.initial_players(), 3);
    assert!(g.is_valid());
}

#[test]
fn can_make_move_follows_the_rules() {
    let mut g = board(&[(TerritoryId::Alaska, 3)], &[(TerritoryId::Kamchatka, 2, PlayerId::P1)]);
    let m = PlayerMove {
        origin: TerritoryId::Alaska,
        dest: TerritoryId::Kamchatka,
    };
    let backwards = PlayerMove {
        origin: TerritoryId::Kamchatka,
        dest: TerritoryId::Alaska,
    };
    let far = PlayerMove {
        origin: TerritoryId::Alaska,
        dest: TerritoryId::Peru,
    };
    assert!(g.can_make_move(Move::Player(m)));
    assert!(!g.can_make_move(Move::Player(backwards)));
    assert!(!g.can_make_move(Move::Player(far)));
    assert!(!g.can_make_move(Move::Chance(0, 1)));
    g.make_move(Move::Player(m));
    assert!(g.can_make_move(Move::Chance(2, 0)));
    assert!(!g.can_make_move(Move::Chance(3, 0)));
    assert!(g.can_make_move(Move::Chance(0, 2)));
    assert!(!g.can_make_move(Move::Chance(0, 3)));
}

#[test]
fn causes() {
    assert!(Cause::TurnStarted.is_turn_started());
    assert!(!Cause::TurnStarted.is_player_eliminated());
    assert!(Cause::PlayerEliminated.is_player_eliminated());
}
