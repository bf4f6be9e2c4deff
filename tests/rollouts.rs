use rand_xoshiro::rand_core::SeedableRng;
use rand_xoshiro::Xoshiro256StarStar;
use risk_search::chance::ChanceTables;
use risk_search::features::features;
use risk_search::game::{AttackGame, Move, PlayerMove, Turn};
use risk_search::map::TerritoryId;
use risk_search::player::PlayerId;
use risk_search::rollout::{border_territories, play_out, scaled_index, settle_pending, RolloutError};

fn game_with(owned: &[(TerritoryId, u32)], troops_elsewhere: u32) -> AttackGame {
    let mut troops = vec![troops_elsewhere; 42];
    let mut occupiers = vec![PlayerId::P1; 42];
    for &(t, n) in owned {
        troops[t.index()] = n;
        occupiers[t.index()] = PlayerId::P0;
    }
    let mut g = AttackGame::new();
    g.set_state(troops, occupiers, 0);
    g
}

fn halves(attacking: u32, defending: u32, _value: u32) -> (u32, u32) {
    (attacking / 2, defending)
}

#[test]
fn border_territories_border_an_enemy() {
    let mut troops = vec![1u32; 42];
    let mut occupiers = vec![PlayerId::P0; 42];
    troops[0] = 1;
    occupiers[TerritoryId::Kamchatka.index()] = PlayerId::P2;
    let mut g = AttackGame::new();
    g.set_state(troops, occupiers, 0);
    let mut b = border_territories(&g);
    b.sort_by_key(|t| t.index());
    let mut expected = vec![
        TerritoryId::Alaska,
        TerritoryId::Irkutsk,
        TerritoryId::Japan,
        TerritoryId::Mongolia,
        TerritoryId::Yakutsk,
    ];
    expected.sort_by_key(|t| t.index());
    assert_eq!(b, expected);
}

#[test]
fn scaled_index_spans_the_range() {
    assert_eq!(scaled_index(0, 7), 0);
    assert_eq!(scaled_index(u32::MAX, 7), 6);
    assert_eq!(scaled_index(0x8000_0000, 4), 2);
}

#[test]
fn placement_then_rollout_ends_without_attacks() {
    let tables = ChanceTables::new();
    let mut rng = Xoshiro256StarStar::seed_from_u64(11);
    let mut g = game_with(&[(TerritoryId::Alaska, 3), (TerritoryId::Peru, 2)], 2);
    g.set_troops_to_place(30);
    settle_pending(&mut g, &tables, &mut rng).unwrap();
    assert_eq!(g.turn(), Turn::Player);
    assert_eq!(g.troops_to_place(), 0);
    assert_eq!(g.troops(TerritoryId::Alaska) + g.troops(TerritoryId::Peru), 35);
    let mut moves = Vec::new();
    let mut rounds = 0;
    play_out(&mut g, &tables, &mut rng, &mut moves, &mut rounds, &halves).unwrap();
    assert!(moves.is_empty());
    assert!(rounds > 0);
    let mut left = Vec::new();
    g.gen_player_moves_into(&mut left);
    assert!(left.is_empty());
}

#[test]
fn large_fights_use_the_approximation() {
    let tables = ChanceTables::new();
    let mut rng = Xoshiro256StarStar::seed_from_u64(3);
    let mut troops = vec![1u32; 42];
    let mut occupiers = vec![PlayerId::P0; 42];
    troops[TerritoryId::Alaska.index()] = 30;
    troops[TerritoryId::Kamchatka.index()] = 20;
    occupiers[TerritoryId::Kamchatka.index()] = PlayerId::P1;
    let mut g = AttackGame::new();
    g.set_state(troops, occupiers, 0);
    let mut moves = Vec::new();
    let mut rounds = 0;
    play_out(&mut g, &tables, &mut rng, &mut moves, &mut rounds, &halves).unwrap();
    // 15 attackers lost, Kamchatka taken with the 14 left over.
    assert_eq!(rounds, 1);
    assert_eq!(g.occupier(TerritoryId::Kamchatka), PlayerId::P0);
    assert_eq!(g.troops(TerritoryId::Alaska), 1);
    assert_eq!(g.troops(TerritoryId::Kamchatka), 14);
}

#[test]
fn bad_approximations_are_refused() {
    let tables = ChanceTables::new();
    let mut rng = Xoshiro256StarStar::seed_from_u64(3);
    let mut troops = vec![1u32; 42];
    let mut occupiers = vec![PlayerId::P0; 42];
    troops[TerritoryId::Alaska.index()] = 30;
    troops[TerritoryId::Kamchatka.index()] = 20;
    occupiers[TerritoryId::Kamchatka.index()] = PlayerId::P1;
    let mut g = AttackGame::new();
    g.set_state(troops, occupiers, 0);
    let mut moves = Vec::new();
    let mut rounds = 0;
    let nothing = |_: u32, _: u32, _: u32| (0u32, 0u32);
    assert_eq!(
        play_out(&mut g, &tables, &mut rng, &mut moves, &mut rounds, &nothing),
        Err(RolloutError::InvalidApproximation)
    );
    assert_eq!(g.troops(TerritoryId::Alaska), 30);
}

#[test]
fn rollout_keeps_attacking_a_single_target() {
    let tables = ChanceTables::new();
    let mut rng = Xoshiro256StarStar::seed_from_u64(5);
    let mut troops = vec![1u32; 42];
    let mut occupiers = vec![PlayerId::P0; 42];
    troops[TerritoryId::Alaska.index()] = 6;
    troops[TerritoryId::Kamchatka.index()] = 3;
    occupiers[TerritoryId::Kamchatka.index()] = PlayerId::P1;
    let mut g = AttackGame::new();
    g.set_state(troops, occupiers, 0);
    let mut moves = vec![PlayerMove {
        origin: TerritoryId::Peru,
        dest: TerritoryId::Brazil,
    }];
    let mut rounds = 0;
    play_out(&mut g, &tables, &mut rng, &mut moves, &mut rounds, &halves).unwrap();
    let alaska = g.troops(TerritoryId::Alaska);
    if g.occupier(TerritoryId::Kamchatka).is_p0() {
        assert_eq!(alaska, 1);
    } else {
        assert_eq!(alaska, 1);
        assert!(g.troops(TerritoryId::Kamchatka) >= 1);
    }
    assert!(rounds >= 2);
}

#[test]
fn features_of_a_small_board() {
    let mut troops = vec![2u32; 42];
    let mut occupiers = vec![PlayerId::P1; 42];
    // Australia held whole by the acting player; New Guinea has one troop.
    for t in [
        TerritoryId::EasternAustralia,
        TerritoryId::NewGuinea,
        TerritoryId::Indonesia,
        TerritoryId::WesternAustralia,
    ] {
        occupiers[t.index()] = PlayerId::P0;
    }
    troops[TerritoryId::NewGuinea.index()] = 1;
    // Alaska is held alone.
    occupiers[TerritoryId::Alaska.index()] = PlayerId::P0;
    let mut g = AttackGame::new();
    g.set_state(troops, occupiers, 3);
    let f = features(&g);
    assert_eq!(f.territories_occupied, 5);
    assert_eq!(f.isolated_territories, 1);
    // New Guinea borders only Australian territories, so it is not weak.
    assert_eq!(f.weak_territories, 0);
    assert_eq!(f.my_troops, 9);
    assert_eq!(f.total_troops, 83);
    assert_eq!(f.continent_holders[5], Some(PlayerId::P0));
    assert_eq!(f.continent_holders[0], None);
    assert_eq!(f.continent_holders[2], Some(PlayerId::P1));
    assert_eq!(f.continent_holders[1], Some(PlayerId::P1));
    assert_eq!(f.initial_players, 2);
    assert_eq!(f.card_sets_redeemed, 3);
}

#[test]
fn placement_needs_a_border() {
    let tables = ChanceTables::new();
    let mut rng = Xoshiro256StarStar::seed_from_u64(2);
    let mut g = AttackGame::new();
    g.set_troops_to_place(10);
    assert_eq!(
        settle_pending(&mut g, &tables, &mut rng),
        Err(RolloutError::NoBorderTerritory)
    );
}

#[test]
fn pending_attack_is_resolved_before_the_rollout() {
    let tables = ChanceTables::new();
    let mut rng = Xoshiro256StarStar::seed_from_u64(9);
    let mut g = game_with(&[(TerritoryId::Alaska, 4)], 3);
    let m = PlayerMove {
        origin: TerritoryId::Alaska,
        dest: TerritoryId::Kamchatka,
    };
    g.make_move(Move::Player(m));
    settle_pending(&mut g, &tables, &mut rng).unwrap();
    assert_eq!(g.turn(), Turn::Player);
    assert_eq!(g.troops(TerritoryId::Alaska) + g.troops(TerritoryId::Kamchatka), 5);
}

#[test]
fn nothing_pending_leaves_the_game_alone() {
    let tables = ChanceTables::new();
    let mut rng = Xoshiro256StarStar::seed_from_u64(4);
    let mut g = game_with(&[(TerritoryId::Alaska, 4)], 3);
    settle_pending(&mut g, &tables, &mut rng).unwrap();
    assert_eq!(g.troops(TerritoryId::Alaska), 4);
    assert_eq!(g.turn(), Turn::Player);
}
