use rand_xoshiro::rand_core::SeedableRng;
use rand_xoshiro::Xoshiro256StarStar;
use risk_search::chance::{resolve_chance, table_weights, ChanceTables, WeightedAlias};
use risk_search::game::{AttackGame, Move, PlayerMove};
use risk_search::map::TerritoryId;
use risk_search::player::PlayerId;

#[test]
fn outcome_weights_count_every_roll() {
    for a in 1..=3usize {
        for d in 1..=2usize {
            let total: u32 = table_weights(a, d).iter().sum();
            assert_eq!(total, 6u32.pow((a + d) as u32));
        }
    }
    let total: f64 = table_weights(1, 1).iter().map(|&w| w as f64 / 36.0).sum();
    assert!((total - 1.0).abs() < 1e-12);
}

#[test]
fn alias_draws_only_positive_weights() {
    let table = WeightedAlias::new([0, 0, 2890, 0, 2611, 0, 2275, 0]);
    for v in [0u32, 1, 2, 3, 7, 8, 0x7fff_ffff, u32::MAX, 123_456_789] {
        let i = table.sample_value(v);
        assert!(i == 2 || i == 4 || i == 6, "drew {i}");
    }
}

#[test]
fn three_against_two_frequencies() {
    let tables = ChanceTables::new();
    let mut rng = Xoshiro256StarStar::seed_from_u64(7);
    let mut counts = [0u32; 3];
    let draws = 100_000;
    for _ in 0..draws {
        let (a, d) = tables.sample(3, 2, &mut rng);
        assert_eq!(a + d, 2);
        counts[a as usize] += 1;
    }
    // Attackers lost 0, 1, 2.
    let weights = [2890.0, 2611.0, 2275.0];
    for i in 0..3 {
        let expected = weights[i] / 7776.0 * draws as f64;
        let rel = (counts[i] as f64 - expected).abs() / expected;
        assert!(rel < 0.01, "outcome {i}: {} vs {expected}", counts[i]);
    }
}

#[test]
fn resolve_chance_uses_the_dice_allowed() {
    let tables = ChanceTables::new();
    let mut rng = Xoshiro256StarStar::seed_from_u64(1);
    let mut troops = vec![1u32; 42];
    let mut occupiers = vec![PlayerId::P1; 42];
    troops[TerritoryId::Alaska.index()] = 2;
    occupiers[TerritoryId::Alaska.index()] = PlayerId::P0;
    troops[TerritoryId::Kamchatka.index()] = 9;
    let mut g = AttackGame::new();
    g.set_state(troops, occupiers, 0);
    let m = PlayerMove {
        origin: TerritoryId::Alaska,
        dest: TerritoryId::Kamchatka,
    };
    for _ in 0..100 {
        match resolve_chance(&tables, &g, m, &mut rng) {
            Move::Chance(a, d) => assert_eq!(a + d, 1),
            other => panic!("{other:?}"),
        }
    }
}

#[test]
fn three_against_one_frequencies() {
    // The attacker wins unless the defender's die is at least the highest of three.
    let weights = table_weights(3, 1);
    assert_eq!(weights[1], 855);
    assert_eq!(weights[2], 441);
    let tables = ChanceTables::new();
    let mut rng = Xoshiro256StarStar::seed_from_u64(21);
    let draws = 100_000;
    let mut defender_lost = 0u32;
    for _ in 0..draws {
        let (a, d) = tables.sample(3, 1, &mut rng);
        assert_eq!(a + d, 1);
        defender_lost += d as u32;
    }
    let expected = 855.0 / 1296.0 * draws as f64;
    assert!((defender_lost as f64 - expected).abs() / expected < 0.01);
}
