use vstd::prelude::*;

use rand::seq::SliceRandom;
use rand_xoshiro::Xoshiro256StarStar;

use crate::chance::{next_u32, resolve_chance, ChanceTables};
use crate::game::{dice_battles, fought, lemma_chance_fought, lemma_fought_trans, lemma_incremental_after_fight, AttackGame, GameView, Move, PlayerMove, Turn};
use crate::map::{adjacent, edges, lemma_from_idx_idx, lemma_idx_injective, TerritoryId, TERRITORY_COUNT};

verus! {

/// Relies on rand's `SliceRandom::choose`: `None` for an empty slice, and
/// otherwise one of its elements, drawn with the generator.
#[verifier::external_body]
fn choose_territory(territories: &Vec<TerritoryId>, rng: &mut Xoshiro256StarStar) -> (r: Option<TerritoryId>)
    ensures
        territories@.len() == 0 ==> r is None,
        territories@.len() > 0 ==> r is Some && territories@.contains(r->0),
{
    territories.as_slice().choose(rng).copied()
}

/// Why a rollout stopped before its end.
#[derive(Clone, Copy, PartialEq, Eq, Structural, Debug)]
pub enum RolloutError {
    /// Troops are to be placed but no held territory borders an enemy.
    NoBorderTerritory,
    /// A placement would overflow a territory's troop count.
    TroopOverflow,
    /// The approximate resolver returned losses that do not fit the board.
    InvalidApproximation,
}

/// Total troops in `troops`.
pub open spec fn troop_total(troops: Seq<u32>) -> int
    decreases troops.len(),
{
    if troops.len() == 0 {
        0
    } else {
        troop_total(troops.drop_last()) + troops.last()
    }
}

proof fn lemma_total_nonneg(troops: Seq<u32>)
    ensures
        troop_total(troops) >= 0,
    decreases troops.len(),
{
    if troops.len() > 0 {
        lemma_total_nonneg(troops.drop_last());
    }
}

/// Setting one count changes the total by the difference.
proof fn lemma_total_update(troops: Seq<u32>, i: int, v: u32)
    requires
        0 <= i < troops.len(),
    ensures
        troop_total(troops.update(i, v)) == troop_total(troops) - troops[i] + v,
    decreases troops.len(),
{
    let u = troops.update(i, v);
    if i == troops.len() - 1 {
        assert(u.drop_last() =~= troops.drop_last());
    } else {
        assert(u.drop_last() =~= troops.drop_last().update(i, v));
        lemma_total_update(troops.drop_last(), i, v);
    }
}

/// A dice outcome takes exactly the troops lost off the board.
proof fn lemma_chance_total(v: GameView, a: int, d: int)
    requires
        v.wf(),
        v.chance_fits(a, d),
    ensures
        troop_total(v.after_chance(a, d).troops) == troop_total(v.troops) - a - d,
{
    let m = v.turn->Chance_0;
    let o = m.origin.idx();
    let t = m.dest.idx();
    lemma_from_idx_idx(m.origin);
    lemma_from_idx_idx(m.dest);
    crate::map::lemma_adjacent_distinct(m.origin);
    lemma_idx_injective(m.origin, m.dest);
    if v.troops[t] == d {
        lemma_total_update(v.troops, o, 1);
        lemma_total_update(v.troops.update(o, 1), t, (v.troops[o] - a - 1) as u32);
    } else {
        lemma_total_update(v.troops, o, (v.troops[o] - a) as u32);
        lemma_total_update(v.troops.update(o, (v.troops[o] - a) as u32), t, (v.troops[t] - d) as u32);
    }
}

/// Whether the acting player holds `t` and some neighbour of `t` is held by another player.
pub open spec fn is_border(v: GameView, t: TerritoryId) -> bool {
    v.owns(t) && exists|k: int| 0 <= k < adjacent(t).len() && !v.owns(#[trigger] adjacent(t)[k])
}

/// The territories of the acting player that border an enemy, in board order.
pub fn border_territories(game: &AttackGame) -> (r: Vec<TerritoryId>)
    requires
        game@.wf(),
    ensures
        forall|t: TerritoryId| r@.contains(t) <==> is_border(game@, t),
{
    let all = TerritoryId::all();
    let mut r: Vec<TerritoryId> = Vec::new();
    let mut i: usize = 0;
    while i < 42
        invariant
            game@.wf(),
            i <= 42,
            all@.len() == TERRITORY_COUNT,
            forall|j: int| 0 <= j < TERRITORY_COUNT ==> (#[trigger] all@[j]).idx() == j,
            forall|t: TerritoryId| #[trigger] r@.contains(t) <==> is_border(game@, t) && t.idx() < i,
        decreases 42 - i,
    {
        let t = all[i];
        let ghost before = r@;
        if game.occupier(t).is_p0() {
            let neighbours = edges(t);
            let mut k: usize = 0;
            let mut found = false;
            while k < neighbours.len()
                invariant
                    game@.wf(),
                    neighbours@ == adjacent(t),
                    k <= neighbours@.len(),
                    found == exists|j: int| 0 <= j < k && !game@.owns(#[trigger] adjacent(t)[j]),
                decreases neighbours@.len() - k,
            {
                if !game.occupier(neighbours[k]).is_p0() {
                    found = true;
                }
                k = k + 1;
            }
            if found {
                r.push(t);
            }
        }
        assert forall|x: TerritoryId| #[trigger] r@.contains(x) <==> is_border(game@, x) && x.idx() < i + 1 by {
            lemma_idx_injective(x, t);
            if r@.contains(x) && x != t {
                let k = choose|k: int| 0 <= k < r@.len() && r@[k] == x;
                assert(before[k] == x);
            }
            if before.contains(x) {
                let k = choose|k: int| 0 <= k < before.len() && before[k] == x;
                assert(r@[k] == x);
            }
            if x == t && is_border(game@, x) {
                assert(r@[r@.len() - 1] == x);
            }
        }
        i = i + 1;
    }
    assert forall|t: TerritoryId| r@.contains(t) <==> is_border(game@, t) by {
        lemma_from_idx_idx(t);
    }
    r
}

/// Places the troops still to be placed on border territories drawn at
/// random, a chunk at a time, then resolves a pending attack with the dice.
pub fn settle_pending(game: &mut AttackGame, tables: &ChanceTables, rng: &mut Xoshiro256StarStar) -> (r: Result<(), RolloutError>)
    requires
        old(game)@.wf(),
        tables.wf(),
    ensures
        final(game)@.wf(),
        r is Ok ==> final(game)@.turn is Player,
        old(game)@.turn is Player ==> r is Ok && final(game)@ == old(game)@,
        r == Err::<(), RolloutError>(RolloutError::NoBorderTerritory) <==> old(game)@.turn is PlaceTroops && forall|t: TerritoryId|
            !#[trigger] is_border(old(game)@, t),
        r == Err::<(), RolloutError>(RolloutError::TroopOverflow) ==> old(game)@.turn is PlaceTroops,
        r is Err ==> r == Err::<(), RolloutError>(RolloutError::NoBorderTerritory) || r == Err::<(), RolloutError>(
            RolloutError::TroopOverflow,
        ),
        old(game)@.turn is Chance ==> r is Ok && exists|i: int| 0 <= i < old(game)@.chance_outcomes().len()
            && final(game)@ == old(game)@.after_chance(
            #[trigger] old(game)@.chance_outcomes()[i].0 as int,
            old(game)@.chance_outcomes()[i].1 as int,
        ),
{
    if game.turn().is_place_troops() {
        let candidates = border_territories(game);
        if candidates.len() == 0 {
            assert forall|t: TerritoryId| !#[trigger] is_border(old(game)@, t) by {
                if is_border(old(game)@, t) {
                    assert(candidates@.contains(t));
                }
            }
        }
        let mut first = true;
        while game.turn().is_place_troops()
            invariant
                game@.wf(),
                forall|t: TerritoryId| candidates@.contains(t) <==> is_border(game@, t),
                forall|t: TerritoryId| candidates@.contains(t) <==> is_border(old(game)@, t),
                old(game)@.turn is PlaceTroops,
                first ==> game@.turn is PlaceTroops,
                !first ==> candidates@.len() > 0,
            decreases game@.troops_to_place + if game@.turn is PlaceTroops {
                1int
            } else {
                0
            },
        {
            let t = match choose_territory(&candidates, rng) {
                Some(t) => t,
                None => {
                    assert forall|x: TerritoryId| !#[trigger] is_border(old(game)@, x) by {
                        if is_border(old(game)@, x) {
                            assert(candidates@.contains(x));
                        }
                    }
                    return Err(RolloutError::NoBorderTerritory);
                },
            };
            first = false;
            let left = game.troops_to_place();
            let chunk = if left / 5 > 20 {
                left / 5
            } else {
                20
            };
            let chunk = if left < chunk {
                left
            } else {
                chunk
            };
            if game.troops(t) as u64 + chunk as u64 > u32::MAX as u64 {
                assert(candidates@.contains(t));
                return Err(RolloutError::TroopOverflow);
            }
            let ghost before = game@;
            game.make_move(Move::PlaceTroops(t));
            proof {
                lemma_from_idx_idx(t);
                assert forall|x: TerritoryId| candidates@.contains(x) <==> is_border(game@, x) by {
                    lemma_from_idx_idx(x);
                    lemma_idx_injective(x, t);
                    assert(is_border(game@, x) == is_border(before, x)) by {
                        if is_border(before, x) {
                            let k = choose|k: int| 0 <= k < adjacent(x).len() && !before.owns(#[trigger] adjacent(x)[k]);
                            assert(!game@.owns(adjacent(x)[k]));
                        }
                        if is_border(game@, x) {
                            let k = choose|k: int| 0 <= k < adjacent(x).len() && !game@.owns(#[trigger] adjacent(x)[k]);
                            assert(!before.owns(adjacent(x)[k]));
                        }
                    }
                }
            }
        }
        assert(candidates@.contains(candidates@[0]));
        assert(is_border(old(game)@, candidates@[0]));
    }
    match game.turn() {
        Turn::Chance(m) => {
            let outcome = resolve_chance(tables, game, m, rng);
            proof {
                lemma_chance_fits_from_dice(game@, outcome);
            }
            let ghost before = game@;
            game.make_move(outcome);
            proof {
                let a = outcome->Chance_0 as int;
                assert(before.chance_outcomes()[a] == (outcome->Chance_0, outcome->Chance_1));
            }
        },
        _ => {},
    }
    Ok(())
}

/// Dice losses that split the battles of the pending attack fit it.
proof fn lemma_chance_fits_from_dice(v: GameView, outcome: Move)
    requires
        v.wf(),
        v.turn is Chance,
        outcome is Chance,
        outcome->Chance_0 + outcome->Chance_1 == dice_battles(v.troops_at(v.turn->Chance_0.origin), v.troops_at(v.turn->Chance_0.dest)),
        outcome->Chance_0 <= v.troops_at(v.turn->Chance_0.origin) - 1,
        outcome->Chance_0 <= 3,
        outcome->Chance_1 <= v.troops_at(v.turn->Chance_0.dest),
        outcome->Chance_1 <= 2,
    ensures
        v.chance_fits(outcome->Chance_0 as int, outcome->Chance_1 as int),
        outcome->Chance_0 + outcome->Chance_1 >= 1,
{
    let m = v.turn->Chance_0;
    lemma_from_idx_idx(m.dest);
    assert(v.troops[m.dest.idx()] >= 1);
}

/// Picks one of `len` entries from the random value `value`, scaling it to the range.
pub fn scaled_index(value: u32, len: usize) -> (r: usize)
    requires
        0 < len <= u32::MAX,
    ensures
        r < len,
        r == (value as int * len as int) / 0x1_0000_0000,
{
    assert(value as int * len as int <= 0xFFFF_FFFF * 0xFFFF_FFFF) by (nonlinear_arith)
        requires
            value <= 0xFFFF_FFFF,
            len <= 0xFFFF_FFFF,
    ;
    let product = value as u64 * len as u64;
    assert(product < 0x1_0000_0000 * len) by (nonlinear_arith)
        requires
            product == value as int * len as int,
            value < 0x1_0000_0000,
            len > 0,
    ;
    assert(product >> 32u64 == product / 0x1_0000_0000) by (bit_vector);
    assert(product / 0x1_0000_0000 < len) by (nonlinear_arith)
        requires
            product < 0x1_0000_0000 * len,
    ;
    (product >> 32) as usize
}

/// One draw of the dice for the attack `m`, applied to `game`.
fn attack_once(game: &mut AttackGame, tables: &ChanceTables, rng: &mut Xoshiro256StarStar, m: PlayerMove) -> (r: Result<(), RolloutError>)
    requires
        old(game)@.wf(),
        old(game)@.turn is Player,
        old(game)@.is_attack(m),
        tables.wf(),
    ensures
        final(game)@.wf(),
        final(game)@.turn is Player,
        r is Ok ==> troop_total(final(game)@.troops) < troop_total(old(game)@.troops),
        r is Err ==> final(game)@ == old(game)@,
        r is Ok ==> final(game)@.owns(m.origin),
        r is Ok ==> final(game)@.owns(m.dest) ==> final(game)@.troops_at(m.origin) == 1,
        r is Ok ==> forall|t: TerritoryId| #[trigger] old(game)@.owns(t) ==> final(game)@.owns(t),
        r is Ok ==> fought(old(game)@, final(game)@, m),
        r is Ok,
{
    let outcome = resolve_chance(tables, game, m, rng);
    let ghost before = game@;
    game.make_move(Move::Player(m));
    proof {
        lemma_chance_fits_from_dice(game@, outcome);
        lemma_chance_total(game@, outcome->Chance_0 as int, outcome->Chance_1 as int);
        lemma_chance_fought(game@, outcome->Chance_0 as int, outcome->Chance_1 as int);
        lemma_from_idx_idx(m.origin);
        lemma_from_idx_idx(m.dest);
        crate::map::lemma_adjacent_distinct(m.origin);
        lemma_idx_injective(m.origin, m.dest);
    }
    game.make_move(outcome);
    proof {
        assert forall|t: TerritoryId| #[trigger] before.owns(t) implies game@.owns(t) by {
            lemma_from_idx_idx(t);
            lemma_idx_injective(t, m.dest);
        }
    }
    Ok(())
}

/// Resolves the attack `m` at once with the approximate resolver, which is
/// handed the attacking troops, the defending troops and a random value.
fn attack_approx<F: Fn(u32, u32, u32) -> (u32, u32)>(
    game: &mut AttackGame,
    rng: &mut Xoshiro256StarStar,
    m: PlayerMove,
    approx: &F,
) -> (r: Result<(), RolloutError>)
    requires
        old(game)@.wf(),
        old(game)@.turn is Player,
        old(game)@.is_attack(m),
        forall|a: u32, b: u32, c: u32| #[trigger] approx.requires((a, b, c)),
    ensures
        final(game)@.wf(),
        final(game)@.turn is Player,
        r is Ok ==> troop_total(final(game)@.troops) < troop_total(old(game)@.troops),
        r is Err ==> final(game)@ == old(game)@,
        r is Ok ==> fought(old(game)@, final(game)@, m),
        r is Err ==> r == Err::<(), RolloutError>(RolloutError::InvalidApproximation),
{
    let attacking = game.troops(m.origin);
    let defending = game.troops(m.dest);
    let value = next_u32(rng);
    let (attackers_lost, defenders_lost) = approx(attacking, defending, value);
    if attackers_lost >= attacking || defenders_lost > defending || attackers_lost as u64 + defenders_lost as u64 == 0 || (
    defenders_lost == defending && attacking - attackers_lost < 2) {
        return Err(RolloutError::InvalidApproximation);
    }
    game.make_move(Move::Player(m));
    proof {
        lemma_chance_total(game@, attackers_lost as int, defenders_lost as int);
        lemma_chance_fought(game@, attackers_lost as int, defenders_lost as int);
    }
    game.make_chance_move(attackers_lost, defenders_lost);
    Ok(())
}

/// Index of the entry with the fewest spare troops (the first of equals),
/// or with `strongest` the most (the last of equals).
fn extreme_index(pool: &Vec<(u32, TerritoryId)>, strongest: bool) -> (r: usize)
    requires
        pool@.len() > 0,
    ensures
        r < pool@.len(),
        strongest ==> forall|i: int| 0 <= i < pool@.len() ==> (#[trigger] pool@[i]).0 <= pool@[r as int].0,
        !strongest ==> forall|i: int| 0 <= i < pool@.len() ==> (#[trigger] pool@[i]).0 >= pool@[r as int].0,
{
    let mut best: usize = 0;
    let mut i: usize = 1;
    while i < pool.len()
        invariant
            best < i <= pool@.len(),
            strongest ==> forall|j: int| 0 <= j < i ==> (#[trigger] pool@[j]).0 <= pool@[best as int].0,
            !strongest ==> forall|j: int| 0 <= j < i ==> (#[trigger] pool@[j]).0 >= pool@[best as int].0,
        decreases pool@.len() - i,
    {
        if (strongest && pool[i].0 >= pool[best].0) || (!strongest && pool[i].0 < pool[best].0) {
            best = i;
        }
        i = i + 1;
    }
    best
}

/// Attacks `m.dest` with the spare troops of every held neighbour at once:
/// the approximate resolver settles the whole fight, the attackers' losses
/// are taken from the weakest neighbours first, and the strongest one makes
/// the final attack.
fn attack_pooled<F: Fn(u32, u32, u32) -> (u32, u32)>(
    game: &mut AttackGame,
    rng: &mut Xoshiro256StarStar,
    m: PlayerMove,
    approx: &F,
) -> (r: Result<(), RolloutError>)
    requires
        old(game)@.wf(),
        old(game)@.turn is Player,
        old(game)@.is_attack(m),
        forall|a: u32, b: u32, c: u32| #[trigger] approx.requires((a, b, c)),
    ensures
        final(game)@.wf(),
        final(game)@.turn is Player,
        r is Ok ==> troop_total(final(game)@.troops) < troop_total(old(game)@.troops),
        r is Err ==> r == Err::<(), RolloutError>(RolloutError::InvalidApproximation) || r == Err::<(), RolloutError>(
            RolloutError::TroopOverflow,
        ),
{
    let dest = m.dest;
    let neighbours = edges(dest);
    let mut pool: Vec<(u32, TerritoryId)> = Vec::new();
    let mut total: u64 = 1;
    let mut k: usize = 0;
    while k < neighbours.len()
        invariant
            game@.wf(),
            k <= neighbours@.len(),
            total <= 1 + k * 0xFFFF_FFFFu64,
            neighbours@.len() <= 6,
        decreases neighbours@.len() - k,
    {
        let t = neighbours[k];
        let troops = game.troops(t);
        if game.occupier(t).is_p0() && troops > 1 {
            pool.push((troops - 1, t));
            total = total + (troops - 1) as u64;
        }
        k = k + 1;
    }
    if pool.len() == 0 {
        let troops = game.troops(m.origin);
        pool.push((troops - 1, m.origin));
        total = troops as u64;
    }
    if total > u32::MAX as u64 {
        return Err(RolloutError::TroopOverflow);
    }
    let defending = game.troops(dest);
    let value = next_u32(rng);
    let (lost, defenders_lost) = approx(total as u32, defending, value);
    if lost as u64 >= total || defenders_lost > defending {
        return Err(RolloutError::InvalidApproximation);
    }
    let origin = pool[extreme_index(&pool, true)].1;
    let mut attackers_lost = lost;
    while pool.len() > 0 && attackers_lost > 1
        invariant
            game@.wf(),
            game@.turn is Player,
            troop_total(game@.troops) <= troop_total(old(game)@.troops),
            game@.occupiers == old(game)@.occupiers,
        decreases pool@.len(),
    {
        let (spare, t) = pool.remove(extreme_index(&pool, false));
        let taken = if attackers_lost - 1 < spare {
            attackers_lost - 1
        } else {
            spare
        };
        if taken >= game.troops(t) {
            return Err(RolloutError::InvalidApproximation);
        }
        proof {
            lemma_from_idx_idx(t);
            lemma_total_update(game@.troops, t.idx(), (game@.troops_at(t) - taken) as u32);
        }
        game.remove_troops(t, taken);
        attackers_lost = attackers_lost - taken;
    }
    let attack = PlayerMove { origin, dest };
    if !game.is_attack(attack) || defenders_lost > game.troops(dest) || (defenders_lost == game.troops(dest)
        && game.troops(origin) < 3) {
        return Err(RolloutError::InvalidApproximation);
    }
    game.make_move(Move::Player(attack));
    proof {
        lemma_chance_total(game@, 1, defenders_lost as int);
    }
    game.make_chance_move(1, defenders_lost);
    Ok(())
}

/// Whether to attack `m` once more: a single attack while the attacker has a
/// spare troop, one of several while it outnumbers a defender it has not beaten.
fn keep_pressing(game: &AttackGame, m: PlayerMove, single: bool) -> (r: bool)
    requires
        game@.wf(),
    ensures
        single ==> (r <==> game@.troops_at(m.origin) > 1),
        !single ==> (r <==> !game@.owns(m.dest) && game@.troops_at(m.origin) > game@.troops_at(m.dest)),
{
    if single {
        game.troops(m.origin) > 1
    } else {
        !game.occupier(m.dest).is_p0() && game.troops(m.origin) > game.troops(m.dest)
    }
}

/// Adds `n` to the round counter, stopping at its largest value.
fn count_rounds(rounds: &mut u64, n: u64)
    ensures
        *final(rounds) == if *old(rounds) + n > u64::MAX {
            u64::MAX as int
        } else {
            *old(rounds) + n
        },
{
    if *rounds > u64::MAX - n {
        *rounds = u64::MAX;
    } else {
        *rounds = *rounds + n;
    }
}

/// Plays attacks until the acting player has none left: a single attack is
/// pressed until the attacking territory is spent, one of several drawn at
/// random is pressed while the attacker outnumbers the defender, and fights
/// of more than ten troops on each side are settled at once by the
/// approximate resolver. `rounds` counts the work done. The list of attacks
/// is brought up to date incrementally after a fight along one attack, and
/// rebuilt after a fight that pooled several territories.
pub fn play_out<F: Fn(u32, u32, u32) -> (u32, u32)>(
    game: &mut AttackGame,
    tables: &ChanceTables,
    rng: &mut Xoshiro256StarStar,
    moves: &mut Vec<PlayerMove>,
    rounds: &mut u64,
    approx: &F,
) -> (r: Result<(), RolloutError>)
    requires
        old(game)@.wf(),
        old(game)@.turn is Player,
        tables.wf(),
        forall|a: u32, b: u32, c: u32| #[trigger] approx.requires((a, b, c)),
    ensures
        final(game)@.wf(),
        final(game)@.turn is Player,
        r is Ok ==> forall|m: PlayerMove| !(#[trigger] final(game)@.is_attack(m)),
        r is Ok ==> final(moves)@.len() == 0,
        (forall|m: PlayerMove| !#[trigger] old(game)@.is_attack(m)) ==> r is Ok && final(game)@ == old(game)@,
        r is Err ==> r == Err::<(), RolloutError>(RolloutError::InvalidApproximation) || r == Err::<(), RolloutError>(
            RolloutError::TroopOverflow,
        ),
{
    game.gen_player_moves_into(moves);
    loop
        invariant
            game@.wf(),
            game@.turn is Player,
            tables.wf(),
            forall|a: u32, b: u32, c: u32| #[trigger] approx.requires((a, b, c)),
            forall|m: PlayerMove| #[trigger] moves@.contains(m) <==> game@.is_attack(m),
            (forall|m: PlayerMove| !#[trigger] old(game)@.is_attack(m)) ==> game@ == old(game)@,
        ensures
            (forall|m: PlayerMove| !#[trigger] old(game)@.is_attack(m)) ==> game@ == old(game)@,
            game@.wf(),
            game@.turn is Player,
            forall|m: PlayerMove| #[trigger] moves@.contains(m) <==> game@.is_attack(m),
            moves@.len() == 0,
        decreases troop_total(game@.troops),
    {
        let n = moves.len();
        if n == 0 {
            break ;
        }
        assert(moves@.contains(moves@[0]));
        assert(game@.is_attack(moves@[0]));
        let ghost start = troop_total(game@.troops);
        proof {
            lemma_total_nonneg(game@.troops);
        }
        let pick = if n == 1 {
            0
        } else {
            let value = next_u32(rng);
            if n > u32::MAX as usize {
                0
            } else {
                scaled_index(value, n)
            }
        };
        let m = moves[pick];
        assert(moves@.contains(m));
        let ghost before = game@;
        let ghost list_before = moves@;
        let large = game.troops(m.origin) > 10 && game.troops(m.dest) > 10;
        if large {
            let result = if n == 1 {
                attack_approx(game, rng, m, approx)
            } else {
                attack_pooled(game, rng, m, approx)
            };
            match result {
                Ok(()) => {},
                Err(e) => {
                    return Err(e);
                },
            }
            count_rounds(rounds, if n == 1 {
                1
            } else {
                3
            });
            if n == 1 {
                game.gen_player_moves_incremental(m, moves);
                proof {
                    lemma_incremental_after_fight(before, game@, m, list_before, moves@);
                }
            } else {
                game.gen_player_moves_into(moves);
            }
        } else {
            match attack_once(game, tables, rng, m) {
                Ok(()) => {},
                Err(e) => {
                    return Err(e);
                },
            }
            count_rounds(rounds, if n == 1 {
                2
            } else {
                1
            });
            proof {
                lemma_from_idx_idx(m.origin);
                lemma_from_idx_idx(m.dest);
            }
            while keep_pressing(game, m, n == 1)
                invariant
                    game@.wf(),
                    game@.turn is Player,
                    tables.wf(),
                    troop_total(game@.troops) < start,
                    game@.owns(m.origin),
                    game@.owns(m.dest) ==> game@.troops_at(m.origin) == 1,
                    adjacent(m.origin).contains(m.dest),
                    before.wf(),
                    before.is_attack(m),
                    fought(before, game@, m),
                decreases troop_total(game@.troops),
            {
                proof {
                    lemma_total_nonneg(game@.troops);
                }
                let ghost step = game@;
                match attack_once(game, tables, rng, m) {
                    Ok(()) => {},
                    Err(e) => {
                        return Err(e);
                    },
                }
                proof {
                    lemma_total_nonneg(game@.troops);
                    lemma_fought_trans(before, step, game@, m);
                }
                count_rounds(rounds, if n == 1 {
                    2
                } else {
                    1
                });
            }
            game.gen_player_moves_incremental(m, moves);
            proof {
                lemma_incremental_after_fight(before, game@, m, list_before, moves@);
            }
        }
        proof {
            lemma_total_nonneg(game@.troops);
        }
    }
    assert forall|m: PlayerMove| !(#[trigger] game@.is_attack(m)) by {
        if game@.is_attack(m) {
            assert(moves@.contains(m));
        }
    }
    Ok(())
}

} // verus!
