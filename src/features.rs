use vstd::prelude::*;

use crate::game::{count_alive, count_held, AttackGame, GameView};
use crate::map::{adjacent, edges, Continent, TerritoryId, TERRITORY_COUNT};
use crate::player::PlayerId;

verus! {

/// What the static evaluation reads off a position, all seen from the acting player.
#[derive(Clone, Debug)]
pub struct Features {
    /// Territories the acting player holds.
    pub territories_occupied: u32,
    /// Held territories with a single troop next to an enemy.
    pub weak_territories: u32,
    /// Held territories with no held neighbour.
    pub isolated_territories: u32,
    /// Troops of the acting player.
    pub my_troops: u64,
    /// Troops on the board.
    pub total_troops: u64,
    /// For each continent, in board order, the player holding all of it.
    pub continent_holders: Vec<Option<PlayerId>>,
    pub players_eliminated: u8,
    /// Players at the snapshot: remaining and eliminated since.
    pub initial_players: u64,
    pub territory_conquered: bool,
    pub card_sets_redeemed: u32,
}

/// Whether territory `t` has a neighbour held by the acting player.
pub open spec fn has_held_neighbour(v: GameView, t: TerritoryId) -> bool {
    exists|k: int| 0 <= k < adjacent(t).len() && v.owns(#[trigger] adjacent(t)[k])
}

/// Whether territory `t` has a neighbour held by another player.
pub open spec fn has_enemy_neighbour(v: GameView, t: TerritoryId) -> bool {
    exists|k: int| 0 <= k < adjacent(t).len() && !v.owns(#[trigger] adjacent(t)[k])
}

/// Whether the held territory `t` has a single troop next to an enemy.
pub open spec fn is_weak(v: GameView, t: TerritoryId) -> bool {
    v.owns(t) && v.troops_at(t) == 1 && has_enemy_neighbour(v, t)
}

/// Whether the held territory `t` has no held neighbour.
pub open spec fn is_isolated(v: GameView, t: TerritoryId) -> bool {
    v.owns(t) && !has_held_neighbour(v, t)
}

/// Number of the first `n` territories for which `p` holds.
pub open spec fn count_territories(p: spec_fn(TerritoryId) -> bool, n: int) -> nat
    decreases n,
{
    if n <= 0 {
        0
    } else {
        count_territories(p, n - 1) + if p(TerritoryId::from_idx(n - 1)) {
            1nat
        } else {
            0nat
        }
    }
}

/// Troops on the first `n` territories for which `p` holds.
pub open spec fn sum_troops(v: GameView, p: spec_fn(TerritoryId) -> bool, n: int) -> int
    decreases n,
{
    if n <= 0 {
        0
    } else {
        sum_troops(v, p, n - 1) + if p(TerritoryId::from_idx(n - 1)) {
            v.troops[n - 1] as int
        } else {
            0
        }
    }
}

/// The player holding every territory of continent `c`, if one does.
pub open spec fn continent_holder(v: GameView, c: Continent) -> Option<PlayerId> {
    if forall|i: int| c.first_idx() <= i < c.first_idx() + c.size() ==> #[trigger] v.occupiers[i] == v.occupiers[c.first_idx()] {
        Some(v.occupiers[c.first_idx()])
    } else {
        None
    }
}

proof fn lemma_count_bound(p: spec_fn(TerritoryId) -> bool, n: int)
    requires
        n >= 0,
    ensures
        count_territories(p, n) <= n,
    decreases n,
{
    if n > 0 {
        lemma_count_bound(p, n - 1);
    }
}

proof fn lemma_sum_bound(v: GameView, p: spec_fn(TerritoryId) -> bool, n: int)
    requires
        0 <= n <= v.troops.len(),
    ensures
        0 <= sum_troops(v, p, n) <= n * 0xFFFF_FFFF,
    decreases n,
{
    if n > 0 {
        lemma_sum_bound(v, p, n - 1);
    }
}

/// Whether territory `t` satisfies a neighbour test: with `held`, that some
/// neighbour is held by the acting player, otherwise that some is not.
fn any_neighbour(game: &AttackGame, t: TerritoryId, held: bool) -> (r: bool)
    requires
        game@.wf(),
    ensures
        held ==> (r <==> has_held_neighbour(game@, t)),
        !held ==> (r <==> has_enemy_neighbour(game@, t)),
{
    let neighbours = edges(t);
    let mut k: usize = 0;
    while k < neighbours.len()
        invariant
            game@.wf(),
            neighbours@ == adjacent(t),
            k <= neighbours@.len(),
            forall|j: int| 0 <= j < k ==> game@.owns(#[trigger] adjacent(t)[j]) != held,
        decreases neighbours@.len() - k,
    {
        if game.occupier(neighbours[k]).is_p0() == held {
            assert(game@.owns(adjacent(t)[k as int]) == held);
            return true;
        }
        k = k + 1;
    }
    false
}

/// The player holding every territory of continent `c`, if one does.
fn holder_of(game: &AttackGame, c: Continent) -> (r: Option<PlayerId>)
    requires
        game@.wf(),
    ensures
        r == continent_holder(game@, c),
{
    let all = c.iter_territories();
    let first = game.occupier(all[0]);
    let mut i: usize = 1;
    while i < all.len()
        invariant
            game@.wf(),
            all@.len() == c.size(),
            forall|k: int| 0 <= k < all@.len() ==> (#[trigger] all@[k]).idx() == c.first_idx() + k,
            first == game@.occupiers[c.first_idx()],
            1 <= i <= all@.len(),
            forall|j: int| c.first_idx() <= j < c.first_idx() + i ==> #[trigger] game@.occupiers[j] == first,
        decreases all@.len() - i,
    {
        if game.occupier(all[i]) != first {
            assert(game@.occupiers[c.first_idx() + i] != first);
            return None;
        }
        i = i + 1;
    }
    Some(first)
}

/// Reads the features of `game` for its static evaluation.
pub fn features(game: &AttackGame) -> (r: Features)
    requires
        game@.wf(),
    ensures
        r.territories_occupied == count_held(game@.occupiers),
        r.weak_territories == count_territories(|t: TerritoryId| is_weak(game@, t), TERRITORY_COUNT as int),
        r.isolated_territories == count_territories(|t: TerritoryId| is_isolated(game@, t), TERRITORY_COUNT as int),
        r.my_troops == sum_troops(game@, |t: TerritoryId| game@.owns(t), TERRITORY_COUNT as int),
        r.total_troops == sum_troops(game@, |t: TerritoryId| true, TERRITORY_COUNT as int),
        r.continent_holders@.len() == 6,
        forall|i: int| 0 <= i < 6 ==> #[trigger] r.continent_holders@[i] == continent_holder(
            game@,
            Continent::all_spec()[i],
        ),
        r.players_eliminated == game@.players_eliminated,
        r.initial_players == count_alive(game@.occupiers, 5) + game@.players_eliminated,
        r.territory_conquered == game@.territory_conquered,
        r.card_sets_redeemed == game@.card_sets_redeemed,
{
    let ghost v = game@;
    let ghost weak = |t: TerritoryId| is_weak(v, t);
    let ghost isolated = |t: TerritoryId| is_isolated(v, t);
    let ghost mine = |t: TerritoryId| v.owns(t);
    let ghost every = |t: TerritoryId| true;
    let mut weak_territories: u32 = 0;
    let mut isolated_territories: u32 = 0;
    let mut my_troops: u64 = 0;
    let mut total_troops: u64 = 0;
    let mut i: u8 = 0;
    while i < 42
        invariant
            game@ == v,
            v.wf(),
            i <= 42,
            weak == (|t: TerritoryId| is_weak(v, t)),
            isolated == (|t: TerritoryId| is_isolated(v, t)),
            mine == (|t: TerritoryId| v.owns(t)),
            every == (|t: TerritoryId| true),
            weak_territories == count_territories(weak, i as int),
            isolated_territories == count_territories(isolated, i as int),
            my_troops == sum_troops(v, mine, i as int),
            total_troops == sum_troops(v, every, i as int),
        decreases 42 - i,
    {
        proof {
            crate::map::lemma_idx_from_idx(i as int);
            lemma_count_bound(weak, i as int);
            lemma_count_bound(isolated, i as int);
            lemma_sum_bound(v, mine, i as int);
            lemma_sum_bound(v, every, i as int);
        }
        let t = TerritoryId::n(i).unwrap();
        let troops = game.troops(t);
        if game.occupier(t).is_p0() {
            my_troops = my_troops + troops as u64;
            if troops == 1 && any_neighbour(game, t, false) {
                weak_territories = weak_territories + 1;
            }
            if !any_neighbour(game, t, true) {
                isolated_territories = isolated_territories + 1;
            }
        }
        total_troops = total_troops + troops as u64;
        i = i + 1;
    }
    let continents = Continent::all();
    let mut continent_holders: Vec<Option<PlayerId>> = Vec::new();
    let mut c: usize = 0;
    while c < 6
        invariant
            game@ == v,
            v.wf(),
            continents@ == Continent::all_spec(),
            c <= 6,
            continent_holders@.len() == c,
            forall|j: int| 0 <= j < c ==> #[trigger] continent_holders@[j] == continent_holder(v, Continent::all_spec()[j]),
        decreases 6 - c,
    {
        continent_holders.push(holder_of(game, continents[c]));
        c = c + 1;
    }
    Features {
        territories_occupied: game.territories_occupied() as u32,
        weak_territories,
        isolated_territories,
        my_troops,
        total_troops,
        continent_holders,
        players_eliminated: game.players_eliminated(),
        initial_players: game.initial_players() as u64,
        territory_conquered: game.territory_conquered(),
        card_sets_redeemed: game.card_sets_redeemed(),
    }
}

} // verus!
