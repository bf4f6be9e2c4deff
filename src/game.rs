use vstd::prelude::*;

use crate::map::{adjacent, edges, lemma_adjacent_distinct, lemma_from_idx_idx, lemma_idx_from_idx, lemma_idx_injective, TerritoryId, TERRITORY_COUNT};
use crate::player::PlayerId;

verus! {

/// An attack from `origin` into `dest`, always with as many dice as allowed.
#[derive(Clone, Copy, PartialEq, Eq, Structural, Hash, Debug)]
pub struct PlayerMove {
    pub origin: TerritoryId,
    pub dest: TerritoryId,
}

/// A move of the combat model.
#[derive(Clone, Copy, PartialEq, Eq, Structural, Hash, Debug)]
pub enum Move {
    /// The acting player attacks.
    Player(PlayerMove),
    /// The dice of the pending attack fell: attackers lost, defenders lost.
    Chance(u8, u8),
    /// The acting player places a chunk of troops on a territory.
    PlaceTroops(TerritoryId),
}

impl Move {
    /// Whether the move is an attack.
    pub fn is_player(&self) -> (r: bool)
        ensures
            r <==> *self is Player,
    {
        match self {
            Move::Player(..) => true,
            _ => false,
        }
    }

    /// Whether the move is a dice outcome.
    pub fn is_chance(&self) -> (r: bool)
        ensures
            r <==> *self is Chance,
    {
        match self {
            Move::Chance(..) => true,
            _ => false,
        }
    }
}

/// Whose turn it is in the combat model.
#[derive(Clone, Copy, PartialEq, Eq, Structural, Hash, Debug)]
pub enum Turn {
    /// The acting player chooses an attack.
    Player,
    /// The dice of the pending attack are to be rolled.
    Chance(PlayerMove),
    /// The acting player places troops before attacking.
    PlaceTroops,
}

impl Turn {
    /// Whether the acting player chooses an attack.
    pub fn is_player(&self) -> (r: bool)
        ensures
            r <==> *self is Player,
    {
        match self {
            Turn::Player => true,
            _ => false,
        }
    }

    /// Whether an attack waits for its dice.
    pub fn is_chance(&self) -> (r: bool)
        ensures
            r <==> *self is Chance,
    {
        match self {
            Turn::Chance(..) => true,
            _ => false,
        }
    }

    /// Whether troops are to be placed.
    pub fn is_place_troops(&self) -> (r: bool)
        ensures
            r <==> *self is PlaceTroops,
    {
        match self {
            Turn::PlaceTroops => true,
            _ => false,
        }
    }
}

/// The mathematical content of an [`AttackGame`].
pub struct GameView {
    /// Troops on each territory, by territory number.
    pub troops: Seq<u32>,
    /// Occupier of each territory, by territory number, relative to the acting player.
    pub occupiers: Seq<PlayerId>,
    pub turn: Turn,
    pub territory_conquered: bool,
    /// Players eliminated since the snapshot, counting up to 255.
    pub players_eliminated: u8,
    pub troops_to_place: u32,
    pub card_sets_redeemed: u32,
}

impl GameView {
    /// Troops on territory `t`.
    pub open spec fn troops_at(self, t: TerritoryId) -> int {
        self.troops[t.idx()] as int
    }

    /// Whether the acting player holds territory `t`.
    pub open spec fn owns(self, t: TerritoryId) -> bool {
        self.occupiers[t.idx()] == PlayerId::P0
    }

    /// Every territory has an occupier and at least one troop, and a pending
    /// attack is one the acting player may make.
    pub open spec fn wf(self) -> bool {
        &&& self.troops.len() == TERRITORY_COUNT
        &&& self.occupiers.len() == TERRITORY_COUNT
        &&& forall|i: int| 0 <= i < TERRITORY_COUNT ==> self.troops[i] >= 1
        &&& (self.turn is Chance ==> self.is_attack(self.turn->Chance_0))
    }

    /// Whether `m` is an attack that the acting player may make: from a held
    /// territory with a spare troop into an adjacent territory held by another.
    pub open spec fn is_attack(self, m: PlayerMove) -> bool {
        &&& self.owns(m.origin)
        &&& self.troops_at(m.origin) > 1
        &&& adjacent(m.origin).contains(m.dest)
        &&& !self.owns(m.dest)
    }

    /// The attacks that the acting player may make.
    pub open spec fn attack_moves(self) -> Set<PlayerMove> {
        Set::new(|m: PlayerMove| self.is_attack(m))
    }

    /// Whether the losses (`a`, `d`) can be applied to the pending attack:
    /// the attacker keeps a troop, the defender loses no more than it has,
    /// and a conquered territory can be given at least one troop.
    pub open spec fn chance_fits(self, a: int, d: int) -> bool {
        let m = self.turn->Chance_0;
        &&& self.turn is Chance
        &&& self.troops_at(m.origin) > a >= 0
        &&& self.troops_at(m.dest) >= d >= 0
        &&& (self.troops_at(m.dest) == d ==> self.troops_at(m.origin) - a >= 2)
    }

    /// The state after the pending attack loses `a` attackers and `d` defenders.
    pub open spec fn after_chance(self, a: int, d: int) -> GameView {
        let m = self.turn->Chance_0;
        let o = m.origin.idx();
        let t = m.dest.idx();
        if self.troops[t] == d {
            let occupiers = self.occupiers.update(t, PlayerId::P0);
            GameView {
                troops: self.troops.update(o, 1).update(t, (self.troops[o] - a - 1) as u32),
                occupiers,
                turn: Turn::Player,
                territory_conquered: true,
                players_eliminated: if occupiers.contains(self.occupiers[t]) || self.players_eliminated == 255 {
                    self.players_eliminated
                } else {
                    (self.players_eliminated + 1) as u8
                },
                troops_to_place: self.troops_to_place,
                card_sets_redeemed: self.card_sets_redeemed,
            }
        } else {
            GameView {
                troops: self.troops.update(o, (self.troops[o] - a) as u32).update(
                    t,
                    (self.troops[t] - d) as u32,
                ),
                occupiers: self.occupiers,
                turn: Turn::Player,
                territory_conquered: self.territory_conquered,
                players_eliminated: self.players_eliminated,
                troops_to_place: self.troops_to_place,
                card_sets_redeemed: self.card_sets_redeemed,
            }
        }
    }

    /// Number of dice each side rolls in the pending attack: up to three for
    /// the attacker, keeping one troop behind, and up to two for the defender;
    /// the smaller is the number of troops lost in all.
    pub open spec fn battles(self) -> int {
        let m = self.turn->Chance_0;
        dice_battles(self.troops_at(m.origin), self.troops_at(m.dest))
    }

    /// The dice outcomes of the pending attack: `(attackers lost, defenders lost)`
    /// for each split of the troops lost.
    pub open spec fn chance_outcomes(self) -> Seq<(u8, u8)> {
        Seq::new((self.battles() + 1) as nat, |i: int| (i as u8, (self.battles() - i) as u8))
    }

    /// Whether move `m` is in the list that incremental generation produces
    /// from `list`, after the pending attack `last` was resolved in this state.
    pub open spec fn incremental_keeps(self, last: PlayerMove, list: Seq<PlayerMove>, m: PlayerMove) -> bool {
        let one_troop_remaining = self.troops_at(last.origin) == 1;
        if self.owns(last.dest) {
            (list.contains(m) && m.dest != last.dest && (one_troop_remaining ==> m.origin != last.origin))
                || (self.troops_at(last.dest) > 1 && m.origin == last.dest && adjacent(last.dest).contains(m.dest)
                && !self.owns(m.dest))
        } else if one_troop_remaining {
            list.contains(m) && m.origin != last.origin
        } else {
            list.contains(m)
        }
    }

    /// The state after the pending attack is declared.
    pub open spec fn after_attack(self, m: PlayerMove) -> GameView {
        GameView { turn: Turn::Chance(m), ..self }
    }

    /// The state after a chunk of the troops to place goes to `t`.
    pub open spec fn after_place(self, t: TerritoryId) -> GameView {
        let n = place_chunk(self.troops_to_place as int);
        let left = self.troops_to_place - n;
        GameView {
            troops: self.troops.update(t.idx(), (self.troops[t.idx()] + n) as u32),
            troops_to_place: left as u32,
            turn: if left == 0 {
                Turn::Player
            } else {
                self.turn
            },
            ..self
        }
    }
}

/// Troops lost in all when `origin_troops` attack `dest_troops`: the attacker
/// rolls up to three dice, keeping one troop behind, the defender up to two,
/// and the smaller number of dice decides.
pub open spec fn dice_battles(origin_troops: int, dest_troops: int) -> int {
    let attackers = if origin_troops - 1 < 3 {
        origin_troops - 1
    } else {
        3
    };
    let defenders = if dest_troops < 2 {
        dest_troops
    } else {
        2
    };
    if attackers < defenders {
        attackers
    } else {
        defenders
    }
}

/// Troops placed at once when `left` remain to be placed: at most 20, unless
/// a fifth of what is left is more, and never more than is left.
pub open spec fn place_chunk(left: int) -> int {
    let chunk = if left / 5 > 20 {
        left / 5
    } else {
        20
    };
    if left < chunk {
        left
    } else {
        chunk
    }
}

/// State of the combat model: troops and occupiers of every territory, seen
/// from the acting player (`P0`), and whose turn it is.
#[derive(Clone, Debug)]
pub struct AttackGame {
    troops: Vec<u32>,
    occupiers: Vec<PlayerId>,
    turn: Turn,
    territory_conquered: bool,
    players_eliminated: u8,
    troops_to_place: u32,
    card_sets_redeemed: u32,
}

impl View for AttackGame {
    type V = GameView;

    closed spec fn view(&self) -> GameView {
        GameView {
            troops: self.troops@,
            occupiers: self.occupiers@,
            turn: self.turn,
            territory_conquered: self.territory_conquered,
            players_eliminated: self.players_eliminated,
            troops_to_place: self.troops_to_place,
            card_sets_redeemed: self.card_sets_redeemed,
        }
    }
}

impl AttackGame {
    /// One troop on every territory, all held by the acting player.
    pub fn new() -> (r: AttackGame)
        ensures
            r@.wf(),
            r@.troops =~= Seq::new(42, |i: int| 1u32),
            r@.occupiers =~= Seq::new(42, |i: int| PlayerId::P0),
            r@.turn == Turn::Player,
            !r@.territory_conquered,
            r@.players_eliminated == 0,
            r@.troops_to_place == 0,
            r@.card_sets_redeemed == 0,
    {
        let mut troops: Vec<u32> = Vec::new();
        let mut occupiers: Vec<PlayerId> = Vec::new();
        let mut i: usize = 0;
        while i < 42
            invariant
                i <= 42,
                troops@ =~= Seq::new(i as nat, |j: int| 1u32),
                occupiers@ =~= Seq::new(i as nat, |j: int| PlayerId::P0),
            decreases 42 - i,
        {
            troops.push(1);
            occupiers.push(PlayerId::P0);
            i = i + 1;
        }
        AttackGame {
            troops,
            occupiers,
            turn: Turn::Player,
            territory_conquered: false,
            players_eliminated: 0,
            troops_to_place: 0,
            card_sets_redeemed: 0,
        }
    }

    /// Loads a snapshot of the board: troops and occupiers by territory number,
    /// and how many card sets have been redeemed. Nothing has been conquered
    /// or eliminated yet.
    pub fn set_state(&mut self, troop_counts: Vec<u32>, occupiers: Vec<PlayerId>, card_sets_redeemed: u32)
        requires
            old(self)@.wf(),
            !(old(self)@.turn is Chance),
            troop_counts@.len() == TERRITORY_COUNT,
            occupiers@.len() == TERRITORY_COUNT,
            forall|i: int| 0 <= i < TERRITORY_COUNT ==> troop_counts@[i] >= 1,
        ensures
            final(self)@.wf(),
            final(self)@ == (GameView {
                troops: troop_counts@,
                occupiers: occupiers@,
                card_sets_redeemed,
                territory_conquered: false,
                players_eliminated: 0,
                ..old(self)@
            }),
    {
        self.troops = troop_counts;
        self.occupiers = occupiers;
        self.card_sets_redeemed = card_sets_redeemed;
        self.territory_conquered = false;
        self.players_eliminated = 0;
    }

    /// Starts the placement of `troops` troops before the attacks.
    pub fn set_troops_to_place(&mut self, troops: u32)
        requires
            old(self)@.wf(),
        ensures
            final(self)@.wf(),
            final(self)@ == (GameView { turn: Turn::PlaceTroops, troops_to_place: troops, ..old(self)@ }),
    {
        self.turn = Turn::PlaceTroops;
        self.troops_to_place = troops;
    }

    /// Whether `mov` can be made in this state without breaking a rule.
    pub open spec fn can_make(self, mov: Move) -> bool {
        match mov {
            Move::Player(m) => self@.turn is Player && self@.is_attack(m),
            Move::Chance(a, d) => self@.chance_fits(a as int, d as int),
            Move::PlaceTroops(t) => self@.owns(t)
                && self@.troops_at(t) + place_chunk(self@.troops_to_place as int) <= u32::MAX,
        }
    }

    /// The state that `mov` leads to.
    pub open spec fn after(self, mov: Move) -> GameView {
        match mov {
            Move::Player(m) => self@.after_attack(m),
            Move::Chance(a, d) => self@.after_chance(a as int, d as int),
            Move::PlaceTroops(t) => self@.after_place(t),
        }
    }

    /// Makes a move.
    pub fn make_move(&mut self, mov: Move)
        requires
            old(self)@.wf(),
            old(self).can_make(mov),
        ensures
            final(self)@.wf(),
            final(self)@ == old(self).after(mov),
    {
        match mov {
            Move::Player(m) => {
                self.turn = Turn::Chance(m);
            },
            Move::Chance(attackers_lost, defenders_lost) => {
                self.make_chance_move(attackers_lost as u32, defenders_lost as u32);
            },
            Move::PlaceTroops(territory) => {
                let left = self.troops_to_place;
                let chunk = if left / 5 > 20 {
                    left / 5
                } else {
                    20
                };
                let count = if left < chunk {
                    left
                } else {
                    chunk
                };
                let i = territory.index();
                let before = self.troops[i];
                self.troops.set(i, before + count);
                self.troops_to_place = left - count;
                if self.troops_to_place == 0 {
                    self.turn = Turn::Player;
                }
                assert(self@.troops =~= old(self).after(mov).troops);
            },
        }
    }

    /// Applies the dice outcome of the pending attack: the attacker loses
    /// `attackers_lost` troops and the defender `defenders_lost`. A territory
    /// left without troops is conquered: all attackers but one move in.
    pub fn make_chance_move(&mut self, attackers_lost: u32, defenders_lost: u32)
        requires
            old(self)@.wf(),
            old(self)@.chance_fits(attackers_lost as int, defenders_lost as int),
        ensures
            final(self)@.wf(),
            final(self)@ == old(self)@.after_chance(attackers_lost as int, defenders_lost as int),
    {
        let ghost v = self@;
        let mov = match self.turn {
            Turn::Chance(m) => m,
            _ => PlayerMove { origin: TerritoryId::Alaska, dest: TerritoryId::Alaska },
        };
        let o = mov.origin.index();
        let d = mov.dest.index();
        proof {
            lemma_adjacent_distinct(mov.origin);
            lemma_idx_injective(mov.origin, mov.dest);
        }
        let origin_troops = self.troops[o] - attackers_lost;
        let dest_troops = self.troops[d] - defenders_lost;
        self.troops.set(o, origin_troops);
        self.troops.set(d, dest_troops);
        if dest_troops == 0 {
            self.territory_conquered = true;
            let troops_to_move = origin_troops - 1;
            self.troops.set(o, 1);
            self.troops.set(d, troops_to_move);
            let last_occupier = self.occupiers[d];
            self.occupiers.set(d, PlayerId::P0);
            if !self.holds_any(last_occupier) {
                if self.players_eliminated < u8::MAX {
                    self.players_eliminated = self.players_eliminated + 1;
                }
            }
        }
        self.turn = Turn::Player;
        let ghost w = v.after_chance(attackers_lost as int, defenders_lost as int);
        assert(self@.troops =~= w.troops);
        assert(self@.occupiers =~= w.occupiers);
    }

    /// Whether `player` occupies some territory.
    fn holds_any(&self, player: PlayerId) -> (r: bool)
        ensures
            r <==> self.occupiers@.contains(player),
    {
        let mut i: usize = 0;
        while i < self.occupiers.len()
            invariant
                i <= self.occupiers@.len(),
                forall|j: int| 0 <= j < i ==> self.occupiers@[j] != player,
            decreases self.occupiers@.len() - i,
        {
            if self.occupiers[i] == player {
                return true;
            }
            i = i + 1;
        }
        false
    }

    /// Lists the attacks that the acting player may make: for each held
    /// territory with a spare troop, each adjacent territory held by another.
    pub fn gen_player_moves_into(&self, move_list: &mut Vec<PlayerMove>)
        requires
            self@.wf(),
            self@.turn is Player,
        ensures
            forall|m: PlayerMove| final(move_list)@.contains(m) <==> self@.is_attack(m),
            final(move_list)@.no_duplicates(),
    {
        move_list.clear();
        let mut i: usize = 0;
        while i < 42
            invariant
                self@.wf(),
                i <= TERRITORY_COUNT,
                forall|m: PlayerMove| #[trigger] move_list@.contains(m) <==> self@.is_attack(m) && m.origin.idx() < i,
                move_list@.no_duplicates(),
            decreases 42 - i,
        {
            proof {
                lemma_idx_from_idx(i as int);
            }
            let origin = TerritoryId::n(i as u8).unwrap();
            if self.occupiers[i].is_p0() && self.troops[i] > 1 {
                let neighbours = edges(origin);
                proof {
                    lemma_adjacent_distinct(origin);
                }
                let mut j: usize = 0;
                while j < neighbours.len()
                    invariant
                        self@.wf(),
                        i < TERRITORY_COUNT,
                        origin.idx() == i,
                        self@.owns(origin),
                        self@.troops_at(origin) > 1,
                        neighbours@ == adjacent(origin),
                        neighbours@.no_duplicates(),
                        j <= neighbours@.len(),
                        forall|m: PlayerMove| #[trigger] move_list@.contains(m) <==> self@.is_attack(m) && (
                            m.origin.idx() < i || (m.origin == origin && neighbours@.take(j as int).contains(m.dest))),
                        move_list@.no_duplicates(),
                    decreases neighbours@.len() - j,
                {
                    let dest = neighbours[j];
                    let ghost before = move_list@;
                    proof {
                        assert(neighbours@.take(j + 1) =~= neighbours@.take(j as int).push(dest));
                        assert(!neighbours@.take(j as int).contains(dest));
                    }
                    if !self.occupiers[dest.index()].is_p0() {
                        let m = PlayerMove { origin, dest };
                        assert(!before.contains(m));
                        move_list.push(m);
                        assert forall|x: PlayerMove| #[trigger] move_list@.contains(x) <==> before.contains(x) || x == m by {
                            if move_list@.contains(x) {
                                let k = choose|k: int| 0 <= k < move_list@.len() && #[trigger] move_list@[k] == x;
                                if k < before.len() {
                                    assert(before[k] == x);
                                }
                            }
                            if before.contains(x) {
                                let k = choose|k: int| 0 <= k < before.len() && #[trigger] before[k] == x;
                                assert(move_list@[k] == x);
                            }
                            if x == m {
                                assert(move_list@[before.len() as int] == x);
                            }
                        }
                        assert forall|x: PlayerMove| #[trigger] move_list@.contains(x) <==> self@.is_attack(x) && (
                            x.origin.idx() < i || (x.origin == origin && neighbours@.take(j + 1).contains(x.dest))) by {
                            lemma_idx_injective(x.origin, origin);
                            if x.origin == origin && neighbours@.take(j + 1).contains(x.dest) && x.dest != dest {
                                let k = choose|k: int| 0 <= k < j + 1 && #[trigger] neighbours@.take(j + 1)[k] == x.dest;
                                assert(neighbours@.take(j as int)[k] == x.dest);
                            }
                            if x.origin == origin && neighbours@.take(j as int).contains(x.dest) {
                                let k = choose|k: int| 0 <= k < j && #[trigger] neighbours@.take(j as int)[k] == x.dest;
                                assert(neighbours@.take(j + 1)[k] == x.dest);
                            }
                            if x == m {
                                assert(neighbours@.take(j + 1)[j as int] == dest);
                                assert(neighbours@.contains(dest));
                            }
                        }
                    } else {
                        assert forall|x: PlayerMove| #[trigger] move_list@.contains(x) <==> self@.is_attack(x) && (
                            x.origin.idx() < i || (x.origin == origin && neighbours@.take(j + 1).contains(x.dest))) by {
                            lemma_idx_injective(x.origin, origin);
                            if x.origin == origin && neighbours@.take(j + 1).contains(x.dest) && x.dest != dest {
                                let k = choose|k: int| 0 <= k < j + 1 && #[trigger] neighbours@.take(j + 1)[k] == x.dest;
                                assert(neighbours@.take(j as int)[k] == x.dest);
                            }
                            if x.origin == origin && neighbours@.take(j as int).contains(x.dest) {
                                let k = choose|k: int| 0 <= k < j && #[trigger] neighbours@.take(j as int)[k] == x.dest;
                                assert(neighbours@.take(j + 1)[k] == x.dest);
                            }
                        }
                    }
                    j = j + 1;
                }
                assert(neighbours@.take(j as int) =~= neighbours@);
                assert forall|m: PlayerMove| #[trigger] move_list@.contains(m) <==> self@.is_attack(m) && m.origin.idx() < i + 1 by {
                    lemma_idx_injective(m.origin, origin);
                }
            } else {
                assert forall|m: PlayerMove| #[trigger] move_list@.contains(m) <==> self@.is_attack(m) && m.origin.idx() < i + 1 by {
                    lemma_idx_injective(m.origin, origin);
                }
            }
            i = i + 1;
        }
        assert forall|m: PlayerMove| #[trigger] move_list@.contains(m) <==> self@.is_attack(m) by {
            lemma_from_idx_idx(m.origin);
        }
    }

    /// Lists the dice outcomes of the pending attack, from no attacker lost
    /// up to all the troops lost being attackers.
    pub fn gen_chance_moves_into(&self, move_list: &mut Vec<(u8, u8)>)
        requires
            self@.wf(),
            self@.turn is Chance,
        ensures
            final(move_list)@ == self@.chance_outcomes(),
    {
        move_list.clear();
        let mov = match self.turn {
            Turn::Chance(m) => m,
            _ => PlayerMove { origin: TerritoryId::Alaska, dest: TerritoryId::Alaska },
        };
        let origin_troops = self.troops[mov.origin.index()];
        let dest_troops = self.troops[mov.dest.index()];
        let num_attackers = if origin_troops - 1 < 3 {
            origin_troops - 1
        } else {
            3
        };
        let num_defenders = if dest_troops < 2 {
            dest_troops
        } else {
            2
        };
        let battles = if num_attackers < num_defenders {
            num_attackers
        } else {
            num_defenders
        };
        let mut count: u32 = 0;
        while count <= battles
            invariant
                battles == self@.battles(),
                0 <= battles <= 2,
                count <= battles + 1,
                move_list@ =~= self@.chance_outcomes().take(count as int),
            decreases battles + 1 - count,
        {
            move_list.push((count as u8, (battles - count) as u8));
            count = count + 1;
        }
        assert(move_list@ =~= self@.chance_outcomes());
    }

    /// Brings the list of attacks up to date after the pending attack `last_move`
    /// was resolved: attacks from a territory left with one troop, and into a
    /// territory just conquered, are dropped, and attacks out of the conquered
    /// territory are added.
    pub fn gen_player_moves_incremental(&self, last_move: PlayerMove, move_list: &mut Vec<PlayerMove>)
        requires
            self@.wf(),
            self@.turn is Player,
        ensures
            forall|m: PlayerMove| #[trigger] final(move_list)@.contains(m)
                <==> self@.incremental_keeps(last_move, old(move_list)@, m),
            old(move_list)@.no_duplicates() && (forall|m: PlayerMove| #[trigger] old(move_list)@.contains(m)
                ==> m.origin != last_move.dest) ==> final(move_list)@.no_duplicates(),
    {
        let ghost start = move_list@;
        let one_troop_remaining = self.troops[last_move.origin.index()] == 1;
        let territory_captured = self.occupiers[last_move.dest.index()].is_p0();
        if territory_captured {
            if one_troop_remaining {
                retain_different_origin_dest(move_list, last_move.origin, last_move.dest);
            } else {
                retain_different_dest(move_list, last_move.dest);
            }
            proof {
                lemma_filter_contains_iff(start, |m: PlayerMove| m.dest != last_move.dest);
                lemma_filter_contains_iff(start, |m: PlayerMove| m.origin != last_move.origin && m.dest != last_move.dest);
            }
            let ghost kept = move_list@;
            if self.troops[last_move.dest.index()] > 1 {
                let neighbours = edges(last_move.dest);
                proof {
                    lemma_adjacent_distinct(last_move.dest);
                }
                let mut j: usize = 0;
                while j < neighbours.len()
                    invariant
                        self@.wf(),
                        neighbours@ == adjacent(last_move.dest),
                        neighbours@.no_duplicates(),
                        j <= neighbours@.len(),
                        forall|m: PlayerMove| #[trigger] move_list@.contains(m) <==> kept.contains(m) || (
                            m.origin == last_move.dest && neighbours@.take(j as int).contains(m.dest) && !self@.owns(m.dest)),
                        kept.no_duplicates() && (forall|m: PlayerMove| #[trigger] kept.contains(m) ==> m.origin != last_move.dest)
                            ==> move_list@.no_duplicates(),
                    decreases neighbours@.len() - j,
                {
                    let dest = neighbours[j];
                    let ghost before = move_list@;
                    proof {
                        lemma_take_succ_contains(neighbours@, j as int);
                    }
                    if !self.occupiers[dest.index()].is_p0() {
                        let m = PlayerMove { origin: last_move.dest, dest };
                        move_list.push(m);
                        proof {
                            lemma_push_contains(before, m);
                            if kept.no_duplicates() && (forall|m: PlayerMove| #[trigger] kept.contains(m) ==> m.origin != last_move.dest) {
                                assert(!before.contains(m));
                                lemma_push_no_duplicates(before, m);
                            }
                        }
                    }
                    j = j + 1;
                }
                assert(neighbours@.take(j as int) =~= neighbours@);
            }
        } else if one_troop_remaining {
            retain_different_origin(move_list, last_move.origin);
            proof {
                lemma_filter_contains_iff(start, |m: PlayerMove| m.origin != last_move.origin);
            }
        }
    }

    /// Number of territories that the acting player holds.
    pub fn territories_occupied(&self) -> (r: usize)
        requires
            self@.wf(),
        ensures
            r == count_held(self@.occupiers),
            r <= TERRITORY_COUNT,
    {
        let mut r: usize = 0;
        let mut i: usize = 0;
        while i < self.occupiers.len()
            invariant
                i <= self.occupiers@.len() == TERRITORY_COUNT,
                r == count_held(self.occupiers@.take(i as int)),
                r <= i,
            decreases self.occupiers@.len() - i,
        {
            assert(self.occupiers@.take(i + 1).drop_last() =~= self.occupiers@.take(i as int));
            if self.occupiers[i].is_p0() {
                r = r + 1;
            }
            i = i + 1;
        }
        assert(self.occupiers@.take(i as int) =~= self.occupiers@);
        r
    }

    /// Number of players that still hold a territory.
    pub fn players_remaining(&self) -> (r: usize)
        requires
            self@.wf(),
        ensures
            r == count_alive(self@.occupiers, 5),
            r <= 5,
    {
        let mut r: usize = 0;
        let mut p: u8 = 0;
        while p < 5
            invariant
                p <= 5,
                r == count_alive(self@.occupiers, p as int),
                r <= p,
            decreases 5 - p,
        {
            let player = PlayerId::n(p).unwrap();
            if self.holds_any(player) {
                r = r + 1;
            }
            p = p + 1;
        }
        r
    }

    /// Number of players at the snapshot: those remaining and those eliminated since.
    pub fn initial_players(&self) -> (r: usize)
        requires
            self@.wf(),
        ensures
            r == count_alive(self@.occupiers, 5) + self@.players_eliminated,
    {
        self.players_remaining() + self.players_eliminated as usize
    }

    /// Whether the state is well formed: every territory has an occupier and
    /// at least one troop, and a pending attack is one the acting player may make.
    pub fn is_valid(&self) -> (r: bool)
        ensures
            r == self@.wf(),
    {
        if self.troops.len() != 42 || self.occupiers.len() != 42 {
            return false;
        }
        let mut i: usize = 0;
        while i < 42
            invariant
                i <= 42,
                self.troops@.len() == TERRITORY_COUNT,
                forall|j: int| 0 <= j < i ==> self.troops@[j] >= 1,
            decreases 42 - i,
        {
            if self.troops[i] == 0 {
                return false;
            }
            i = i + 1;
        }
        match self.turn {
            Turn::Chance(m) => self.is_attack(m),
            _ => true,
        }
    }

    /// Whether `m` is an attack that the acting player may make.
    pub fn is_attack(&self, m: PlayerMove) -> (r: bool)
        requires
            self@.troops.len() == TERRITORY_COUNT,
            self@.occupiers.len() == TERRITORY_COUNT,
        ensures
            r == self@.is_attack(m),
    {
        let o = m.origin.index();
        let d = m.dest.index();
        if !self.occupiers[o].is_p0() || self.troops[o] <= 1 || self.occupiers[d].is_p0() {
            return false;
        }
        let neighbours = edges(m.origin);
        let mut k: usize = 0;
        while k < neighbours.len()
            invariant
                neighbours@ == adjacent(m.origin),
                k <= neighbours@.len(),
                forall|j: int| 0 <= j < k ==> neighbours@[j] != m.dest,
                self@.owns(m.origin),
                self@.troops_at(m.origin) > 1,
                !self@.owns(m.dest),
            decreases neighbours@.len() - k,
        {
            if neighbours[k] == m.dest {
                assert(adjacent(m.origin)[k as int] == m.dest);
                return true;
            }
            k = k + 1;
        }
        false
    }

    /// Whether `mov` can be made in this state without breaking a rule.
    pub fn can_make_move(&self, mov: Move) -> (r: bool)
        requires
            self@.wf(),
        ensures
            r == self.can_make(mov),
    {
        match mov {
            Move::Player(m) => self.turn.is_player() && self.is_attack(m),
            Move::Chance(a, d) => match self.turn {
                Turn::Chance(m) => {
                    let o = self.troops[m.origin.index()];
                    let t = self.troops[m.dest.index()];
                    o > a as u32 && t >= d as u32 && (t != d as u32 || o - a as u32 >= 2)
                },
                _ => false,
            },
            Move::PlaceTroops(t) => {
                let left = self.troops_to_place;
                let chunk = if left / 5 > 20 {
                    left / 5
                } else {
                    20
                };
                let chunk = if left < chunk {
                    left
                } else {
                    chunk
                };
                self.occupiers[t.index()].is_p0() && self.troops[t.index()] as u64 + chunk as u64 <= u32::MAX as u64
            },
        }
    }

    /// Whose turn it is.
    pub fn turn(&self) -> (r: Turn)
        ensures
            r == self@.turn,
    {
        self.turn
    }

    /// Troops on `territory`.
    pub fn troops(&self, territory: TerritoryId) -> (r: u32)
        requires
            self@.wf(),
        ensures
            r as int == self@.troops_at(territory),
    {
        self.troops[territory.index()]
    }

    /// Occupier of `territory`, relative to the acting player.
    pub fn occupier(&self, territory: TerritoryId) -> (r: PlayerId)
        requires
            self@.wf(),
        ensures
            r == self@.occupiers[territory.idx()],
    {
        self.occupiers[territory.index()]
    }

    /// Takes `count` troops off `territory`, which keeps at least one.
    pub fn remove_troops(&mut self, territory: TerritoryId, count: u32)
        requires
            old(self)@.wf(),
            !(old(self)@.turn is Chance),
            count < old(self)@.troops_at(territory),
        ensures
            final(self)@.wf(),
            final(self)@ == (GameView {
                troops: old(self)@.troops.update(territory.idx(), (old(self)@.troops_at(territory) - count) as u32),
                ..old(self)@
            }),
    {
        let i = territory.index();
        let before = self.troops[i];
        self.troops.set(i, before - count);
        assert(self@.troops =~= old(self)@.troops.update(territory.idx(), (before - count) as u32));
    }

    /// Whether a territory has been conquered since the snapshot was loaded.
    pub fn territory_conquered(&self) -> (r: bool)
        ensures
            r == self@.territory_conquered,
    {
        self.territory_conquered
    }

    /// Players eliminated since the snapshot was loaded.
    pub fn players_eliminated(&self) -> (r: u8)
        ensures
            r == self@.players_eliminated,
    {
        self.players_eliminated
    }

    /// Card sets redeemed in the game so far.
    pub fn card_sets_redeemed(&self) -> (r: u32)
        ensures
            r == self@.card_sets_redeemed,
    {
        self.card_sets_redeemed
    }

    /// Troops still to be placed.
    pub fn troops_to_place(&self) -> (r: u32)
        ensures
            r == self@.troops_to_place,
    {
        self.troops_to_place
    }
}

/// A list that holds every legal attack exactly once has as many entries as
/// there are pairs of a held territory with a spare troop and an adjacent
/// enemy territory.
pub proof fn lemma_attack_list_counts_pairs(v: GameView, list: Seq<PlayerMove>)
    requires
        v.wf(),
        forall|m: PlayerMove| list.contains(m) <==> v.is_attack(m),
        list.no_duplicates(),
    ensures
        list.len() == v.attack_moves().len(),
{
    list.unique_seq_to_set();
    assert(list.to_set() =~= v.attack_moves());
}

/// Updating the list of attacks incrementally after a dice outcome gives the
/// same attacks as generating them afresh in the new state, and keeps each
/// attack listed once.
pub proof fn lemma_incremental_matches_full(
    before: GameView,
    attackers_lost: int,
    defenders_lost: int,
    list_before: Seq<PlayerMove>,
    list_after: Seq<PlayerMove>,
)
    requires
        before.wf(),
        before.chance_fits(attackers_lost, defenders_lost),
        forall|m: PlayerMove| #[trigger] list_before.contains(m) <==> before.is_attack(m),
        forall|m: PlayerMove| #[trigger] list_after.contains(m) <==> before.after_chance(
            attackers_lost,
            defenders_lost,
        ).incremental_keeps(before.turn->Chance_0, list_before, m),
    ensures
        forall|m: PlayerMove| #[trigger] list_after.contains(m) <==> before.after_chance(
            attackers_lost,
            defenders_lost,
        ).is_attack(m),
        forall|m: PlayerMove| #[trigger] list_before.contains(m) ==> m.origin != before.turn->Chance_0.dest,
{
    let last = before.turn->Chance_0;
    let after = before.after_chance(attackers_lost, defenders_lost);
    lemma_from_idx_idx(last.origin);
    lemma_from_idx_idx(last.dest);
    lemma_idx_injective(last.origin, last.dest);
    assert forall|m: PlayerMove| #[trigger] list_after.contains(m) <==> after.is_attack(m) by {
        lemma_idx_injective(m.origin, last.origin);
        lemma_idx_injective(m.origin, last.dest);
        lemma_idx_injective(m.dest, last.origin);
        lemma_idx_injective(m.dest, last.dest);
        lemma_from_idx_idx(m.origin);
        lemma_from_idx_idx(m.dest);
        if list_before.contains(m) {
            assert(before.is_attack(m));
        }
    }
    assert forall|m: PlayerMove| #[trigger] list_before.contains(m) implies m.origin != last.dest by {
        assert(before.is_attack(m));
    }
}

/// A dice outcome leaves every territory with at least one troop. When the
/// defender loses its last troop, the territory changes hands, the attacking
/// territory keeps exactly one troop and the other surviving attackers move
/// in; otherwise both sides simply lose their troops.
pub proof fn lemma_chance_move_effects(v: GameView, attackers_lost: int, defenders_lost: int)
    requires
        v.wf(),
        v.chance_fits(attackers_lost, defenders_lost),
    ensures
        ({
            let m = v.turn->Chance_0;
            let w = v.after_chance(attackers_lost, defenders_lost);
            &&& w.wf()
            &&& forall|i: int| 0 <= i < TERRITORY_COUNT ==> w.troops[i] >= 1
            &&& w.turn == Turn::Player
            &&& (v.troops_at(m.dest) == defenders_lost ==> {
                &&& w.owns(m.dest)
                &&& w.troops_at(m.origin) == 1
                &&& w.troops_at(m.dest) == v.troops_at(m.origin) - attackers_lost - 1
                &&& w.territory_conquered
            })
            &&& (v.troops_at(m.dest) != defenders_lost ==> {
                &&& w.occupiers == v.occupiers
                &&& w.troops_at(m.origin) == v.troops_at(m.origin) - attackers_lost
                &&& w.troops_at(m.dest) == v.troops_at(m.dest) - defenders_lost
            })
        }),
{
    let m = v.turn->Chance_0;
    lemma_from_idx_idx(m.origin);
    lemma_from_idx_idx(m.dest);
    lemma_adjacent_distinct(m.origin);
    lemma_idx_injective(m.origin, m.dest);
}

/// `after` follows `before` by fighting along `last`: only the troops of its
/// two territories changed, the defending territory may have been conquered,
/// and a conquest left one troop behind.
pub open spec fn fought(before: GameView, after: GameView, last: PlayerMove) -> bool {
    &&& after.troops.len() == before.troops.len()
    &&& forall|i: int| 0 <= i < before.troops.len() && i != last.origin.idx() && i != last.dest.idx()
        ==> #[trigger] after.troops[i] == before.troops[i]
    &&& (after.occupiers == before.occupiers || after.occupiers == before.occupiers.update(last.dest.idx(), PlayerId::P0))
    &&& (after.owns(last.dest) ==> after.troops_at(last.origin) == 1)
}

/// Fighting along the same attack twice is fighting along it once.
pub proof fn lemma_fought_trans(a: GameView, b: GameView, c: GameView, last: PlayerMove)
    requires
        a.wf(),
        a.is_attack(last),
        fought(a, b, last),
        fought(b, c, last),
    ensures
        fought(a, c, last),
{
    lemma_from_idx_idx(last.dest);
    if c.occupiers != a.occupiers && b.occupiers != a.occupiers {
        assert(c.occupiers =~= a.occupiers.update(last.dest.idx(), PlayerId::P0));
    }
}

/// A dice outcome is a fight along the pending attack.
pub proof fn lemma_chance_fought(v: GameView, a: int, d: int)
    requires
        v.wf(),
        v.chance_fits(a, d),
    ensures
        fought(v, v.after_chance(a, d), v.turn->Chance_0),
{
    let m = v.turn->Chance_0;
    lemma_from_idx_idx(m.origin);
    lemma_from_idx_idx(m.dest);
    lemma_adjacent_distinct(m.origin);
    lemma_idx_injective(m.origin, m.dest);
}

/// Updating the list of attacks incrementally after any fight along `last`
/// gives the attacks of the new state.
pub proof fn lemma_incremental_after_fight(
    before: GameView,
    after: GameView,
    last: PlayerMove,
    list_before: Seq<PlayerMove>,
    list_after: Seq<PlayerMove>,
)
    requires
        before.wf(),
        after.wf(),
        before.is_attack(last),
        fought(before, after, last),
        forall|m: PlayerMove| #[trigger] list_before.contains(m) <==> before.is_attack(m),
        forall|m: PlayerMove| #[trigger] list_after.contains(m) <==> after.incremental_keeps(last, list_before, m),
    ensures
        forall|m: PlayerMove| #[trigger] list_after.contains(m) <==> after.is_attack(m),
        forall|m: PlayerMove| #[trigger] list_before.contains(m) ==> m.origin != last.dest,
{
    lemma_from_idx_idx(last.origin);
    lemma_from_idx_idx(last.dest);
    lemma_adjacent_distinct(last.origin);
    lemma_idx_injective(last.origin, last.dest);
    assert forall|m: PlayerMove| #[trigger] list_after.contains(m) <==> after.is_attack(m) by {
        lemma_idx_injective(m.origin, last.origin);
        lemma_idx_injective(m.origin, last.dest);
        lemma_idx_injective(m.dest, last.origin);
        lemma_idx_injective(m.dest, last.dest);
        lemma_from_idx_idx(m.origin);
        lemma_from_idx_idx(m.dest);
        if list_before.contains(m) {
            assert(before.is_attack(m));
        }
        if before.is_attack(m) {
            assert(list_before.contains(m));
        }
    }
    assert forall|m: PlayerMove| #[trigger] list_before.contains(m) implies m.origin != last.dest by {
        assert(before.is_attack(m));
    }
}

/// Number of territories held by the acting player in `occupiers`.
pub open spec fn count_held(occupiers: Seq<PlayerId>) -> nat
    decreases occupiers.len(),
{
    if occupiers.len() == 0 {
        0
    } else {
        count_held(occupiers.drop_last()) + if occupiers.last() == PlayerId::P0 {
            1nat
        } else {
            0nat
        }
    }
}

/// Number of the first `k` seats that occupy a territory in `occupiers`.
pub open spec fn count_alive(occupiers: Seq<PlayerId>, k: int) -> nat
    decreases k,
{
    if k <= 0 {
        0
    } else {
        count_alive(occupiers, k - 1) + if occupiers.contains(PlayerId::from_idx(k - 1)) {
            1nat
        } else {
            0nat
        }
    }
}

/// Whether a move survives a filter that drops moves out of `origin` and into `dest`.
pub open spec fn keeps(m: PlayerMove, origin: Option<TerritoryId>, dest: Option<TerritoryId>) -> bool {
    (origin is None || m.origin != origin->0) && (dest is None || m.dest != dest->0)
}

/// The filter that drops moves out of `origin` and into `dest`.
pub open spec fn keep_pred(origin: Option<TerritoryId>, dest: Option<TerritoryId>) -> spec_fn(PlayerMove) -> bool {
    |m: PlayerMove| keeps(m, origin, dest)
}

/// Keeps, in order, the moves that neither leave `origin` nor enter `dest`.
fn retain_keeping(moves: &mut Vec<PlayerMove>, origin: Option<TerritoryId>, dest: Option<TerritoryId>)
    ensures
        final(moves)@ == old(moves)@.filter(keep_pred(origin, dest)),
        old(moves)@.no_duplicates() ==> final(moves)@.no_duplicates(),
{
    let ghost pred = keep_pred(origin, dest);
    let mut kept: Vec<PlayerMove> = Vec::new();
    let mut i: usize = 0;
    while i < moves.len()
        invariant
            i <= moves@.len(),
            pred == keep_pred(origin, dest),
            kept@ == moves@.take(i as int).filter(pred),
            forall|x: PlayerMove| #[trigger] kept@.contains(x) ==> moves@.take(i as int).contains(x),
            moves@.no_duplicates() ==> kept@.no_duplicates(),
        decreases moves@.len() - i,
    {
        let m = moves[i];
        let ghost before = kept@;
        proof {
            assert(moves@.take(i + 1) =~= moves@.take(i as int).push(m));
            moves@.take(i as int).lemma_filter_push(m, pred);
            lemma_take_succ_contains(moves@, i as int);
        }
        let keep_origin = match origin {
            Some(o) => m.origin != o,
            None => true,
        };
        let keep_dest = match dest {
            Some(d) => m.dest != d,
            None => true,
        };
        let keep = keep_origin && keep_dest;
        assert(keep == keeps(m, origin, dest));
        assert(pred(m) == keeps(m, origin, dest));
        assert(moves@.take(i + 1).filter(pred) == if keep {
            before.push(m)
        } else {
            before
        });
        if keep {
            kept.push(m);
            proof {
                lemma_push_contains(before, m);
                if moves@.no_duplicates() {
                    if before.contains(m) {
                        let k = choose|k: int| 0 <= k < i && #[trigger] moves@.take(i as int)[k] == m;
                        assert(moves@[k] == moves@[i as int]);
                    }
                    lemma_push_no_duplicates(before, m);
                }
            }
        }
        i = i + 1;
    }
    assert(moves@.take(i as int) =~= moves@);
    *moves = kept;
}

/// Keeps, in order, the moves that do not leave `origin`.
pub fn retain_different_origin(moves: &mut Vec<PlayerMove>, origin: TerritoryId)
    ensures
        final(moves)@ == old(moves)@.filter(|m: PlayerMove| m.origin != origin),
        old(moves)@.no_duplicates() ==> final(moves)@.no_duplicates(),
{
    retain_keeping(moves, Some(origin), None);
    assert(keep_pred(Some(origin), None) =~= (|m: PlayerMove| m.origin != origin));
}

/// Keeps, in order, the moves that do not enter `dest`.
pub fn retain_different_dest(moves: &mut Vec<PlayerMove>, dest: TerritoryId)
    ensures
        final(moves)@ == old(moves)@.filter(|m: PlayerMove| m.dest != dest),
        old(moves)@.no_duplicates() ==> final(moves)@.no_duplicates(),
{
    retain_keeping(moves, None, Some(dest));
    assert(keep_pred(None, Some(dest)) =~= (|m: PlayerMove| m.dest != dest));
}

/// Keeps, in order, the moves that neither leave `origin` nor enter `dest`.
pub fn retain_different_origin_dest(moves: &mut Vec<PlayerMove>, origin: TerritoryId, dest: TerritoryId)
    ensures
        final(moves)@ == old(moves)@.filter(|m: PlayerMove| m.origin != origin && m.dest != dest),
        old(moves)@.no_duplicates() ==> final(moves)@.no_duplicates(),
{
    retain_keeping(moves, Some(origin), Some(dest));
    assert(keep_pred(Some(origin), Some(dest)) =~= (|m: PlayerMove| m.origin != origin && m.dest != dest));
}

proof fn lemma_push_contains<A>(s: Seq<A>, e: A)
    ensures
        forall|x: A| #[trigger] s.push(e).contains(x) <==> s.contains(x) || x == e,
{
    assert forall|x: A| #[trigger] s.push(e).contains(x) <==> s.contains(x) || x == e by {
        if s.push(e).contains(x) {
            let k = choose|k: int| 0 <= k < s.len() + 1 && #[trigger] s.push(e)[k] == x;
            if k < s.len() {
                assert(s[k] == x);
            }
        }
        if s.contains(x) {
            let k = choose|k: int| 0 <= k < s.len() && #[trigger] s[k] == x;
            assert(s.push(e)[k] == x);
        }
        if x == e {
            assert(s.push(e)[s.len() as int] == x);
        }
    }
}

proof fn lemma_take_succ_contains<A>(s: Seq<A>, j: int)
    requires
        0 <= j < s.len(),
    ensures
        forall|x: A| #[trigger] s.take(j + 1).contains(x) <==> s.take(j).contains(x) || x == s[j],
{
    assert(s.take(j + 1) =~= s.take(j).push(s[j]));
    lemma_push_contains(s.take(j), s[j]);
}

proof fn lemma_push_no_duplicates<A>(s: Seq<A>, e: A)
    requires
        s.no_duplicates(),
        !s.contains(e),
    ensures
        s.push(e).no_duplicates(),
{
    assert forall|i: int, j: int| 0 <= i < s.len() + 1 && 0 <= j < s.len() + 1 && i != j implies s.push(e)[i] != s.push(e)[j] by {
        if i == s.len() {
            assert(s[j] == s.push(e)[j]);
        }
        if j == s.len() {
            assert(s[i] == s.push(e)[i]);
        }
    }
}

proof fn lemma_filter_contains_iff<A>(s: Seq<A>, p: spec_fn(A) -> bool)
    ensures
        forall|x: A| #[trigger] s.filter(p).contains(x) <==> s.contains(x) && p(x),
{
    assert forall|x: A| #[trigger] s.filter(p).contains(x) <==> s.contains(x) && p(x) by {
        if s.filter(p).contains(x) {
            s.lemma_filter_contains_rev(p, x);
            let k = choose|k: int| 0 <= k < s.filter(p).len() && #[trigger] s.filter(p)[k] == x;
            s.lemma_filter_pred(p, k);
        }
        if s.contains(x) && p(x) {
            let k = choose|k: int| 0 <= k < s.len() && #[trigger] s[k] == x;
            s.lemma_filter_contains(p, k);
        }
    }
}

} // verus!
