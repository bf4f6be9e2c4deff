use vstd::prelude::*;

use crate::game::{count_alive, count_held, AttackGame, Move, PlayerMove};
use crate::map::{TerritoryId, TERRITORY_COUNT};
use crate::player::PlayerId;
use crate::search::{most_visited, rerooted, MCTS, Strategy};
use crate::tree::{SearchError, Tree};

verus! {

/// A strategy that plays the combat model from a root position.
pub trait StrategyExt: Strategy + Sized {
    /// A strategy with the same parameters for another root position.
    fn create_from(&self, root_game: AttackGame) -> Self;

    /// The root position.
    fn root_game(&self) -> &AttackGame;

    /// Static evaluation of a position, on the scale of outcomes.
    fn evaluate(&self, game: &AttackGame) -> u32;

    /// Rounds of dice resolved in simulations since the counter was reset.
    fn simulation_rounds(&self) -> u64;

    /// Resets the counter of resolved rounds.
    fn reset_simulation_rounds(&self);
}

/// Why the controller could not decide.
#[derive(Clone, Copy, PartialEq, Eq, Structural, Debug)]
pub enum ControlError {
    /// The search engine failed.
    Search(SearchError),
    /// The strategy's root position is not well formed.
    InvalidRootGame,
    /// The search ended without an expanded root edge.
    NoMoveSearched,
    /// The search chose a move that does not fit the root position.
    UnexpectedMove,
}

/// Simulations to run for a decision: at most 400, and fewer when few
/// players remain, when the acting player holds few territories, or when few
/// territories are left to conquer.
pub open spec fn node_budget(players_remaining: int, territories_occupied: int) -> int {
    let a = if 400 < 100 * players_remaining {
        400
    } else {
        100 * players_remaining
    };
    let b = if a < 50 * territories_occupied {
        a
    } else {
        50 * territories_occupied
    };
    let c = 25 * (TERRITORY_COUNT - territories_occupied);
    if b < c {
        b
    } else {
        c
    }
}

/// Simulations to run for a decision in `game`.
pub fn calculate_nodes(game: &AttackGame) -> (r: u32)
    requires
        game@.wf(),
    ensures
        r == node_budget(count_alive(game@.occupiers, 5) as int, count_held(game@.occupiers) as int),
{
    let players = game.players_remaining() as u32;
    let occupied = game.territories_occupied() as u32;
    let a = if 400 < 100 * players {
        400
    } else {
        100 * players
    };
    let b = if a < 50 * occupied {
        a
    } else {
        50 * occupied
    };
    let c = 25 * (42 - occupied);
    if b < c {
        b
    } else {
        c
    }
}

/// Whether the score of every expanded edge of the root is below `eval` per visit.
pub open spec fn all_below<D>(t: Tree<D>, eval: int) -> bool {
    forall|k: int| 0 <= k < t.nodes()[t.root()].edge_count && (#[trigger] t.edge_of(t.root(), k)).child is Some
        ==> t.nodes()[t.edge_of(t.root(), k).child->0 as int].score < eval * t.nodes()[t.edge_of(
        t.root(),
        k,
    ).child->0 as int].visits
}

/// No edge of the root has been expanded.
pub open spec fn no_root_edge_expanded<D>(t: Tree<D>) -> bool {
    forall|k: int| 0 <= k < t.nodes()[t.root()].edge_count ==> (#[trigger] t.edge_of(t.root(), k)).child is None
}

/// What the controller decides once the search picked `mov` and the root
/// position evaluates to `eval`.
pub open spec fn decision<D>(t: Tree<D>, mov: Move, eval: int) -> Option<(PlayerMove, bool)> {
    if all_below(t, eval) || !(mov is Player) {
        None
    } else {
        Some((mov->Player_0, t.nodes()[t.root()].edge_count == 1))
    }
}

/// A search controller: keeps the tree across decisions, budgets the
/// simulations for each one and decides when to stop early.
pub struct State<S: StrategyExt> {
    mcts: MCTS<S>,
}

impl<S: StrategyExt> State<S> {
    /// The search tree.
    pub closed spec fn spec_tree(&self) -> Tree<S::Data> {
        self.mcts.spec_tree()
    }

    pub closed spec fn wf(&self) -> bool {
        self.mcts.wf()
    }

    /// The tree is a lone root, neither visited nor scored.
    pub open spec fn fresh(&self) -> bool {
        &&& self.spec_tree().nodes().len() == 1
        &&& self.spec_tree().root() == 0
        &&& self.spec_tree().nodes()[0].visits == 0
        &&& self.spec_tree().nodes()[0].score == 0
    }

    /// A controller searching with `strategy`.
    pub fn new(strategy: S) -> (r: State<S>)
        ensures
            r.wf(),
            r.fresh(),
    {
        State { mcts: MCTS::new(strategy) }
    }

    /// Starts over from the empty position.
    pub fn reset_new(&mut self)
        requires
            old(self).wf(),
        ensures
            final(self).wf(),
            final(self).fresh(),
    {
        let game = AttackGame::new();
        let strategy = self.mcts.strategy().create_from(game);
        self.mcts = MCTS::new(strategy);
    }

    /// Starts over from a snapshot of the board: troops and occupiers by
    /// territory number, relative to the acting player.
    pub fn reset(&mut self, troops: Vec<u32>, occupiers: Vec<PlayerId>, card_sets_redeemed: u32)
        requires
            old(self).wf(),
            troops@.len() == TERRITORY_COUNT,
            occupiers@.len() == TERRITORY_COUNT,
            forall|i: int| 0 <= i < TERRITORY_COUNT ==> troops@[i] >= 1,
        ensures
            final(self).wf(),
            final(self).fresh(),
    {
        let mut game = AttackGame::new();
        game.set_state(troops, occupiers, card_sets_redeemed);
        let strategy = self.mcts.strategy().create_from(game);
        self.mcts = MCTS::new(strategy);
    }

    /// Starts the placement of `troop_count` troops on a snapshot of the board.
    pub fn begin_placement(&mut self, troop_count: u32, troops: Vec<u32>, occupiers: Vec<PlayerId>, card_sets_redeemed: u32)
        requires
            old(self).wf(),
            troops@.len() == TERRITORY_COUNT,
            occupiers@.len() == TERRITORY_COUNT,
            forall|i: int| 0 <= i < TERRITORY_COUNT ==> troops@[i] >= 1,
        ensures
            final(self).wf(),
            final(self).fresh(),
    {
        let mut game = AttackGame::new();
        game.set_state(troops, occupiers, card_sets_redeemed);
        game.set_troops_to_place(troop_count);
        let strategy = self.mcts.strategy().create_from(game);
        self.mcts = MCTS::new(strategy);
    }

    /// Whether troops remain to be placed in the root position.
    pub fn is_placing(&self) -> bool {
        self.mcts.strategy().root_game().turn().is_place_troops()
    }

    /// Searches `nodes` simulations for the next placement, commits it and
    /// returns where troops went and how many.
    pub fn place_step(&mut self, nodes: u32) -> (r: Result<(TerritoryId, u32), ControlError>)
        requires
            old(self).wf(),
        ensures
            final(self).wf(),
            r matches Ok((t, _)) ==> exists|searched: Tree<S::Data>| most_visited(searched, Move::PlaceTroops(t)) && rerooted(
                searched,
                final(self).spec_tree(),
                Move::PlaceTroops(t),
            ),
    {
        let mov = match self.calculate_move(nodes) {
            Ok(m) => m,
            Err(e) => {
                return Err(e);
            },
        };
        let territory = match mov {
            Move::PlaceTroops(t) => t,
            _ => {
                return Err(ControlError::UnexpectedMove);
            },
        };
        let before = self.mcts.strategy().root_game().troops_to_place();
        self.mcts.move_root(mov);
        let after = self.mcts.strategy().root_game().troops_to_place();
        if after > before {
            return Err(ControlError::UnexpectedMove);
        }
        Ok((territory, before - after))
    }

    /// Visits of the two most visited expanded edges of the root; none when
    /// the root has at most one edge.
    pub fn top_two_visits(&self) -> (r: Option<(u32, u32)>)
        requires
            self.wf(),
        ensures
            ({
                let t = self.spec_tree();
                let root = t.root();
                let pair = r->0;
                &&& r is None <==> t.nodes()[root].edge_count <= 1
                &&& r is Some ==> pair.0 >= pair.1
                &&& r is Some ==> forall|k: int| 0 <= k < t.nodes()[root].edge_count && (#[trigger] t.edge_of(root, k)).child is Some
                    ==> t.nodes()[t.edge_of(root, k).child->0 as int].visits <= pair.0
            }),
    {
        let tree = self.mcts.tree();
        let root = tree.root_index();
        let node = tree.node(root);
        if node.edge_count <= 1 {
            return None;
        }
        let mut most_visits: u32 = 0;
        let mut second_most_visits: u32 = 0;
        let mut k: usize = 0;
        while k < node.edge_count
            invariant
                tree.wf(),
                *tree == self.spec_tree(),
                root == tree.root(),
                node == tree.nodes()[root as int],
                k <= node.edge_count,
                most_visits >= second_most_visits,
                forall|j: int| 0 <= j < k && (#[trigger] tree.edge_of(root as int, j)).child is Some
                    ==> tree.nodes()[tree.edge_of(root as int, j).child->0 as int].visits <= most_visits,
            decreases node.edge_count - k,
        {
            let edge = tree.edge(root, k);
            proof {
                assert(tree.node_ok(root as int));
                assert(tree.edge_ok(root as int, k as int));
            }
            match edge.child {
                Some(child) => {
                    let visits = tree.node(child).visits;
                    if visits > second_most_visits {
                        second_most_visits = visits;
                        if second_most_visits > most_visits {
                            let t = most_visits;
                            most_visits = second_most_visits;
                            second_most_visits = t;
                        }
                    }
                },
                None => {},
            }
            k = k + 1;
        }
        Some((most_visits, second_most_visits))
    }

    /// Runs up to `nodes` simulations and returns the root's most visited
    /// move. The search stops early once the leader cannot be overtaken in the
    /// simulations left, or once more than 20 simulations have resolved
    /// 10,000 rounds of dice.
    pub fn calculate_move(&mut self, nodes: u32) -> (r: Result<Move, ControlError>)
        requires
            old(self).wf(),
        ensures
            final(self).wf(),
            r is Ok ==> most_visited(final(self).spec_tree(), r->Ok_0),
            r == Err::<Move, ControlError>(ControlError::NoMoveSearched) ==> forall|k: int| 0 <= k < final(self).spec_tree().nodes()[final(self).spec_tree().root()].edge_count ==> (#[trigger] final(self).spec_tree().edge_of(
                final(self).spec_tree().root(),
                k,
            )).child is None,
            !(r matches Err(ControlError::Search(_))) ==> (r == Err::<Move, ControlError>(ControlError::NoMoveSearched)
                <==> no_root_edge_expanded(final(self).spec_tree())),
            r is Ok || r == Err::<Move, ControlError>(ControlError::NoMoveSearched) || r matches Err(ControlError::Search(_)),
            nodes == 0 ==> final(self).spec_tree() == old(self).spec_tree() && (r is Ok <==> !no_root_edge_expanded(
                old(self).spec_tree(),
            )),
    {
        self.mcts.strategy().reset_simulation_rounds();
        let mut next_check: u64 = 0;
        let mut i: u32 = 0;
        while i < nodes
            invariant
                self.wf(),
                i <= nodes,
                next_check <= i as u64 + nodes as u64 + 1,
                i == 0 ==> self.spec_tree() == old(self).spec_tree(),
            decreases nodes - i,
        {
            if i as u64 >= next_check {
                match self.top_two_visits() {
                    Some((most_visits, second_most_visits)) => {
                        let lead = most_visits - second_most_visits;
                        if lead > nodes - i {
                            break ;
                        }
                        next_check = next_check + lead as u64 + 1;
                    },
                    None => {},
                }
            }
            if i > 20 && self.mcts.strategy().simulation_rounds() >= 10000 {
                break ;
            }
            match self.mcts.add_node() {
                Ok(()) => {},
                Err(e) => {
                    return Err(ControlError::Search(e));
                },
            }
            i = i + 1;
        }
        match self.mcts.most_visits() {
            Some((mov, _)) => Ok(mov),
            None => Err(ControlError::NoMoveSearched),
        }
    }

    /// The decision once the search picked `mov` and the root position
    /// evaluates to `eval`: none when every searched edge scores below the
    /// evaluation or the move is no attack; otherwise the attack, with whether
    /// it is the only edge of the root.
    pub fn decide(&self, mov: Move, eval: u32) -> (r: Option<(PlayerMove, bool)>)
        requires
            self.wf(),
        ensures
            r == decision(self.spec_tree(), mov, eval as int),
    {
        if self.all_below(eval as u64) {
            return None;
        }
        match mov {
            Move::Player(m) => {
                let repeat = self.mcts.tree().node(self.mcts.tree().root_index()).edge_count == 1;
                Some((m, repeat))
            },
            _ => None,
        }
    }

    /// Decides the next attack: none when the root position has no attack,
    /// or when every searched attack scores below the static evaluation of
    /// the root position. An attack comes with whether it is the only one, so
    /// that it can be repeated without another search.
    pub fn get_move(&mut self) -> (r: Result<Option<(PlayerMove, bool)>, ControlError>)
        requires
            old(self).wf(),
        ensures
            final(self).wf(),
            old(self).spec_tree().nodes()[old(self).spec_tree().root()].edge_count == 0 ==> r == Ok::<
                Option<(PlayerMove, bool)>,
                ControlError,
            >(None) && final(self).spec_tree() == old(self).spec_tree(),
            r matches Ok(Some((m, repeat))) ==> most_visited(final(self).spec_tree(), Move::Player(m)) && repeat == (final(self).spec_tree().nodes()[final(self).spec_tree().root()].edge_count == 1),
            old(self).spec_tree().nodes()[old(self).spec_tree().root()].edge_count > 0 && r is Ok ==> exists|mov: Move, eval: u32|
                most_visited(final(self).spec_tree(), mov) && r->Ok_0 == decision(final(self).spec_tree(), mov, eval as int),
    {
        let root = self.mcts.tree().root_index();
        let edge_count = self.mcts.tree().node(root).edge_count;
        if edge_count == 0 {
            return Ok(None);
        }
        let game = self.mcts.strategy().root_game();
        if !game.is_valid() {
            return Err(ControlError::InvalidRootGame);
        }
        let nodes = calculate_nodes(game);
        let mov = match self.calculate_move(nodes) {
            Ok(m) => m,
            Err(e) => {
                return Err(e);
            },
        };
        let eval = self.mcts.strategy().evaluate(self.mcts.strategy().root_game());
        let decided = self.decide(mov, eval);
        match decided {
            Some((m, _)) => {
                let game = self.mcts.strategy().root_game();
                if !game.is_valid() {
                    return Err(ControlError::InvalidRootGame);
                }
                if !game.is_attack(m) {
                    return Err(ControlError::UnexpectedMove);
                }
            },
            None => {},
        }
        Ok(decided)
    }

    /// Whether every expanded edge of the root scores below `eval` per visit.
    fn all_below(&self, eval: u64) -> (r: bool)
        requires
            self.wf(),
            eval <= u32::MAX,
        ensures
            r == all_below(self.spec_tree(), eval as int),
    {
        let tree = self.mcts.tree();
        let root = tree.root_index();
        let node = tree.node(root);
        let mut k: usize = 0;
        while k < node.edge_count
            invariant
                tree.wf(),
                *tree == self.spec_tree(),
                root == tree.root(),
                node == tree.nodes()[root as int],
                eval <= u32::MAX,
                k <= node.edge_count,
                forall|j: int| 0 <= j < k && (#[trigger] tree.edge_of(root as int, j)).child is Some
                    ==> tree.nodes()[tree.edge_of(root as int, j).child->0 as int].score < eval * tree.nodes()[tree.edge_of(
                    root as int,
                    j,
                ).child->0 as int].visits,
            decreases node.edge_count - k,
        {
            let edge = tree.edge(root, k);
            proof {
                assert(tree.node_ok(root as int));
                assert(tree.edge_ok(root as int, k as int));
            }
            match edge.child {
                Some(child) => {
                    let n = tree.node(child);
                    assert(eval * n.visits <= 0xFFFF_FFFF * 0xFFFF_FFFF) by (nonlinear_arith)
                        requires
                            eval <= u32::MAX,
                            n.visits <= u32::MAX,
                    ;
                    if !(n.score < eval * n.visits as u64) {
                        return false;
                    }
                },
                None => {},
            }
            k = k + 1;
        }
        true
    }

    /// Commits an attack of the acting player and the dice outcome that followed.
    pub fn make_moves(&mut self, player: PlayerMove, chance: (u8, u8))
        requires
            old(self).wf(),
        ensures
            final(self).wf(),
            exists|mid: Tree<S::Data>| rerooted(old(self).spec_tree(), mid, Move::Player(player)) && rerooted(
                mid,
                final(self).spec_tree(),
                Move::Chance(chance.0, chance.1),
            ),
    {
        self.mcts.move_root(Move::Player(player));
        let ghost mid = self.mcts.spec_tree();
        self.mcts.move_root(Move::Chance(chance.0, chance.1));
        assert(rerooted(old(self).spec_tree(), mid, Move::Player(player)));
        assert(rerooted(mid, self.spec_tree(), Move::Chance(chance.0, chance.1)));
    }

    /// The search engine.
    pub fn mcts(&self) -> &MCTS<S> {
        &self.mcts
    }
}

} // verus!
